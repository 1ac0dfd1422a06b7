//! Properties of the sparse map that span several operations, stated over
//! the model that the operations' contracts speak of.
use vstd::prelude::*;

use crate::model::{
    SparseMapModel, occupied_count, occupied_indices, live_values, lemma_occupied_count,
    lemma_occupied_count_update, lemma_occupied_indices, lemma_prefix_step,
    lemma_prefix_count_monotone,
};

verus! {

/// An insertion keeps the map well formed, makes the new key refer to the
/// inserted value, leaves every other key as it was, and adds one value.
pub proof fn law_insert_then_lookup<T>(m: SparseMapModel<T>, value: T)
    requires
        m.wf(),
        m.free.len() > 0 || m.slot_count() < usize::MAX,
    ensures
        m.insert(value).wf(),
        m.insert(value).lookup(m.next_key()) == Some(value),
        forall|k: (usize, u32)| k != m.next_key() ==> m.insert(value).lookup(k) == m.lookup(k),
        m.insert(value).len() == m.len() + 1,
{
    let r = m.reserve();
    let k = m.next_key();
    let n = m.insert(value);
    if m.free.len() == 0 {
        assert(r.entries.drop_last() =~= m.entries);
        assert forall|j: int| 0 <= j < r.free.len() implies (#[trigger] r.free[j]) < r.entries.len()
            && r.entries[r.free[j] as int] is None by {
            assert(m.entries[m.free[j] as int] is None);
        }
        assert(!r.free.contains(k.0));
    } else {
        let i = m.free.last();
        assert(m.free[m.free.len() - 1] == i);
        assert forall|j: int| 0 <= j < r.free.len() implies r.free[j] != i by {
            assert(r.free[j] == m.free[j]);
        }
        assert forall|j: int| 0 <= j < r.free.len() implies (#[trigger] r.free[j]) < r.entries.len()
            && r.entries[r.free[j] as int] is None by {
            assert(r.free[j] == m.free[j]);
        }
        assert(r.free.no_duplicates());
    }
    assert(r.wf());
    lemma_occupied_count_update(r.entries, k.0 as int, Some(value));
    assert(occupied_count(r.entries) == occupied_count(m.entries));
    assert forall|j: int| 0 <= j < n.free.len() implies n.entries[#[trigger] n.free[j] as int]
        is None by {
        assert(n.free[j] != k.0);
    }
    assert forall|key: (usize, u32)| key != k implies n.lookup(key) == m.lookup(key) by {
        if key.0 == k.0 && key.0 < m.slot_count() {
            if m.free.len() > 0 {
                assert(m.free.contains(k.0));
                assert(m.entries[k.0 as int] is None);
            }
        }
    }
}

/// Removing a live key hands back its value, leaves the key referring to
/// nothing, leaves every other key as it was, and drops one value.
pub proof fn law_remove_then_lookup<T>(m: SparseMapModel<T>, key: (usize, u32))
    requires
        m.wf(),
        m.lookup(key) is Some,
    ensures
        m.remove(key).wf(),
        m.remove(key).lookup(key) is None,
        forall|k: (usize, u32)| k != key ==> m.remove(key).lookup(k) == m.lookup(k),
        m.remove(key).len() + 1 == m.len(),
{
    let n = m.remove(key);
    lemma_occupied_count_update(m.entries, key.0 as int, None);
    assert(!m.free.contains(key.0));
    assert forall|j: int| 0 <= j < n.free.len() implies (#[trigger] n.free[j]) < n.entries.len()
        && n.entries[n.free[j] as int] is None by {
        if j < m.free.len() {
            assert(n.free[j] == m.free[j]);
        }
    }
    assert forall|k: (usize, u32)| k != key implies n.lookup(k) == m.lookup(k) by {}
}

/// Right after a removal, the freed slot is the one the next insertion
/// reuses, at another generation: neither the removal nor that insertion
/// lets the removed key reach a value or be restored. (`crate::history`
/// carries this through any later sequence of operations.)
pub proof fn law_reuse_after_remove<T>(m: SparseMapModel<T>, key: (usize, u32), value: T)
    requires
        m.wf(),
        m.lookup(key) is Some,
    ensures
        m.remove(key).next_key().0 == key.0,
        m.remove(key).next_key().1 != key.1,
        m.remove(key).insert(value).lookup(key) is None,
        !m.remove(key).can_restore(key),
{
    let n = m.remove(key);
    law_remove_then_lookup(m, key);
    assert(n.free.last() == key.0);
    assert(n.free.contains(key.0)) by {
        assert(n.free[n.free.len() - 1] == key.0);
    }
    law_insert_then_lookup(n, value);
}

/// Checking a value out and putting it back: the key stays reserved, no
/// insertion reuses its slot meanwhile, `restore` succeeds, and restoring the
/// same value gives back the map as it was.
pub proof fn law_take_then_restore<T>(m: SparseMapModel<T>, key: (usize, u32), value: T)
    requires
        m.wf(),
        m.lookup(key) is Some,
    ensures
        m.take(key).wf(),
        m.take(key).lookup(key) is None,
        m.take(key).can_restore(key),
        m.take(key).next_key().0 != key.0,
        m.take(key).restore(key, value).lookup(key) == Some(value),
        m.take(key).restore(key, m.lookup(key)->0) == m,
        m.take(key).len() + 1 == m.len(),
{
    let t = m.take(key);
    lemma_occupied_count_update(m.entries, key.0 as int, None);
    assert(!m.free.contains(key.0));
    if m.free.len() > 0 {
        assert(m.free.contains(m.free.last())) by {
            assert(m.free[m.free.len() - 1] == m.free.last());
        }
    }
    assert(t.restore(key, m.lookup(key)->0) =~= m) by {
        assert(t.restore(key, m.lookup(key)->0).entries =~= m.entries);
    }
}

/// A key whose slot is missing, at another generation, free or occupied
/// cannot be restored, and restoring through it changes nothing.
pub proof fn law_restore_refused<T>(m: SparseMapModel<T>, key: (usize, u32), value: T)
    requires
        m.wf(),
        !m.can_restore(key),
    ensures
        m.restore(key, value) == m,
{
}

/// Putting a value back in place after it was checked out (what `scope`
/// does when its closure leaves the map alone) keeps the key valid and
/// changes nothing but that value.
pub proof fn law_scope_puts_back<T>(m: SparseMapModel<T>, key: (usize, u32), value: T)
    requires
        m.wf(),
        m.lookup(key) is Some,
    ensures
        m.take(key).place(key, value) == m.place(key, value),
        m.place(key, value).lookup(key) == Some(value),
        m.place(key, value).wf(),
        m.place(key, value).len() == m.len(),
        forall|k: (usize, u32)| k != key ==> m.place(key, value).lookup(k) == m.lookup(k),
{
    let p = m.place(key, value);
    assert(!m.free.contains(key.0));
    assert(m.take(key).place(key, value) =~= p) by {
        assert(m.take(key).place(key, value).entries =~= p.entries);
    }
    lemma_occupied_count_update(m.entries, key.0 as int, Some(value));
    assert forall|j: int| 0 <= j < p.free.len() implies p.entries[#[trigger] p.free[j] as int]
        is None by {
        assert(p.free[j] != key.0);
    }
    assert forall|k: (usize, u32)| k != key implies p.lookup(k) == m.lookup(k) by {
        if k.0 == key.0 && m.key_matches(k) {
            assert(k.1 == key.1);
        }
    }
}

/// A slot whose value is checked out stays reserved for its key whatever
/// else happens to the map: insertions do not reuse it, removing, taking or
/// clearing does not free it, and only `restore` (or storing through the
/// same key) fills it again.
pub proof fn law_reserved_slot_survives<T>(m: SparseMapModel<T>, key: (usize, u32), other: (usize, u32), value: T)
    requires
        m.wf(),
        m.can_restore(key),
        m.free.len() > 0 || m.slot_count() < usize::MAX,
    ensures
        m.insert(value).can_restore(key),
        m.remove(other).can_restore(key),
        m.take(other).can_restore(key),
        m.clear().can_restore(key),
{
    law_clear_empties(m);
    if m.free.len() > 0 {
        assert(m.free.contains(m.free.last())) by {
            assert(m.free[m.free.len() - 1] == m.free.last());
        }
        let r = m.reserve();
        if r.free.contains(key.0) {
            let j = choose|j: int| 0 <= j < r.free.len() && r.free[j] == key.0;
            assert(m.free[j] == key.0);
        }
    }
    let d = m.remove(other);
    if m.lookup(other) is Some && d.free.contains(key.0) {
        let j = choose|j: int| 0 <= j < d.free.len() && d.free[j] == key.0;
        if j < m.free.len() {
            assert(m.free[j] == key.0);
        }
    }
}

/// Storing through a key whose slot exists at the key's generation (what
/// `scope` and `insert_with_key` do once their closure returns) makes the
/// key refer to the stored value, takes the slot back off the free list if
/// it was freed in the meantime, and changes no other key.
pub proof fn law_place_makes_key_live<T>(m: SparseMapModel<T>, key: (usize, u32), value: T)
    requires
        m.wf(),
        m.key_matches(key),
    ensures
        m.place(key, value).wf(),
        m.place(key, value).lookup(key) == Some(value),
        forall|i: usize| #[trigger]
            m.place(key, value).free.contains(i) <==> (m.free.contains(i) && i != key.0),
        forall|k: (usize, u32)| k != key ==> m.place(key, value).lookup(k) == m.lookup(k),
        m.place(key, value).len() == m.len() + if m.entries[key.0 as int] is None {
            1int
        } else {
            0int
        },
{
    let p = m.place(key, value);
    lemma_occupied_count_update(m.entries, key.0 as int, Some(value));
    if m.free.contains(key.0) {
        let q = m.free.index_of(key.0);
        m.free.remove_ensures(q);
        assert forall|a: int, b: int| 0 <= a < p.free.len() && 0 <= b < p.free.len() && a != b implies p.free[a]
            != p.free[b] by {
            let a0 = if a < q { a } else { a + 1 };
            let b0 = if b < q { b } else { b + 1 };
            assert(p.free[a] == m.free[a0] && p.free[b] == m.free[b0]);
        }
        assert forall|i: usize| #[trigger] p.free.contains(i) <==> (m.free.contains(i) && i != key.0) by {
            if p.free.contains(i) {
                let j = choose|j: int| 0 <= j < p.free.len() && p.free[j] == i;
                let j0 = if j < q { j } else { j + 1 };
                assert(m.free[j0] == i);
                assert(j0 != q);
            }
            if m.free.contains(i) && i != key.0 {
                let j = choose|j: int| 0 <= j < m.free.len() && m.free[j] == i;
                let j1 = if j < q { j } else { j - 1 };
                assert(p.free[j1] == i);
            }
        }
        assert forall|j: int| 0 <= j < p.free.len() implies (#[trigger] p.free[j]) < p.entries.len()
            && p.entries[p.free[j] as int] is None by {
            let j0 = if j < q { j } else { j + 1 };
            assert(p.free[j] == m.free[j0]);
        }
    } else {
        assert forall|j: int| 0 <= j < p.free.len() implies p.entries[#[trigger] p.free[j] as int]
            is None by {
            assert(p.free[j] != key.0);
        }
    }
    assert forall|k: (usize, u32)| k != key implies p.lookup(k) == m.lookup(k) by {
        if k.0 == key.0 && m.key_matches(k) {
            assert(k.1 == key.1);
        }
    }
}

/// Clearing removes every value: no key refers to anything afterwards, the
/// map is empty, every freed slot is ready for reuse at a new generation,
/// and slots whose value is checked out stay restorable.
pub proof fn law_clear_empties<T>(m: SparseMapModel<T>)
    requires
        m.wf(),
    ensures
        m.clear().wf(),
        m.clear().len() == 0,
        forall|k: (usize, u32)| m.clear().lookup(k) is None,
        forall|k: (usize, u32)| m.can_restore(k) ==> m.clear().can_restore(k),
        forall|k: (usize, u32)| #[trigger] m.lookup(k) is Some ==> m.clear().free.contains(k.0)
            && m.clear().generations[k.0 as int] != k.1,
{
    let c = m.clear();
    let o = occupied_indices(m.entries);
    lemma_occupied_indices(m.entries);
    lemma_none_count(c.entries);
    assert forall|j: int| 0 <= j < c.free.len() implies (#[trigger] c.free[j]) < c.entries.len()
        && c.entries[c.free[j] as int] is None by {
        if j >= m.free.len() {
            assert(c.free[j] == o[j - m.free.len()]);
        }
    }
    assert(c.free.no_duplicates()) by {
        assert forall|a: int, b: int| 0 <= a < c.free.len() && 0 <= b < c.free.len() && a != b implies c.free[a]
            != c.free[b] by {
            if a < m.free.len() && b < m.free.len() {
            } else if a < m.free.len() {
                assert(c.free[b] == o[b - m.free.len()]);
                assert(m.entries[c.free[a] as int] is None);
            } else if b < m.free.len() {
                assert(c.free[a] == o[a - m.free.len()]);
                assert(m.entries[c.free[b] as int] is None);
            } else {
                assert(c.free[a] == o[a - m.free.len()]);
                assert(c.free[b] == o[b - m.free.len()]);
                if a < b {
                    assert(o[a - m.free.len()] < o[b - m.free.len()]);
                } else {
                    assert(o[b - m.free.len()] < o[a - m.free.len()]);
                }
            }
        }
    }
    assert forall|k: (usize, u32)| m.can_restore(k) implies c.can_restore(k) by {
        if c.free.contains(k.0) {
            let j = choose|j: int| 0 <= j < c.free.len() && c.free[j] == k.0;
            if j >= m.free.len() {
                assert(c.free[j] == o[j - m.free.len()]);
            } else {
                assert(m.free[j] == k.0);
            }
        }
    }
    assert forall|k: (usize, u32)| #[trigger] m.lookup(k) is Some implies c.free.contains(k.0)
        && c.generations[k.0 as int] != k.1 by {
        assert(m.entries[k.0 as int] is Some);
        let j = choose|j: int| 0 <= j < o.len() && o[j] == k.0;
        assert(c.free[m.free.len() + j] == k.0);
    }
}

proof fn lemma_none_count<T>(entries: Seq<Option<T>>)
    requires
        forall|i: int| 0 <= i < entries.len() ==> entries[i] is None,
    ensures
        occupied_count(entries) == 0,
    decreases entries.len(),
{
    if entries.len() > 0 {
        lemma_none_count(entries.drop_last());
    }
}

/// `idx` lists, in strictly increasing order, exactly the slots of `entries`
/// that hold a value.
pub open spec fn enumerates_occupied<T>(entries: Seq<Option<T>>, idx: Seq<usize>) -> bool {
    &&& forall|j: int|
        0 <= j < idx.len() ==> (#[trigger] idx[j]) < entries.len() && entries[idx[j] as int] is Some
    &&& forall|a: int, b: int| 0 <= a < b < idx.len() ==> (#[trigger] idx[a]) < (#[trigger] idx[b])
    &&& forall|i: int| 0 <= i < entries.len() && (#[trigger] entries[i]) is Some ==> idx.contains(i as usize)
}

/// The `j`-th held value is the value of the `j`-th occupied slot.
proof fn lemma_values_at_occupied<T>(entries: Seq<Option<T>>)
    requires
        entries.len() <= usize::MAX,
    ensures
        live_values(entries).len() == occupied_indices(entries).len(),
        forall|j: int|
            0 <= j < live_values(entries).len() ==> Some(#[trigger] live_values(entries)[j])
                == entries[occupied_indices(entries)[j] as int],
    decreases entries.len(),
{
    lemma_occupied_count(entries);
    if entries.len() > 0 {
        let init = entries.drop_last();
        lemma_values_at_occupied(init);
        lemma_occupied_indices(init);
        let v = live_values(entries);
        let o = occupied_indices(entries);
        assert forall|j: int| 0 <= j < v.len() implies Some(#[trigger] v[j]) == entries[o[j] as int] by {
            if j < live_values(init).len() {
                assert(v[j] == live_values(init)[j]);
                assert(o[j] == occupied_indices(init)[j]);
                assert(init[o[j] as int] == entries[o[j] as int]);
            } else {
                assert(o[j] == (entries.len() - 1) as usize);
            }
        }
    }
}

/// `iter` and `drain` list the held values in slot order, and `clear` (and
/// `drain`) appends the freed slots to the free list in that same order:
/// there is one strictly increasing list of exactly the occupied slots that
/// the values follow and that `clear` appends.
pub proof fn law_slot_order<T>(m: SparseMapModel<T>)
    requires
        m.wf(),
    ensures
        exists|idx: Seq<usize>|
            {
                &&& enumerates_occupied(m.entries, idx)
                &&& #[trigger] idx.len() == m.values().len()
                &&& forall|j: int| 0 <= j < idx.len() ==> Some(m.values()[j]) == m.entries[idx[j] as int]
                &&& m.clear().free == m.free + idx
            },
{
    let o = occupied_indices(m.entries);
    lemma_occupied_indices(m.entries);
    lemma_values_at_occupied(m.entries);
    assert(enumerates_occupied(m.entries, o));
    assert(o.len() == m.values().len());
}

/// The values listed by `iter` and handed out by `drain` are as many as
/// `len` counts.
pub proof fn law_values_match_len<T>(m: SparseMapModel<T>)
    ensures
        m.values().len() == m.len(),
        m.len() <= m.slot_count(),
{
    lemma_occupied_count(m.entries);
}

/// The placeholder key never refers to a value: no map has `usize::MAX + 1`
/// slots.
pub proof fn law_placeholder_is_never_live<T>(m: SparseMapModel<T>, generation: u32)
    requires
        m.wf(),
    ensures
        m.lookup((usize::MAX, generation)) is None,
{
}

/// Replacing the held values through `iter_mut` changes the values and
/// nothing else: the same keys refer to something, and in slot order they
/// refer to the new values.
pub proof fn law_with_values<T>(m: SparseMapModel<T>, vals: Seq<T>)
    requires
        m.wf(),
        vals.len() == m.len(),
    ensures
        m.with_values(vals).wf(),
        m.with_values(vals).values() == vals,
        forall|k: (usize, u32)| (#[trigger] m.with_values(vals).lookup(k)) is Some <==> m.lookup(k) is Some,
{
    let w = m.with_values(vals);
    lemma_with_values_prefix(m.entries, vals, m.entries.len() as int);
    assert(m.entries.take(m.entries.len() as int) =~= m.entries);
    assert(w.entries.take(w.entries.len() as int) =~= w.entries);
    assert(vals.take(vals.len() as int) =~= vals);
}

/// On every prefix, the refilled entries list the first values of `vals`.
proof fn lemma_with_values_prefix<T>(entries: Seq<Option<T>>, vals: Seq<T>, p: int)
    requires
        0 <= p <= entries.len(),
        vals.len() == occupied_count(entries),
    ensures
        live_values(
            Seq::new(
                entries.len(),
                |i: int|
                    if entries[i] is Some {
                        Some(vals[occupied_count(entries.take(i)) as int])
                    } else {
                        None
                    },
            ).take(p),
        ) == vals.take(occupied_count(entries.take(p)) as int),
    decreases p,
{
    let w = Seq::new(
        entries.len(),
        |i: int|
            if entries[i] is Some {
                Some(vals[occupied_count(entries.take(i)) as int])
            } else {
                None
            },
    );
    if p == 0 {
        assert(w.take(0) =~= Seq::<Option<T>>::empty());
        assert(entries.take(0) =~= Seq::<Option<T>>::empty());
        assert(vals.take(0) =~= Seq::<T>::empty());
    } else {
        lemma_with_values_prefix(entries, vals, p - 1);
        lemma_prefix_step(entries, p - 1);
        lemma_prefix_step(w, p - 1);
        lemma_prefix_count_monotone(entries, p, entries.len() as int);
        assert(entries.take(entries.len() as int) =~= entries);
        let c = occupied_count(entries.take(p - 1)) as int;
        if entries[p - 1] is Some {
            assert(vals.take(c + 1) =~= vals.take(c).push(vals[c]));
        }
    }
}

} // verus!
