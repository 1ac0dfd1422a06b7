//! Properties over whole histories of calls. Each public operation acts on
//! the model as one of `reserve`, `place`, `insert`, `remove`, `take`,
//! `restore`, `clear` or `with_values` (`insert_with_key` and `scope` run
//! their closure between two of them), so a property that every one of these
//! steps keeps holds after any sequence of calls.
use vstd::prelude::*;

use crate::laws::{
    law_place_makes_key_live, law_insert_then_lookup, law_remove_then_lookup, law_take_then_restore, law_clear_empties,
    law_with_values,
};
use crate::model::{
    SparseMapModel, next_generation, occupied_indices, lemma_occupied_count,
    lemma_occupied_indices,
};

verus! {

// ------------------------------------------------------------------------
// What each step does to the keys: which refer to a value, which are reserved.
// ------------------------------------------------------------------------

/// A new map has no live and no reserved key.
pub proof fn law_empty_has_no_keys<T>()
    ensures
        SparseMapModel::<T>::empty().wf(),
        forall|k: (usize, u32)| SparseMapModel::<T>::empty().lookup(k) is None,
        forall|k: (usize, u32)| !SparseMapModel::<T>::empty().can_restore(k),
{
}

/// Setting a slot aside for the next key (the first step of
/// `insert_with_key`) reserves exactly that key and changes no lookup.
pub proof fn law_reserve_frame<T>(m: SparseMapModel<T>)
    requires
        m.wf(),
        m.free.len() > 0 || m.slot_count() < usize::MAX,
    ensures
        m.reserve().wf(),
        forall|k: (usize, u32)| m.reserve().lookup(k) == m.lookup(k),
        forall|k: (usize, u32)|
            m.reserve().can_restore(k) == (m.can_restore(k) || k == m.next_key()),
        m.reserve().slot_count() == m.slot_count() + if m.free.len() == 0 {
            1int
        } else {
            0int
        },
        m.reserve().len() == m.len(),
{
    let r = m.reserve();
    let nk = m.next_key();
    if m.free.len() == 0 {
        assert(r.entries.drop_last() =~= m.entries);
        assert forall|j: int| 0 <= j < r.free.len() implies (#[trigger] r.free[j]) < r.entries.len()
            && r.entries[r.free[j] as int] is None by {
            assert(m.entries[m.free[j] as int] is None);
        }
        assert forall|k: (usize, u32)| r.can_restore(k) == (m.can_restore(k) || k == nk) by {
            if k.0 < m.slot_count() {
                assert(r.entries[k.0 as int] == m.entries[k.0 as int]);
            }
        }
    } else {
        let i = m.free.last();
        assert(m.free[m.free.len() - 1] == i);
        assert(m.free.contains(i));
        assert forall|j: int| 0 <= j < r.free.len() implies r.free[j] != i by {
            assert(r.free[j] == m.free[j]);
        }
        assert forall|j: int| 0 <= j < r.free.len() implies (#[trigger] r.free[j]) < r.entries.len()
            && r.entries[r.free[j] as int] is None by {
            assert(r.free[j] == m.free[j]);
        }
        assert forall|k: (usize, u32)| r.can_restore(k) == (m.can_restore(k) || k == nk) by {
            if k.0 != i {
                if r.free.contains(k.0) {
                    let j = choose|j: int| 0 <= j < r.free.len() && r.free[j] == k.0;
                    assert(m.free[j] == k.0);
                }
                if m.free.contains(k.0) {
                    let j = choose|j: int| 0 <= j < m.free.len() && m.free[j] == k.0;
                    assert(j != m.free.len() - 1);
                    assert(r.free[j] == k.0);
                }
            } else {
                assert(!r.free.contains(i));
            }
        }
        assert forall|k: (usize, u32)| r.lookup(k) == m.lookup(k) by {
            if k.0 == i && k.0 < m.slot_count() {
                assert(m.entries[i as int] is None);
            }
        }
    }
}

/// Storing through a key (the last step of `insert_with_key` and `scope`,
/// and what `get_mut` writes back) makes that key refer to the value when
/// its slot exists at its generation; it unreserves that key and touches no
/// other.
pub proof fn law_place_frame<T>(m: SparseMapModel<T>, key: (usize, u32), value: T)
    requires
        m.wf(),
    ensures
        m.place(key, value).wf(),
        forall|k: (usize, u32)|
            m.place(key, value).can_restore(k) == (m.can_restore(k) && k != key),
        forall|k: (usize, u32)|
            m.place(key, value).lookup(k) == if k == key && m.key_matches(key) {
                Some(value)
            } else {
                m.lookup(k)
            },
{
    let p = m.place(key, value);
    if m.key_matches(key) {
        law_place_makes_key_live(m, key, value);
        assert forall|k: (usize, u32)| p.can_restore(k) == (m.can_restore(k) && k != key) by {
            assert(p.free.contains(k.0) <==> (m.free.contains(k.0) && k.0 != key.0));
            if k.0 == key.0 && m.key_matches(k) {
                assert(k.1 == key.1);
            }
        }
    }
}

/// Checking a value out reserves exactly its key and makes it refer to
/// nothing; no other key changes.
pub proof fn law_take_frame<T>(m: SparseMapModel<T>, key: (usize, u32))
    requires
        m.wf(),
    ensures
        m.take(key).wf(),
        forall|k: (usize, u32)|
            m.take(key).can_restore(k) == (m.can_restore(k) || (k == key && m.lookup(key) is Some)),
        forall|k: (usize, u32)|
            m.take(key).lookup(k) == if k == key {
                None
            } else {
                m.lookup(k)
            },
{
    if m.lookup(key) is Some {
        law_take_then_restore(m, key, m.lookup(key)->0);
    }
}

/// Restoring fills exactly the reserved slot of its key, when there is one,
/// and unreserves that key; no other key changes.
pub proof fn law_restore_frame<T>(m: SparseMapModel<T>, key: (usize, u32), value: T)
    requires
        m.wf(),
    ensures
        m.restore(key, value).wf(),
        forall|k: (usize, u32)|
            m.restore(key, value).can_restore(k) == (m.can_restore(k) && k != key),
        forall|k: (usize, u32)|
            m.restore(key, value).lookup(k) == if k == key && m.can_restore(key) {
                Some(value)
            } else {
                m.lookup(k)
            },
{
    if m.can_restore(key) {
        assert(m.restore(key, value) == m.place(key, value));
    }
    law_place_frame(m, key, value);
}

/// Removing frees the slot of a live key; no key is reserved or unreserved,
/// and only the removed key stops referring to a value.
pub proof fn law_remove_frame<T>(m: SparseMapModel<T>, key: (usize, u32))
    requires
        m.wf(),
    ensures
        m.remove(key).wf(),
        forall|k: (usize, u32)| m.remove(key).can_restore(k) == m.can_restore(k),
        forall|k: (usize, u32)|
            m.remove(key).lookup(k) == if k == key {
                None
            } else {
                m.lookup(k)
            },
{
    if m.lookup(key) is Some {
        law_remove_then_lookup(m, key);
        let n = m.remove(key);
        assert(n.free[n.free.len() - 1] == key.0);
        assert forall|k: (usize, u32)| n.can_restore(k) == m.can_restore(k) by {
            if k.0 == key.0 {
                assert(n.free.contains(key.0));
            }
            if n.free.contains(k.0) && !m.free.contains(k.0) {
                let j = choose|j: int| 0 <= j < n.free.len() && n.free[j] == k.0;
                if j < m.free.len() {
                    assert(m.free[j] == k.0);
                }
            }
            if m.free.contains(k.0) {
                let j = choose|j: int| 0 <= j < m.free.len() && m.free[j] == k.0;
                assert(n.free[j] == k.0);
            }
        }
    }
}

/// `insert` acts as `insert_with_key` does with a closure that leaves the
/// map alone and returns the value: the slot of the next key is set aside,
/// then the value is stored under that key.
pub proof fn law_insert_is_insert_with_key<T>(m: SparseMapModel<T>, value: T)
    ensures
        m.insert(value) == m.reserve().place(m.next_key(), value),
{
}

/// An insertion leaves the reserved keys as they are.
pub proof fn law_insert_frame<T>(m: SparseMapModel<T>, value: T)
    requires
        m.wf(),
        m.free.len() > 0 || m.slot_count() < usize::MAX,
    ensures
        forall|k: (usize, u32)| m.insert(value).can_restore(k) == m.can_restore(k),
        forall|k: (usize, u32)|
            m.insert(value).lookup(k) == if k == m.next_key() {
                Some(value)
            } else {
                m.lookup(k)
            },
{
    law_reserve_frame(m);
    law_place_frame(m.reserve(), m.next_key(), value);
    law_insert_then_lookup(m, value);
    assert(!m.can_restore(m.next_key())) by {
        if m.free.len() > 0 {
            assert(m.free[m.free.len() - 1] == m.free.last());
        }
    }
}

/// Clearing makes every key refer to nothing and keeps the reserved keys
/// reserved, and no others.
pub proof fn law_clear_frame<T>(m: SparseMapModel<T>)
    requires
        m.wf(),
    ensures
        forall|k: (usize, u32)| m.clear().can_restore(k) == m.can_restore(k),
        forall|k: (usize, u32)| m.clear().lookup(k) is None,
{
    law_clear_empties(m);
    let c = m.clear();
    lemma_occupied_indices(m.entries);
    assert forall|k: (usize, u32)| c.can_restore(k) implies m.can_restore(k) by {
        if k.0 < m.slot_count() && m.entries[k.0 as int] is Some {
            let o = occupied_indices(m.entries);
            let j = choose|j: int| 0 <= j < o.len() && o[j] == k.0;
            assert(c.free[m.free.len() + j] == k.0);
        }
        if m.free.contains(k.0) {
            let j = choose|j: int| 0 <= j < m.free.len() && m.free[j] == k.0;
            assert(c.free[j] == k.0);
        }
    }
}

/// Writing values through `iter_mut` changes no key's liveness and no
/// reservation.
pub proof fn law_with_values_frame<T>(m: SparseMapModel<T>, vals: Seq<T>)
    requires
        m.wf(),
        vals.len() == m.len(),
    ensures
        m.with_values(vals).wf(),
        forall|k: (usize, u32)| m.with_values(vals).can_restore(k) == m.can_restore(k),
        forall|k: (usize, u32)| (m.with_values(vals).lookup(k) is Some) == (m.lookup(k) is Some),
{
    law_with_values(m, vals);
}

// ------------------------------------------------------------------------
// Retired keys: a key whose value was removed stays dead.
// ------------------------------------------------------------------------

/// How far the generation `current` has moved on from `issued`, counted
/// modulo 2^32.
pub open spec fn generation_distance(current: u32, issued: u32) -> int {
    if current >= issued {
        current - issued
    } else {
        current - issued + 0x1_0000_0000
    }
}

/// How many times the slot of `key` has moved to its next generation since
/// `key` was current, counted modulo 2^32.
pub open spec fn key_age<T>(m: SparseMapModel<T>, key: (usize, u32)) -> int {
    generation_distance(m.generations[key.0 as int], key.1)
}

/// `key` names an existing slot that has moved past the key's generation,
/// or that is free.
pub open spec fn retired<T>(m: SparseMapModel<T>, key: (usize, u32)) -> bool {
    &&& key.0 < m.slot_count()
    &&& (key_age(m, key) >= 1 || m.free.contains(key.0))
}

/// Moving a slot to its next generation ages its keys by one, unless a key
/// is exactly one wrap-around away.
proof fn lemma_distance_step(g: u32, issued: u32)
    requires
        generation_distance(g, issued) < u32::MAX,
    ensures
        generation_distance(next_generation(g), issued) == generation_distance(g, issued) + 1,
{
}

/// Reusing a slot, and freeing it by `clear`, moves its generation on by
/// exactly one, modulo 2^32.
pub proof fn law_generation_steps_by_one<T>(m: SparseMapModel<T>)
    requires
        m.wf(),
    ensures
        m.free.len() > 0 ==> generation_distance(
            m.next_key().1,
            m.generations[m.next_key().0 as int],
        ) == 1,
        forall|i: int|
            0 <= i < m.slot_count() && m.entries[i] is Some ==> generation_distance(
                #[trigger] m.clear().generations[i],
                m.generations[i],
            ) == 1,
{
}

/// A retired key refers to nothing and cannot be restored.
pub proof fn law_retired_key_is_dead<T>(m: SparseMapModel<T>, key: (usize, u32))
    requires
        m.wf(),
        retired(m, key),
    ensures
        m.lookup(key) is None,
        !m.can_restore(key),
{
    if m.free.contains(key.0) {
        let j = choose|j: int| 0 <= j < m.free.len() && m.free[j] == key.0;
        assert(m.entries[m.free[j] as int] is None);
    }
}

/// Removing the value of a key, by `remove` or by `clear` (and `drain`),
/// retires the key.
pub proof fn law_removal_retires<T>(m: SparseMapModel<T>, key: (usize, u32))
    requires
        m.wf(),
        m.lookup(key) is Some,
    ensures
        retired(m.remove(key), key),
        retired(m.clear(), key),
{
    let n = m.remove(key);
    assert(n.free[n.free.len() - 1] == key.0);
    assert(n.free.contains(key.0));
    law_clear_empties(m);
}

/// The facts about one slot that keep a retired key retired.
proof fn lemma_retired_carries<T>(m: SparseMapModel<T>, n: SparseMapModel<T>, key: (usize, u32))
    requires
        retired(m, key),
        key_age(m, key) < u32::MAX,
        n.slot_count() >= m.slot_count(),
        (n.generations[key.0 as int] == m.generations[key.0 as int] && (m.free.contains(key.0)
            ==> n.free.contains(key.0))) || n.generations[key.0 as int] == next_generation(
            m.generations[key.0 as int],
        ),
    ensures
        retired(n, key),
        key_age(n, key) <= key_age(m, key) + 1,
{
    if n.generations[key.0 as int] == next_generation(m.generations[key.0 as int]) {
        lemma_distance_step(m.generations[key.0 as int], key.1);
    }
}

/// Setting a slot aside and inserting keep a retired key retired, and age
/// it by at most one.
pub proof fn law_retired_survives_insert<T>(m: SparseMapModel<T>, key: (usize, u32), value: T)
    requires
        m.wf(),
        retired(m, key),
        key_age(m, key) < u32::MAX,
        m.free.len() > 0 || m.slot_count() < usize::MAX,
    ensures
        retired(m.reserve(), key),
        key_age(m.reserve(), key) <= key_age(m, key) + 1,
        retired(m.insert(value), key),
        key_age(m.insert(value), key) <= key_age(m, key) + 1,
{
    let r = m.reserve();
    if m.free.len() > 0 {
        let i = m.free.last();
        if key.0 != i && m.free.contains(key.0) {
            let j = choose|j: int| 0 <= j < m.free.len() && m.free[j] == key.0;
            assert(j != m.free.len() - 1);
            assert(r.free[j] == key.0);
        }
    }
    lemma_retired_carries(m, r, key);
    lemma_retired_carries(m, m.insert(value), key);
}

/// Removing, checking out, restoring, storing through a key, clearing and
/// writing through `iter_mut` keep a retired key retired, and age it by at
/// most one.
pub proof fn law_retired_survives<T>(
    m: SparseMapModel<T>,
    key: (usize, u32),
    other: (usize, u32),
    value: T,
    vals: Seq<T>,
)
    requires
        m.wf(),
        retired(m, key),
        key_age(m, key) < u32::MAX,
    ensures
        retired(m.remove(other), key),
        key_age(m.remove(other), key) == key_age(m, key),
        retired(m.take(other), key),
        key_age(m.take(other), key) == key_age(m, key),
        retired(m.restore(other, value), key),
        key_age(m.restore(other, value), key) == key_age(m, key),
        other != key ==> retired(m.place(other, value), key),
        key_age(m.place(other, value), key) == key_age(m, key),
        retired(m.clear(), key),
        key_age(m.clear(), key) <= key_age(m, key) + 1,
        retired(m.with_values(vals), key),
        key_age(m.with_values(vals), key) == key_age(m, key),
{
    let d = m.remove(other);
    if m.free.contains(key.0) {
        let j = choose|j: int| 0 <= j < m.free.len() && m.free[j] == key.0;
        assert(d.free[j] == key.0);
        assert(m.clear().free[j] == key.0);
    }
    lemma_retired_carries(m, m.clear(), key);
    if other != key && m.key_matches(other) {
        law_place_makes_key_live(m, other, value);
        if other.0 == key.0 {
            assert(other.1 != key.1);
            assert(key_age(m, key) >= 1);
        }
    }
}

// ------------------------------------------------------------------------
// Issued keys: a new key was never handed out before.
// ------------------------------------------------------------------------

/// `issued` holds every key handed out so far: each is live, reserved or
/// retired; every live or reserved key is one of them; and every slot was
/// handed out under some key.
pub open spec fn accounts_for<T>(m: SparseMapModel<T>, issued: Set<(usize, u32)>) -> bool {
    &&& forall|k: (usize, u32)| #[trigger]
        issued.contains(k) ==> m.lookup(k) is Some || m.can_restore(k) || retired(m, k)
    &&& forall|k: (usize, u32)|
        #![trigger m.lookup(k)]
        #![trigger m.can_restore(k)]
        m.lookup(k) is Some || m.can_restore(k) ==> issued.contains(k)
    &&& forall|i: usize| i < m.slot_count() ==> #[trigger] issued_slot(issued, i)
}

/// Some key of `issued` names slot `i`.
pub open spec fn issued_slot(issued: Set<(usize, u32)>, i: usize) -> bool {
    exists|g: u32| #[trigger] issued.contains((i, g))
}

/// No slot has moved on by 2^32 - 1 generations since one of its issued
/// keys was current, so generations have not wrapped around to it.
pub open spec fn within_generations<T>(m: SparseMapModel<T>, issued: Set<(usize, u32)>) -> bool {
    forall|k: (usize, u32)| #[trigger] issued.contains(k) ==> key_age(m, k) < u32::MAX
}

/// Issued keys name existing slots.
proof fn lemma_issued_in_range<T>(m: SparseMapModel<T>, issued: Set<(usize, u32)>, k: (usize, u32))
    requires
        accounts_for(m, issued),
        issued.contains(k),
    ensures
        k.0 < m.slot_count(),
{
}

/// A new map has handed out no key.
pub proof fn law_fresh_start<T>()
    ensures
        accounts_for(SparseMapModel::<T>::empty(), Set::empty()),
{
}

/// The key that the next insertion hands out was never handed out before.
pub proof fn law_next_key_is_fresh<T>(m: SparseMapModel<T>, issued: Set<(usize, u32)>)
    requires
        m.wf(),
        accounts_for(m, issued),
        within_generations(m, issued),
    ensures
        !issued.contains(m.next_key()),
{
    let nk = m.next_key();
    if issued.contains(nk) {
        lemma_issued_in_range(m, issued, nk);
        if m.free.len() > 0 {
            let i = m.free.last();
            assert(m.free[m.free.len() - 1] == i);
            assert(m.free.contains(i));
            assert(m.entries[i as int] is None);
            assert(key_age(m, nk) < u32::MAX);
            assert(false);
        }
    }
}

/// Handing out the next key, by `reserve` (in `insert_with_key`) or by
/// `insert`, keeps `issued` accounting for the map once the new key joins
/// it; the new key is current, and other keys age by at most one.
pub proof fn law_issue_next_key<T>(m: SparseMapModel<T>, issued: Set<(usize, u32)>, value: T)
    requires
        m.wf(),
        accounts_for(m, issued),
        within_generations(m, issued),
        m.free.len() > 0 || m.slot_count() < usize::MAX,
    ensures
        accounts_for(m.reserve(), issued.insert(m.next_key())),
        accounts_for(m.insert(value), issued.insert(m.next_key())),
        key_age(m.reserve(), m.next_key()) == 0,
        key_age(m.insert(value), m.next_key()) == 0,
        forall|k: (usize, u32)|
            #[trigger] issued.contains(k) ==> key_age(m.reserve(), k) <= key_age(m, k) + 1
                && key_age(m.insert(value), k) <= key_age(m, k) + 1,
{
    let nk = m.next_key();
    let r = m.reserve();
    let n = m.insert(value);
    let issued2 = issued.insert(nk);
    law_reserve_frame(m);
    law_insert_frame(m, value);
    law_insert_then_lookup(m, value);
    assert forall|k: (usize, u32)| #[trigger] issued.contains(k) implies key_age(r, k) <= key_age(m, k) + 1
        && key_age(n, k) <= key_age(m, k) + 1 && (r.lookup(k) is Some || r.can_restore(k) || retired(r, k))
        && (n.lookup(k) is Some || n.can_restore(k) || retired(n, k)) by {
        lemma_issued_in_range(m, issued, k);
        if m.free.len() > 0 && k.0 == m.free.last() {
            let i = m.free.last();
            assert(m.free[m.free.len() - 1] == i);
            assert(m.free.contains(i));
            assert(m.entries[i as int] is None);
            assert(retired(m, k));
            law_retired_survives_insert(m, k, value);
        } else if retired(m, k) {
            law_retired_survives_insert(m, k, value);
        }
    }
    assert forall|i: usize| i < r.slot_count() implies #[trigger] issued_slot(issued2, i) by {
        if i < m.slot_count() {
            assert(issued_slot(issued, i));
            let g = choose|g: u32| #[trigger] issued.contains((i, g));
            assert(issued2.contains((i, g)));
        } else {
            assert(issued2.contains((i, 0u32)));
        }
    }
    assert forall|k: (usize, u32)| #[trigger] issued2.contains(k) implies r.lookup(k) is Some
        || r.can_restore(k) || retired(r, k) by {
        if k != nk {
            assert(issued.contains(k));
        }
    }
    assert forall|k: (usize, u32)| #[trigger] issued2.contains(k) implies n.lookup(k) is Some
        || n.can_restore(k) || retired(n, k) by {
        if k != nk {
            assert(issued.contains(k));
        }
    }
    assert forall|k: (usize, u32)| r.lookup(k) is Some || r.can_restore(k) implies #[trigger] issued2.contains(k) by {
        if k != nk {
            assert(m.lookup(k) is Some || m.can_restore(k));
        }
    }
    assert forall|k: (usize, u32)| n.lookup(k) is Some || n.can_restore(k) implies #[trigger] issued2.contains(k) by {
        if k != nk {
            assert(m.lookup(k) is Some || m.can_restore(k));
        }
    }
    assert(n.slot_count() == r.slot_count());
    assert(accounts_for(r, issued2));
}

/// Removing, checking out, restoring, storing through a key, clearing and
/// writing through `iter_mut` hand out no key, and keep `issued` accounting
/// for the map.
pub proof fn law_issued_kept<T>(
    m: SparseMapModel<T>,
    issued: Set<(usize, u32)>,
    other: (usize, u32),
    value: T,
    vals: Seq<T>,
)
    requires
        m.wf(),
        accounts_for(m, issued),
        within_generations(m, issued),
        vals.len() == m.len(),
    ensures
        accounts_for(m.remove(other), issued),
        accounts_for(m.take(other), issued),
        accounts_for(m.restore(other, value), issued),
        issued.contains(other) ==> accounts_for(m.place(other, value), issued),
        accounts_for(m.clear(), issued),
        accounts_for(m.with_values(vals), issued),
{
    law_remove_frame(m, other);
    law_take_frame(m, other);
    law_restore_frame(m, other, value);
    law_place_frame(m, other, value);
    law_clear_frame(m);
    law_with_values_frame(m, vals);
    assert(m.clear().slot_count() == m.slot_count());
    assert(m.with_values(vals).slot_count() == m.slot_count());
    assert forall|k: (usize, u32)| #[trigger] issued.contains(k) implies {
        &&& (m.remove(other).lookup(k) is Some || m.remove(other).can_restore(k) || retired(m.remove(other), k))
        &&& (m.take(other).lookup(k) is Some || m.take(other).can_restore(k) || retired(m.take(other), k))
        &&& (m.restore(other, value).lookup(k) is Some || m.restore(other, value).can_restore(k)
            || retired(m.restore(other, value), k))
        &&& (m.place(other, value).lookup(k) is Some || m.place(other, value).can_restore(k)
            || retired(m.place(other, value), k))
        &&& (m.clear().lookup(k) is Some || m.clear().can_restore(k) || retired(m.clear(), k))
        &&& (m.with_values(vals).lookup(k) is Some || m.with_values(vals).can_restore(k)
            || retired(m.with_values(vals), k))
    } by {
        if retired(m, k) {
            law_retired_survives(m, k, other, value, vals);
        } else if m.lookup(k) is Some {
            law_removal_retires(m, k);
            if k == other {
                law_take_frame(m, other);
            }
        } else {
            assert(m.can_restore(k));
            if k == other {
                assert(m.restore(other, value).lookup(k) is Some);
                if m.key_matches(other) && !m.free.contains(other.0) {
                    assert(m.place(other, value).lookup(k) is Some);
                }
            }
        }
    }
    let c = m.clear();
    let w = m.with_values(vals);
    let pl = m.place(other, value);
    if issued.contains(other) {
        assert forall|k: (usize, u32)| pl.lookup(k) is Some || pl.can_restore(k) implies #[trigger] issued.contains(k) by {
            if k != other {
                assert(m.lookup(k) is Some || m.can_restore(k));
            }
        }
        assert(pl.slot_count() == m.slot_count());
    }
    assert forall|k: (usize, u32)| c.lookup(k) is Some || c.can_restore(k) implies #[trigger] issued.contains(k) by {
        assert(m.can_restore(k));
    }
    assert forall|k: (usize, u32)| w.lookup(k) is Some || w.can_restore(k) implies #[trigger] issued.contains(k) by {
        assert(m.lookup(k) is Some || m.can_restore(k));
    }
    assert forall|i: usize| i < c.slot_count() implies #[trigger] issued_slot(issued, i) by {
        assert(i < m.slot_count());
    }
    assert forall|i: usize| i < w.slot_count() implies #[trigger] issued_slot(issued, i) by {
        assert(i < m.slot_count());
    }
}

// ------------------------------------------------------------------------
// Which slot an insertion takes.
// ------------------------------------------------------------------------

/// The slots are exactly the indices of the issued keys; a slot is free
/// exactly when it holds no value and is not reserved; and the next key
/// reuses a free slot when there is one and adds a new slot otherwise.
pub proof fn law_reuse_or_grow<T>(m: SparseMapModel<T>, issued: Set<(usize, u32)>)
    requires
        m.wf(),
        accounts_for(m, issued),
    ensures
        Set::new(|i: usize| issued_slot(issued, i)) == Set::new(|i: usize| i < m.slot_count()),
        forall|i: usize|
            i < m.slot_count() ==> (m.free.contains(i) <==> (m.entries[i as int] is None
                && !m.can_restore((i, m.generations[i as int])))),
        m.free.len() > 0 ==> m.free.contains(m.next_key().0),
        m.free.len() == 0 ==> m.next_key().0 == m.slot_count(),
{
    assert forall|i: usize| #[trigger] issued_slot(issued, i) <==> i < m.slot_count() by {
        if issued_slot(issued, i) {
            let g = choose|g: u32| issued.contains((i, g));
            lemma_issued_in_range(m, issued, (i, g));
        }
    }
    assert(Set::new(|i: usize| issued_slot(issued, i)) =~= Set::new(|i: usize| i < m.slot_count()));
    assert forall|i: usize| i < m.slot_count() && m.free.contains(i) implies m.entries[i as int]
        is None by {
        let j = choose|j: int| 0 <= j < m.free.len() && m.free[j] == i;
        assert(m.entries[m.free[j] as int] is None);
    }
    if m.free.len() > 0 {
        assert(m.free[m.free.len() - 1] == m.free.last());
    }
}

// ------------------------------------------------------------------------
// Counting the live keys.
// ------------------------------------------------------------------------

/// The keys that refer to a value.
pub open spec fn live_keys<T>(m: SparseMapModel<T>) -> Set<(usize, u32)> {
    Set::new(|k: (usize, u32)| m.lookup(k) is Some)
}

/// `len` counts the keys that `contains` accepts: one per occupied slot.
pub proof fn law_len_counts_live_keys<T>(m: SparseMapModel<T>)
    requires
        m.wf(),
    ensures
        live_keys(m).finite(),
        live_keys(m).len() == m.len(),
{
    let o = occupied_indices(m.entries);
    let keys = o.map_values(|i: usize| (i, m.generations[i as int]));
    lemma_occupied_indices(m.entries);
    lemma_occupied_count(m.entries);
    assert(keys.to_set() =~= live_keys(m)) by {
        assert forall|k: (usize, u32)| keys.to_set().contains(k) <==> live_keys(m).contains(k) by {
            if live_keys(m).contains(k) {
                assert(m.entries[k.0 as int] is Some);
                let j = choose|j: int| 0 <= j < o.len() && o[j] == k.0;
                assert(keys[j] == k);
            }
            if keys.to_set().contains(k) {
                let j = choose|j: int| 0 <= j < keys.len() && keys[j] == k;
                assert(o[j] == k.0);
            }
        }
    }
    assert(keys.no_duplicates()) by {
        assert forall|a: int, b: int| 0 <= a < keys.len() && 0 <= b < keys.len() && a != b implies keys[a]
            != keys[b] by {
            if a < b {
                assert(o[a] < o[b]);
            } else {
                assert(o[b] < o[a]);
            }
        }
    }
    keys.unique_seq_to_set();
    vstd::seq_lib::seq_to_set_is_finite(keys);
}

// ------------------------------------------------------------------------
// Whole histories.
// ------------------------------------------------------------------------

/// One step of a history, as the public operations act on the model:
/// `insert_with_key` is a `Reserve`, its closure's steps, then a `Place` of
/// the reserved key; `scope` is a `Take`, its closure's steps, then a
/// `Place` of the taken key; `get_mut` is a `Place`; `iter_mut` is a
/// `WithValues`; `clear` and `drain` are a `Clear`.
pub enum Step<T> {
    Reserve,
    Place((usize, u32), T),
    Insert(T),
    Remove((usize, u32)),
    Take((usize, u32)),
    Restore((usize, u32), T),
    Clear,
    WithValues(Seq<T>),
}

/// The map after one step.
pub open spec fn apply<T>(m: SparseMapModel<T>, step: Step<T>) -> SparseMapModel<T> {
    match step {
        Step::Reserve => m.reserve(),
        Step::Place(k, v) => m.place(k, v),
        Step::Insert(v) => m.insert(v),
        Step::Remove(k) => m.remove(k),
        Step::Take(k) => m.take(k),
        Step::Restore(k, v) => m.restore(k, v),
        Step::Clear => m.clear(),
        Step::WithValues(vals) => if vals.len() == m.len() {
            m.with_values(vals)
        } else {
            m
        },
    }
}

/// The map after the steps, in order.
pub open spec fn run<T>(m: SparseMapModel<T>, steps: Seq<Step<T>>) -> SparseMapModel<T>
    decreases steps.len(),
{
    if steps.len() == 0 {
        m
    } else {
        apply(run(m, steps.drop_last()), steps.last())
    }
}

/// Whether the step hands out a new key.
pub open spec fn hands_out<T>(step: Step<T>) -> bool {
    step is Reserve || step is Insert
}

/// The keys that the steps hand out, in order.
pub open spec fn handed_out<T>(m: SparseMapModel<T>, steps: Seq<Step<T>>) -> Seq<(usize, u32)>
    decreases steps.len(),
{
    if steps.len() == 0 {
        Seq::empty()
    } else {
        let before = handed_out(m, steps.drop_last());
        if hands_out(steps.last()) {
            before.push(run(m, steps.drop_last()).next_key())
        } else {
            before
        }
    }
}

/// Whether the step stores through `key`.
pub open spec fn places<T>(step: Step<T>, key: (usize, u32)) -> bool {
    match step {
        Step::Place(k, _) => k == key,
        _ => false,
    }
}

/// One step keeps the map well formed and adds at most one slot.
proof fn lemma_apply_wf<T>(m: SparseMapModel<T>, step: Step<T>)
    requires
        m.wf(),
        m.slot_count() < usize::MAX,
    ensures
        apply(m, step).wf(),
        m.slot_count() <= apply(m, step).slot_count() <= m.slot_count() + 1,
{
    match step {
        Step::Reserve => {
            law_reserve_frame(m);
        },
        Step::Place(k, v) => {
            law_place_frame(m, k, v);
        },
        Step::Insert(v) => {
            law_insert_then_lookup(m, v);
        },
        Step::Remove(k) => {
            law_remove_frame(m, k);
        },
        Step::Take(k) => {
            law_take_frame(m, k);
        },
        Step::Restore(k, v) => {
            law_restore_frame(m, k, v);
        },
        Step::Clear => {
            law_clear_empties(m);
        },
        Step::WithValues(vals) => {
            if vals.len() == m.len() {
                law_with_values(m, vals);
            }
        },
    }
}

/// One step moves any slot on by at most one generation.
proof fn lemma_apply_ages<T>(m: SparseMapModel<T>, step: Step<T>, k: (usize, u32))
    requires
        m.wf(),
        m.slot_count() < usize::MAX,
        k.0 < m.slot_count(),
        key_age(m, k) < u32::MAX,
    ensures
        key_age(apply(m, step), k) <= key_age(m, k) + 1,
{
    let n = apply(m, step);
    let g = m.generations[k.0 as int];
    match step {
        Step::Reserve => {
            if m.free.len() > 0 && k.0 == m.free.last() {
                lemma_distance_step(g, k.1);
            }
        },
        Step::Insert(v) => {
            if m.free.len() > 0 && k.0 == m.free.last() {
                lemma_distance_step(g, k.1);
            }
        },
        Step::Clear => {
            if m.entries[k.0 as int] is Some {
                lemma_distance_step(g, k.1);
            }
        },
        _ => {},
    }
}

/// The steps keep the map well formed, adding at most one slot each.
pub proof fn law_run_keeps_wf<T>(m: SparseMapModel<T>, steps: Seq<Step<T>>)
    requires
        m.wf(),
        m.slot_count() + steps.len() <= usize::MAX,
    ensures
        run(m, steps).wf(),
        m.slot_count() <= run(m, steps).slot_count() <= m.slot_count() + steps.len(),
    decreases steps.len(),
{
    if steps.len() > 0 {
        law_run_keeps_wf(m, steps.drop_last());
        lemma_apply_wf(run(m, steps.drop_last()), steps.last());
    }
}

/// A retired key stays retired through steps that never store through it,
/// and ages by at most one per step.
proof fn lemma_run_keeps_retired<T>(m: SparseMapModel<T>, key: (usize, u32), steps: Seq<Step<T>>)
    requires
        m.wf(),
        retired(m, key),
        key_age(m, key) + steps.len() < u32::MAX,
        m.slot_count() + steps.len() <= usize::MAX,
        forall|i: int| 0 <= i < steps.len() ==> !places(#[trigger] steps[i], key),
    ensures
        retired(run(m, steps), key),
        key_age(run(m, steps), key) <= key_age(m, key) + steps.len(),
    decreases steps.len(),
{
    if steps.len() > 0 {
        let init = steps.drop_last();
        assert forall|i: int| 0 <= i < init.len() implies !places(#[trigger] init[i], key) by {
            assert(init[i] == steps[i]);
        }
        lemma_run_keeps_retired(m, key, init);
        law_run_keeps_wf(m, init);
        let r = run(m, init);
        let step = steps.last();
        assert(!places(steps[steps.len() - 1], key));
        match step {
            Step::Reserve => {
                law_retired_survives_insert(r, key, arbitrary());
            },
            Step::Insert(v) => {
                law_retired_survives_insert(r, key, v);
            },
            Step::Place(k, v) => {
                law_retired_survives(r, key, k, v, Seq::empty());
            },
            Step::Remove(k) => {
                law_retired_survives(r, key, k, arbitrary(), Seq::empty());
            },
            Step::Take(k) => {
                law_retired_survives(r, key, k, arbitrary(), Seq::empty());
            },
            Step::Restore(k, v) => {
                law_retired_survives(r, key, k, v, Seq::empty());
            },
            Step::Clear => {
                law_retired_survives(r, key, key, arbitrary(), Seq::empty());
            },
            Step::WithValues(vals) => {
                law_retired_survives(r, key, key, arbitrary(), vals);
            },
        }
    }
}

/// A key whose value was removed, by `remove` or by `clear` (and `drain`),
/// refers to nothing and cannot be restored after any later sequence of
/// fewer than 2^32 - 2 steps. The steps
/// never store through the removed key itself: the only calls that store
/// through a key are `get_mut`, which needs a live key, and the end of
/// `scope` or `insert_with_key`, which store through the key they checked
/// out or handed out when they began, and neither is the removed key once
/// it is dead.
pub proof fn law_removed_key_stays_dead<T>(
    m: SparseMapModel<T>,
    key: (usize, u32),
    steps: Seq<Step<T>>,
)
    requires
        m.wf(),
        m.lookup(key) is Some,
        steps.len() + 1 < u32::MAX,
        m.slot_count() + steps.len() <= usize::MAX,
        forall|i: int| 0 <= i < steps.len() ==> !places(#[trigger] steps[i], key),
    ensures
        run(m.remove(key), steps).lookup(key) is None,
        !run(m.remove(key), steps).can_restore(key),
        run(m.clear(), steps).lookup(key) is None,
        !run(m.clear(), steps).can_restore(key),
{
    law_removal_retires(m, key);
    law_remove_frame(m, key);
    law_clear_empties(m);
    let d = m.remove(key);
    let c = m.clear();
    assert(key_age(d, key) == 0);
    assert(key_age(c, key) == 1) by {
        lemma_distance_step(m.generations[key.0 as int], key.1);
    }
    lemma_run_keeps_retired(d, key, steps);
    lemma_run_keeps_retired(c, key, steps);
    law_run_keeps_wf(d, steps);
    law_run_keeps_wf(c, steps);
    law_retired_key_is_dead(run(d, steps), key);
    law_retired_key_is_dead(run(c, steps), key);
}

/// What holds after each prefix of a history that starts from a new map.
proof fn lemma_history_accounts<T>(steps: Seq<Step<T>>)
    requires
        steps.len() < u32::MAX,
        steps.len() <= usize::MAX,
        forall|i: int|
            0 <= i < steps.len() && (#[trigger] steps[i]) is Place ==> handed_out(
                SparseMapModel::<T>::empty(),
                steps.take(i),
            ).contains(steps[i]->Place_0),
    ensures
        ({
            let r = run(SparseMapModel::<T>::empty(), steps);
            let h = handed_out(SparseMapModel::<T>::empty(), steps);
            &&& r.wf()
            &&& r.slot_count() <= steps.len()
            &&& h.no_duplicates()
            &&& accounts_for(r, h.to_set())
            &&& forall|k: (usize, u32)| #[trigger] h.contains(k) ==> key_age(r, k) <= steps.len()
        }),
    decreases steps.len(),
{
    let e = SparseMapModel::<T>::empty();
    if steps.len() == 0 {
        assert(handed_out(e, steps).to_set() =~= Set::<(usize, u32)>::empty());
    } else {
        let init = steps.drop_last();
        assert forall|i: int|
            0 <= i < init.len() && (#[trigger] init[i]) is Place implies handed_out(e, init.take(i)).contains(
            init[i]->Place_0) by {
            assert(init[i] == steps[i]);
            assert(init.take(i) == steps.take(i));
        }
        lemma_history_accounts(init);
        let r = run(e, init);
        let h = handed_out(e, init);
        let step = steps.last();
        let n = apply(r, step);
        let h2 = handed_out(e, steps);
        crate::laws::law_values_match_len(r);
        assert(n == run(e, steps));
        lemma_apply_wf(r, step);
        assert(forall|k: (usize, u32)| #[trigger] h.to_set().contains(k) <==> h.contains(k));
        assert(within_generations(r, h.to_set()));
        assert forall|k: (usize, u32)| #[trigger] h.contains(k) implies key_age(n, k) <= steps.len() by {
            lemma_issued_in_range(r, h.to_set(), k);
            lemma_apply_ages(r, step, k);
        }
        if hands_out(step) {
            let nk = r.next_key();
            law_next_key_is_fresh(r, h.to_set());
            assert(!h.contains(nk));
            assert(h2 == h.push(nk));
            assert forall|x: (usize, u32)| h2.contains(x) <==> (h.contains(x) || x == nk) by {
                if h2.contains(x) && x != nk {
                    let j = choose|j: int| 0 <= j < h2.len() && h2[j] == x;
                    assert(h[j] == x);
                }
                if h.contains(x) {
                    let j = choose|j: int| 0 <= j < h.len() && h[j] == x;
                    assert(h2[j] == x);
                }
                if x == nk {
                    assert(h2[h.len() as int] == nk);
                }
            }
            assert(h2.to_set() =~= h.to_set().insert(nk));
            law_issue_next_key(r, h.to_set(), arbitrary());
            match step {
                Step::Insert(v) => {
                    law_issue_next_key(r, h.to_set(), v);
                },
                _ => {},
            }
            assert forall|a: int, b: int| 0 <= a < h2.len() && 0 <= b < h2.len() && a != b implies h2[a]
                != h2[b] by {
                if a < h.len() && b < h.len() {
                } else if a < h.len() {
                    assert(h.contains(h2[a]));
                } else {
                    assert(h.contains(h2[b]));
                }
            }
            assert forall|k: (usize, u32)| #[trigger] h2.contains(k) implies key_age(n, k) <= steps.len() by {
                if k != nk {
                    let j = choose|j: int| 0 <= j < h2.len() && h2[j] == k;
                    assert(h.contains(k)) by {
                        assert(h[j] == k);
                    }
                }
            }
        } else {
            assert(h2 == h);
            match step {
                Step::Place(k, v) => {
                    assert(steps[steps.len() - 1] is Place);
                    assert(steps.take(steps.len() - 1) == init);
                    assert(h.contains(k));
                    law_issued_kept(r, h.to_set(), k, v, r.values());
                },
                Step::Remove(k) => {
                    law_issued_kept(r, h.to_set(), k, arbitrary(), r.values());
                },
                Step::Take(k) => {
                    law_issued_kept(r, h.to_set(), k, arbitrary(), r.values());
                },
                Step::Restore(k, v) => {
                    law_issued_kept(r, h.to_set(), k, v, r.values());
                },
                Step::Clear => {
                    law_issued_kept(r, h.to_set(), (0usize, 0u32), arbitrary(), r.values());
                },
                Step::WithValues(vals) => {
                    if vals.len() == r.len() {
                        law_issued_kept(r, h.to_set(), (0usize, 0u32), arbitrary(), vals);
                    }
                },
                _ => {},
            }
        }
    }
}

/// Every key that a history of a new map hands out is new: no two steps
/// hand out the same key, as long as the history has fewer than 2^32 - 1
/// steps. Every `Place` stores through a key handed out earlier, as the
/// public operations do.
pub proof fn law_handed_out_keys_are_fresh<T>(steps: Seq<Step<T>>)
    requires
        steps.len() < u32::MAX,
        steps.len() <= usize::MAX,
        forall|i: int|
            0 <= i < steps.len() && (#[trigger] steps[i]) is Place ==> handed_out(
                SparseMapModel::<T>::empty(),
                steps.take(i),
            ).contains(steps[i]->Place_0),
    ensures
        handed_out(SparseMapModel::<T>::empty(), steps).no_duplicates(),
        accounts_for(
            run(SparseMapModel::<T>::empty(), steps),
            handed_out(SparseMapModel::<T>::empty(), steps).to_set(),
        ),
{
    lemma_history_accounts(steps);
}

} // verus!
