use vstd::prelude::*;

use crate::model::{
    SparseMapModel, next_generation, occupied_count, occupied_indices, live_values,
    lemma_occupied_count, lemma_occupied_count_update,
    lemma_prefix_step, lemma_same_shape_count, lemma_prefix_count_monotone,
};
use std::collections::VecDeque;

verus! {

/// The state of one slot.
#[derive(Debug, PartialEq)]
pub(crate) enum Slot<T> {
    /// The slot holds a value.
    Occupied(T),
    /// The slot's value is checked out; only `restore` fills it again.
    Reserved,
    /// The slot is empty and listed for reuse.
    Vacant,
}

impl<T> Slot<T> {
    pub(crate) open spec fn value(self) -> Option<T> {
        match self {
            Slot::Occupied(v) => Some(v),
            _ => None,
        }
    }
}

/// The buffers behind a sparse map: one slot and one generation per index,
/// the stack of vacant slots, and the number of occupied slots.
#[derive(Debug, PartialEq)]
pub(crate) struct Storage<T> {
    pub(crate) slots: Vec<Slot<T>>,
    pub(crate) generations: Vec<u32>,
    pub(crate) empty_slots: Vec<usize>,
    pub(crate) live: usize,
}

/// The model of the storage after the first `i` slots of `m` have been
/// cleared as `SparseMapModel::clear` does.
pub(crate) open spec fn cleared_prefix<T>(m: SparseMapModel<T>, i: int) -> SparseMapModel<T> {
    SparseMapModel {
        entries: Seq::new(
            m.entries.len(),
            |j: int|
                if j < i {
                    None
                } else {
                    m.entries[j]
                },
        ),
        generations: Seq::new(
            m.generations.len(),
            |j: int|
                if j < i && m.entries[j] is Some {
                    next_generation(m.generations[j])
                } else {
                    m.generations[j]
                },
        ),
        free: m.free + occupied_indices(m.entries.take(i)),
    }
}

/// Storing another value in an occupied slot keeps the storage well formed.
proof fn lemma_overwrite_keeps_wf<T>(a: Storage<T>, i: int)
    requires
        a.wf(),
        0 <= i < a.slots@.len(),
        a.slots@[i] is Occupied,
    ensures
        forall|b: Storage<T>|
            {
                &&& b.slots@ == a.slots@.update(i, b.slots@[i])
                &&& b.slots@[i] is Occupied
                &&& b.generations@ == a.generations@
                &&& b.empty_slots@ == a.empty_slots@
                &&& b.live == a.live
            } ==> #[trigger] b.wf(),
{
    assert forall|b: Storage<T>|
        {
            &&& b.slots@ == a.slots@.update(i, b.slots@[i])
            &&& b.slots@[i] is Occupied
            &&& b.generations@ == a.generations@
            &&& b.empty_slots@ == a.empty_slots@
            &&& b.live == a.live
        } implies #[trigger] b.wf() by {
        let ea = a.model().entries;
        let eb = b.model().entries;
        let v = b.slots@[i]->0;
        assert(eb =~= ea.update(i, Some(v))) by {
            assert forall|j: int| 0 <= j < eb.len() implies eb[j] == ea.update(i, Some(v))[j] by {
                if j != i {
                    assert(b.slots@[j] == a.slots@[j]);
                }
            }
        }
        lemma_occupied_count_update(ea, i, Some(v));
        assert forall|j: int| 0 <= j < b.slots@.len() implies ((#[trigger] b.slots@[j]) is Vacant
            <==> b.empty_slots@.contains(j as usize)) by {
            if j != i {
                assert(b.slots@[j] == a.slots@[j]);
            } else {
                assert(a.slots@[j] is Occupied);
            }
        }
        assert forall|j: int| 0 <= j < b.empty_slots@.len() implies eb[
            #[trigger] b.empty_slots@[j] as int] is None by {
            assert(ea[a.empty_slots@[j] as int] is None);
        }
    }
}

/// The model entries of a sequence of slots.
pub(crate) open spec fn slot_values<T>(slots: Seq<Slot<T>>) -> Seq<Option<T>> {
    slots.map_values(|s: Slot<T>| s.value())
}

/// `slots` with the values of its occupied slots replaced, in order, by
/// `values`.
pub(crate) open spec fn refill<T>(slots: Seq<Slot<T>>, values: Seq<T>) -> Seq<Slot<T>> {
    Seq::new(
        slots.len(),
        |i: int|
            if slots[i] is Occupied {
                Slot::Occupied(values[occupied_count(slot_values(slots).take(i)) as int])
            } else {
                slots[i]
            },
    )
}

/// The rank of slot `i` among the occupied slots of a prefix does not
/// depend on the prefix.
proof fn lemma_slot_values_prefix<T>(slots: Seq<Slot<T>>, m: int, i: int)
    requires
        0 <= i <= m <= slots.len(),
    ensures
        slot_values(slots.take(m)).take(i) == slot_values(slots).take(i),
{
    assert(slot_values(slots.take(m)).take(i) =~= slot_values(slots).take(i));
}

/// Refilling one more slot appends that slot, with the next value when it
/// is occupied.
proof fn lemma_refill_step<T>(slots: Seq<Slot<T>>, k: int, vals: Seq<T>, x: T)
    requires
        0 <= k < slots.len(),
        vals.len() == occupied_count(slot_values(slots).take(k)),
    ensures
        slots[k] is Occupied ==> refill(slots.take(k + 1), vals.push(x)) == refill(
            slots.take(k),
            vals,
        ).push(Slot::Occupied(x)),
        !(slots[k] is Occupied) ==> refill(slots.take(k + 1), vals) == refill(
            slots.take(k),
            vals,
        ).push(slots[k]),
{
    let e = slot_values(slots);
    let vals2 = if slots[k] is Occupied {
        vals.push(x)
    } else {
        vals
    };
    let last = if slots[k] is Occupied {
        Slot::Occupied(x)
    } else {
        slots[k]
    };
    let lhs = refill(slots.take(k + 1), vals2);
    let rhs = refill(slots.take(k), vals).push(last);
    assert forall|i: int| 0 <= i < k + 1 implies lhs[i] == rhs[i] by {
        lemma_slot_values_prefix(slots, k + 1, i);
        if i < k {
            lemma_slot_values_prefix(slots, k, i);
            if slots[i] is Occupied {
                lemma_prefix_step(e, i);
                lemma_prefix_count_monotone(e, i + 1, k);
                assert(e[i] is Some);
            }
        }
    }
    assert(lhs =~= rhs);
}

/// Replacing the values of the occupied slots keeps the storage well formed
/// and replaces the held values of its model.
pub(crate) proof fn lemma_refill_keeps_wf<T>(a: Storage<T>)
    requires
        a.wf(),
    ensures
        forall|b: Storage<T>, vals: Seq<T>|
            #![trigger b.wf(), refill(a.slots@, vals)]
            #![trigger b.model(), refill(a.slots@, vals)]
            b.slots@ == refill(a.slots@, vals) && vals.len() == a.live && b.generations@
                == a.generations@ && b.empty_slots@ == a.empty_slots@ && b.live == a.live ==> b.wf()
                && b.model() == a.model().with_values(vals),
{
    assert forall|b: Storage<T>, vals: Seq<T>|
        b.slots@ == refill(a.slots@, vals) && vals.len() == a.live && b.generations@
            == a.generations@ && b.empty_slots@ == a.empty_slots@ && b.live == a.live implies b.wf()
        && b.model() == a.model().with_values(vals) by {
        let ea = a.model().entries;
        let eb = b.model().entries;
        assert(eb =~= a.model().with_values(vals).entries) by {
            assert forall|i: int| 0 <= i < eb.len() implies eb[i] == a.model().with_values(
                vals,
            ).entries[i] by {
                assert(slot_values(a.slots@) == ea);
            }
        }
        assert(b.model() =~= a.model().with_values(vals));
        assert forall|i: int| 0 <= i < ea.len() implies (#[trigger] eb[i] is Some <==> ea[i] is Some) by {}
        lemma_same_shape_count(ea, eb);
        assert forall|j: int| 0 <= j < b.slots@.len() implies ((#[trigger] b.slots@[j]) is Vacant
            <==> b.empty_slots@.contains(j as usize)) by {
            assert(a.slots@[j] is Vacant ==> b.slots@[j] == a.slots@[j]);
        }
        assert forall|j: int| 0 <= j < b.empty_slots@.len() implies eb[
            #[trigger] b.empty_slots@[j] as int] is None by {
            assert(ea[a.empty_slots@[j] as int] is None);
        }
    }
}

/// Mutable references to the values of the occupied slots of `s`, in slot
/// order; what is written through them ends up in those slots.
pub(crate) fn occupied_refs_mut<'a, T>(s: &'a mut [Slot<T>]) -> (r: Vec<&'a mut T>)
    ensures
        r@.len() == occupied_count(slot_values(old(s)@)),
        forall|j: int| 0 <= j < r@.len() ==> *r@[j] == live_values(slot_values(old(s)@))[j],
        final(s)@ == refill(old(s)@, Seq::new(r@.len(), |j: int| *final(r@[j]))),
{
    let n = s.len();
    let ghost orig = s@;
    let ghost fin = final(s)@;
    let ghost e = slot_values(orig);
    let mut rest: &'a mut [Slot<T>] = s;
    let mut out: Vec<&'a mut T> = Vec::new();
    let mut k: usize = 0;
    proof {
        assert(e.take(0) =~= Seq::<Option<T>>::empty());
        assert(orig.take(0) =~= Seq::<Slot<T>>::empty());
        assert(refill(orig.take(0), Seq::new(out@.len(), |j: int| *final(out@[j]))) =~= Seq::<Slot<T>>::empty());
        assert(rest@ =~= orig.skip(0));
    }
    while rest.len() > 0
        invariant
            k <= orig.len(),
            k + rest@.len() == orig.len(),
            orig.len() == n,
            e == slot_values(orig),
            rest@ == orig.skip(k as int),
            out@.len() == occupied_count(e.take(k as int)),
            forall|j: int| 0 <= j < out@.len() ==> *out@[j] == live_values(e.take(k as int))[j],
            fin == refill(orig.take(k as int), Seq::new(out@.len(), |j: int| *final(out@[j])))
                + final(rest)@,
        decreases rest@.len(),
    {
        let ghost vals = Seq::new(out@.len(), |j: int| *final(out@[j]));
        proof {
            lemma_prefix_step(e, k as int);
            lemma_occupied_count(e.take(k as int));
            assert(orig.take(k as int).len() == k);
        }
        let tmp = rest;
        let (head, tail) = tmp.split_at_mut(1);
        if matches!(head[0], Slot::Occupied(_)) {
            match head.first_mut() {
                Some(Slot::Occupied(v)) => {
                    let ghost fv = *final(v);
                    out.push(v);
                    proof {
                        lemma_refill_step(orig, k as int, vals, fv);
                        assert(Seq::new(out@.len(), |j: int| *final(out@[j])) =~= vals.push(fv));
                    }
                },
                _ => {},
            }
        } else {
            proof {
                lemma_refill_step(orig, k as int, vals, arbitrary());
            }
        }
        rest = tail;
        k = k + 1;
    }
    proof {
        assert(e.take(k as int) =~= e);
        assert(orig.take(k as int) =~= orig);
    }
    out
}

/// A copy of a vector of plain values.
fn copy_vec<U: Copy>(v: &Vec<U>) -> (c: Vec<U>)
    ensures
        c@ == v@,
{
    let mut c: Vec<U> = Vec::new();
    let mut i: usize = 0;
    while i < v.len()
        invariant
            0 <= i <= v.len(),
            c@ == v@.take(i as int),
        decreases v.len() - i,
    {
        c.push(v[i]);
        i = i + 1;
        proof {
            assert(c@ =~= v@.take(i as int));
        }
    }
    proof {
        assert(v@.take(v.len() as int) =~= v@);
    }
    c
}

/// Builds a storage from the values of its slots, their generations and
/// the free list, if they describe a well-formed map.
pub(crate) fn storage_from_parts<T>(values: Vec<Option<T>>, generations: Vec<u32>, empty_slots: Vec<usize>) -> (r: Option<Storage<T>>)
    ensures
        r is Some <==> (SparseMapModel {
            entries: values@,
            generations: generations@,
            free: empty_slots@,
        }).wf(),
        r matches Some(st) ==> st.wf() && st.model() == (SparseMapModel {
            entries: values@,
            generations: generations@,
            free: empty_slots@,
        }),
{
    let ghost target = SparseMapModel { entries: values@, generations: generations@, free: empty_slots@ };
    let n = values.len();
    if generations.len() != n {
        return None;
    }
    // Mark the free slots, checking that each is in range, empty and listed once.
    let mut vacant: Vec<bool> = Vec::new();
    while vacant.len() < n
        invariant
            vacant@.len() <= n,
            forall|i: int| 0 <= i < vacant@.len() ==> !vacant@[i],
        decreases n - vacant@.len(),
    {
        vacant.push(false);
    }
    let m = empty_slots.len();
    let mut j: usize = 0;
    while j < m
        invariant
            target == (SparseMapModel { entries: values@, generations: generations@, free: empty_slots@ }),
            n == values@.len(),
            m == empty_slots@.len(),
            0 <= j <= m,
            vacant@.len() == n,
            forall|i: int| 0 <= i < n ==> (vacant@[i] <==> empty_slots@.take(j as int).contains(i as usize)),
            forall|k: int| 0 <= k < j ==> (#[trigger] empty_slots@[k]) < n && values@[empty_slots@[k] as int] is None,
            empty_slots@.take(j as int).no_duplicates(),
        decreases m - j,
    {
        let index = empty_slots[j];
        if index >= n || values[index].is_some() || vacant[index] {
            proof {
                if index >= n {
                    assert(target.free[j as int] >= target.entries.len());
                } else if values@[index as int] is Some {
                    assert(target.entries[target.free[j as int] as int] is Some);
                } else {
                    assert(empty_slots@.take(j as int).contains(index));
                    let k = choose|k: int| 0 <= k < j && empty_slots@.take(j as int)[k] == index;
                    assert(target.free[k] == target.free[j as int]);
                }
            }
            return None;
        }
        vacant.set(index, true);
        proof {
            let before = empty_slots@.take(j as int);
            let after = empty_slots@.take(j + 1);
            assert(after =~= before.push(index));
            assert forall|i: int| 0 <= i < n implies (vacant@[i] <==> after.contains(i as usize)) by {
                if after.contains(i as usize) && i != index {
                    let k = choose|k: int| 0 <= k < after.len() && after[k] == i as usize;
                    assert(before[k] == i as usize);
                }
                if before.contains(i as usize) {
                    let k = choose|k: int| 0 <= k < before.len() && before[k] == i as usize;
                    assert(after[k] == i as usize);
                }
                if i == index {
                    assert(after[j as int] == index);
                }
            }
            assert forall|a: int, b: int| 0 <= a < after.len() && 0 <= b < after.len() && a != b implies after[a] != after[b] by {
                if a == j {
                    assert(!before.contains(index));
                    assert(before[b] == after[b]);
                } else if b == j {
                    assert(!before.contains(index));
                    assert(before[a] == after[a]);
                } else {
                    assert(before[a] == after[a] && before[b] == after[b]);
                }
            }
        }
        j = j + 1;
    }
    proof {
        assert(empty_slots@.take(m as int) =~= empty_slots@);
        assert(target.wf());
    }
    let ghost free = empty_slots@;
    // Move the values into slots, in order.
    let mut values = values;
    let ghost orig = values@;
    let mut reversed: Vec<Option<T>> = Vec::new();
    while values.len() > 0
        invariant
            n == orig.len(),
            vacant@.len() == n,
            forall|k: int| 0 <= k < n ==> (#[trigger] vacant@[k] <==> free.contains(k as usize)),
            free == empty_slots@,
            target.wf(),
            target.entries == orig,
            target.free == free,
            target.generations == generations@,
            values@.len() + reversed@.len() == n,
            values@ == orig.take(values@.len() as int),
            forall|k: int| 0 <= k < reversed@.len() ==> reversed@[k] == orig[n - 1 - k],
        decreases values@.len(),
    {
        let value = values.pop().unwrap();
        reversed.push(value);
        proof {
            assert(values@ =~= orig.take(values@.len() as int));
        }
    }
    let mut slots: Vec<Slot<T>> = Vec::new();
    let mut live: usize = 0;
    proof {
        assert(orig.take(0) =~= Seq::<Option<T>>::empty());
    }
    while reversed.len() > 0
        invariant
            n == orig.len(),
            vacant@.len() == n,
            slots@.len() + reversed@.len() == n,
            forall|k: int| 0 <= k < reversed@.len() ==> reversed@[k] == orig[n - 1 - k],
            forall|k: int| 0 <= k < slots@.len() ==> (#[trigger] slots@[k]).value() == orig[k],
            forall|k: int| 0 <= k < slots@.len() ==> (slots@[k] is Vacant <==> vacant@[k]),
            forall|k: int| 0 <= k < n ==> (#[trigger] vacant@[k] <==> free.contains(k as usize)),
            free == empty_slots@,
            target.wf(),
            target.entries == orig,
            target.free == free,
            target.generations == generations@,
            live == occupied_count(orig.take(slots@.len() as int)),
        decreases reversed@.len(),
    {
        let i = slots.len();
        let value = reversed.pop().unwrap();
        proof {
            if vacant@[i as int] {
                assert(free.contains(i as usize));
                let k = choose|k: int| 0 <= k < free.len() && free[k] == i as usize;
                assert(target.entries[target.free[k] as int] is None);
            }
            lemma_prefix_step(orig, i as int);
            lemma_occupied_count(orig.take(i + 1));
            lemma_prefix_count_monotone(orig, i + 1, n as int);
            lemma_occupied_count(orig);
            assert(orig.take(n as int) =~= orig);
        }
        let slot = match value {
            Some(v) => {
                live = live + 1;
                Slot::Occupied(v)
            },
            None => if vacant[i] {
                Slot::Vacant
            } else {
                Slot::Reserved
            },
        };
        slots.push(slot);
    }
    let st = Storage { slots, generations, empty_slots, live };
    proof {
        assert(orig.take(n as int) =~= orig);
        assert(st.model().entries =~= orig);
        assert(st.model() =~= target);
        assert(st.model().wf());
        assert(st.live == occupied_count(st.model().entries));
        assert forall|i: int| 0 <= i < st.slots@.len() implies ((#[trigger] st.slots@[i]) is Vacant
            <==> st.empty_slots@.contains(i as usize)) by {
            assert(vacant@[i] <==> free.contains(i as usize));
        }
    }
    Some(st)
}

impl<T: Clone> Storage<T> {
    /// A copy of the storage, each held value cloned.
    pub(crate) fn duplicate(&self) -> (c: Self)
        ensures
            self.wf() ==> c.wf(),
            c.model().generations == self.model().generations,
            c.model().free == self.model().free,
            c.model().entries.len() == self.model().entries.len(),
            forall|i: int|
                0 <= i < self.model().entries.len() ==> (c.model().entries[i] is Some
                    <==> self.model().entries[i] is Some),
            forall|i: int|
                0 <= i < self.model().entries.len() && self.model().entries[i] is Some ==> cloned(
                    self.model().entries[i]->0,
                    c.model().entries[i]->0,
                ),
    {
        let mut slots: Vec<Slot<T>> = Vec::new();
        let n = self.slots.len();
        let mut i: usize = 0;
        while i < n
            invariant
                0 <= i <= n,
                n == self.slots@.len(),
                slots@.len() == i,
                forall|j: int|
                    0 <= j < i ==> {
                        &&& (slots@[j] is Occupied <==> self.slots@[j] is Occupied)
                        &&& (slots@[j] is Reserved <==> self.slots@[j] is Reserved)
                        &&& (slots@[j] is Vacant <==> self.slots@[j] is Vacant)
                        &&& (self.slots@[j] is Occupied ==> cloned(
                            self.slots@[j]->Occupied_0,
                            slots@[j]->Occupied_0,
                        ))
                    },
            decreases n - i,
        {
            let copy = match &self.slots[i] {
                Slot::Occupied(v) => Slot::Occupied(v.clone()),
                Slot::Reserved => Slot::Reserved,
                Slot::Vacant => Slot::Vacant,
            };
            slots.push(copy);
            i = i + 1;
        }
        let c = Storage {
            slots,
            generations: copy_vec(&self.generations),
            empty_slots: copy_vec(&self.empty_slots),
            live: self.live,
        };
        proof {
            let e = self.model().entries;
            let ce = c.model().entries;
            assert forall|j: int| 0 <= j < e.len() implies #[trigger] ce[j] is Some <==> e[j] is Some by {}
            assert(occupied_count(ce) == occupied_count(e)) by {
                lemma_same_shape_count(e, ce);
            }
        }
        c
    }
}

impl<T> Storage<T> {
    pub(crate) open spec fn model(&self) -> SparseMapModel<T> {
        SparseMapModel {
            entries: self.slots@.map_values(|s: Slot<T>| s.value()),
            generations: self.generations@,
            free: self.empty_slots@,
        }
    }

    /// The model is well formed, a slot is vacant exactly when it is in the
    /// free list, and `live` counts the occupied slots.
    pub(crate) open spec fn wf(&self) -> bool {
        &&& self.model().wf()
        &&& forall|i: int|
            0 <= i < self.slots@.len() ==> ((#[trigger] self.slots@[i]) is Vacant
                <==> self.empty_slots@.contains(i as usize))
        &&& self.live == occupied_count(self.model().entries)
    }

    pub(crate) fn empty() -> (s: Self)
        ensures
            s.wf(),
            s.model() == SparseMapModel::<T>::empty(),
    {
        let s = Storage {
            slots: Vec::new(),
            generations: Vec::new(),
            empty_slots: Vec::new(),
            live: 0,
        };
        assert(s.model() =~= SparseMapModel::<T>::empty());
        s
    }

    pub(crate) fn len(&self) -> (n: usize)
        requires
            self.wf(),
        ensures
            n == self.model().len(),
    {
        self.live
    }

    pub(crate) fn key_matches(&self, index: usize, generation: u32) -> (r: bool)
        requires
            self.wf(),
        ensures
            r == self.model().key_matches((index, generation)),
        no_unwind
    {
        index < self.slots.len() && self.generations[index] == generation
    }

    /// The slot buffer, to be written through in place.
    pub(crate) fn slots_mut(&mut self) -> (slots: &mut Vec<Slot<T>>)
        ensures
            *slots == old(self).slots,
            final(self).slots == *final(slots),
            final(self).generations == old(self).generations,
            final(self).empty_slots == old(self).empty_slots,
            final(self).live == old(self).live,
        no_unwind
    {
        &mut self.slots
    }

    /// Sets aside the slot of the next key, still empty, and returns that key.
    pub(crate) fn reserve(&mut self) -> (key: (usize, u32))
        requires
            old(self).wf(),
        ensures
            final(self).wf(),
            key == old(self).model().next_key(),
            final(self).model() == old(self).model().reserve(),
            final(self).model().can_restore(key),
    {
        let ghost m = self.model();
        match self.empty_slots.pop() {
            Some(index) => {
                assert(m.free[m.free.len() - 1] == index);
                let generation = self.generations[index].wrapping_add(1);
                self.generations[index] = generation;
                self.slots[index] = Slot::Reserved;
                proof {
                    let f = self.empty_slots@;
                    assert(f =~= m.free.drop_last());
                    assert forall|j: int| 0 <= j < f.len() implies f[j] != index by {
                        assert(m.free[j] == f[j]);
                    }
                    assert forall|i: int| 0 <= i < self.slots@.len() implies ((
                    #[trigger] self.slots@[i]) is Vacant <==> f.contains(i as usize)) by {
                        if i != index {
                            if f.contains(i as usize) {
                                let j = choose|j: int| 0 <= j < f.len() && f[j] == i as usize;
                                assert(m.free[j] == i as usize);
                            }
                            if m.free.contains(i as usize) {
                                let j = choose|j: int|
                                    0 <= j < m.free.len() && m.free[j] == i as usize;
                                assert(j != m.free.len() - 1);
                                assert(f[j] == i as usize);
                            }
                        }
                    }
                    assert(self.model().entries =~= m.entries);
                    assert(self.model() =~= m.reserve());
                }
                (index, generation)
            },
            None => {
                let index = self.slots.len();
                self.slots.push(Slot::Reserved);
                self.generations.push(0);
                proof {
                    assert(self.model().entries =~= m.entries.push(None));
                    assert(self.model() =~= m.reserve());
                    lemma_occupied_count(m.entries);
                    assert(m.entries.push(None).drop_last() =~= m.entries);
                    assert forall|j: int| 0 <= j < m.free.len() implies self.model().entries[
                        #[trigger] m.free[j] as int] is None by {
                        assert(m.entries[m.free[j] as int] is None);
                    }
                    assert(self.slots.len() <= usize::MAX);
                    assert forall|i: int| 0 <= i < self.slots@.len() implies ((
                    #[trigger] self.slots@[i]) is Vacant <==> self.empty_slots@.contains(i as usize)) by {
                        if i < index {
                            assert(self.slots@[i] == old(self).slots@[i]);
                        }
                    }
                }
                (index, 0)
            },
        }
    }

    /// Stores `value` under the key (index, generation) when its slot exists
    /// at that generation, taking the slot back off the free list if it was
    /// freed in the meantime.
    pub(crate) fn place(&mut self, index: usize, generation: u32, value: T)
        requires
            old(self).wf(),
        ensures
            final(self).wf(),
            final(self).model() == old(self).model().place((index, generation), value),
    {
        let ghost m = self.model();
        if self.key_matches(index, generation) {
            let vacant = matches!(self.slots[index], Slot::Vacant);
            let occupied = matches!(self.slots[index], Slot::Occupied(_));
            if vacant {
                let p = self.position_in_free_list(index);
                self.empty_slots.remove(p);
                proof {
                    let f = self.empty_slots@;
                    m.free.remove_ensures(p as int);
                    assert(m.free.index_of(index) == p as int);
                    assert forall|a: int, b: int| 0 <= a < f.len() && 0 <= b < f.len() && a != b implies f[a] != f[b] by {
                        let a0 = if a < p { a } else { a + 1 };
                        let b0 = if b < p { b } else { b + 1 };
                        assert(f[a] == m.free[a0] && f[b] == m.free[b0]);
                    }
                    assert forall|j: int| 0 <= j < f.len() implies f[j] != index by {
                        let j0 = if j < p { j } else { j + 1 };
                        assert(f[j] == m.free[j0]);
                    }
                }
            }
            proof {
                lemma_occupied_count_update(m.entries, index as int, Some(value));
                lemma_occupied_count(m.entries.update(index as int, Some(value)));
            }
            self.slots[index] = Slot::Occupied(value);
            if !occupied {
                self.live = self.live + 1;
            }
            proof {
                let f = self.empty_slots@;
                assert(self.model().entries =~= m.entries.update(index as int, Some(value)));
                assert(self.model() =~= m.place((index, generation), value));
                assert forall|i: int| 0 <= i < self.slots@.len() implies ((
                #[trigger] self.slots@[i]) is Vacant <==> f.contains(i as usize)) by {
                    if i != index && vacant {
                        let p = m.free.index_of(index);
                        if f.contains(i as usize) {
                            let j = choose|j: int| 0 <= j < f.len() && f[j] == i as usize;
                            let j0 = if j < p { j } else { j + 1 };
                            assert(m.free[j0] == i as usize);
                        }
                        if m.free.contains(i as usize) {
                            let j = choose|j: int| 0 <= j < m.free.len() && m.free[j] == i as usize;
                            assert(j != p);
                            let j1 = if j < p { j } else { j - 1 };
                            assert(f[j1] == i as usize);
                        }
                    }
                    if i == index && vacant {
                        assert(!f.contains(index));
                    }
                }
                assert forall|j: int| 0 <= j < f.len() implies (#[trigger] f[j]) < self.slots@.len()
                    && self.model().entries[f[j] as int] is None by {
                    if vacant {
                        let p = m.free.index_of(index);
                        let j0 = if j < p { j } else { j + 1 };
                        assert(f[j] == m.free[j0]);
                        assert(f[j] != index);
                    } else {
                        assert(f[j] == m.free[j]);
                        assert(f[j] != index);
                    }
                }
            }
        } else {
            assert(self.model() =~= m.place((index, generation), value));
        }
    }

    /// Where the vacant slot `index` stands in the free list.
    fn position_in_free_list(&self, index: usize) -> (p: usize)
        requires
            self.wf(),
            index < self.slots@.len(),
            self.slots@[index as int] is Vacant,
        ensures
            p < self.empty_slots@.len(),
            self.empty_slots@[p as int] == index,
    {
        assert(self.empty_slots@.contains(index));
        let n = self.empty_slots.len();
        let mut p: usize = 0;
        while p < n && self.empty_slots[p] != index
            invariant
                n == self.empty_slots@.len(),
                p <= n,
                self.empty_slots@.contains(index),
                forall|q: int| 0 <= q < p ==> self.empty_slots@[q] != index,
            decreases n - p,
        {
            p = p + 1;
        }
        p
    }

    /// Removes the value of the key (index, generation), if there is one, and
    /// frees its slot.
    pub(crate) fn remove(&mut self, index: usize, generation: u32) -> (r: Option<T>)
        requires
            old(self).wf(),
        ensures
            final(self).wf(),
            r == old(self).model().lookup((index, generation)),
            final(self).model() == old(self).model().remove((index, generation)),
    {
        let ghost m = self.model();
        if self.key_matches(index, generation) && matches!(self.slots[index], Slot::Occupied(_)) {
            let mut slot = Slot::Vacant;
            std::mem::swap(&mut slot, &mut self.slots[index]);
            self.empty_slots.push(index);
            proof {
                lemma_occupied_count_update(m.entries, index as int, None);
            }
            self.live = self.live - 1;
            proof {
                let f = self.empty_slots@;
                assert(self.model().entries =~= m.entries.update(index as int, None));
                assert(!m.free.contains(index));
                assert forall|i: int| 0 <= i < self.slots@.len() implies ((
                #[trigger] self.slots@[i]) is Vacant <==> f.contains(i as usize)) by {
                    if i != index {
                        if f.contains(i as usize) {
                            let j = choose|j: int| 0 <= j < f.len() && f[j] == i as usize;
                            assert(m.free[j] == i as usize);
                        }
                        if m.free.contains(i as usize) {
                            let j = choose|j: int| 0 <= j < m.free.len() && m.free[j] == i as usize;
                            assert(f[j] == i as usize);
                        }
                    } else {
                        assert(f[f.len() - 1] == index);
                    }
                }
                assert forall|j: int| 0 <= j < f.len() implies (#[trigger] f[j]) < self.slots@.len()
                    && self.model().entries[f[j] as int] is None by {
                    if j < m.free.len() {
                        assert(f[j] == m.free[j]);
                    }
                }
                assert(self.model() =~= m.remove((index, generation)));
            }
            match slot {
                Slot::Occupied(v) => Some(v),
                _ => None,
            }
        } else {
            assert(self.model() =~= m.remove((index, generation)));
            None
        }
    }

    /// Checks out the value of the key (index, generation), if there is one;
    /// its slot stays reserved.
    pub(crate) fn take(&mut self, index: usize, generation: u32) -> (r: Option<T>)
        requires
            old(self).wf(),
        ensures
            final(self).wf(),
            r == old(self).model().lookup((index, generation)),
            final(self).model() == old(self).model().take((index, generation)),
    {
        let ghost m = self.model();
        if self.key_matches(index, generation) && matches!(self.slots[index], Slot::Occupied(_)) {
            let mut slot = Slot::Reserved;
            std::mem::swap(&mut slot, &mut self.slots[index]);
            proof {
                lemma_occupied_count_update(m.entries, index as int, None);
            }
            self.live = self.live - 1;
            proof {
                assert(self.model().entries =~= m.entries.update(index as int, None));
                assert(self.model() =~= m.take((index, generation)));
            }
            match slot {
                Slot::Occupied(v) => Some(v),
                _ => None,
            }
        } else {
            assert(self.model() =~= m.take((index, generation)));
            None
        }
    }

    /// Puts `value` into the slot of the key (index, generation) if that slot
    /// is reserved, and says whether it did.
    pub(crate) fn restore(&mut self, index: usize, generation: u32, value: T) -> (r: bool)
        requires
            old(self).wf(),
        ensures
            final(self).wf(),
            r == old(self).model().can_restore((index, generation)),
            final(self).model() == old(self).model().restore((index, generation), value),
    {
        let ghost m = self.model();
        if self.key_matches(index, generation) && matches!(self.slots[index], Slot::Reserved) {
            proof {
                lemma_occupied_count_update(m.entries, index as int, Some(value));
                lemma_occupied_count(m.entries.update(index as int, Some(value)));
            }
            self.slots[index] = Slot::Occupied(value);
            self.live = self.live + 1;
            proof {
                assert(self.model().entries =~= m.entries.update(index as int, Some(value)));
                assert(self.model() =~= m.restore((index, generation), value));
            }
            true
        } else {
            proof {
                if m.key_matches((index, generation)) && m.entries[index as int] is None {
                    assert(self.slots@[index as int] is Vacant);
                }
            }
            false
        }
    }

    /// The value that the key (index, generation) refers to, if any.
    pub(crate) fn get(&self, index: usize, generation: u32) -> (r: Option<&T>)
        requires
            self.wf(),
        ensures
            r is Some <==> self.model().lookup((index, generation)) is Some,
            r is Some ==> *r->0 == self.model().lookup((index, generation))->0,
    {
        if self.key_matches(index, generation) {
            match &self.slots[index] {
                Slot::Occupied(v) => Some(v),
                _ => None,
            }
        } else {
            None
        }
    }

    /// The value held in slot `index`, whatever its generation.
    pub(crate) fn slot_value(&self, index: usize) -> (r: Option<&T>)
        requires
            self.wf(),
        ensures
            r is Some <==> index < self.model().slot_count() && self.model().entries[index as int] is Some,
            r is Some ==> *r->0 == self.model().entries[index as int]->0,
    {
        if index < self.slots.len() {
            match &self.slots[index] {
                Slot::Occupied(v) => Some(v),
                _ => None,
            }
        } else {
            None
        }
    }

    /// The current generation of slot `index`, if the slot exists.
    pub(crate) fn generation_at(&self, index: usize) -> (r: Option<u32>)
        requires
            self.wf(),
        ensures
            r == if index < self.model().slot_count() {
                Some(self.model().generations[index as int])
            } else {
                None
            },
    {
        if index < self.generations.len() {
            Some(self.generations[index])
        } else {
            None
        }
    }

    /// A mutable reference to the value that the key (index, generation)
    /// refers to, if any.
    pub(crate) fn get_mut(&mut self, index: usize, generation: u32) -> (r: Option<&mut T>)
        requires
            old(self).wf(),
        ensures
            final(self).wf(),
            r is Some <==> old(self).model().lookup((index, generation)) is Some,
            r is Some ==> *r->0 == old(self).model().lookup((index, generation))->0
                && final(self).model() == old(self).model().place((index, generation), *final(r->0)),
            r is None ==> final(self).model() == old(self).model(),
            r is Some ==> final(self).slots@ == old(self).slots@.update(index as int, Slot::Occupied(*final(r->0))),
            final(self).live == old(self).live,
            final(self).empty_slots@ == old(self).empty_slots@,
            final(self).generations@ == old(self).generations@,
        no_unwind
    {
        let ghost m = self.model();
        if self.key_matches(index, generation) && matches!(self.slots[index], Slot::Occupied(_)) {
            match &mut self.slots[index] {
                Slot::Occupied(v) => {
                    proof {
                        lemma_overwrite_keeps_wf(*old(self), index as int);
                    }
                    Some(v)
                },
                _ => None,
            }
        } else {
            None
        }
    }

    /// Frees every occupied slot, in slot order, bumping its generation; the
    /// values go to the back of `out` when `keep` is set and are dropped
    /// otherwise. Reserved slots are left as they are.
    pub(crate) fn release_all(&mut self, out: &mut VecDeque<T>, keep: bool)
        requires
            old(self).wf(),
        ensures
            final(self).wf(),
            final(self).model() == old(self).model().clear(),
            final(out)@ == old(out)@ + if keep {
                old(self).model().values()
            } else {
                Seq::empty()
            },
    {
        let ghost m = self.model();
        let n = self.slots.len();
        let mut i: usize = 0;
        proof {
            assert(m.entries.take(0) =~= Seq::<Option<T>>::empty());
            assert(self.model() =~= cleared_prefix(m, 0));
        }
        while i < n
            invariant
                0 <= i <= n,
                n == m.entries.len(),
                m.wf(),
                self.wf(),
                self.model() == cleared_prefix(m, i as int),
                out@ == old(out)@ + if keep {
                    live_values(m.entries.take(i as int))
                } else {
                    Seq::empty()
                },
            decreases n - i,
        {
            let ghost cur = self.model();
            let ghost out_before = out@;
            proof {
                lemma_prefix_step(m.entries, i as int);
                assert(cur.entries[i as int] == m.entries[i as int]);
            }
            if matches!(self.slots[i], Slot::Occupied(_)) {
                let mut slot = Slot::Vacant;
                std::mem::swap(&mut slot, &mut self.slots[i]);
                let generation = self.generations[i].wrapping_add(1);
                self.generations[i] = generation;
                self.empty_slots.push(i);
                proof {
                    lemma_occupied_count_update(cur.entries, i as int, None);
                }
                self.live = self.live - 1;
                match slot {
                    Slot::Occupied(v) => {
                        if keep {
                            out.push_back(v);
                        }
                    },
                    _ => {},
                }
                proof {
                    let next = cleared_prefix(m, i + 1);
                    let f = self.empty_slots@;
                    assert(!cur.free.contains(i));
                    assert(self.model().entries =~= cur.entries.update(i as int, None));
                    assert(self.model().entries =~= next.entries);
                    assert(self.model().generations =~= next.generations);
                    assert(f =~= next.free);
                    assert forall|j: int| 0 <= j < self.slots@.len() implies ((
                    #[trigger] self.slots@[j]) is Vacant <==> f.contains(j as usize)) by {
                        if j != i {
                            if f.contains(j as usize) {
                                let k = choose|k: int| 0 <= k < f.len() && f[k] == j as usize;
                                assert(cur.free[k] == j as usize);
                            }
                            if cur.free.contains(j as usize) {
                                let k = choose|k: int|
                                    0 <= k < cur.free.len() && cur.free[k] == j as usize;
                                assert(f[k] == j as usize);
                            }
                        } else {
                            assert(f[f.len() - 1] == i);
                        }
                    }
                    assert forall|k: int| 0 <= k < f.len() implies (#[trigger] f[k]) < n
                        && self.model().entries[f[k] as int] is None by {
                        if k < cur.free.len() {
                            assert(f[k] == cur.free[k]);
                        }
                    }
                    assert(self.model().wf());
                    if keep {
                        assert(out@ =~= old(out)@ + live_values(m.entries.take(i + 1)));
                    } else {
                        assert(out@ =~= old(out)@ + Seq::<T>::empty());
                    }
                }
            } else {
                proof {
                    assert(self.model() =~= cleared_prefix(m, i + 1));
                }
            }
            i = i + 1;
        }
        proof {
            assert(m.entries.take(n as int) =~= m.entries);
            assert(self.model() =~= m.clear());
        }
    }

    /// References to the held values, in slot order.
    pub(crate) fn values(&self) -> (r: Vec<&T>)
        requires
            self.wf(),
        ensures
            r@.len() == self.model().values().len(),
            forall|j: int| 0 <= j < r@.len() ==> *r@[j] == self.model().values()[j],
    {
        let ghost e = self.model().entries;
        let mut out: Vec<&T> = Vec::new();
        let n = self.slots.len();
        let mut i: usize = 0;
        proof {
            assert(e.take(0) =~= Seq::<Option<T>>::empty());
        }
        while i < n
            invariant
                0 <= i <= n,
                n == e.len(),
                e == self.model().entries,
                out@.len() == live_values(e.take(i as int)).len(),
                forall|j: int| 0 <= j < out@.len() ==> *out@[j] == live_values(e.take(i as int))[j],
            decreases n - i,
        {
            proof {
                lemma_prefix_step(e, i as int);
            }
            match &self.slots[i] {
                Slot::Occupied(v) => {
                    out.push(v);
                },
                _ => {},
            }
            i = i + 1;
        }
        proof {
            assert(e.take(n as int) =~= e);
        }
        out
    }

    /// Splits the storage into the values of its slots, their generations
    /// and the free list.
    pub(crate) fn into_parts(self) -> (parts: (Vec<Option<T>>, Vec<u32>, Vec<usize>))
        ensures
            parts.0@ == self.model().entries,
            parts.1@ == self.model().generations,
            parts.2@ == self.model().free,
    {
        let ghost orig = self.slots@;
        let Storage { slots, generations, empty_slots, live: _ } = self;
        let mut slots = slots;
        let n = slots.len();
        let mut reversed: Vec<Slot<T>> = Vec::new();
        while slots.len() > 0
            invariant
                n == orig.len(),
                slots@.len() + reversed@.len() == n,
                slots@ == orig.take(slots@.len() as int),
                forall|j: int| 0 <= j < reversed@.len() ==> reversed@[j] == orig[n - 1 - j],
            decreases slots@.len(),
        {
            let slot = slots.pop().unwrap();
            reversed.push(slot);
            proof {
                assert(slots@ =~= orig.take(slots@.len() as int));
            }
        }
        let mut values: Vec<Option<T>> = Vec::new();
        while reversed.len() > 0
            invariant
                n == orig.len(),
                values@.len() + reversed@.len() == n,
                forall|j: int| 0 <= j < reversed@.len() ==> reversed@[j] == orig[n - 1 - j],
                forall|j: int| 0 <= j < values@.len() ==> values@[j] == orig[j].value(),
            decreases reversed@.len(),
        {
            let slot = reversed.pop().unwrap();
            let value = match slot {
                Slot::Occupied(v) => Some(v),
                _ => None,
            };
            values.push(value);
        }
        proof {
            assert(values@ =~= orig.map_values(|s: Slot<T>| s.value()));
        }
        (values, generations, empty_slots)
    }
}

} // verus!
