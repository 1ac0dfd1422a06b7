use vstd::prelude::*;

use crate::key::Key;
use crate::model::{SparseMapModel, lemma_occupied_count};
use crate::storage::{Storage, occupied_refs_mut, lemma_refill_keeps_wf, storage_from_parts};
use std::collections::VecDeque;

verus! {

/// A sparse, generational map keyed by [`Key`].
///
/// `SparseMap` hands out stable keys that carry a generation, so that a key
/// to a removed value never reaches a value stored later in the same slot.
/// Vacant slots are reused, most recently freed first, and reusing a slot
/// bumps its generation.
///
/// Insertion, removal and lookup take constant time.
#[derive(Debug, PartialEq)]
pub struct SparseMap<T> {
    storage: Storage<T>,
}

impl<T> View for SparseMap<T> {
    type V = SparseMapModel<T>;

    closed spec fn view(&self) -> SparseMapModel<T> {
        self.storage.model()
    }
}

impl<T> SparseMap<T> {
    /// The map's internal bookkeeping is consistent. Every map that
    /// [`Self::new`] builds has it, and every operation keeps it.
    pub closed spec fn well_formed(&self) -> bool {
        self.storage.wf()
    }

    /// A well-formed map has a well-formed model.
    pub proof fn lemma_well_formed(&self)
        requires
            self.well_formed(),
        ensures
            self@.wf(),
    {
    }

    /// Creates a new empty sparse map.
    pub fn new() -> (map: Self)
        ensures
            map.well_formed(),
            map@ == SparseMapModel::<T>::empty(),
            map@.wf(),
    {
        SparseMap { storage: Storage::empty() }
    }

    /// Inserts a value into the map and returns its unique [`Key`].
    ///
    /// The most recently freed slot is reused, at its next generation, so
    /// that keys to its earlier values stay invalid; when no slot is free a
    /// new one is added at generation 0.
    #[must_use]
    pub fn insert(&mut self, value: T) -> (key: Key)
        requires
            old(self).well_formed(),
        ensures
            final(self).well_formed(),
            key@ == old(self)@.next_key(),
            final(self)@ == old(self)@.insert(value),
            final(self)@.wf(),
    {
        let (index, generation) = self.storage.reserve();
        self.storage.place(index, generation, value);
        Key::new(index, generation)
    }

    /// Like [`Self::insert`], but hands the key to `create`, together with
    /// the map, before the value exists.
    ///
    /// The slot is reserved for the key while `create` runs, so values that
    /// `create` inserts go to other slots; what `create` returns is then
    /// stored under the key, taking the slot back if `create` freed it. The
    /// value is dropped only when the key's slot no longer exists at the
    /// key's generation: `create` replaced the map, or freed the slot and let
    /// an insertion reuse it.
    pub fn insert_with_key<F>(&mut self, create: F) -> (key: Key) where
        F: FnOnce(&mut Self, Key) -> T,

        requires
            old(self).well_formed(),
            forall|m: &mut Self, k: Key|
                m.well_formed() && (*m)@ == old(self)@.reserve() && k@ == old(self)@.next_key()
                    ==> call_requires(create, (m, k)),
            forall|m: &mut Self, k: Key, item: T|
                m.well_formed() && (*m)@ == old(self)@.reserve() && k@ == old(self)@.next_key()
                    && call_ensures(create, (m, k), item) ==> final(m).well_formed(),
        ensures
            final(self).well_formed(),
            key@ == old(self)@.next_key(),
            exists|m: &mut Self, item: T|
                {
                    &&& call_ensures(create, (m, key), item)
                    &&& m.well_formed()
                    &&& (*m)@ == old(self)@.reserve()
                    &&& final(self)@ == (*final(m))@.place(key@, item)
                },
            final(self)@.wf(),
    {
        let key = self.reserve();
        let item = create(self, key);
        self.place(key, item);
        key
    }

    /// Sets aside the slot of the next key, still empty, and returns the key.
    fn reserve(&mut self) -> (key: Key)
        requires
            old(self).well_formed(),
        ensures
            final(self).well_formed(),
            key@ == old(self)@.next_key(),
            final(self)@ == old(self)@.reserve(),
    {
        let (index, generation) = self.storage.reserve();
        Key::new(index, generation)
    }

    /// Stores `value` under `key` when the key's slot exists at the key's
    /// generation, taking the slot back if it was freed.
    fn place(&mut self, key: Key, value: T)
        requires
            old(self).well_formed(),
        ensures
            final(self).well_formed(),
            final(self)@ == old(self)@.place(key@, value),
    {
        self.storage.place(key.index(), key.generation(), value);
    }

    /// Removes the value of the given key and frees its slot for reuse.
    ///
    /// Returns `None` if the key is invalid, already removed, or its value is
    /// checked out.
    pub fn remove(&mut self, key: &Key) -> (removed: Option<T>)
        requires
            old(self).well_formed(),
        ensures
            final(self).well_formed(),
            removed == old(self)@.lookup(key@),
            final(self)@ == old(self)@.remove(key@),
            final(self)@.wf(),
    {
        self.storage.remove(key.index(), key.generation())
    }

    /// Temporarily removes the value at `key` without freeing the slot.
    ///
    /// The slot stays reserved at its current generation, so the key stays
    /// valid for [`Self::restore`]; until then the slot is never reused.
    ///
    /// Returns `None` if the key does not refer to a live value.
    pub fn take(&mut self, key: &Key) -> (taken: Option<T>)
        requires
            old(self).well_formed(),
        ensures
            final(self).well_formed(),
            taken == old(self)@.lookup(key@),
            final(self)@ == old(self)@.take(key@),
            final(self)@.wf(),
    {
        self.storage.take(key.index(), key.generation())
    }

    /// Puts a value back into the slot reserved for `key` by
    /// [`Self::take`].
    ///
    /// Returns `false`, and drops `value`, if the slot is occupied, free, or
    /// the key is no longer valid.
    pub fn restore(&mut self, key: &Key, value: T) -> (restored: bool)
        requires
            old(self).well_formed(),
        ensures
            final(self).well_formed(),
            restored == old(self)@.can_restore(key@),
            final(self)@ == old(self)@.restore(key@, value),
            final(self)@.wf(),
    {
        self.storage.restore(key.index(), key.generation(), value)
    }

    /// Returns a reference to the value of the given key, if present.
    pub fn get(&self, key: &Key) -> (value: Option<&T>)
        requires
            self.well_formed(),
        ensures
            value is Some <==> self@.lookup(key@) is Some,
            value is Some ==> *value->0 == self@.lookup(key@)->0,
    {
        self.storage.get(key.index(), key.generation())
    }

    /// Returns a mutable reference to the value of the given key, if
    /// present.
    pub fn get_mut(&mut self, key: &Key) -> (value: Option<&mut T>)
        requires
            old(self).well_formed(),
        ensures
            final(self).well_formed(),
            value is Some <==> old(self)@.lookup(key@) is Some,
            value is Some ==> *value->0 == old(self)@.lookup(key@)->0 && final(self)@ == old(
                self,
            )@.place(key@, *final(value->0)),
            value is None ==> final(self)@ == old(self)@,
    {
        self.storage.get_mut(key.index(), key.generation())
    }

    /// Checks out the value of `key`, hands it to `f` together with the map,
    /// and puts it back into the same slot once `f` returns.
    ///
    /// While `f` runs the slot is reserved, so `f` may insert or remove
    /// other entries, and the key is valid after the call exactly when it was
    /// before. If `f` frees the slot, it is taken back; the value is dropped
    /// only when the key's slot no longer exists at the key's generation: `f`
    /// replaced the map, or freed the slot and let an insertion reuse it.
    ///
    /// Returns `None`, without calling `f`, if `key` does not refer to a
    /// live value.
    pub fn scope<F, R>(&mut self, key: &Key, f: F) -> (result: Option<R>) where
        F: FnOnce(&mut Self, &mut T) -> R,

        requires
            old(self).well_formed(),
            forall|m: &mut Self, v: &mut T|
                m.well_formed() && (*m)@ == old(self)@.take(key@) && *v == old(self)@.lookup(
                    key@,
                )->0 ==> call_requires(f, (m, v)),
            forall|m: &mut Self, v: &mut T, r: R|
                m.well_formed() && (*m)@ == old(self)@.take(key@) && *v == old(self)@.lookup(
                    key@,
                )->0 && call_ensures(f, (m, v), r) ==> final(m).well_formed(),
        ensures
            final(self).well_formed(),
            result is None <==> old(self)@.lookup(key@) is None,
            result is None ==> final(self)@ == old(self)@,
            result matches Some(r) ==> exists|m: &mut Self, v: &mut T|
                {
                    &&& call_ensures(f, (m, v), r)
                    &&& m.well_formed()
                    &&& (*m)@ == old(self)@.take(key@)
                    &&& *v == old(self)@.lookup(key@)->0
                    &&& final(self)@ == (*final(m))@.place(key@, *final(v))
                },
            final(self)@.wf(),
    {
        let key = *key;
        match self.take(&key) {
            None => None,
            Some(value) => {
                let mut value = value;
                let result = f(self, &mut value);
                self.place(key, value);
                Some(result)
            },
        }
    }

    /// Returns `true` if the key currently refers to a live value.
    pub fn contains(&self, key: &Key) -> (found: bool)
        requires
            self.well_formed(),
        ensures
            found == self@.lookup(key@) is Some,
    {
        self.storage.get(key.index(), key.generation()).is_some()
    }

    /// Returns the number of live values stored in the map, in constant
    /// time. A value checked out by [`Self::take`] is not counted.
    pub fn len(&self) -> (n: usize)
        requires
            self.well_formed(),
        ensures
            n == self@.len(),
            self@.wf(),
    {
        self.storage.len()
    }

    /// Returns `true` if the map holds no live value.
    pub fn is_empty(&self) -> (empty: bool)
        requires
            self.well_formed(),
        ensures
            empty == (self@.len() == 0),
    {
        self.len() == 0
    }

    /// References to every live value, in slot order, which is not
    /// insertion order once slots have been reused.
    pub fn iter(&self) -> (values: Vec<&T>)
        requires
            self.well_formed(),
        ensures
            values@.len() == self@.values().len(),
            forall|j: int| 0 <= j < values@.len() ==> *values@[j] == self@.values()[j],
    {
        self.storage.values()
    }

    /// Mutable references to every live value, in slot order; what is
    /// written through them is what the map holds afterwards.
    pub fn iter_mut(&mut self) -> (values: Vec<&mut T>)
        requires
            old(self).well_formed(),
        ensures
            final(self).well_formed(),
            values@.len() == old(self)@.values().len(),
            forall|j: int| 0 <= j < values@.len() ==> *values@[j] == old(self)@.values()[j],
            final(self)@ == old(self)@.with_values(
                Seq::new(values@.len(), |j: int| *final(values@[j])),
            ),
    {
        proof {
            lemma_refill_keeps_wf(self.storage);
            lemma_occupied_count(self@.entries);
        }
        let slots = self.storage.slots_mut();
        occupied_refs_mut(slots.as_mut_slice())
    }

    /// Removes every live value and hands them out, in slot order, leaving
    /// the map empty.
    ///
    /// Each freed slot has its generation bumped and joins the free list,
    /// so keys to the drained values are invalidated. A slot reserved by
    /// [`Self::take`] or [`Self::scope`] is left untouched.
    pub fn drain(&mut self) -> (drained: Drain<T>)
        requires
            old(self).well_formed(),
        ensures
            final(self).well_formed(),
            drained@ == old(self)@.values(),
            final(self)@ == old(self)@.clear(),
            final(self)@.wf(),
    {
        let mut items = VecDeque::new();
        self.storage.release_all(&mut items, true);
        proof {
            assert(items@ =~= old(self)@.values());
        }
        Drain { items }
    }

    /// Removes every live value stored in the map.
    ///
    /// Like [`Self::drain`] but discards the values. Each freed slot has its
    /// generation bumped, so keys to the removed values are invalidated. A
    /// slot reserved by [`Self::take`] or [`Self::scope`] keeps its
    /// checked-out value and is left untouched for the matching
    /// [`Self::restore`].
    pub fn clear(&mut self)
        requires
            old(self).well_formed(),
        ensures
            final(self).well_formed(),
            final(self)@ == old(self)@.clear(),
            final(self)@.wf(),
    {
        let mut discarded = VecDeque::new();
        self.storage.release_all(&mut discarded, false);
    }

    /// Splits the map into the value held in each slot (`None` for an empty
    /// slot), the generation of each slot, and the stack of free slots.
    pub fn into_parts(self) -> (parts: (Vec<Option<T>>, Vec<u32>, Vec<usize>))
        ensures
            parts.0@ == self@.entries,
            parts.1@ == self@.generations,
            parts.2@ == self@.free,
    {
        self.storage.into_parts()
    }

    /// Rebuilds a map from the parts that [`Self::into_parts`] returns.
    ///
    /// Returns `None` unless there is one generation per slot and the free
    /// list names distinct empty slots. An empty slot that is not in the
    /// free list is reserved, as after [`Self::take`].
    pub fn from_parts(values: Vec<Option<T>>, generations: Vec<u32>, empty_slots: Vec<usize>) -> (map: Option<Self>)
        ensures
            map is Some <==> (SparseMapModel {
                entries: values@,
                generations: generations@,
                free: empty_slots@,
            }).wf(),
            map matches Some(m) ==> m.well_formed() && m@ == (SparseMapModel {
                entries: values@,
                generations: generations@,
                free: empty_slots@,
            }),
    {
        match storage_from_parts(values, generations, empty_slots) {
            Some(storage) => Some(SparseMap { storage }),
            None => None,
        }
    }

    /// The value held in slot `index`, whatever the slot's generation.
    pub fn slot(&self, index: usize) -> (value: Option<&T>)
        requires
            self.well_formed(),
        ensures
            value is Some <==> index < self@.slot_count() && self@.entries[index as int] is Some,
            value is Some ==> *value->0 == self@.entries[index as int]->0,
    {
        self.storage.slot_value(index)
    }

    /// The current generation of slot `index`, if the slot exists.
    pub fn generation_at(&self, index: usize) -> (generation: Option<u32>)
        requires
            self.well_formed(),
        ensures
            generation == if index < self@.slot_count() {
                Some(self@.generations[index as int])
            } else {
                None
            },
    {
        self.storage.generation_at(index)
    }
}

impl<T: Clone> Clone for SparseMap<T> {
    /// A copy with the same slots, generations and free list, each held
    /// value cloned.
    fn clone(&self) -> (copy: Self)
        ensures
            self.well_formed() ==> copy.well_formed(),
            copy@.generations == self@.generations,
            copy@.free == self@.free,
            copy@.entries.len() == self@.entries.len(),
            forall|i: int|
                0 <= i < self@.entries.len() ==> (copy@.entries[i] is Some <==> self@.entries[i] is Some),
            forall|i: int|
                0 <= i < self@.entries.len() && self@.entries[i] is Some ==> cloned(
                    self@.entries[i]->0,
                    copy@.entries[i]->0,
                ),
    {
        SparseMap { storage: self.storage.duplicate() }
    }
}

impl<T> Default for SparseMap<T> {
    fn default() -> (map: Self)
        ensures
            map.well_formed(),
            map@ == SparseMapModel::<T>::empty(),
    {
        SparseMap::new()
    }
}

/// The values removed by [`SparseMap::drain`], handed out in slot order.
pub struct Drain<T> {
    items: VecDeque<T>,
}

impl<T> View for Drain<T> {
    type V = Seq<T>;

    /// The values not yet handed out.
    closed spec fn view(&self) -> Seq<T> {
        self.items@
    }
}

impl<T> Drain<T> {
    /// Hands out the next drained value, or `None` once all have been.
    pub fn next(&mut self) -> (next: Option<T>)
        ensures
            old(self)@.len() == 0 ==> next is None && final(self)@ == old(self)@,
            old(self)@.len() > 0 ==> next == Some(old(self)@[0]) && final(self)@ == old(
                self,
            )@.drop_first(),
    {
        self.items.pop_front()
    }
}

} // verus!
