use vstd::prelude::*;

verus! {

/// The generation a slot moves to when it is reused or freed by `clear`:
/// one more, wrapping around at `u32::MAX`.
pub open spec fn next_generation(g: u32) -> u32 {
    if g == u32::MAX {
        0
    } else {
        (g + 1) as u32
    }
}

/// How many slots of `entries` hold a value.
pub open spec fn occupied_count<T>(entries: Seq<Option<T>>) -> nat
    decreases entries.len(),
{
    if entries.len() == 0 {
        0
    } else {
        occupied_count(entries.drop_last()) + if entries.last() is Some {
            1nat
        } else {
            0nat
        }
    }
}

/// The values held in `entries`, in slot order.
pub open spec fn live_values<T>(entries: Seq<Option<T>>) -> Seq<T>
    decreases entries.len(),
{
    if entries.len() == 0 {
        Seq::empty()
    } else {
        let rest = live_values(entries.drop_last());
        match entries.last() {
            Some(v) => rest.push(v),
            None => rest,
        }
    }
}

/// The indices of the slots of `entries` that hold a value, in increasing order.
pub open spec fn occupied_indices<T>(entries: Seq<Option<T>>) -> Seq<usize>
    decreases entries.len(),
{
    if entries.len() == 0 {
        Seq::empty()
    } else {
        let rest = occupied_indices(entries.drop_last());
        if entries.last() is Some {
            rest.push((entries.len() - 1) as usize)
        } else {
            rest
        }
    }
}

/// Counting facts: at most one value per slot, and `live_values` and
/// `occupied_indices` list exactly the occupied slots.
pub proof fn lemma_occupied_count<T>(entries: Seq<Option<T>>)
    ensures
        occupied_count(entries) <= entries.len(),
        live_values(entries).len() == occupied_count(entries),
        occupied_indices(entries).len() == occupied_count(entries),
    decreases entries.len(),
{
    if entries.len() > 0 {
        lemma_occupied_count(entries.drop_last());
    }
}

/// Writing `x` into slot `i` changes the count by what leaves and what arrives.
pub proof fn lemma_occupied_count_update<T>(entries: Seq<Option<T>>, i: int, x: Option<T>)
    requires
        0 <= i < entries.len(),
    ensures
        occupied_count(entries.update(i, x)) + (if entries[i] is Some { 1int } else { 0int })
            == occupied_count(entries) + (if x is Some { 1int } else { 0int }),
    decreases entries.len(),
{
    let u = entries.update(i, x);
    if i == entries.len() - 1 {
        assert(u.drop_last() =~= entries.drop_last());
    } else {
        assert(u.drop_last() =~= entries.drop_last().update(i, x));
        lemma_occupied_count_update(entries.drop_last(), i, x);
    }
}

/// `occupied_indices` lists, in strictly increasing order, exactly the
/// occupied slots.
pub proof fn lemma_occupied_indices<T>(entries: Seq<Option<T>>)
    requires
        entries.len() <= usize::MAX,
    ensures
        forall|j: int|
            0 <= j < occupied_indices(entries).len() ==> {
                &&& (#[trigger] occupied_indices(entries)[j]) < entries.len()
                &&& entries[occupied_indices(entries)[j] as int] is Some
            },
        forall|j: int, k: int|
            0 <= j < k < occupied_indices(entries).len() ==> (#[trigger] occupied_indices(
                entries,
            )[j]) < (#[trigger] occupied_indices(entries)[k]),
        forall|i: int|
            0 <= i < entries.len() && (#[trigger] entries[i]) is Some ==> occupied_indices(
                entries,
            ).contains(i as usize),
    decreases entries.len(),
{
    if entries.len() > 0 {
        let rest = entries.drop_last();
        lemma_occupied_indices(rest);
        let r = occupied_indices(rest);
        let o = occupied_indices(entries);
        let last = (entries.len() - 1) as usize;
        assert forall|j: int| 0 <= j < r.len() implies (#[trigger] r[j]) < entries.len() - 1 && entries[r[j] as int]
            is Some by {
            assert(rest[r[j] as int] == entries[r[j] as int]);
        }
        if entries.last() is Some {
            assert(o == r.push(last));
        } else {
            assert(o == r);
        }
        assert forall|j: int| 0 <= j < o.len() implies (#[trigger] o[j]) < entries.len()
            && entries[o[j] as int] is Some by {
            if j < r.len() {
                assert(o[j] == r[j]);
            }
        }
        assert forall|j: int, k: int| 0 <= j < k < o.len() implies (#[trigger] o[j]) < (
        #[trigger] o[k]) by {
            if k < r.len() {
                assert(o[j] == r[j] && o[k] == r[k]);
            } else {
                assert(o[j] == r[j]);
            }
        }
        assert forall|i: int| 0 <= i < entries.len() && (#[trigger] entries[i]) is Some implies o.contains(
            i as usize,
        ) by {
            if i < entries.len() - 1 {
                assert(rest[i] == entries[i]);
                assert(r.contains(i as usize));
                let j = choose|j: int| 0 <= j < r.len() && r[j] == i as usize;
                assert(o[j] == i as usize);
            } else {
                assert(o[r.len() as int] == i as usize);
            }
        }
    }
}

/// Extending a prefix by one slot extends the counts, the values and the
/// indices by that slot.
pub proof fn lemma_prefix_step<T>(entries: Seq<Option<T>>, i: int)
    requires
        0 <= i < entries.len(),
    ensures
        occupied_count(entries.take(i + 1)) == occupied_count(entries.take(i)) + if entries[i] is Some {
            1nat
        } else {
            0nat
        },
        live_values(entries.take(i + 1)) == match entries[i] {
            Some(v) => live_values(entries.take(i)).push(v),
            None => live_values(entries.take(i)),
        },
        occupied_indices(entries.take(i + 1)) == if entries[i] is Some {
            occupied_indices(entries.take(i)).push(i as usize)
        } else {
            occupied_indices(entries.take(i))
        },
{
    assert(entries.take(i + 1).drop_last() =~= entries.take(i));
}

/// A longer prefix holds at least as many values.
pub proof fn lemma_prefix_count_monotone<T>(entries: Seq<Option<T>>, i: int, j: int)
    requires
        0 <= i <= j <= entries.len(),
    ensures
        occupied_count(entries.take(i)) <= occupied_count(entries.take(j)),
    decreases j - i,
{
    if i < j {
        lemma_prefix_count_monotone(entries, i, j - 1);
        lemma_prefix_step(entries, j - 1);
    }
}

/// Two sequences with values in the same slots have the same count.
pub proof fn lemma_same_shape_count<T>(a: Seq<Option<T>>, b: Seq<Option<T>>)
    requires
        a.len() == b.len(),
        forall|i: int| 0 <= i < a.len() ==> (#[trigger] b[i] is Some <==> a[i] is Some),
    ensures
        occupied_count(a) == occupied_count(b),
    decreases a.len(),
{
    if a.len() > 0 {
        lemma_same_shape_count(a.drop_last(), b.drop_last());
    }
}

/// The mathematical model of a sparse map.
///
/// - `entries[i]` is the value held in slot `i`, or `None` when the slot is
///   empty;
/// - `generations[i]` is the current generation of slot `i`;
/// - `free` lists the empty slots that are ready for reuse; the last one is
///   reused first.
///
/// An empty slot that is not in `free` is *reserved*: its value has been
/// checked out by `take` (or `scope`) and only `restore` fills it again.
#[verifier::ext_equal]
pub struct SparseMapModel<T> {
    pub entries: Seq<Option<T>>,
    pub generations: Seq<u32>,
    pub free: Seq<usize>,
}

impl<T> SparseMapModel<T> {
    /// The model of a map with no slots.
    pub open spec fn empty() -> Self {
        SparseMapModel { entries: Seq::empty(), generations: Seq::empty(), free: Seq::empty() }
    }

    /// Every slot has a generation, the slot count fits a `usize`, and the
    /// free list names distinct empty slots.
    pub open spec fn wf(self) -> bool {
        &&& self.entries.len() == self.generations.len()
        &&& self.entries.len() <= usize::MAX
        &&& forall|j: int|
            0 <= j < self.free.len() ==> {
                &&& (#[trigger] self.free[j]) < self.entries.len()
                &&& self.entries[self.free[j] as int] is None
            }
        &&& self.free.no_duplicates()
    }

    /// The number of slots.
    pub open spec fn slot_count(self) -> nat {
        self.entries.len()
    }

    /// Whether `key` names an existing slot at its current generation.
    pub open spec fn key_matches(self, key: (usize, u32)) -> bool {
        &&& key.0 < self.entries.len()
        &&& self.generations[key.0 as int] == key.1
    }

    /// The value that `key` refers to, if any.
    pub open spec fn lookup(self, key: (usize, u32)) -> Option<T> {
        if self.key_matches(key) {
            self.entries[key.0 as int]
        } else {
            None
        }
    }

    /// The number of values held.
    pub open spec fn len(self) -> nat {
        occupied_count(self.entries)
    }

    /// The values held, in slot order.
    pub open spec fn values(self) -> Seq<T> {
        live_values(self.entries)
    }

    /// The key that the next insertion hands out: the most recently freed
    /// slot at its next generation, or a new slot at generation 0.
    pub open spec fn next_key(self) -> (usize, u32) {
        if self.free.len() == 0 {
            (self.entries.len() as usize, 0u32)
        } else {
            let i = self.free.last();
            (i, next_generation(self.generations[i as int]))
        }
    }

    /// The map once the slot of `next_key()` is set aside, still empty.
    pub open spec fn reserve(self) -> Self {
        if self.free.len() == 0 {
            SparseMapModel {
                entries: self.entries.push(None),
                generations: self.generations.push(0),
                free: self.free,
            }
        } else {
            let i = self.free.last();
            SparseMapModel {
                entries: self.entries,
                generations: self.generations.update(
                    i as int,
                    next_generation(self.generations[i as int]),
                ),
                free: self.free.drop_last(),
            }
        }
    }

    /// The map once `value` is stored under `key`, when the key's slot
    /// exists at the key's generation; a slot that was freed in the meantime
    /// is taken back off the free list. Nothing changes when the slot is
    /// missing or at another generation.
    pub open spec fn place(self, key: (usize, u32), value: T) -> Self {
        if self.key_matches(key) {
            SparseMapModel {
                entries: self.entries.update(key.0 as int, Some(value)),
                generations: self.generations,
                free: if self.free.contains(key.0) {
                    self.free.remove(self.free.index_of(key.0))
                } else {
                    self.free
                },
            }
        } else {
            self
        }
    }

    /// The map once `value` is inserted under `next_key()`.
    pub open spec fn insert(self, value: T) -> Self {
        self.reserve().place(self.next_key(), value)
    }

    /// The map once the value of `key` is removed and its slot freed.
    pub open spec fn remove(self, key: (usize, u32)) -> Self {
        if self.lookup(key) is Some {
            SparseMapModel {
                entries: self.entries.update(key.0 as int, None),
                generations: self.generations,
                free: self.free.push(key.0),
            }
        } else {
            self
        }
    }

    /// The map once the value of `key` is checked out; the slot stays
    /// reserved for `key`.
    pub open spec fn take(self, key: (usize, u32)) -> Self {
        if self.lookup(key) is Some {
            SparseMapModel { entries: self.entries.update(key.0 as int, None), ..self }
        } else {
            self
        }
    }

    /// Whether `key` names a reserved slot, that `restore` fills.
    pub open spec fn can_restore(self, key: (usize, u32)) -> bool {
        &&& self.key_matches(key)
        &&& self.entries[key.0 as int] is None
        &&& !self.free.contains(key.0)
    }

    /// The map once `value` is put back under `key`, if `key` names a
    /// reserved slot.
    pub open spec fn restore(self, key: (usize, u32), value: T) -> Self {
        if self.can_restore(key) {
            SparseMapModel { entries: self.entries.update(key.0 as int, Some(value)), ..self }
        } else {
            self
        }
    }

    /// The map with the held values replaced, in slot order, by `vals`.
    pub open spec fn with_values(self, vals: Seq<T>) -> Self {
        SparseMapModel {
            entries: Seq::new(
                self.entries.len(),
                |i: int|
                    if self.entries[i] is Some {
                        Some(vals[occupied_count(self.entries.take(i)) as int])
                    } else {
                        None
                    },
            ),
            ..self
        }
    }

    /// The map once every value is removed: each slot that held a value gets
    /// its next generation and joins the free list, in slot order; reserved
    /// slots are left as they are.
    pub open spec fn clear(self) -> Self {
        SparseMapModel {
            entries: Seq::new(self.entries.len(), |i: int| None),
            generations: Seq::new(
                self.generations.len(),
                |i: int|
                    if self.entries[i] is Some {
                        next_generation(self.generations[i])
                    } else {
                        self.generations[i]
                    },
            ),
            free: self.free + occupied_indices(self.entries),
        }
    }
}

} // verus!
