//! Generational slot storage: stable ids survive deletes without dangling
//! references. A stale id resolves to `None` instead of to whatever value
//! later reuses its slot.

use vstd::prelude::*;
use crate::ids::NONE_IDX;

verus! {

pub struct Slot<T> {
    pub generation: u32,
    pub value: Option<T>,
}

pub struct Arena<T> {
    pub slots: Vec<Slot<T>>,
    /// Indices of vacated slots, reused last-in first-out.
    pub free: Vec<u32>,
}

/// Number of occupied slots in `s`.
pub open spec fn count_live<T>(s: Seq<Slot<T>>) -> nat
    decreases s.len(),
{
    if s.len() == 0 {
        0
    } else {
        count_live(s.drop_last()) + (if s.last().value is Some { 1nat } else { 0nat })
    }
}

impl<T> Arena<T> {
    /// Every free-list entry names an existing slot.
    pub open spec fn wf(&self) -> bool {
        forall|k: int| 0 <= k < self.free@.len() ==> (#[trigger] self.free@[k] as int) < self.slots@.len()
    }

    /// The free list names only vacant slots, each once: reusing one never
    /// overwrites a stored value.
    pub open spec fn free_vacant(&self) -> bool {
        &&& self.wf()
        &&& forall|k: int| 0 <= k < self.free@.len() ==> self.slots@[#[trigger] self.free@[k] as int].value is None
        &&& forall|k: int, l: int| 0 <= k < l < self.free@.len() ==> #[trigger] self.free@[k] != #[trigger] self.free@[l]
    }

    /// Room for one more slot without its index reaching the "none"
    /// sentinel.
    pub open spec fn has_room(&self) -> bool {
        self.slots@.len() < NONE_IDX
    }

    /// Vacating slot `idx` (if occupied) can bump its generation.
    pub open spec fn can_bump(&self, idx: u32) -> bool {
        (idx as int) < self.slots@.len() && self.slots@[idx as int].value is Some
            ==> self.slots@[idx as int].generation < u32::MAX
    }

    pub open spec fn is_live(&self, i: int) -> bool {
        0 <= i < self.slots@.len() && self.slots@[i].value is Some
    }

    /// What the id `(idx, generation)` resolves to.
    pub open spec fn lookup(&self, idx: u32, generation: u32) -> Option<T> {
        if (idx as int) < self.slots@.len() && self.slots@[idx as int].generation == generation {
            self.slots@[idx as int].value
        } else {
            None
        }
    }

    /// The index the next `insert` will use.
    pub open spec fn next_index(&self) -> int {
        if self.free@.len() > 0 {
            self.free@.last() as int
        } else {
            self.slots@.len() as int
        }
    }

    pub fn new() -> (r: Self)
        ensures
            r.slots@.len() == 0,
            r.free@.len() == 0,
            r.free_vacant(),
    {
        Arena { slots: Vec::new(), free: Vec::new() }
    }

    /// `b` is `a` after storing `v` under the id `r`.
    pub open spec fn inserted(a: Self, b: Self, r: (u32, u32), v: T) -> bool {
        &&& r.0 as int == a.next_index()
        &&& r.0 != NONE_IDX
        &&& (a.free@.len() > 0 ==> r.1 == a.slots@[r.0 as int].generation)
        &&& (a.free@.len() == 0 ==> r.1 == 0)
        &&& b.slots@ == (if a.free@.len() > 0 {
            a.slots@.update(r.0 as int, Slot { generation: r.1, value: Some(v) })
        } else {
            a.slots@.push(Slot { generation: r.1, value: Some(v) })
        })
        &&& b.free@ == (if a.free@.len() > 0 {
            a.free@.drop_last()
        } else {
            a.free@
        })
    }

    /// `b` is `a` after vacating slot `idx`: an occupied slot is emptied,
    /// its generation bumped and its index pushed on the free list; an
    /// empty or missing slot changes nothing.
    pub open spec fn vacated(a: Self, b: Self, idx: u32) -> bool {
        if a.is_live(idx as int) {
            &&& b.slots@ == a.slots@.update(
                idx as int,
                Slot { generation: (a.slots@[idx as int].generation + 1) as u32, value: None },
            )
            &&& b.free@ == a.free@.push(idx)
        } else {
            &&& b.slots@ == a.slots@
            &&& b.free@ == a.free@
        }
    }

    /// `b` is `a` after removing the id `(idx, generation)`: vacated when
    /// the id resolves, unchanged when it is stale.
    pub open spec fn removed(a: Self, b: Self, idx: u32, generation: u32) -> bool {
        if a.lookup(idx, generation) is Some {
            Self::vacated(a, b, idx)
        } else {
            &&& b.slots@ == a.slots@
            &&& b.free@ == a.free@
        }
    }

    /// Stores `value` in the most recently vacated slot (or a new one) and
    /// returns its `(idx, generation)`.
    pub fn insert(&mut self, value: T) -> (r: (u32, u32))
        requires
            old(self).wf(),
            old(self).has_room(),
        ensures
            final(self).wf(),
            Self::inserted(*old(self), *final(self), r, value),
            final(self).lookup(r.0, r.1) == Some(value),
            old(self).free_vacant() ==> final(self).free_vacant(),
            old(self).free_vacant() ==> forall|i: u32, g: u32| #[trigger] old(self).lookup(i, g) is Some
                ==> final(self).lookup(i, g) == old(self).lookup(i, g),
    {
        match self.free.pop() {
            Some(idx) => {
                let generation = self.slots[idx as usize].generation;
                self.slots.set(idx as usize, Slot { generation, value: Some(value) });
                proof {
                    if old(self).free_vacant() {
                        assert forall|k: int| 0 <= k < self.free@.len() implies self.slots@[#[trigger] self.free@[k] as int].value is None by {
                            assert(old(self).free@[k] == self.free@[k]);
                            assert(old(self).free@[k] != old(self).free@[old(self).free@.len() - 1]);
                        }
                    }
                }
                (idx, generation)
            }
            None => {
                self.slots.push(Slot { generation: 0, value: Some(value) });
                ((self.slots.len() - 1) as u32, 0)
            }
        }
    }

    /// Vacates the slot `id` names, bumping its generation so every id
    /// issued for the old value goes stale. A stale or out-of-range id
    /// changes nothing.
    pub fn remove(&mut self, id: (u32, u32)) -> (r: Option<T>)
        requires
            old(self).wf(),
            old(self).can_bump(id.0),
        ensures
            final(self).wf(),
            r == old(self).lookup(id.0, id.1),
            Self::removed(*old(self), *final(self), id.0, id.1),
            old(self).free_vacant() ==> final(self).free_vacant(),
            forall|i: u32, g: u32| i != id.0 ==> #[trigger] final(self).lookup(i, g) == old(self).lookup(i, g),
            final(self).lookup(id.0, id.1) is None,
    {
        let idx = id.0;
        if idx as usize >= self.slots.len() {
            return None;
        }
        let generation = self.slots[idx as usize].generation;
        if generation != id.1 || self.slots[idx as usize].value.is_none() {
            return None;
        }
        let value = self.slots[idx as usize].value.take();
        self.slots[idx as usize].generation = generation + 1;
        self.free.push(idx);
        assert(self.slots@ =~= old(self).slots@.update(
            idx as int,
            Slot { generation: (old(self).slots@[idx as int].generation + 1) as u32, value: None },
        ));
        proof {
            if old(self).free_vacant() {
                assert forall|k: int, l: int| 0 <= k < l < self.free@.len() implies #[trigger] self.free@[k] != #[trigger] self.free@[l] by {
                    if l == self.free@.len() - 1 {
                        assert(old(self).slots@[old(self).free@[k] as int].value is None);
                    }
                }
                assert forall|k: int| 0 <= k < self.free@.len() implies self.slots@[#[trigger] self.free@[k] as int].value is None by {
                    if k < old(self).free@.len() {
                        assert(old(self).slots@[old(self).free@[k] as int].value is None);
                    }
                }
            }
        }
        value
    }

    /// Current generation of slot `idx`, if the slot exists.
    pub fn generation(&self, idx: u32) -> (r: Option<u32>)
        ensures
            r == (if (idx as int) < self.slots@.len() {
                Some(self.slots@[idx as int].generation)
            } else {
                None
            }),
    {
        if (idx as usize) < self.slots.len() {
            Some(self.slots[idx as usize].generation)
        } else {
            None
        }
    }

    pub fn get(&self, id: (u32, u32)) -> (r: Option<&T>)
        ensures
            r == (match self.lookup(id.0, id.1) {
                Some(v) => Some(&v),
                None => None,
            }),
    {
        if (id.0 as usize) >= self.slots.len() {
            return None;
        }
        let slot = &self.slots[id.0 as usize];
        if slot.generation != id.1 {
            return None;
        }
        slot.value.as_ref()
    }

    /// Mutable access to the value `id` resolves to.
    pub fn get_mut(&mut self, id: (u32, u32)) -> (r: Option<&mut T>)
        ensures
            (r is Some) == (old(self).lookup(id.0, id.1) is Some),
            r is None ==> final(self).slots@ == old(self).slots@,
            r is Some ==> *r.unwrap() == old(self).lookup(id.0, id.1).unwrap(),
            r is Some ==> final(self).slots@ == old(self).slots@.update(
                id.0 as int,
                Slot { generation: id.1, value: Some(*final(r.unwrap())) },
            ),
            final(self).free@ == old(self).free@,
    {
        if (id.0 as usize) >= self.slots.len() {
            return None;
        }
        if self.slots[id.0 as usize].generation != id.1 {
            return None;
        }
        self.slots[id.0 as usize].value.as_mut()
    }

    /// Slot indices are representable as `u32`.
    pub open spec fn indexable(&self) -> bool {
        self.slots@.len() <= u32::MAX as int + 1
    }

    /// The ids `(idx, generation)` of every occupied slot, by increasing
    /// index.
    pub fn iter(&self) -> (r: Vec<(u32, u32)>)
        requires
            self.indexable(),
        ensures
            forall|k: int| 0 <= k < r@.len() ==> {
                &&& (#[trigger] r@[k]).0 < self.slots@.len()
                &&& self.slots@[r@[k].0 as int].value is Some
                &&& self.slots@[r@[k].0 as int].generation == r@[k].1
            },
            forall|k: int, l: int| 0 <= k < l < r@.len() ==> (#[trigger] r@[k]).0 < (#[trigger] r@[l]).0,
            forall|i: int| #[trigger] self.is_live(i) ==> exists|k: int| 0 <= k < r@.len() && (#[trigger] r@[k]).0 == i,
    {
        let mut out: Vec<(u32, u32)> = Vec::new();
        let mut i: usize = 0;
        while i < self.slots.len()
            invariant
                i <= self.slots@.len(),
                self.indexable(),
                forall|k: int| 0 <= k < out@.len() ==> {
                    &&& (#[trigger] out@[k]).0 < i
                    &&& self.slots@[out@[k].0 as int].value is Some
                    &&& self.slots@[out@[k].0 as int].generation == out@[k].1
                },
                forall|k: int, l: int| 0 <= k < l < out@.len() ==> (#[trigger] out@[k]).0 < (#[trigger] out@[l]).0,
                forall|j: int| 0 <= j < i && #[trigger] self.is_live(j) ==> exists|k: int| 0 <= k < out@.len() && (#[trigger] out@[k]).0 == j,
            decreases self.slots@.len() - i,
        {
            if self.slots[i].value.is_some() {
                let ghost prev = out@;
                out.push((i as u32, self.slots[i].generation));
                proof {
                    assert(out@[out@.len() - 1].0 == i);
                    assert forall|j: int| 0 <= j < i + 1 && #[trigger] self.is_live(j) implies exists|k: int| 0 <= k < out@.len() && (#[trigger] out@[k]).0 == j by {
                        if j < i {
                            let k = choose|k: int| 0 <= k < prev.len() && (#[trigger] prev[k]).0 == j;
                            assert(out@[k] == prev[k]);
                        } else {
                            assert(out@[out@.len() - 1].0 == j);
                        }
                    }
                }
            }
            i = i + 1;
        }
        out
    }

    /// Number of occupied slots.
    pub fn len(&self) -> (r: usize)
        ensures
            r == count_live(self.slots@),
    {
        let mut n: usize = 0;
        let mut i: usize = 0;
        while i < self.slots.len()
            invariant
                i <= self.slots@.len(),
                n == count_live(self.slots@.subrange(0, i as int)),
                n <= i,
            decreases self.slots@.len() - i,
        {
            proof {
                assert(self.slots@.subrange(0, i as int + 1).drop_last() =~= self.slots@.subrange(0, i as int));
            }
            if self.slots[i].value.is_some() {
                n = n + 1;
            }
            i = i + 1;
        }
        proof {
            assert(self.slots@.subrange(0, i as int) =~= self.slots@);
        }
        n
    }

    pub fn is_empty(&self) -> (r: bool)
        ensures
            r == (count_live(self.slots@) == 0),
    {
        self.len() == 0
    }

    /// Places a value at an exact existing slot, keeping its generation
    /// (the raw restore path). Out-of-range indices are ignored.
    pub fn set_at(&mut self, idx: u32, value: T)
        requires
            old(self).wf(),
        ensures
            final(self).wf(),
            final(self).free@ == old(self).free@,
            (idx as int) < old(self).slots@.len() ==> final(self).slots@ == old(self).slots@.update(
                idx as int,
                Slot { generation: old(self).slots@[idx as int].generation, value: Some(value) },
            ),
            (idx as int) >= old(self).slots@.len() ==> final(self).slots@ == old(self).slots@,
    {
        if (idx as usize) < self.slots.len() {
            let generation = self.slots[idx as usize].generation;
            self.slots.set(idx as usize, Slot { generation, value: Some(value) });
        }
    }
}

impl<T> Arena<T> {
    /// Every occupied slot can still have its generation bumped.
    pub open spec fn gens_ok(&self) -> bool {
        forall|i: int| #[trigger] self.is_live(i) ==> self.slots@[i].generation < u32::MAX
    }

    /// `b` is `a` with every occupied slot `i` satisfying `hit(i)` vacated:
    /// value dropped, generation bumped, index appended to the free list
    /// exactly once. All other slots are untouched.
    pub open spec fn vacated_where(a: Self, b: Self, hit: spec_fn(int) -> bool) -> bool {
        &&& b.slots@.len() == a.slots@.len()
        &&& forall|i: int| 0 <= i < a.slots@.len() ==> #[trigger] b.slots@[i] == (if a.is_live(i) && hit(i) {
            Slot { generation: (a.slots@[i].generation + 1) as u32, value: None }
        } else {
            a.slots@[i]
        })
        &&& b.free@.len() >= a.free@.len()
        &&& b.free@.take(a.free@.len() as int) == a.free@
        &&& forall|k: int| a.free@.len() <= k < b.free@.len() ==> a.is_live(#[trigger] b.free@[k] as int) && hit(b.free@[k] as int)
        &&& forall|k: int, l: int| a.free@.len() <= k < l < b.free@.len() ==> #[trigger] b.free@[k] != #[trigger] b.free@[l]
    }

    /// What an insertion into an arena whose free list names only vacant
    /// slots guarantees: the new id resolves to the value, its slot was
    /// not occupied, every id that resolved still resolves the same, and
    /// the free list stays vacant.
    pub proof fn lemma_inserted_facts(a: Self, b: Self, r: (u32, u32), v: T)
        requires
            a.free_vacant(),
            Self::inserted(a, b, r, v),
        ensures
            b.free_vacant(),
            b.lookup(r.0, r.1) == Some(v),
            !a.is_live(r.0 as int),
            b.is_live(r.0 as int),
            forall|i: u32, g: u32| #[trigger] a.lookup(i, g) is Some ==> b.lookup(i, g) == a.lookup(i, g),
            forall|i: int| #[trigger] a.is_live(i) ==> b.is_live(i),
    {
        if a.free@.len() > 0 {
            assert(a.slots@[a.free@[a.free@.len() - 1] as int].value is None);
            assert forall|k: int| 0 <= k < b.free@.len() implies b.slots@[#[trigger] b.free@[k] as int].value is None by {
                assert(a.free@[k] == b.free@[k]);
                assert(a.free@[k] != a.free@[a.free@.len() - 1]);
            }
            assert forall|k: int, l: int| 0 <= k < l < b.free@.len() implies #[trigger] b.free@[k] != #[trigger] b.free@[l] by {
                assert(a.free@[k] == b.free@[k]);
                assert(a.free@[l] == b.free@[l]);
            }
        }
    }

    /// Whether every occupied slot can still have its generation bumped.
    pub fn all_bumpable(&self) -> (r: bool)
        ensures
            r == self.gens_ok(),
    {
        let mut i: usize = 0;
        while i < self.slots.len()
            invariant
                i <= self.slots@.len(),
                forall|j: int| 0 <= j < i && #[trigger] self.is_live(j) ==> self.slots@[j].generation < u32::MAX,
            decreases self.slots@.len() - i,
        {
            if self.slots[i].value.is_some() && self.slots[i].generation == u32::MAX {
                proof {
                    assert(self.is_live(i as int));
                }
                return false;
            }
            i = i + 1;
        }
        true
    }

    pub proof fn lemma_vacated_where_refl(a: Self, hit: spec_fn(int) -> bool)
        requires
            forall|i: int| #[trigger] a.is_live(i) ==> !hit(i),
        ensures
            Self::vacated_where(a, a, hit),
    {
        assert(a.free@.take(a.free@.len() as int) =~= a.free@);
    }

    pub proof fn lemma_vacated_single(a: Self, b: Self, idx: u32)
        requires
            a.gens_ok(),
            Self::vacated(a, b, idx),
        ensures
            Self::vacated_where(a, b, |i: int| i == idx as int),
    {
        assert(b.free@.take(a.free@.len() as int) =~= a.free@);
    }

    /// Two vacating passes make one.
    pub proof fn lemma_vacated_where_compose(a: Self, b: Self, c: Self, h1: spec_fn(int) -> bool, h2: spec_fn(int) -> bool)
        requires
            a.gens_ok(),
            Self::vacated_where(a, b, h1),
            Self::vacated_where(b, c, h2),
        ensures
            Self::vacated_where(a, c, |i: int| h1(i) || h2(i)),
    {
        let h = |i: int| h1(i) || h2(i);
        assert forall|i: int| 0 <= i < a.slots@.len() implies #[trigger] c.slots@[i] == (if a.is_live(i) && h(i) {
            Slot { generation: (a.slots@[i].generation + 1) as u32, value: None }
        } else {
            a.slots@[i]
        }) by {
            assert(b.slots@[i] == (if a.is_live(i) && h1(i) {
                Slot { generation: (a.slots@[i].generation + 1) as u32, value: None }
            } else {
                a.slots@[i]
            }));
            assert(c.slots@[i] == (if b.is_live(i) && h2(i) {
                Slot { generation: (b.slots@[i].generation + 1) as u32, value: None }
            } else {
                b.slots@[i]
            }));
        }
        assert(c.free@.take(a.free@.len() as int) =~= a.free@) by {
            assert forall|k: int| 0 <= k < a.free@.len() implies c.free@[k] == a.free@[k] by {
                assert(c.free@.take(b.free@.len() as int)[k] == b.free@[k]);
                assert(b.free@.take(a.free@.len() as int)[k] == a.free@[k]);
            }
        }
        assert forall|k: int| a.free@.len() <= k < c.free@.len() implies a.is_live(#[trigger] c.free@[k] as int) && h(c.free@[k] as int) by {
            if k < b.free@.len() {
                assert(c.free@.take(b.free@.len() as int)[k] == b.free@[k]);
            } else {
                let i = c.free@[k] as int;
                assert(b.is_live(i));
                assert(b.slots@[i] == (if a.is_live(i) && h1(i) {
                    Slot { generation: (a.slots@[i].generation + 1) as u32, value: None }
                } else {
                    a.slots@[i]
                }));
            }
        }
        assert forall|k: int, l: int| a.free@.len() <= k < l < c.free@.len() implies #[trigger] c.free@[k] != #[trigger] c.free@[l] by {
            if l < b.free@.len() {
                assert(c.free@.take(b.free@.len() as int)[k] == b.free@[k]);
                assert(c.free@.take(b.free@.len() as int)[l] == b.free@[l]);
            } else if k >= b.free@.len() {
            } else {
                assert(c.free@.take(b.free@.len() as int)[k] == b.free@[k]);
                let i = b.free@[k] as int;
                assert(a.is_live(i) && h1(i));
                assert(b.slots@[i] == (if a.is_live(i) && h1(i) {
                    Slot { generation: (a.slots@[i].generation + 1) as u32, value: None }
                } else {
                    a.slots@[i]
                }));
                assert(b.is_live(c.free@[l] as int));
            }
        }
    }

    /// Only the hit predicate's verdict on occupied slots matters.
    pub proof fn lemma_vacated_where_congruent(a: Self, b: Self, h1: spec_fn(int) -> bool, h2: spec_fn(int) -> bool)
        requires
            Self::vacated_where(a, b, h1),
            forall|i: int| #[trigger] a.is_live(i) ==> (h1(i) == h2(i)),
        ensures
            Self::vacated_where(a, b, h2),
    {
        assert forall|i: int| 0 <= i < a.slots@.len() implies #[trigger] b.slots@[i] == (if a.is_live(i) && h2(i) {
            Slot { generation: (a.slots@[i].generation + 1) as u32, value: None }
        } else {
            a.slots@[i]
        }) by {
            assert(b.slots@[i] == (if a.is_live(i) && h1(i) {
                Slot { generation: (a.slots@[i].generation + 1) as u32, value: None }
            } else {
                a.slots@[i]
            }));
        }
        assert forall|k: int| a.free@.len() <= k < b.free@.len() implies a.is_live(#[trigger] b.free@[k] as int) && h2(b.free@[k] as int) by {
            assert(a.is_live(b.free@[k] as int) && h1(b.free@[k] as int));
        }
    }

    /// Vacating keeps the free list exact and generations bumpable, and
    /// keeps every id that is not hit.
    pub proof fn lemma_vacated_where_facts(a: Self, b: Self, hit: spec_fn(int) -> bool)
        requires
            a.wf(),
            a.gens_ok(),
            Self::vacated_where(a, b, hit),
        ensures
            b.wf(),
            b.gens_ok(),
            b.indexable() == a.indexable(),
            a.free_vacant() ==> b.free_vacant(),
            forall|i: int| #[trigger] b.is_live(i) ==> a.is_live(i) && !hit(i),
            forall|i: u32, g: u32| #[trigger] b.lookup(i, g) == (if a.is_live(i as int) && hit(i as int) {
                None
            } else {
                a.lookup(i, g)
            }),
    {
        assert forall|k: int| 0 <= k < b.free@.len() implies (#[trigger] b.free@[k] as int) < b.slots@.len() by {
            if k < a.free@.len() {
                assert(b.free@.take(a.free@.len() as int)[k] == a.free@[k]);
            }
        }
        assert forall|i: int| #[trigger] b.is_live(i) implies a.is_live(i) && !hit(i) by {
            assert(b.slots@[i] == (if a.is_live(i) && hit(i) {
                Slot { generation: (a.slots@[i].generation + 1) as u32, value: None }
            } else {
                a.slots@[i]
            }));
        }
        assert forall|i: int| #[trigger] b.is_live(i) implies b.slots@[i].generation < u32::MAX by {
            assert(b.slots@[i] == (if a.is_live(i) && hit(i) {
                Slot { generation: (a.slots@[i].generation + 1) as u32, value: None }
            } else {
                a.slots@[i]
            }));
        }
        assert forall|i: u32, g: u32| #[trigger] b.lookup(i, g) == (if a.is_live(i as int) && hit(i as int) {
            None
        } else {
            a.lookup(i, g)
        }) by {
            if (i as int) < a.slots@.len() {
                assert(b.slots@[i as int] == (if a.is_live(i as int) && hit(i as int) {
                    Slot { generation: (a.slots@[i as int].generation + 1) as u32, value: None }
                } else {
                    a.slots@[i as int]
                }));
            }
        }
        if a.free_vacant() {
            assert forall|k: int| 0 <= k < b.free@.len() implies b.slots@[#[trigger] b.free@[k] as int].value is None by {
                let i = b.free@[k] as int;
                if k < a.free@.len() {
                    assert(b.free@.take(a.free@.len() as int)[k] == a.free@[k]);
                    assert(b.slots@[i] == (if a.is_live(i) && hit(i) {
                        Slot { generation: (a.slots@[i].generation + 1) as u32, value: None }
                    } else {
                        a.slots@[i]
                    }));
                } else {
                    assert(b.slots@[i] == (if a.is_live(i) && hit(i) {
                        Slot { generation: (a.slots@[i].generation + 1) as u32, value: None }
                    } else {
                        a.slots@[i]
                    }));
                }
            }
            assert forall|k: int, l: int| 0 <= k < l < b.free@.len() implies #[trigger] b.free@[k] != #[trigger] b.free@[l] by {
                if l < a.free@.len() {
                    assert(b.free@.take(a.free@.len() as int)[k] == a.free@[k]);
                    assert(b.free@.take(a.free@.len() as int)[l] == a.free@[l]);
                } else if k < a.free@.len() {
                    assert(b.free@.take(a.free@.len() as int)[k] == a.free@[k]);
                    assert(a.is_live(b.free@[l] as int));
                }
            }
        }
    }
}

} // verus!
