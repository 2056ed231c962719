//! A generation-checked arena.
//!
//! A [`Pool`] stores values in numbered slots and hands out [`Handle`]s. A
//! handle names a slot together with the generation the slot had when the
//! value was stored, so a handle whose value was freed never reaches the value
//! that later reuses the slot.

use vstd::prelude::*;

verus! {

/// A reference to one slot of a [`Pool`], tagged with a generation.
#[derive(Clone, Copy, PartialEq, Eq, Structural, Hash, Debug)]
pub struct Handle {
    index: usize,
    generation: u64,
}

impl Handle {
    /// The handle that refers to nothing. No pool ever holds a value under it.
    pub closed spec fn spec_none() -> Handle {
        Handle { index: 0, generation: 0 }
    }

    /// The handle that refers to nothing.
    #[verifier::when_used_as_spec(spec_none)]
    pub fn none() -> (h: Handle)
        ensures
            h == Handle::none(),
    {
        Handle { index: 0, generation: 0 }
    }

    /// The number of the slot this handle names.
    pub closed spec fn slot(self) -> nat {
        self.index as nat
    }

    /// The generation this handle carries.
    pub closed spec fn age(self) -> nat {
        self.generation as nat
    }

    /// The handle of the same slot with the next generation.
    pub closed spec fn bumped(self) -> Handle {
        Handle { index: self.index, generation: (self.generation + 1) as u64 }
    }

    /// The handle of the slot `slot` with the first generation.
    pub closed spec fn first(slot: nat) -> Handle {
        Handle { index: slot as usize, generation: 1 }
    }

    /// The handle that follows `self` names the same slot with a generation
    /// higher by one; the first handle of a slot has generation 1.
    pub proof fn lemma_bumped(self, slot: nat)
        ensures
            self.age() < u64::MAX ==> self.bumped().slot() == self.slot() && self.bumped().age()
                == self.age() + 1,
            slot <= usize::MAX ==> Handle::first(slot).slot() == slot && Handle::first(slot).age()
                == 1,
    {
    }

    pub fn index(&self) -> (i: usize)
        ensures
            i == self.slot(),
    {
        self.index
    }

    pub fn generation(&self) -> (g: u64)
        ensures
            g == self.age(),
    {
        self.generation
    }

    pub fn is_none(&self) -> (b: bool)
        ensures
            b == (*self == Handle::none()),
    {
        self.index == 0 && self.generation == 0
    }

    pub fn is_some(&self) -> (b: bool)
        ensures
            b == (*self != Handle::none()),
    {
        !self.is_none()
    }

    /// A handle is determined by its slot and its generation.
    pub proof fn lemma_eq(a: Handle, b: Handle)
        requires
            a.slot() == b.slot(),
            a.age() == b.age(),
        ensures
            a == b,
    {
    }

    /// `none()` names slot 0 with generation 0.
    pub proof fn lemma_none()
        ensures
            Handle::none().slot() == 0,
            Handle::none().age() == 0,
    {
    }
}

/// The element `i` of a slice, for change.
fn pick<R>(slice: &mut [R], i: usize) -> (r: &mut R)
    requires
        i < old(slice)@.len(),
    ensures
        *r == old(slice)@[i as int],
        final(slice)@ == old(slice)@.update(i as int, *final(r)),
{
    let (_, right) = slice.split_at_mut(i);
    right.first_mut().unwrap()
}

/// Two elements of a slice, for change.
fn pick_two<R>(slice: &mut [R], i: usize, j: usize) -> (r: (&mut R, &mut R))
    requires
        i < old(slice)@.len(),
        j < old(slice)@.len(),
        i != j,
    ensures
        *r.0 == old(slice)@[i as int],
        *r.1 == old(slice)@[j as int],
        final(slice)@ == old(slice)@.update(i as int, *final(r.0)).update(j as int, *final(r.1)),
{
    if i < j {
        let (left, right) = slice.split_at_mut(j);
        (pick(left, i), right.first_mut().unwrap())
    } else {
        let (left, right) = slice.split_at_mut(i);
        (right.first_mut().unwrap(), pick(left, j))
    }
}

/// Three elements of a slice, for change.
fn pick_three<R>(slice: &mut [R], i: usize, j: usize, k: usize) -> (r: (&mut R, &mut R, &mut R))
    requires
        i < old(slice)@.len(),
        j < old(slice)@.len(),
        k < old(slice)@.len(),
        i != j,
        i != k,
        j != k,
    ensures
        *r.0 == old(slice)@[i as int],
        *r.1 == old(slice)@[j as int],
        *r.2 == old(slice)@[k as int],
        final(slice)@ == old(slice)@.update(i as int, *final(r.0)).update(
            j as int,
            *final(r.1),
        ).update(k as int, *final(r.2)),
{
    if i > j && i > k {
        let (left, right) = slice.split_at_mut(i);
        let (b, c) = pick_two(left, j, k);
        (right.first_mut().unwrap(), b, c)
    } else if j > i && j > k {
        let (left, right) = slice.split_at_mut(j);
        let (a, c) = pick_two(left, i, k);
        (a, right.first_mut().unwrap(), c)
    } else {
        let (left, right) = slice.split_at_mut(k);
        let (a, b) = pick_two(left, i, j);
        (a, b, right.first_mut().unwrap())
    }
}

/// Four elements of a slice, for change.
fn pick_four<R>(slice: &mut [R], i: usize, j: usize, k: usize, l: usize) -> (r: (
    &mut R,
    &mut R,
    &mut R,
    &mut R,
))
    requires
        i < old(slice)@.len(),
        j < old(slice)@.len(),
        k < old(slice)@.len(),
        l < old(slice)@.len(),
        i != j,
        i != k,
        i != l,
        j != k,
        j != l,
        k != l,
    ensures
        *r.0 == old(slice)@[i as int],
        *r.1 == old(slice)@[j as int],
        *r.2 == old(slice)@[k as int],
        *r.3 == old(slice)@[l as int],
        final(slice)@ == old(slice)@.update(i as int, *final(r.0)).update(
            j as int,
            *final(r.1),
        ).update(k as int, *final(r.2)).update(l as int, *final(r.3)),
{
    if i > j && i > k && i > l {
        let (left, right) = slice.split_at_mut(i);
        let (b, c, d) = pick_three(left, j, k, l);
        (right.first_mut().unwrap(), b, c, d)
    } else if j > i && j > k && j > l {
        let (left, right) = slice.split_at_mut(j);
        let (a, c, d) = pick_three(left, i, k, l);
        (a, right.first_mut().unwrap(), c, d)
    } else if k > i && k > j && k > l {
        let (left, right) = slice.split_at_mut(k);
        let (a, b, d) = pick_three(left, i, j, l);
        (a, b, right.first_mut().unwrap(), d)
    } else {
        let (left, right) = slice.split_at_mut(l);
        let (a, b, c) = pick_three(left, i, j, k);
        (a, b, c, right.first_mut().unwrap())
    }
}

/// The handles to come after the handles in `freed` were freed, one after
/// the other, where `before` gives the handles that were to come before: a
/// handle freed later is used again earlier, and a handle of the last
/// generation is not used again.
pub open spec fn upcoming_after(freed: Seq<Handle>, before: spec_fn(nat) -> Handle, k: nat) -> Handle
    decreases freed.len(),
{
    if freed.len() == 0 {
        before(k)
    } else if freed.last().age() < u64::MAX {
        if k == 0 {
            freed.last().bumped()
        } else {
            upcoming_after(freed.drop_last(), before, (k - 1) as nat)
        }
    } else {
        upcoming_after(freed.drop_last(), before, k)
    }
}

/// Freeing first `a` and then `b` is freeing `a + b`.
pub proof fn lemma_upcoming_after(
    a: Seq<Handle>,
    b: Seq<Handle>,
    before: spec_fn(nat) -> Handle,
    k: nat,
)
    ensures
        upcoming_after(a + b, before, k) == upcoming_after(
            b,
            |j: nat| upcoming_after(a, before, j),
            k,
        ),
    decreases b.len(),
{
    if b.len() == 0 {
        assert(a + b =~= a);
    } else {
        assert((a + b).drop_last() =~= a + b.drop_last());
        assert((a + b).last() == b.last());
        if b.last().age() < u64::MAX {
            if k > 0 {
                lemma_upcoming_after(a, b.drop_last(), before, (k - 1) as nat);
            }
        } else {
            lemma_upcoming_after(a, b.drop_last(), before, k);
        }
    }
}

/// The handles to come after a run of frees depend on the handles that were
/// to come before, and on nothing else of what gives them.
pub proof fn lemma_upcoming_after_same(
    freed: Seq<Handle>,
    f: spec_fn(nat) -> Handle,
    g: spec_fn(nat) -> Handle,
    k: nat,
)
    requires
        forall|j: nat| #[trigger] f(j) == g(j),
    ensures
        upcoming_after(freed, f, k) == upcoming_after(freed, g, k),
    decreases freed.len(),
{
    if freed.len() > 0 {
        if freed.last().age() < u64::MAX {
            if k > 0 {
                lemma_upcoming_after_same(freed.drop_last(), f, g, (k - 1) as nat);
            }
        } else {
            lemma_upcoming_after_same(freed.drop_last(), f, g, k);
        }
    }
}

struct PoolRecord<T> {
    generation: u64,
    payload: Option<T>,
}

/// Why several values could not be borrowed at once.
#[derive(Clone, Copy, PartialEq, Eq, Structural, Hash, Debug)]
pub enum BorrowError {
    /// Two of the handles are the same handle.
    Overlap,
}

/// The arena. Its view is the map from the handles that are alive to the
/// values stored under them.
pub struct Pool<T> {
    records: Vec<PoolRecord<T>>,
    free_stack: Vec<usize>,
}

impl<T> View for Pool<T> {
    type V = Map<Handle, T>;

    closed spec fn view(&self) -> Map<Handle, T> {
        Map::new(
            |h: Handle|
                h.index < self.records.len() && self.records[h.index as int].generation
                    == h.generation && self.records[h.index as int].payload is Some,
            |h: Handle| self.records[h.index as int].payload->0,
        )
    }
}

impl<T> Pool<T> {
    /// The invariant of the arena: generations start at 1, the slots waiting
    /// for reuse are empty, distinct and can still be given a new generation,
    /// and only finitely many handles are alive.
    pub closed spec fn wf(&self) -> bool {
        &&& forall|i: int| 0 <= i < self.records.len()
            ==> (#[trigger] self.records[i]).generation >= 1
        &&& forall|j: int|
            0 <= j < self.free_stack.len() ==> {
                let i = #[trigger] self.free_stack[j];
                &&& i < self.records.len()
                &&& self.records[i as int].payload is None
                &&& self.records[i as int].generation < u64::MAX
            }
        &&& forall|j: int, k: int|
            0 <= j < k < self.free_stack.len() ==> self.free_stack[j] != self.free_stack[k]
        &&& self@.dom().finite()
    }

    /// The number of slots, used or not.
    pub closed spec fn capacity(&self) -> nat {
        self.records.len() as nat
    }

    /// The handle under which slot `i` holds its value, if it holds one.
    pub closed spec fn handle_at(&self, i: int) -> Handle {
        Handle { index: i as usize, generation: self.records[i].generation }
    }

    /// The handle that the next `spawn` returns: the slot freed last, with its
    /// generation raised by one, or else a new slot with generation 1.
    pub closed spec fn next_handle(&self) -> Handle {
        if self.free_stack.len() > 0 {
            let i = self.free_stack[self.free_stack.len() - 1];
            Handle { index: i, generation: (self.records[i as int].generation + 1) as u64 }
        } else {
            Handle { index: self.records.len(), generation: 1 }
        }
    }

    /// The handle that the spawn after the next `k` spawns returns, if no
    /// value is freed before: the slots freed last are used first, each with
    /// its generation raised by one, and after them new slots with generation
    /// 1.
    pub closed spec fn upcoming(&self, k: nat) -> Handle {
        if k < self.free_stack.len() {
            let i = self.free_stack[self.free_stack.len() - 1 - k];
            Handle { index: i, generation: (self.records[i as int].generation + 1) as u64 }
        } else {
            Handle { index: (self.records.len() + k - self.free_stack.len()) as usize, generation: 1 }
        }
    }

    /// The handle `h` was given out by this arena and its value has been
    /// freed since: it names a slot of the arena with a generation that the
    /// slot has had, and it is not alive.
    pub open spec fn is_stale(&self, h: Handle) -> bool {
        &&& h.slot() < self.capacity()
        &&& !self@.contains_key(h)
        &&& 1 <= h.age() <= self.handle_at(h.slot() as int).age()
    }

    /// The next handle is the first of the handles to come.
    pub proof fn lemma_next_handle(&self)
        ensures
            self.next_handle() == self.upcoming(0),
    {
    }

    /// Only finitely many handles are alive.
    pub proof fn lemma_finite(&self)
        requires
            self.wf(),
        ensures
            self@.dom().finite(),
    {
    }

    /// An alive handle names a slot below the capacity, and is the handle of
    /// that slot.
    pub proof fn lemma_alive(&self, h: Handle)
        requires
            self@.contains_key(h),
        ensures
            h.slot() < self.capacity(),
            self.handle_at(h.slot() as int) == h,
            self.wf() ==> h != Handle::none(),
    {
    }

    /// The handle of a slot names that slot, and two alive handles that name
    /// the same slot are the same handle.
    pub proof fn lemma_slot(&self, i: int)
        requires
            0 <= i < self.capacity(),
        ensures
            self.handle_at(i).slot() == i,
            forall|h: Handle| self@.contains_key(h) && h.slot() == i ==> h == self.handle_at(i),
    {
    }

    pub fn new() -> (p: Self)
        ensures
            p.wf(),
            p@ == Map::<Handle, T>::empty(),
            p.capacity() == 0,
            p.next_handle().slot() == 0,
            p.next_handle().age() == 1,
            forall|k: nat| p.upcoming(k) == Handle::first(k),
    {
        let p = Pool { records: Vec::new(), free_stack: Vec::new() };
        assert(p@ =~= Map::<Handle, T>::empty());
        p
    }

    /// Stores `value` and returns the handle under which it is alive from now
    /// on. The handle was not alive before.
    pub fn spawn(&mut self, value: T) -> (h: Handle)
        requires
            old(self).wf(),
        ensures
            final(self).wf(),
            h == old(self).next_handle(),
            h != Handle::none(),
            !old(self)@.contains_key(h),
            final(self)@ == old(self)@.insert(h, value),
            h.slot() < old(self).capacity() ==> final(self).capacity() == old(self).capacity(),
            h.slot() >= old(self).capacity() ==> final(self).capacity() == old(self).capacity() + 1,
            forall|i: int|
                0 <= i < old(self).capacity() && i != h.slot() ==> final(self).handle_at(i)
                    == old(self).handle_at(i),
            !old(self).is_stale(h),
            forall|x: Handle| old(self).is_stale(x) ==> final(self).is_stale(x),
            forall|k: nat| final(self).upcoming(k) == old(self).upcoming(k + 1),
    {
        let h = match self.free_stack.pop() {
            Some(i) => {
                let generation = self.records[i].generation + 1;
                self.records[i] = PoolRecord { generation, payload: Some(value) };
                Handle { index: i, generation }
            },
            None => {
                let index = self.records.len();
                self.records.push(PoolRecord { generation: 1, payload: Some(value) });
                Handle { index, generation: 1 }
            },
        };
        assert(self@ =~= old(self)@.insert(h, value));
        h
    }

    /// Frees the value under `h`. The handle is dead from now on, and every
    /// other handle is as it was.
    pub fn free(&mut self, h: Handle)
        requires
            old(self).wf(),
            old(self)@.contains_key(h),
        ensures
            final(self).wf(),
            final(self)@ == old(self)@.remove(h),
            final(self).capacity() == old(self).capacity(),
            forall|i: int| 0 <= i < old(self).capacity() ==> final(self).handle_at(i)
                == old(self).handle_at(i),
            final(self).is_stale(h),
            forall|x: Handle| old(self).is_stale(x) ==> final(self).is_stale(x),
            h.age() < u64::MAX ==> final(self).next_handle().slot() == h.slot()
                && final(self).next_handle().age() == h.age() + 1,
            h.age() == u64::MAX ==> final(self).next_handle() == old(self).next_handle(),
            forall|k: nat|
                final(self).upcoming(k) == upcoming_after(
                    seq![h],
                    |j: nat| old(self).upcoming(j),
                    k,
                ),
    {
        let i = h.index;
        let generation = self.records[i].generation;
        self.records[i] = PoolRecord { generation, payload: None };
        if generation < u64::MAX {
            self.free_stack.push(i);
        }
        assert(self@ =~= old(self)@.remove(h));
        proof {
            let freed = seq![h];
            let before = |j: nat| old(self).upcoming(j);
            assert(freed.last() == h);
            assert(freed.drop_last() =~= Seq::<Handle>::empty());
            assert forall|k: nat| self.upcoming(k) == upcoming_after(freed, before, k) by {
                reveal_with_fuel(upcoming_after, 2);
                if generation < u64::MAX {
                    if k > 0 {
                        assert(upcoming_after(freed.drop_last(), before, (k - 1) as nat)
                            == before((k - 1) as nat));
                        if k - 1 < old(self).free_stack.len() {
                            assert(self.free_stack[self.free_stack.len() - 1 - k] == old(self).free_stack[old(self).free_stack.len() - 1 - (k - 1)]);
                        }
                    }
                } else {
                    assert(upcoming_after(freed.drop_last(), before, k) == before(k));
                    if k < self.free_stack.len() {
                        let j = self.free_stack[self.free_stack.len() - 1 - k];
                        assert(j != i);
                    }
                }
            }
        }
    }

    pub fn is_valid_handle(&self, h: Handle) -> (b: bool)
        ensures
            b == self@.contains_key(h),
    {
        h.index < self.records.len() && self.records[h.index].generation == h.generation
            && self.records[h.index].payload.is_some()
    }

    pub fn borrow(&self, h: Handle) -> (r: &T)
        requires
            self@.contains_key(h),
        ensures
            *r == self@[h],
    {
        self.records[h.index].payload.as_ref().unwrap()
    }

    fn value_mut(&mut self, h: Handle) -> (r: &mut T)
        requires
            old(self)@.contains_key(h),
        ensures
            *r == old(self)@[h],
            final(self).differs_in(old(self), set![h.index as int]),
            final(self).records[h.index as int].payload->0 == *final(r),
    {
        let record = &mut self.records[h.index];
        match &mut record.payload {
            Some(value) => value,
            None => unreached(),
        }
    }

    /// Lends the value under `h` for change. What the pool holds afterwards
    /// is what it held before, with the value under `h` as the borrower left
    /// it.
    pub fn borrow_mut(&mut self, h: Handle) -> (r: &mut T)
        requires
            old(self)@.contains_key(h),
        ensures
            *r == old(self)@[h],
            final(self)@ == old(self)@.insert(h, *final(r)),
            final(self).capacity() == old(self).capacity(),
            old(self).wf() ==> final(self).wf(),
            old(self).wf() ==> forall|k: nat| final(self).upcoming(k) == old(self).upcoming(k),
            forall|i: int|
                0 <= i < old(self).capacity() ==> final(self).handle_at(i) == old(self).handle_at(
                    i,
                ),
            old(self).wf() ==> final(self).next_handle() == old(self).next_handle(),
    {
        proof {
            let slots = set![h.index as int];
            assert forall|p: Self| #[trigger] p.differs_in(&*self, slots) implies {
                &&& p@ == self@.insert(h, p.records[h.index as int].payload->0)
                &&& self.wf() ==> p.wf()
                &&& self.wf() ==> forall|k: nat| p.upcoming(k) == self.upcoming(k)
                &&& self.wf() ==> p.next_handle() == self.next_handle()
                &&& p.capacity() == self.capacity()
                &&& forall|i: int| 0 <= i < self.capacity() ==> p.handle_at(i) == self.handle_at(i)
            } by {
                p.lemma_differs_in(&*self, slots);
                assert(p@ =~= self@.insert(h, p.records[h.index as int].payload->0));
            }
        }
        self.value_mut(h)
    }

    pub fn get_capacity(&self) -> (n: usize)
        ensures
            n == self.capacity(),
    {
        self.records.len()
    }

    /// The value in slot `i`, if the slot holds one.
    pub fn at(&self, i: usize) -> (r: Option<&T>)
        ensures
            r is Some <==> i < self.capacity() && self@.contains_key(self.handle_at(i as int)),
            r is Some ==> *r->0 == self@[self.handle_at(i as int)],
    {
        if i < self.records.len() {
            self.records[i].payload.as_ref()
        } else {
            None
        }
    }

    /// The handle of the value in slot `i`, or `none()` if the slot is empty
    /// or does not exist.
    pub fn handle_from_index(&self, i: usize) -> (h: Handle)
        ensures
            h == if i < self.capacity() && self@.contains_key(self.handle_at(i as int)) {
                self.handle_at(i as int)
            } else {
                Handle::none()
            },
    {
        if i < self.records.len() && self.records[i].payload.is_some() {
            Handle { index: i, generation: self.records[i].generation }
        } else {
            Handle::none()
        }
    }

    /// Forgets every value and every slot.
    pub fn clear(&mut self)
        ensures
            final(self).wf(),
            final(self)@ == Map::<Handle, T>::empty(),
            final(self).capacity() == 0,
            final(self).next_handle().slot() == 0,
            final(self).next_handle().age() == 1,
            forall|k: nat| final(self).upcoming(k) == Handle::first(k),
    {
        self.records.clear();
        self.free_stack.clear();
        assert(self@ =~= Map::<Handle, T>::empty());
    }

    /// The alive handles that name a slot below `i`.
    spec fn alive_below(&self, i: int) -> Set<Handle> {
        Set::new(|h: Handle| self@.contains_key(h) && h.index < i)
    }

    /// The number of values that are alive.
    pub fn alive_count(&self) -> (n: usize)
        requires
            self.wf(),
        ensures
            n == self@.dom().len(),
    {
        let mut n: usize = 0;
        let mut i: usize = 0;
        assert(self.alive_below(0) =~= Set::<Handle>::empty());
        while i < self.records.len()
            invariant
                i <= self.records.len(),
                n <= i,
                self.alive_below(i as int).finite(),
                n == self.alive_below(i as int).len(),
            decreases self.records.len() - i,
        {
            if self.records[i].payload.is_some() {
                let ghost h = Handle { index: i, generation: self.records[i as int].generation };
                assert(self.alive_below(i + 1) =~= self.alive_below(i as int).insert(h));
                n += 1;
            } else {
                assert(self.alive_below(i + 1) =~= self.alive_below(i as int));
            }
            i += 1;
        }
        assert(self.alive_below(i as int) =~= self@.dom());
        n
    }

    /// The alive handles that name a slot below `i`, in the order of the
    /// slots.
    pub closed spec fn handles_below(&self, i: nat) -> Seq<Handle>
        decreases i,
    {
        if i == 0 {
            Seq::empty()
        } else {
            let before = self.handles_below((i - 1) as nat);
            if i <= self.records.len() && self.records[i - 1].payload is Some {
                before.push(self.handle_at(i - 1))
            } else {
                before
            }
        }
    }

    /// The alive handles, in the order of the slots.
    pub open spec fn handles(&self) -> Seq<Handle> {
        self.handles_below(self.capacity())
    }

    /// The list of the alive handles holds each alive handle once, in the
    /// order of the slots, and nothing else.
    pub proof fn lemma_handles(&self, i: nat)
        requires
            i <= self.capacity(),
        ensures
            forall|h: Handle|
                self.handles_below(i).contains(h) <==> self@.contains_key(h) && h.slot() < i,
            forall|j: int, k: int|
                0 <= j < k < self.handles_below(i).len() ==> self.handles_below(i)[j].slot()
                    < self.handles_below(i)[k].slot(),
            self.handles_below(i).no_duplicates(),
        decreases i,
    {
        if i > 0 {
            self.lemma_handles((i - 1) as nat);
            let before = self.handles_below((i - 1) as nat);
            let now = self.handles_below(i);
            if self.records[i - 1].payload is Some {
                let n = self.handle_at(i - 1);
                assert(now == before.push(n));
                assert forall|h: Handle| now.contains(h) <==> self@.contains_key(h) && h.slot()
                    < i by {
                    if now.contains(h) {
                        let j = choose|j: int| 0 <= j < now.len() && now[j] == h;
                        if j < before.len() {
                            assert(before[j] == h);
                            assert(before.contains(h));
                        }
                    }
                    if self@.contains_key(h) && h.slot() < i {
                        if h.slot() < i - 1 {
                            assert(before.contains(h));
                            let j = choose|j: int| 0 <= j < before.len() && before[j] == h;
                            assert(now[j] == h);
                        } else {
                            assert(h == n);
                            assert(now[before.len() as int] == h);
                        }
                    }
                }
                assert forall|j: int, k: int| 0 <= j < k < now.len() implies now[j].slot()
                    < now[k].slot() by {
                    assert(before.contains(now[j]));
                    if k < before.len() {
                        assert(now[j] == before[j] && now[k] == before[k]);
                    }
                }
            } else {
                assert forall|h: Handle| now.contains(h) <==> self@.contains_key(h) && h.slot()
                    < i by {
                    if now.contains(h) {
                        assert(before.contains(h));
                    }
                    if self@.contains_key(h) && h.slot() < i {
                        assert(h.slot() < i - 1);
                        assert(before.contains(h));
                    }
                }
            }
        }
    }

    /// The values that are alive, with their handles, in the order of the
    /// slots.
    pub fn pair_iter(&self) -> (r: Vec<(Handle, &T)>)
        ensures
            r.len() == self.handles().len(),
            forall|k: int|
                0 <= k < r.len() ==> (#[trigger] r[k]).0 == self.handles()[k] && self@.contains_key(
                    r[k].0,
                ) && *r[k].1 == self@[r[k].0],
    {
        let mut r: Vec<(Handle, &T)> = Vec::new();
        let mut i: usize = 0;
        while i < self.records.len()
            invariant
                i <= self.records.len(),
                r.len() == self.handles_below(i as nat).len(),
                forall|k: int|
                    0 <= k < r.len() ==> (#[trigger] r[k]).0 == self.handles_below(i as nat)[k]
                        && self@.contains_key(r[k].0) && *r[k].1 == self@[r[k].0],
            decreases self.records.len() - i,
        {
            match self.records[i].payload.as_ref() {
                Some(value) => {
                    let h = Handle { index: i, generation: self.records[i].generation };
                    r.push((h, value));
                },
                None => {},
            }
            i += 1;
        }
        r
    }

    /// The values that are alive, in the order of the slots.
    pub fn iter(&self) -> (r: Vec<&T>)
        ensures
            r.len() == self.handles().len(),
            forall|k: int|
                #![trigger r[k]]
                #![trigger self.handles()[k]]
                0 <= k < r.len() ==> self@.contains_key(self.handles()[k]) && *r[k]
                    == self@[self.handles()[k]],
    {
        let mut r: Vec<&T> = Vec::new();
        let mut i: usize = 0;
        while i < self.records.len()
            invariant
                i <= self.records.len(),
                r.len() == self.handles_below(i as nat).len(),
                forall|k: int|
                    #![trigger r[k]]
                    #![trigger self.handles_below(i as nat)[k]]
                    0 <= k < r.len() ==> self@.contains_key(self.handles_below(i as nat)[k])
                        && *r[k] == self@[self.handles_below(i as nat)[k]],
            decreases self.records.len() - i,
        {
            let ghost before = self.handles_below(i as nat);
            let ghost now = self.handles_below((i + 1) as nat);
            let ghost held = r@;
            match self.records[i].payload.as_ref() {
                Some(value) => {
                    r.push(value);
                    assert(now == before.push(self.handle_at(i as int)));
                    assert forall|k: int| 0 <= k < r.len() implies self@.contains_key(now[k])
                        && *r[k] == self@[now[k]] by {
                        if k < held.len() {
                            assert(r[k] == held[k]);
                            assert(now[k] == before[k]);
                            assert(self@.contains_key(before[k]) && *held[k] == self@[before[k]]);
                        }
                    }
                },
                None => {
                    assert(now == before);
                },
            }
            i += 1;
        }
        r
    }

    /// `self` is `before` with nothing changed but the values in `slots`.
    spec fn differs_in(&self, before: &Self, slots: Set<int>) -> bool {
        &&& self.free_stack@ == before.free_stack@
        &&& self.records.len() == before.records.len()
        &&& forall|i: int|
            #![trigger self.records[i]]
            #![trigger before.records[i]]
            0 <= i < self.records.len() ==> if slots.contains(i) {
                self.records[i].generation == before.records[i].generation
                    && self.records[i].payload is Some && before.records[i].payload is Some
            } else {
                self.records[i] == before.records[i]
            }
    }

    proof fn lemma_differs_in(&self, before: &Self, slots: Set<int>)
        requires
            self.differs_in(before, slots),
        ensures
            forall|h: Handle| self@.contains_key(h) == before@.contains_key(h),
            forall|h: Handle|
                self@.contains_key(h) && !slots.contains(h.index as int) ==> self@[h] == before@[h],
            before.wf() ==> self.wf(),
            before.wf() ==> self.next_handle() == before.next_handle(),
            before.wf() ==> forall|k: nat| self.upcoming(k) == before.upcoming(k),
            self.capacity() == before.capacity(),
            forall|i: int| 0 <= i < before.capacity() ==> self.handle_at(i) == before.handle_at(i),
    {
        assert forall|h: Handle| self@.contains_key(h) == before@.contains_key(h) by {
            if h.index < self.records.len() {
                let r = self.records[h.index as int];
            }
        }
        assert forall|i: int| 0 <= i < before.capacity() implies self.handle_at(i)
            == before.handle_at(i) by {
            let r = self.records[i];
        }
        if before.wf() {
            assert forall|i: int| 0 <= i < self.records.len()
                implies (#[trigger] self.records[i]).generation >= 1 by {
                let r = before.records[i];
            }
            assert forall|j: int| 0 <= j < self.free_stack.len() implies {
                let i = #[trigger] self.free_stack[j];
                &&& i < self.records.len()
                &&& self.records[i as int].payload is None
                &&& self.records[i as int].generation < u64::MAX
            } by {
                assert(self.free_stack[j] == before.free_stack[j]);
                let i = before.free_stack[j];
                let r = self.records[i as int];
            }
            assert forall|j: int, k: int| 0 <= j < k < self.free_stack.len()
                implies self.free_stack[j]
                != self.free_stack[k] by {
                assert(self.free_stack[j] == before.free_stack[j]);
                assert(self.free_stack[k] == before.free_stack[k]);
            }
            assert(self@.dom() =~= before@.dom());
            if self.free_stack.len() > 0 {
                let j = self.free_stack.len() - 1;
                assert(self.free_stack[j] == before.free_stack[j]);
                let i = before.free_stack[j];
                let r = self.records[i as int];
            }
        }
    }

    fn values_two_mut(&mut self, a: Handle, b: Handle) -> (r: (&mut T, &mut T))
        requires
            old(self)@.contains_key(a),
            old(self)@.contains_key(b),
            a != b,
        ensures
            *r.0 == old(self)@[a],
            *r.1 == old(self)@[b],
            final(self).differs_in(old(self), set![a.index as int, b.index as int]),
            final(self).records[a.index as int].payload->0 == *final(r.0),
            final(self).records[b.index as int].payload->0 == *final(r.1),
    {
        let (ra, rb) = pick_two(self.records.as_mut_slice(), a.index, b.index);
        (
            match &mut ra.payload {
                Some(value) => value,
                None => unreached(),
            },
            match &mut rb.payload {
                Some(value) => value,
                None => unreached(),
            },
        )
    }

    /// Lends the values under two handles for change at once, or fails if
    /// the two handles are the same.
    pub fn borrow_two_mut(&mut self, handles: (Handle, Handle)) -> (r: Result<
        (&mut T, &mut T),
        BorrowError,
    >)
        requires
            old(self)@.contains_key(handles.0),
            old(self)@.contains_key(handles.1),
        ensures
            r is Err <==> handles.0 == handles.1,
            (match r {
                Ok((a, b)) => {
                    &&& *a == old(self)@[handles.0]
                    &&& *b == old(self)@[handles.1]
                    &&& final(self)@ == old(self)@.insert(handles.0, *final(a)).insert(
                        handles.1,
                        *final(b),
                    )
                },
                Err(e) => e == BorrowError::Overlap && final(self)@ == old(self)@,
            }),
            old(self).wf() ==> final(self).wf(),
            old(self).wf() ==> forall|k: nat| final(self).upcoming(k) == old(self).upcoming(k),
            final(self).capacity() == old(self).capacity(),
            forall|i: int|
                0 <= i < old(self).capacity() ==> final(self).handle_at(i) == old(self).handle_at(
                    i,
                ),
    {
        if handles.0 == handles.1 {
            return Err(BorrowError::Overlap);
        }
        proof {
            let slots = set![handles.0.index as int, handles.1.index as int];
            assert forall|p: Self| #[trigger] p.differs_in(&*self, slots) implies {
                &&& p@ == self@.insert(
                    handles.0,
                    p.records[handles.0.index as int].payload->0,
                ).insert(handles.1, p.records[handles.1.index as int].payload->0)
                &&& self.wf() ==> p.wf()
                &&& self.wf() ==> forall|k: nat| p.upcoming(k) == self.upcoming(k)
                &&& p.capacity() == self.capacity()
                &&& forall|i: int| 0 <= i < self.capacity() ==> p.handle_at(i) == self.handle_at(i)
            } by {
                p.lemma_differs_in(&*self, slots);
                assert(p@ =~= self@.insert(
                    handles.0,
                    p.records[handles.0.index as int].payload->0,
                ).insert(handles.1, p.records[handles.1.index as int].payload->0));
            }
        }
        Ok(self.values_two_mut(handles.0, handles.1))
    }

    fn values_three_mut(&mut self, a: Handle, b: Handle, c: Handle) -> (r: (
        &mut T,
        &mut T,
        &mut T,
    ))
        requires
            old(self)@.contains_key(a),
            old(self)@.contains_key(b),
            old(self)@.contains_key(c),
            a != b,
            a != c,
            b != c,
        ensures
            *r.0 == old(self)@[a],
            *r.1 == old(self)@[b],
            *r.2 == old(self)@[c],
            final(self).differs_in(
                old(self),
                set![a.index as int, b.index as int, c.index as int],
            ),
            final(self).records[a.index as int].payload->0 == *final(r.0),
            final(self).records[b.index as int].payload->0 == *final(r.1),
            final(self).records[c.index as int].payload->0 == *final(r.2),
    {
        let (ra, rb, rc) = pick_three(self.records.as_mut_slice(), a.index, b.index, c.index);
        (
            match &mut ra.payload {
                Some(value) => value,
                None => unreached(),
            },
            match &mut rb.payload {
                Some(value) => value,
                None => unreached(),
            },
            match &mut rc.payload {
                Some(value) => value,
                None => unreached(),
            },
        )
    }

    /// Lends the values under three handles for change at once, or fails if
    /// two of the handles are the same.
    pub fn borrow_three_mut(&mut self, handles: (Handle, Handle, Handle)) -> (r: Result<
        (&mut T, &mut T, &mut T),
        BorrowError,
    >)
        requires
            old(self)@.contains_key(handles.0),
            old(self)@.contains_key(handles.1),
            old(self)@.contains_key(handles.2),
        ensures
            r is Err <==> handles.0 == handles.1 || handles.0 == handles.2 || handles.1
                == handles.2,
            (match r {
                Ok((a, b, c)) => {
                    &&& *a == old(self)@[handles.0]
                    &&& *b == old(self)@[handles.1]
                    &&& *c == old(self)@[handles.2]
                    &&& final(self)@ == old(self)@.insert(handles.0, *final(a)).insert(
                        handles.1,
                        *final(b),
                    ).insert(handles.2, *final(c))
                },
                Err(e) => e == BorrowError::Overlap && final(self)@ == old(self)@,
            }),
            old(self).wf() ==> final(self).wf(),
            old(self).wf() ==> forall|k: nat| final(self).upcoming(k) == old(self).upcoming(k),
            final(self).capacity() == old(self).capacity(),
            forall|i: int|
                0 <= i < old(self).capacity() ==> final(self).handle_at(i) == old(self).handle_at(
                    i,
                ),
    {
        if handles.0 == handles.1 || handles.0 == handles.2 || handles.1 == handles.2 {
            return Err(BorrowError::Overlap);
        }
        proof {
            let slots = set![
                handles.0.index as int,
                handles.1.index as int,
                handles.2.index as int,
            ];
            assert forall|p: Self| #[trigger] p.differs_in(&*self, slots) implies {
                &&& p@ == self@.insert(
                    handles.0,
                    p.records[handles.0.index as int].payload->0,
                ).insert(handles.1, p.records[handles.1.index as int].payload->0).insert(
                    handles.2,
                    p.records[handles.2.index as int].payload->0,
                )
                &&& self.wf() ==> p.wf()
                &&& self.wf() ==> forall|k: nat| p.upcoming(k) == self.upcoming(k)
                &&& p.capacity() == self.capacity()
                &&& forall|i: int| 0 <= i < self.capacity() ==> p.handle_at(i) == self.handle_at(i)
            } by {
                p.lemma_differs_in(&*self, slots);
                assert(p@ =~= self@.insert(
                    handles.0,
                    p.records[handles.0.index as int].payload->0,
                ).insert(handles.1, p.records[handles.1.index as int].payload->0).insert(
                    handles.2,
                    p.records[handles.2.index as int].payload->0,
                ));
            }
        }
        Ok(self.values_three_mut(handles.0, handles.1, handles.2))
    }

    fn values_four_mut(&mut self, a: Handle, b: Handle, c: Handle, d: Handle) -> (r: (
        &mut T,
        &mut T,
        &mut T,
        &mut T,
    ))
        requires
            old(self)@.contains_key(a),
            old(self)@.contains_key(b),
            old(self)@.contains_key(c),
            old(self)@.contains_key(d),
            a != b,
            a != c,
            a != d,
            b != c,
            b != d,
            c != d,
        ensures
            *r.0 == old(self)@[a],
            *r.1 == old(self)@[b],
            *r.2 == old(self)@[c],
            *r.3 == old(self)@[d],
            final(self).differs_in(
                old(self),
                set![a.index as int, b.index as int, c.index as int, d.index as int],
            ),
            final(self).records[a.index as int].payload->0 == *final(r.0),
            final(self).records[b.index as int].payload->0 == *final(r.1),
            final(self).records[c.index as int].payload->0 == *final(r.2),
            final(self).records[d.index as int].payload->0 == *final(r.3),
    {
        let (ra, rb, rc, rd) = pick_four(
            self.records.as_mut_slice(),
            a.index,
            b.index,
            c.index,
            d.index,
        );
        (
            match &mut ra.payload {
                Some(value) => value,
                None => unreached(),
            },
            match &mut rb.payload {
                Some(value) => value,
                None => unreached(),
            },
            match &mut rc.payload {
                Some(value) => value,
                None => unreached(),
            },
            match &mut rd.payload {
                Some(value) => value,
                None => unreached(),
            },
        )
    }

    /// Lends the values under four handles for change at once, or fails if
    /// two of the handles are the same.
    pub fn borrow_four_mut(&mut self, handles: (Handle, Handle, Handle, Handle)) -> (r: Result<
        (&mut T, &mut T, &mut T, &mut T),
        BorrowError,
    >)
        requires
            old(self)@.contains_key(handles.0),
            old(self)@.contains_key(handles.1),
            old(self)@.contains_key(handles.2),
            old(self)@.contains_key(handles.3),
        ensures
            r is Err <==> handles.0 == handles.1 || handles.0 == handles.2 || handles.0
                == handles.3 || handles.1 == handles.2 || handles.1 == handles.3 || handles.2
                == handles.3,
            (match r {
                Ok((a, b, c, d)) => {
                    &&& *a == old(self)@[handles.0]
                    &&& *b == old(self)@[handles.1]
                    &&& *c == old(self)@[handles.2]
                    &&& *d == old(self)@[handles.3]
                    &&& final(self)@ == old(self)@.insert(handles.0, *final(a)).insert(
                        handles.1,
                        *final(b),
                    ).insert(handles.2, *final(c)).insert(handles.3, *final(d))
                },
                Err(e) => e == BorrowError::Overlap && final(self)@ == old(self)@,
            }),
            old(self).wf() ==> final(self).wf(),
            old(self).wf() ==> forall|k: nat| final(self).upcoming(k) == old(self).upcoming(k),
            final(self).capacity() == old(self).capacity(),
            forall|i: int|
                0 <= i < old(self).capacity() ==> final(self).handle_at(i) == old(self).handle_at(
                    i,
                ),
    {
        if handles.0 == handles.1 || handles.0 == handles.2 || handles.0 == handles.3
            || handles.1 == handles.2 || handles.1 == handles.3 || handles.2 == handles.3 {
            return Err(BorrowError::Overlap);
        }
        proof {
            let slots = set![
                handles.0.index as int,
                handles.1.index as int,
                handles.2.index as int,
                handles.3.index as int,
            ];
            assert forall|p: Self| #[trigger] p.differs_in(&*self, slots) implies {
                &&& p@ == self@.insert(
                    handles.0,
                    p.records[handles.0.index as int].payload->0,
                ).insert(handles.1, p.records[handles.1.index as int].payload->0).insert(
                    handles.2,
                    p.records[handles.2.index as int].payload->0,
                ).insert(handles.3, p.records[handles.3.index as int].payload->0)
                &&& self.wf() ==> p.wf()
                &&& self.wf() ==> forall|k: nat| p.upcoming(k) == self.upcoming(k)
                &&& p.capacity() == self.capacity()
                &&& forall|i: int| 0 <= i < self.capacity() ==> p.handle_at(i) == self.handle_at(i)
            } by {
                p.lemma_differs_in(&*self, slots);
                assert(p@ =~= self@.insert(
                    handles.0,
                    p.records[handles.0.index as int].payload->0,
                ).insert(handles.1, p.records[handles.1.index as int].payload->0).insert(
                    handles.2,
                    p.records[handles.2.index as int].payload->0,
                ).insert(handles.3, p.records[handles.3.index as int].payload->0));
            }
        }
        Ok(self.values_four_mut(handles.0, handles.1, handles.2, handles.3))
    }

    /// The value in slot `i`, with its handle, for change, if the slot holds
    /// a value.
    pub fn at_mut(&mut self, i: usize) -> (r: Option<(Handle, &mut T)>)
        ensures
            r is Some <==> i < old(self).capacity() && old(self)@.contains_key(
                old(self).handle_at(i as int),
            ),
            (match r {
                Some((h, value)) => {
                    &&& h == old(self).handle_at(i as int)
                    &&& *value == old(self)@[h]
                    &&& final(self)@ == old(self)@.insert(h, *final(value))
                },
                None => final(self)@ == old(self)@,
            }),
            old(self).wf() ==> final(self).wf(),
            old(self).wf() ==> forall|k: nat| final(self).upcoming(k) == old(self).upcoming(k),
            final(self).capacity() == old(self).capacity(),
            forall|k: int|
                0 <= k < old(self).capacity() ==> final(self).handle_at(k) == old(self).handle_at(
                    k,
                ),
    {
        let h = self.handle_from_index(i);
        if i < self.records.len() && self.records[i].payload.is_some() {
            Some((h, self.borrow_mut(h)))
        } else {
            None
        }
    }
}

} // verus!
