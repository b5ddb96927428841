//! An append-only pool made of fixed-capacity segments, handing out typed,
//! stable handles.

use std::marker::PhantomData;
use vstd::arithmetic::div_mod::lemma_fundamental_div_mod_converse;
use vstd::prelude::*;

verus! {

/// A handle into an [`Arena`]: the segment a value lives in and its slot in
/// that segment. The type parameter keeps handles of pools of different
/// element types apart; the ghost identity of the issuing arena keeps apart
/// handles of different arenas of the same element type.
pub struct Id<T> {
    seg: u32,
    idx: u32,
    arena: Ghost<int>,
    ty: PhantomData<T>,
}

impl<T> Id<T> {
    /// The position of the handle's value in insertion order, for an arena
    /// whose segments hold `n` values.
    pub open spec fn position(self, n: nat) -> int {
        self.spec_segment() * n + self.spec_slot()
    }

    pub closed spec fn spec_segment(self) -> u32 {
        self.seg
    }

    pub closed spec fn spec_slot(self) -> u32 {
        self.idx
    }

    /// The identity of the arena that issued the handle.
    pub closed spec fn spec_arena(self) -> int {
        self.arena@
    }

    /// The segment the value lives in.
    pub fn segment(&self) -> (r: u32)
        ensures
            r == self.spec_segment(),
    {
        self.seg
    }

    /// The slot of the value inside its segment.
    pub fn slot(&self) -> (r: u32)
        ensures
            r == self.spec_slot(),
    {
        self.idx
    }
}

impl<T> Clone for Id<T> {
    fn clone(&self) -> (r: Self)
        ensures
            r == *self,
    {
        Id { seg: self.seg, idx: self.idx, arena: self.arena, ty: PhantomData }
    }
}

impl<T> Copy for Id<T> {

}

impl<T> PartialEq for Id<T> {
    fn eq(&self, other: &Self) -> (r: bool) {
        self.seg == other.seg && self.idx == other.idx
    }
}

impl<T> Eq for Id<T> {

}

impl<T> vstd::std_specs::cmp::PartialEqSpecImpl for Id<T> {
    open spec fn obeys_eq_spec() -> bool {
        true
    }

    open spec fn eq_spec(&self, other: &Self) -> bool {
        self.spec_segment() == other.spec_segment() && self.spec_slot() == other.spec_slot()
    }
}

impl<T> Default for Id<T> {
    fn default() -> (r: Self)
        ensures
            r.spec_segment() == 0,
            r.spec_slot() == 0,
    {
        Id { seg: 0, idx: 0, arena: Ghost(arbitrary()), ty: PhantomData }
    }
}

/// The handle of the `k`-th value inserted into an arena whose segments hold
/// `n` values.
pub open spec fn id_spec(k: nat, n: nat) -> (u32, u32) {
    ((k / n) as u32, (k % n) as u32)
}

/// An unbounded pool of `T`. Values live in segments of `N` slots: the current
/// segment, which holds the values claimed so far in it, and the retired
/// segments, each full. A value is never moved nor dropped before the arena
/// is: each segment is allocated once with room for `N` values and never
/// grows past it. Dropping the arena drops exactly the values that were
/// inserted.
///
/// Every arena has a ghost identity, which its handles carry. What a new
/// arena's identity is stays unstated, so no caller can show that two arenas
/// share one: a handle is usable with the arena that issued it and no other.
///
/// Insertion takes the arena by `&mut`, so claiming a slot and stamping its
/// segment number happen as one step; to share an arena between threads, put
/// it behind a lock.
pub struct Arena<T, const N: usize> {
    current: Vec<T>,
    rest: Vec<Vec<T>>,
    items: Ghost<Seq<T>>,
    identity: Ghost<int>,
}

impl<T, const N: usize> View for Arena<T, N> {
    type V = Seq<T>;

    /// The values of the arena, in insertion order.
    closed spec fn view(&self) -> Seq<T> {
        self.items@
    }
}

impl<T, const N: usize> Arena<T, N> {
    /// The arena's internal consistency: every retired segment is full, the
    /// current one has room, and reading the segments in order gives the
    /// values in insertion order.
    pub closed spec fn wf(&self) -> bool {
        &&& 0 < N <= 4294967296
        &&& self.current@.len() <= N
        &&& self.rest@.len() <= u32::MAX
        &&& self.items@.len() <= usize::MAX
        &&& self.items@.len() == self.rest@.len() * N + self.current@.len()
        &&& forall|s: int| 0 <= s < self.rest@.len() ==> #[trigger] self.rest@[s]@.len() == N
        &&& forall|s: int, j: int|
            0 <= s < self.rest@.len() && 0 <= j < N ==> #[trigger] self.rest@[s]@[j]
                == self.items@[s * N + j]
        &&& forall|j: int|
            0 <= j < self.current@.len() ==> #[trigger] self.current@[j] == self.items@[
                self.rest@.len() * N + j]
    }

    /// The arena's identity, carried by the handles it issues.
    pub closed spec fn identity(&self) -> int {
        self.identity@
    }

    /// Whether `id` was issued by this arena and names one of its values.
    pub open spec fn issued(&self, id: Id<T>) -> bool {
        &&& id.spec_arena() == self.identity()
        &&& id.spec_slot() < N
        &&& 0 <= id.position(N as nat) < self@.len()
    }

    /// Whether one more value can be given a handle: segment numbers are
    /// 32-bit.
    pub open spec fn has_room(&self) -> bool {
        self@.len() < usize::MAX && self@.len() < 4294967296 * N
    }

    /// Creates an empty arena.
    pub fn new() -> (r: Self)
        requires
            0 < N <= 4294967296,
        ensures
            r.wf(),
            r@ == Seq::<T>::empty(),
    {
        Arena {
            current: Vec::with_capacity(N),
            rest: Vec::new(),
            items: Ghost(Seq::empty()),
            identity: Ghost(arbitrary()),
        }
    }

    /// The number of values in the arena.
    pub fn len(&self) -> (r: usize)
        requires
            self.wf(),
        ensures
            r == self@.len(),
    {
        proof {
            assert(self.rest@.len() * N <= self.items@.len());
        }
        self.rest.len() * N + self.current.len()
    }
    /// Whether one more value can be given a handle.
    pub fn can_insert(&self) -> (r: bool)
        requires
            self.wf(),
        ensures
            r == self.has_room(),
    {
        let len = self.len();
        proof {
            let n = N as int;
            let r = self.rest@.len() as int;
            let c = self.current@.len() as int;
            assert((r < 4294967295 || c < n) <==> r * n + c < 4294967296 * n) by (nonlinear_arith)
                requires
                    0 <= r <= 4294967295,
                    0 <= c <= n,
                    n > 0,
            ;
        }
        len < usize::MAX && (self.rest.len() < 4294967295 || self.current.len() < N)
    }

    /// Stores `value` and returns its handle. When the current segment is
    /// full it is retired and a fresh one takes its place. The `k`-th value
    /// inserted gets segment `k / N` and slot `k % N`.
    pub fn insert(&mut self, value: T) -> (r: Id<T>)
        requires
            old(self).wf(),
            old(self).has_room(),
        ensures
            final(self).wf(),
            final(self)@ == old(self)@.push(value),
            (r.spec_segment(), r.spec_slot()) == id_spec(old(self)@.len(), N as nat),
            final(self).identity() == old(self).identity(),
            final(self).issued(r),
    {
        let ghost n = N as int;
        if self.current.len() == N {
            let mut full: Vec<T> = Vec::with_capacity(N);
            std::mem::swap(&mut full, &mut self.current);
            proof {
                assert(self.rest@.len() * n + n < 4294967296 * n);
                assert((self.rest@.len() + 1) * n < 4294967296 * n ==> self.rest@.len() + 1
                    < 4294967296) by (nonlinear_arith)
                    requires
                        n > 0,
                ;
            }
            self.rest.push(full);
            proof {
                let r = self.rest@.len() - 1;
                assert forall|s: int, j: int|
                    0 <= s < self.rest@.len() && 0 <= j < N implies #[trigger] self.rest@[s]@[j]
                    == self.items@[s * N + j] by {
                    if s == r {
                        assert(self.rest@[s]@[j] == full@[j]);
                    }
                }
                assert(self.rest@.len() * n == r * n + n) by (nonlinear_arith)
                    requires
                        r == self.rest@.len() - 1,
                ;
            }
        }
        proof {
            assert(self.rest@.len() <= u32::MAX);
            assert(self.items@.len() == self.rest@.len() * n + self.current@.len());
        }
        let seg = self.rest.len() as u32;
        let idx = self.current.len() as u32;
        self.current.push(value);
        proof {
            let old_len = self.items@.len();
            assert(old_len == seg * n + idx);
            let old_items = self.items@;
            self.items@ = self.items@.push(value);
            assert forall|s: int, j: int|
                0 <= s < self.rest@.len() && 0 <= j < N implies #[trigger] self.rest@[s]@[j]
                == self.items@[s * N + j] by {
                assert(s * n + j < self.rest@.len() * n) by (nonlinear_arith)
                    requires
                        0 <= s < self.rest@.len(),
                        0 <= j < n,
                ;
                assert(self.items@[s * N + j] == old_items[s * N + j]);
            }
            lemma_fundamental_div_mod_converse(old_len as int, n, seg as int, idx as int);
        }
        Id { seg, idx, arena: self.identity, ty: PhantomData }
    }

    /// The value that `id` names.
    pub fn get(&self, id: Id<T>) -> (r: &T)
        requires
            self.wf(),
            self.issued(id),
        ensures
            *r == self@[id.position(N as nat)],
    {
        let seg = id.seg as usize;
        let idx = id.idx as usize;
        if seg < self.rest.len() {
            &self.rest[seg][idx]
        } else {
            proof {
                let n = N as int;
                if seg > self.rest@.len() {
                    assert(seg * n + idx >= self.rest@.len() * n + n) by (nonlinear_arith)
                        requires
                            seg >= self.rest@.len() + 1,
                            idx >= 0,
                            n > 0,
                    ;
                }
            }
            &self.current[idx]
        }
    }
}

/// The handle given to the `k`-th value leads back to position `k`, however
/// many segments the arena has grown to; so a handle that [`Arena::insert`]
/// returned stays valid, and [`Arena::get`] on it yields the value inserted.
pub proof fn lemma_handle_round_trip<T, const N: usize>(a: Arena<T, N>, id: Id<T>, k: nat)
    requires
        a.wf(),
        k < a@.len(),
        (id.spec_segment(), id.spec_slot()) == id_spec(k, N as nat),
        id.spec_arena() == a.identity(),
    ensures
        a.issued(id),
        id.position(N as nat) == k,
{
    let n = N as int;
    let r = a.rest@.len() as int;
    assert(a@.len() <= n * 4294967296) by (nonlinear_arith)
        requires
            a@.len() == r * n + a.current@.len(),
            a.current@.len() <= n,
            r <= 4294967295,
            n > 0,
    ;
    lemma_position_of_handle(k, N as nat);
}

/// Splitting a position into segment and slot loses nothing.
proof fn lemma_position_of_handle(k: nat, n: nat)
    requires
        0 < n <= 4294967296,
        k < n * 4294967296,
    ensures
        (k / n) as u32 == k / n,
        (k % n) as u32 == k % n,
        k % n < n,
        (k / n) * n + k % n == k,
{
    vstd::arithmetic::div_mod::lemma_fundamental_div_mod(k as int, n as int);
    vstd::arithmetic::div_mod::lemma_mod_pos_bound(k as int, n as int);
    vstd::arithmetic::div_mod::lemma_div_pos_is_pos(k as int, n as int);
    vstd::arithmetic::div_mod::lemma_multiply_divide_lt(k as int, n as int, 4294967296);
    vstd::arithmetic::mul::lemma_mul_is_commutative(k as int / n as int, n as int);
}

/// Distinct positions get distinct handles.
pub proof fn lemma_handles_distinct(k1: nat, k2: nat, n: nat)
    requires
        0 < n <= 4294967296,
        k1 != k2,
        k1 < n * 4294967296,
        k2 < n * 4294967296,
    ensures
        id_spec(k1, n) != id_spec(k2, n),
{
    lemma_position_of_handle(k1, n);
    lemma_position_of_handle(k2, n);
}

/// A handle is issued by one arena identity only: an arena accepts a
/// handle only when the handle carries its own identity.
pub proof fn lemma_handle_bound_to_issuer<T, const N: usize>(a: Arena<T, N>, b: Arena<T, N>, id: Id<T>)
    requires
        a.issued(id),
        b.issued(id),
    ensures
        a.identity() == b.identity(),
{
}

/// The handles that successive insertions returned, one per value: the
/// `k`-th leads back to the `k`-th value inserted, and no two are equal,
/// however many segments the values span.
pub proof fn lemma_all_handles<T, const N: usize>(a: Arena<T, N>, ids: Seq<Id<T>>)
    requires
        a.wf(),
        ids.len() == a@.len(),
        forall|k: int|
            0 <= k < ids.len() ==> (#[trigger] ids[k]).spec_arena() == a.identity() && (
            ids[k].spec_segment(),
            ids[k].spec_slot(),
        ) == id_spec(k as nat, N as nat),
    ensures
        forall|k: int| 0 <= k < ids.len() ==> a.issued(#[trigger] ids[k]) && ids[k].position(N as nat) == k,
        forall|j: int, k: int|
            0 <= j < ids.len() && 0 <= k < ids.len() && j != k ==> (
            #[trigger] ids[j]).spec_segment() != (#[trigger] ids[k]).spec_segment()
                || ids[j].spec_slot() != ids[k].spec_slot(),
{
    assert forall|k: int| 0 <= k < ids.len() implies a.issued(#[trigger] ids[k]) && ids[k].position(
        N as nat,
    ) == k by {
        lemma_handle_round_trip(a, ids[k], k as nat);
    }
    assert forall|j: int, k: int|
        0 <= j < ids.len() && 0 <= k < ids.len() && j != k implies (
        #[trigger] ids[j]).spec_segment() != (#[trigger] ids[k]).spec_segment()
        || ids[j].spec_slot() != ids[k].spec_slot() by {
        lemma_handle_round_trip(a, ids[j], j as nat);
        lemma_handle_round_trip(a, ids[k], k as nat);
    }
}

} // verus!
