//! Per-seat focus bookkeeping.
//!
//! Each seat owns an ordered set of windows, most recently focused first.
//! The ordered set is indexmap's `IndexSet`; what it holds is named by the
//! uninterpreted sequence `ring_view`, and every method the crate calls is
//! wrapped with a contract drawn from indexmap's documented behaviour.

use vstd::prelude::*;
use indexmap::IndexSet;

verus! {

#[verifier::external_type_specification]
#[verifier::external_body]
#[verifier::reject_recursive_types(T)]
#[verifier::reject_recursive_types(S)]
pub struct ExIndexSet<T, S>(IndexSet<T, S>);

/// The windows an `IndexSet` holds, in its insertion order.
pub uninterp spec fn ring_view(s: IndexSet<u64>) -> Seq<u64>;

/// The predicate "is not `w`", as one shared function value.
pub open spec fn ne(w: u64) -> spec_fn(u64) -> bool {
    |x: u64| x != w
}

/// `s` with every occurrence of `w` dropped, order kept.
pub open spec fn without(s: Seq<u64>, w: u64) -> Seq<u64> {
    s.filter(ne(w))
}

/// Relies on `IndexSet::new`: a new set is empty.
#[verifier::external_body]
fn ring_new() -> (r: IndexSet<u64>)
    ensures
        ring_view(r) == Seq::<u64>::empty(),
{
    IndexSet::new()
}

/// Relies on `IndexSet::shift_remove`: removes `w` if present, keeping the
/// relative order of the remaining values; a set holds no duplicates.
#[verifier::external_body]
fn ring_remove(s: &mut IndexSet<u64>, w: u64) -> (r: bool)
    ensures
        r == ring_view(*old(s)).contains(w),
        ring_view(*final(s)) == without(ring_view(*old(s)), w),
        ring_view(*final(s)).no_duplicates(),
{
    s.shift_remove(&w)
}

/// Relies on `IndexSet::shift_insert` at index 0: a new value is inserted at
/// the front, an existing one is moved there, everything else shifting back;
/// a set holds no duplicates.
#[verifier::external_body]
fn ring_push_front(s: &mut IndexSet<u64>, w: u64) -> (r: bool)
    ensures
        r == !ring_view(*old(s)).contains(w),
        ring_view(*final(s)) == seq![w] + without(ring_view(*old(s)), w),
        ring_view(*final(s)).no_duplicates(),
{
    s.shift_insert(0, w)
}

/// Relies on `IndexSet::get_index`: the value at index 0, if any.
#[verifier::external_body]
fn ring_first(s: &IndexSet<u64>) -> (r: Option<u64>)
    ensures
        r == if ring_view(*s).len() == 0 {
            Option::<u64>::None
        } else {
            Option::<u64>::Some(ring_view(*s)[0])
        },
{
    s.get_index(0).copied()
}

/// Relies on `IndexSet::iter`: the values in order.
#[verifier::external_body]
fn ring_to_vec(s: &IndexSet<u64>) -> (r: Vec<u64>)
    ensures
        r@ == ring_view(*s),
{
    s.iter().copied().collect()
}

/// One seat's focus ring: the seat handle and its ordered window set,
/// most recently focused first.
pub struct SeatRing {
    pub seat: u64,
    pub ring: IndexSet<u64>,
}

/// The per-seat focus registry: one ring per seat, created lazily.
pub struct FocusStacks {
    pub stacks: Vec<SeatRing>,
}

impl FocusStacks {
    /// The seats that have a ring, in creation order.
    pub open spec fn seats(self) -> Seq<u64> {
        self.stacks@.map_values(|e: SeatRing| e.seat)
    }

    pub open spec fn has_seat(self, seat: u64) -> bool {
        self.seats().contains(seat)
    }

    pub open spec fn seat_index(self, seat: u64) -> int {
        choose|i: int| 0 <= i < self.stacks@.len() && self.stacks@[i].seat == seat
    }

    /// The focus order of `seat`, most recently focused first; empty for a
    /// seat without a ring.
    pub open spec fn stack_of(self, seat: u64) -> Seq<u64> {
        if self.has_seat(seat) {
            ring_view(self.stacks@[self.seat_index(seat)].ring)
        } else {
            Seq::<u64>::empty()
        }
    }

    pub open spec fn stack_contains(self, seat: u64, w: u64) -> bool {
        self.stack_of(seat).contains(w)
    }

    /// Well-formed: one ring per seat, and no window twice in a ring.
    pub open spec fn wf(self) -> bool {
        &&& self.seats().no_duplicates()
        &&& forall|i: int|
            0 <= i < self.stacks@.len() ==> (#[trigger] ring_view(
                self.stacks@[i].ring,
            )).no_duplicates()
    }

    proof fn lemma_seat_index(self, seat: u64, j: int)
        requires
            self.wf(),
            0 <= j < self.stacks@.len(),
            self.stacks@[j].seat == seat,
        ensures
            self.has_seat(seat),
            self.seat_index(seat) == j,
    {
        assert(self.seats()[j] == seat);
        let i = self.seat_index(seat);
        assert(0 <= i < self.stacks@.len() && self.stacks@[i].seat == seat);
        if i != j {
            assert(self.seats()[i] == seat);
            assert(false);
        }
    }

    proof fn lemma_no_seat(self, seat: u64)
        requires
            forall|i: int| 0 <= i < self.stacks@.len() ==> (#[trigger] self.stacks@[i].seat)
                != seat,
        ensures
            !self.has_seat(seat),
    {
        if self.has_seat(seat) {
            let i = choose|i: int| 0 <= i < self.seats().len() && self.seats()[i] == seat;
            assert(self.stacks@[i].seat == seat);
        }
    }

    pub fn new() -> (r: FocusStacks)
        ensures
            r.wf(),
            r.seats() == Seq::<u64>::empty(),
            forall|s: u64| #[trigger] r.stack_of(s) == Seq::<u64>::empty(),
    {
        let r = FocusStacks { stacks: Vec::new() };
        proof {
            assert(r.seats() =~= Seq::<u64>::empty());
            assert forall|s: u64| #[trigger] r.stack_of(s) == Seq::<u64>::empty() by {
                r.lemma_no_seat(s);
            }
        }
        r
    }

    fn find_seat(&self, seat: u64) -> (r: Option<usize>)
        requires
            self.wf(),
        ensures
            match r {
                Some(j) => j < self.stacks@.len() && self.stacks@[j as int].seat == seat
                    && self.has_seat(seat) && self.seat_index(seat) == j,
                None => !self.has_seat(seat),
            },
    {
        let mut j: usize = 0;
        while j < self.stacks.len()
            invariant
                self.wf(),
                j <= self.stacks@.len(),
                forall|i: int| 0 <= i < j ==> (#[trigger] self.stacks@[i].seat) != seat,
            decreases self.stacks@.len() - j,
        {
            if self.stacks[j].seat == seat {
                proof {
                    self.lemma_seat_index(seat, j as int);
                }
                return Some(j);
            }
            j += 1;
        }
        proof {
            self.lemma_no_seat(seat);
        }
        None
    }

    /// A snapshot of `seat`'s focus order, most recently focused first.
    pub fn get(&self, seat: u64) -> (r: Vec<u64>)
        requires
            self.wf(),
        ensures
            r@ == self.stack_of(seat),
    {
        match self.find_seat(seat) {
            Some(j) => ring_to_vec(&self.stacks[j].ring),
            None => Vec::new(),
        }
    }

    /// The window most recently focused on `seat`, if any.
    pub fn focused(&self, seat: u64) -> (r: Option<u64>)
        requires
            self.wf(),
        ensures
            r == if self.stack_of(seat).len() == 0 {
                Option::<u64>::None
            } else {
                Option::<u64>::Some(self.stack_of(seat)[0])
            },
    {
        match self.find_seat(seat) {
            Some(j) => ring_first(&self.stacks[j].ring),
            None => None,
        }
    }

    /// Record that `seat` focused `window`: the window moves to the front of
    /// the seat's ring, which is created on first use.
    pub fn append(&mut self, seat: u64, window: u64)
        requires
            old(self).wf(),
        ensures
            final (self).wf(),
            final (self).stack_of(seat) == seq![window] + without(old(self).stack_of(seat), window),
            forall|s: u64|
                s != seat ==> #[trigger] final (self).stack_of(s) == old(self).stack_of(s),
            forall|s: u64| #[trigger] final (self).has_seat(s) == (old(self).has_seat(s) || s
                == seat),
    {
        let ghost pre = *self;
        let j: usize = match self.find_seat(seat) {
            Some(j) => j,
            None => {
                let j = self.stacks.len();
                self.stacks.push(SeatRing { seat, ring: ring_new() });
                proof {
                    assert(self.seats() =~= pre.seats().push(seat));
                    assert(self.seats().no_duplicates()) by {
                        let t = self.seats();
                        assert forall|a: int, b: int| 0 <= a < b < t.len() implies t[a] != t[b] by {
                            if b == t.len() - 1 {
                                if t[a] == seat {
                                    assert(pre.seats()[a] == seat);
                                    assert(pre.has_seat(seat));
                                }
                            } else {
                                assert(t[a] == pre.seats()[a] && t[b] == pre.seats()[b]);
                            }
                        }
                    }
                    assert(self.wf()) by {
                        assert forall|i: int|
                            0 <= i < self.stacks@.len() implies (#[trigger] ring_view(
                            self.stacks@[i].ring,
                        )).no_duplicates() by {
                            if i < j as int {
                                assert(self.stacks@[i] == pre.stacks@[i]);
                            } else {
                                assert(ring_view(self.stacks@[i].ring) == Seq::<u64>::empty());
                            }
                        }
                    }
                    self.lemma_seat_index(seat, j as int);
                    assert forall|s: u64| s != seat && pre.has_seat(s) implies #[trigger] self
                        .has_seat(s) && self.seat_index(s) == pre.seat_index(s) by {
                        let i = pre.seat_index(s);
                        assert(pre.seats()[i] == s);
                        self.lemma_seat_index(s, i);
                    }
                }
                j
            },
        };
        let ghost mid = *self;
        let ring_ref = &mut self.stacks[j].ring;
        ring_push_front(ring_ref, window);
        proof {
            assert(self.stacks@ =~= mid.stacks@.update(
                j as int,
                SeatRing { seat, ring: self.stacks@[j as int].ring },
            ));
            assert(self.seats() =~= mid.seats());
            assert(self.wf()) by {
                assert forall|i: int|
                    0 <= i < self.stacks@.len() implies (#[trigger] ring_view(
                    self.stacks@[i].ring,
                )).no_duplicates() by {
                    if i != j as int {
                        assert(self.stacks@[i].ring == mid.stacks@[i].ring);
                    }
                }
            }
            mid.lemma_seat_index(seat, j as int);
            self.lemma_seat_index(seat, j as int);
            assert forall|s: u64| s != seat && mid.has_seat(s) implies #[trigger] self.has_seat(s)
                && self.stack_of(s) == mid.stack_of(s) by {
                let i = mid.seat_index(s);
                assert(mid.seats()[i] == s);
                self.lemma_seat_index(s, i);
                assert(self.stacks@[i].ring == mid.stacks@[i].ring);
            }
            assert forall|s: u64| s != seat && !mid.has_seat(s) implies !(#[trigger] self.has_seat(
                s,
            )) by {}
            if !pre.has_seat(seat) {
                assert(pre.stack_of(seat) =~= Seq::<u64>::empty());
                assert(without(pre.stack_of(seat), window) =~= Seq::<u64>::empty());
                assert(mid.stack_of(seat) == Seq::<u64>::empty());
            } else {
                assert(mid == pre);
            }
        }
    }

    /// Drop `window` from every seat's ring; everything else is unchanged.
    pub fn remove_window(&mut self, window: u64)
        requires
            old(self).wf(),
        ensures
            final (self).wf(),
            forall|s: u64| #[trigger] final (self).stack_of(s) == without(
                old(self).stack_of(s),
                window,
            ),
            forall|s: u64| #[trigger] final (self).has_seat(s) == old(self).has_seat(s),
    {
        let ghost pre = *self;
        let mut j: usize = 0;
        while j < self.stacks.len()
            invariant
                pre.wf(),
                self.wf(),
                j <= self.stacks@.len(),
                self.stacks@.len() == pre.stacks@.len(),
                forall|i: int| 0 <= i < self.stacks@.len() ==> (#[trigger] self.stacks@[i].seat)
                    == pre.stacks@[i].seat,
                forall|i: int|
                    0 <= i < j ==> ring_view(#[trigger] self.stacks@[i].ring) == without(
                        ring_view(pre.stacks@[i].ring),
                        window,
                    ),
                forall|i: int|
                    j <= i < self.stacks@.len() ==> (#[trigger] self.stacks@[i].ring)
                        == pre.stacks@[i].ring,
            decreases self.stacks@.len() - j,
        {
            let ghost mid = *self;
            let ring_ref = &mut self.stacks[j].ring;
            ring_remove(ring_ref, window);
            proof {
                assert(self.stacks@ =~= mid.stacks@.update(
                    j as int,
                    SeatRing { seat: mid.stacks@[j as int].seat, ring: self.stacks@[j as int].ring },
                ));
                assert(self.wf()) by {
                    assert(self.seats() =~= mid.seats());
                    assert forall|i: int|
                        0 <= i < self.stacks@.len() implies (#[trigger] ring_view(
                        self.stacks@[i].ring,
                    )).no_duplicates() by {
                        if i != j as int {
                            assert(self.stacks@[i].ring == mid.stacks@[i].ring);
                        }
                    }
                }
            }
            j += 1;
        }
        proof {
            assert(self.seats() =~= pre.seats());
            assert forall|s: u64| #[trigger] self.has_seat(s) == pre.has_seat(s) by {}
            assert forall|s: u64| #[trigger] self.stack_of(s) == without(
                pre.stack_of(s),
                window,
            ) by {
                if pre.has_seat(s) {
                    let i = pre.seat_index(s);
                    assert(pre.seats()[i] == s);
                    pre.lemma_seat_index(s, i);
                    self.lemma_seat_index(s, i);
                } else {
                    assert(!self.has_seat(s));
                    assert(without(Seq::<u64>::empty(), window) =~= Seq::<u64>::empty());
                }
            }
        }
    }
}

} // verus!
