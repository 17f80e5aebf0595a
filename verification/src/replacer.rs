use vstd::prelude::*;

use vstd::arithmetic::div_mod::{
    lemma_add_mod_noop_right, lemma_mod_add_multiples_vanish, lemma_mod_sub_multiples_vanish,
    lemma_small_mod,
};

verus! {

/// The frame is pinned (or empty): the clock hand skips it.
pub const STATE_PINNED: u8 = 0;

/// The frame is unpinned and was used recently.
pub const STATE_HOT: u8 = 1;

/// The frame is unpinned and due for eviction.
pub const STATE_COLD: u8 = 2;

/// A page replacement policy over frames `0..frame_count()`. The buffer
/// pool relies only on what these contracts state: which frames may be
/// evicted, that `victim` hands out one of them whenever there is one, and
/// how each call changes the policy (`victim_step`, `pin_step`, `unpin_step`).
pub trait Replacer: Send + Sync + Sized {
    /// Number of frames the policy manages.
    spec fn frame_count(&self) -> nat;

    /// Whether frame `frame_id` may currently be chosen as a victim.
    spec fn evictable(&self, frame_id: int) -> bool;

    /// `victim` turns this policy into `after` and answers `chosen`.
    spec fn victim_step(&self, after: Self, chosen: Option<usize>) -> bool;

    /// `pin(frame_id)` turns this policy into `after`.
    spec fn pin_step(&self, after: Self, frame_id: usize) -> bool;

    /// `unpin(frame_id)` turns this policy into `after`.
    spec fn unpin_step(&self, after: Self, frame_id: usize) -> bool;

    /// Chooses a frame to evict and pins it; `None` only when no frame is evictable.
    fn victim(&mut self) -> (r: Option<usize>)
        ensures
            old(self).victim_step(*final(self), r),
            final(self).frame_count() == old(self).frame_count(),
            match r {
                Some(f) => {
                    &&& f < old(self).frame_count()
                    &&& old(self).evictable(f as int)
                    &&& !final(self).evictable(f as int)
                    &&& forall|g: int|
                        g != f ==> #[trigger] final(self).evictable(g) == old(self).evictable(g)
                },
                None => {
                    &&& forall|g: int| #[trigger] final(self).evictable(g) == old(self).evictable(g)
                    &&& forall|g: int|
                        0 <= g < old(self).frame_count() ==> !#[trigger] old(self).evictable(g)
                },
            },
    ;

    /// Marks a frame as in use: it cannot be evicted.
    fn pin(&mut self, frame_id: usize)
        requires
            frame_id < old(self).frame_count(),
        ensures
            old(self).pin_step(*final(self), frame_id),
            final(self).frame_count() == old(self).frame_count(),
            !final(self).evictable(frame_id as int),
            forall|g: int|
                g != frame_id ==> #[trigger] final(self).evictable(g) == old(self).evictable(g),
    ;

    /// Marks a frame as no longer in use: it may be evicted.
    fn unpin(&mut self, frame_id: usize)
        requires
            frame_id < old(self).frame_count(),
        ensures
            old(self).unpin_step(*final(self), frame_id),
            final(self).frame_count() == old(self).frame_count(),
            final(self).evictable(frame_id as int),
            forall|g: int|
                g != frame_id ==> #[trigger] final(self).evictable(g) == old(self).evictable(g),
    ;

    /// Number of frames that may be evicted.
    fn size(&self) -> (r: usize)
        ensures
            r == Set::new(|g: int| 0 <= g < self.frame_count() && self.evictable(g)).len(),
    ;
}

/// The state a clock-hand position lands on.
pub open spec fn clock_frame(hand: int, capacity: int) -> int {
    hand % capacity
}

/// The clock hand after one step: the next frame, back to frame 0 after the last.
pub open spec fn clock_next(hand: int, capacity: int) -> int {
    if hand + 1 >= capacity {
        0
    } else {
        hand + 1
    }
}

/// Runs the clock for at most `steps` positions from `hand`: a hot frame
/// turns cold, a cold frame is pinned and chosen, a pinned frame is skipped.
/// Gives the frame states and hand afterwards, and the frame chosen.
pub open spec fn clock_sweep(states: Seq<u8>, hand: int, capacity: int, steps: int) -> (
    Seq<u8>,
    int,
    Option<int>,
)
    decreases steps,
{
    if steps <= 0 || capacity <= 0 {
        (states, hand, None)
    } else {
        let f = clock_frame(hand, capacity);
        let next = clock_next(hand, capacity);
        if states[f] == STATE_HOT {
            clock_sweep(states.update(f, STATE_COLD), next, capacity, steps - 1)
        } else if states[f] == STATE_COLD {
            (states.update(f, STATE_PINNED), next, Some(f))
        } else {
            clock_sweep(states, next, capacity, steps - 1)
        }
    }
}

/// Number of frames among the first `k` that are not pinned.
pub open spec fn count_unpinned(states: Seq<u8>, k: int) -> int
    decreases k,
{
    if k <= 0 {
        0
    } else {
        count_unpinned(states, k - 1) + if states[k - 1] != STATE_PINNED {
            1int
        } else {
            0
        }
    }
}

/// Every state is one of the three the clock uses.
pub open spec fn states_valid(states: Seq<u8>) -> bool {
    forall|i: int|
        0 <= i < states.len() ==> #[trigger] states[i] == STATE_PINNED || states[i] == STATE_HOT
            || states[i] == STATE_COLD
}

/// The clock replacement policy: an approximation of least recently used
/// that sweeps the frames with a hand, giving each unpinned frame a second
/// chance before evicting it.
pub struct ClockReplacer {
    states: Vec<u8>,
    clock_hand: usize,
    capacity: usize,
}

impl ClockReplacer {
    /// What holds of every clock replacer: one state per frame, each a
    /// valid one, and the hand on a frame (or at 0 when there is none).
    /// Callers learn it with `use_type_invariant`.
    #[verifier::type_invariant]
    pub open spec fn inv(self) -> bool {
        &&& self.states().len() == self.capacity()
        &&& 0 <= self.capacity() <= isize::MAX
        &&& states_valid(self.states())
        &&& self.capacity() > 0 ==> 0 <= self.hand() < self.capacity()
        &&& self.capacity() == 0 ==> self.hand() == 0
    }

    /// The state of every frame.
    pub closed spec fn states(&self) -> Seq<u8> {
        self.states@
    }

    /// The frame the clock hand points at.
    pub closed spec fn hand(&self) -> int {
        self.clock_hand as int
    }

    pub closed spec fn capacity(&self) -> int {
        self.capacity as int
    }

    /// Number of frames the replacer manages.
    pub fn get_capacity(&self) -> (r: usize)
        ensures
            r == self.capacity(),
    {
        self.capacity
    }

    /// A replacer over `capacity` frames, all empty and therefore pinned,
    /// with the hand at frame 0.
    pub fn new(capacity: usize) -> (r: Self)
        requires
            capacity <= isize::MAX,
        ensures
            r.capacity() == capacity,
            r.hand() == 0,
            r.states() == Seq::new(capacity as nat, |i: int| STATE_PINNED),
            states_valid(r.states()),
    {
        let mut states: Vec<u8> = Vec::new();
        // initializes all frames as empty, which is functionally equivalent to pinned
        let mut i: usize = 0;
        while i < capacity
            invariant
                i <= capacity,
                states@ == Seq::new(i as nat, |k: int| STATE_PINNED),
            decreases capacity - i,
        {
            states.push(STATE_PINNED);
            i = i + 1;
        }
        ClockReplacer { states, clock_hand: 0, capacity }
    }
}

impl Replacer for ClockReplacer {
    open spec fn frame_count(&self) -> nat {
        self.capacity() as nat
    }

    open spec fn evictable(&self, frame_id: int) -> bool {
        0 <= frame_id < self.capacity() && self.states()[frame_id] != STATE_PINNED
    }

    /// The sweep of at most two rounds from the hand.
    open spec fn victim_step(&self, after: Self, chosen: Option<usize>) -> bool {
        let (states, hand, found) = clock_sweep(
            self.states(),
            self.hand(),
            self.capacity(),
            2 * self.capacity(),
        );
        &&& after.states() == states
        &&& after.hand() == hand
        &&& after.capacity() == self.capacity()
        &&& match chosen {
            Some(f) => found == Some(f as int),
            None => found is None,
        }
    }

    open spec fn pin_step(&self, after: Self, frame_id: usize) -> bool {
        &&& after.states() == self.states().update(frame_id as int, STATE_PINNED)
        &&& after.hand() == self.hand()
        &&& after.capacity() == self.capacity()
    }

    open spec fn unpin_step(&self, after: Self, frame_id: usize) -> bool {
        &&& after.states() == self.states().update(frame_id as int, STATE_HOT)
        &&& after.hand() == self.hand()
        &&& after.capacity() == self.capacity()
    }

    /// Sweeps the clock at most twice around the frames and returns the
    /// first cold frame it meets, turning hot frames cold on the way.
    fn victim(&mut self) -> (r: Option<usize>)
        ensures
            ({
                let (states, hand, chosen) = clock_sweep(
                    old(self).states(),
                    old(self).hand(),
                    old(self).capacity(),
                    2 * old(self).capacity(),
                );
                &&& final(self).states() == states
                &&& final(self).hand() == hand
                &&& final(self).capacity() == old(self).capacity()
                &&& states_valid(final(self).states())
                &&& clock_choice(
                    old(self).states(),
                    old(self).hand(),
                    old(self).capacity(),
                    final(self).states(),
                    final(self).hand(),
                    match r {
                        Some(f) => Some(f as int),
                        None => None,
                    },
                )
                &&& match r {
                    Some(f) => chosen == Some(f as int),
                    None => chosen is None,
                }
            }),
    {
        proof {
            use_type_invariant(&*self);
            lemma_sweep_keeps(
                self.states@,
                self.clock_hand as int,
                self.capacity as int,
                2 * self.capacity as int,
            );
        }
        let ghost s0 = self.states@;
        let ghost h0 = self.clock_hand as int;
        let no_of_sweeps = 2 * self.capacity;
        let mut sweeps: usize = 0;
        while sweeps < no_of_sweeps
            invariant
                sweeps <= no_of_sweeps,
                no_of_sweeps == 2 * self.capacity,
                self.capacity == old(self).capacity,
                s0 == old(self).states@,
                s0.len() == self.capacity,
                h0 == old(self).clock_hand as int,
                self.states@.len() == self.capacity,
                self.capacity <= isize::MAX,
                states_valid(s0),
                states_valid(self.states@),
                self.capacity > 0 ==> self.clock_hand < self.capacity,
                self.capacity > 0 ==> h0 < self.capacity,
                clock_sweep(s0, h0, self.capacity as int, no_of_sweeps as int) == clock_sweep(
                    self.states@,
                    self.clock_hand as int,
                    self.capacity as int,
                    no_of_sweeps - sweeps,
                ),
            decreases no_of_sweeps - sweeps,
        {
            proof {
                use_type_invariant(&*self);
            }
            let ghost cur = (self.states@, self.clock_hand as int);
            let clock_hand = self.clock_hand;
            self.clock_hand = if clock_hand + 1 >= self.capacity {
                0
            } else {
                clock_hand + 1
            };
            assert(self.clock_hand as int == clock_next(cur.1, self.capacity as int));
            proof {
                lemma_small_mod(clock_hand as nat, self.capacity as nat);
            }
            assert(clock_hand as int == clock_frame(cur.1, self.capacity as int));
            let current_frame_state = self.states[clock_hand];
            if current_frame_state == STATE_HOT {
                // recently used: give it a second chance
                set_state(&mut self.states, clock_hand, STATE_COLD);
            } else if current_frame_state == STATE_COLD {
                // evict the cold frame and pin it for the caller
                set_state(&mut self.states, clock_hand, STATE_PINNED);
                assert(clock_sweep(cur.0, cur.1, self.capacity as int, no_of_sweeps - sweeps) == (
                self.states@, self.clock_hand as int, Some(clock_hand as int)));
                proof {
                    lemma_sweep_keeps(s0, h0, self.capacity as int, 2 * self.capacity as int);
                    lemma_victim_choice(s0, h0, self.capacity as int);
                }
                return Some(clock_hand);
            }
            sweeps = sweeps + 1;
        }
        proof {
            let c = self.capacity as int;
            assert forall|g: int| 0 <= g < c implies s0[g] == STATE_PINNED by {
                if s0[g] != STATE_PINNED {
                    lemma_victim_found(s0, h0, c, g);
                }
            }
            lemma_sweep_keeps(s0, h0, c, 2 * c);
            lemma_victim_choice(s0, h0, c);
        }
        None
    }

    fn unpin(&mut self, frame_id: usize)
        ensures
            final(self).states() == old(self).states().update(frame_id as int, STATE_HOT),
            final(self).hand() == old(self).hand(),
            states_valid(final(self).states()),
    {
        proof {
            use_type_invariant(&*self);
        }
        set_state(&mut self.states, frame_id, STATE_HOT);
    }

    fn pin(&mut self, frame_id: usize)
        ensures
            final(self).states() == old(self).states().update(frame_id as int, STATE_PINNED),
            final(self).hand() == old(self).hand(),
            states_valid(final(self).states()),
    {
        proof {
            use_type_invariant(&*self);
        }
        set_state(&mut self.states, frame_id, STATE_PINNED);
    }

    /// Counts the frames that are not pinned.
    fn size(&self) -> (r: usize)
        ensures
            r == count_unpinned(self.states(), self.capacity()),
    {
        proof {
            use_type_invariant(self);
            lemma_count_evictable(*self, self.capacity());
            assert(Set::new(|g: int| 0 <= g < self.capacity() && self.evictable(g)) =~= Set::new(
                |g: int| 0 <= g < self.frame_count() && self.evictable(g),
            ));
        }
        let mut count: usize = 0;
        let mut i: usize = 0;
        while i < self.states.len()
            invariant
                i <= self.states@.len(),
                count == count_unpinned(self.states@, i as int),
                count <= i,
            decreases self.states@.len() - i,
        {
            if self.states[i] != STATE_PINNED {
                count = count + 1;
            }
            i = i + 1;
        }
        count
    }
}

/// Sets the state of one frame.
fn set_state(states: &mut Vec<u8>, frame_id: usize, state: u8)
    requires
        frame_id < old(states)@.len(),
    ensures
        final(states)@ == old(states)@.update(frame_id as int, state),
    no_unwind
{
    states[frame_id] = state;
}

/// A sweep keeps the number of frames, keeps the states valid, and changes
/// whether a frame is pinned only for the frame it chooses, which it pins;
/// that frame was unpinned before.
pub proof fn lemma_sweep_keeps(states: Seq<u8>, hand: int, capacity: int, steps: int)
    requires
        states.len() == capacity,
        capacity > 0 ==> 0 <= hand < capacity,
    ensures
        ({
            let (s2, h2, chosen) = clock_sweep(states, hand, capacity, steps);
            &&& s2.len() == capacity
            &&& capacity > 0 ==> 0 <= h2 < capacity
            &&& capacity <= 0 ==> h2 == hand
            &&& match chosen {
                Some(f) => {
                    &&& 0 <= f < capacity
                    &&& states[f] != STATE_PINNED
                    &&& s2[f] == STATE_PINNED
                    &&& forall|g: int|
                        0 <= g < capacity && g != f ==> (#[trigger] s2[g] == STATE_PINNED) == (
                        states[g] == STATE_PINNED)
                },
                None => forall|g: int|
                    0 <= g < capacity ==> (#[trigger] s2[g] == STATE_PINNED) == (states[g]
                        == STATE_PINNED),
            }
        }),
    decreases steps,
{
    if steps > 0 && capacity > 0 {
        let f = clock_frame(hand, capacity);
        let next = clock_next(hand, capacity);
        if states[f] == STATE_HOT {
            lemma_sweep_keeps(states.update(f, STATE_COLD), next, capacity, steps - 1);
        } else if states[f] == STATE_COLD {
        } else {
            lemma_sweep_keeps(states, next, capacity, steps - 1);
        }
    }
}

/// One step of the hand moves it one frame on: the frame reached `s` steps
/// from `hand` is reached `s - 1` steps from the next position.
proof fn lemma_clock_step(hand: int, s: int, c: int)
    requires
        0 <= hand < c,
        1 <= s,
    ensures
        (clock_next(hand, c) + (s - 1)) % c == (hand + s) % c,
        clock_frame(hand, c) == hand,
{
    lemma_small_mod(hand as nat, c as nat);
    if hand + 1 >= c {
        lemma_mod_add_multiples_vanish(s - 1, c);
        assert(hand + s == c + (s - 1));
    }
}

/// Frames reached within one round are distinct, and a full round comes back.
proof fn lemma_clock_ahead(hand: int, s: int, c: int)
    requires
        0 < c,
        0 <= hand,
        0 <= s,
    ensures
        (hand + s) % c == (hand % c + s) % c,
        (hand + c) % c == hand % c,
        0 < s < c ==> (hand + s) % c != hand % c,
{
    lemma_add_mod_noop_right(s, hand, c);
    lemma_mod_add_multiples_vanish(hand, c);
    let r = hand % c;
    if 0 < s < c {
        if r + s < c {
            lemma_small_mod((r + s) as nat, c as nat);
        } else {
            lemma_mod_sub_multiples_vanish(r + s, c);
            lemma_small_mod((r + s - c) as nat, c as nat);
        }
    }
}

/// A cold frame the hand reaches within the sweep gets a frame chosen.
proof fn lemma_sweep_reaches_cold(states: Seq<u8>, hand: int, c: int, steps: int, s: int)
    requires
        states.len() == c,
        0 <= hand < c,
        0 <= s < steps,
        states[(hand + s) % c] == STATE_COLD,
    ensures
        clock_sweep(states, hand, c, steps).2 is Some,
    decreases s,
{
    let p = clock_frame(hand, c);
    lemma_small_mod(hand as nat, c as nat);
    if s > 0 && states[p] != STATE_COLD {
        lemma_clock_step(hand, s, c);
        let next_states = if states[p] == STATE_HOT {
            states.update(p, STATE_COLD)
        } else {
            states
        };
        assert(0 <= (hand + s) % c < c);
        assert(next_states[(hand + s) % c] == STATE_COLD);
        lemma_sweep_reaches_cold(next_states, clock_next(hand, c), c, steps - 1, s - 1);
    }
}

/// A hot frame the hand reaches within one round turns cold and is
/// reached again a round later, so a frame is chosen.
proof fn lemma_sweep_reaches_hot(states: Seq<u8>, hand: int, c: int, steps: int, s: int)
    requires
        states.len() == c,
        0 <= hand < c,
        0 <= s < c,
        s + c < steps,
        states[(hand + s) % c] == STATE_HOT,
    ensures
        clock_sweep(states, hand, c, steps).2 is Some,
    decreases s,
{
    let p = clock_frame(hand, c);
    lemma_small_mod(hand as nat, c as nat);
    lemma_clock_ahead(hand, s, c);
    lemma_clock_ahead(hand, 0, c);
    if s == 0 {
        let next_states = states.update(p, STATE_COLD);
        lemma_clock_step(hand, c, c);
        assert((clock_next(hand, c) + (c - 1)) % c == p);
        lemma_sweep_reaches_cold(next_states, clock_next(hand, c), c, steps - 1, c - 1);
    } else if states[p] != STATE_COLD {
        lemma_clock_step(hand, s, c);
        let next_states = if states[p] == STATE_HOT {
            states.update(p, STATE_COLD)
        } else {
            states
        };
        assert(0 <= (hand + s) % c < c);
        assert(next_states[(hand + s) % c] == STATE_HOT);
        lemma_sweep_reaches_hot(next_states, clock_next(hand, c), c, steps - 1, s - 1);
    }
}

/// Two rounds of the clock choose a victim whenever some frame is
/// unpinned: `victim` answers `None` only when every frame is pinned.
pub proof fn lemma_victim_found(states: Seq<u8>, hand: int, capacity: int, f: int)
    requires
        states.len() == capacity,
        states_valid(states),
        0 <= hand < capacity,
        0 <= f < capacity,
        states[f] != STATE_PINNED,
    ensures
        clock_sweep(states, hand, capacity, 2 * capacity).2 is Some,
{
    let r = hand % capacity;
    let s = if f >= r {
        f - r
    } else {
        f - r + capacity
    };
    lemma_clock_ahead(hand, s, capacity);
    lemma_clock_ahead(hand, 0, capacity);
    if f >= r {
        lemma_small_mod(f as nat, capacity as nat);
    } else {
        lemma_mod_add_multiples_vanish(f, capacity);
        lemma_small_mod(f as nat, capacity as nat);
    }
    assert((hand + s) % capacity == f);
    if states[f] == STATE_COLD {
        lemma_sweep_reaches_cold(states, hand, capacity, 2 * capacity, s);
    } else {
        lemma_sweep_reaches_hot(states, hand, capacity, 2 * capacity, s);
    }
}

/// Counting unpinned frames only looks at whether each frame is pinned.
proof fn lemma_count_unpinned_frame(a: Seq<u8>, b: Seq<u8>, k: int, f: int)
    requires
        0 <= k,
        forall|g: int| 0 <= g < k && g != f ==> (a[g] == STATE_PINNED) == (b[g] == STATE_PINNED),
    ensures
        count_unpinned(b, k) == count_unpinned(a, k) + if 0 <= f < k {
            (if b[f] != STATE_PINNED {
                1int
            } else {
                0
            }) - (if a[f] != STATE_PINNED {
                1int
            } else {
                0
            })
        } else {
            0
        },
    decreases k,
{
    if k > 0 {
        lemma_count_unpinned_frame(a, b, k - 1, f);
    }
}

/// Each victim the clock chooses leaves one unpinned frame fewer; a sweep
/// that chooses none leaves the count unchanged.
pub proof fn lemma_victim_size(states: Seq<u8>, hand: int, capacity: int)
    requires
        states.len() == capacity,
        capacity > 0 ==> 0 <= hand < capacity,
    ensures
        ({
            let (s2, h2, chosen) = clock_sweep(states, hand, capacity, 2 * capacity);
            count_unpinned(s2, capacity) == count_unpinned(states, capacity) - if chosen is Some {
                1int
            } else {
                0
            }
        }),
{
    lemma_sweep_keeps(states, hand, capacity, 2 * capacity);
    let (s2, h2, chosen) = clock_sweep(states, hand, capacity, 2 * capacity);
    match chosen {
        Some(f) => {
            lemma_count_unpinned_frame(states, s2, capacity, f);
        },
        None => {
            lemma_count_unpinned_frame(states, s2, capacity, -1);
        },
    }
}

/// Pinning frame `f` leaves one unpinned frame fewer if `f` was unpinned,
/// and the same number if it was pinned already.
pub proof fn lemma_pin_size(states: Seq<u8>, capacity: int, f: int)
    requires
        states.len() == capacity,
        0 <= f < capacity,
    ensures
        count_unpinned(states.update(f, STATE_PINNED), capacity) == count_unpinned(states, capacity)
            - if states[f] != STATE_PINNED {
            1int
        } else {
            0
        },
{
    lemma_count_unpinned_frame(states, states.update(f, STATE_PINNED), capacity, f);
}

/// Unpinning frame `f` adds one unpinned frame if `f` was pinned, and
/// leaves the number if it was unpinned already.
pub proof fn lemma_unpin_size(states: Seq<u8>, capacity: int, f: int)
    requires
        states.len() == capacity,
        0 <= f < capacity,
    ensures
        count_unpinned(states.update(f, STATE_HOT), capacity) == count_unpinned(states, capacity)
            + if states[f] == STATE_PINNED {
            1int
        } else {
            0
        },
{
    lemma_count_unpinned_frame(states, states.update(f, STATE_HOT), capacity, f);
}

/// The number of unpinned frames lies between none and all of them, and is
/// none when every frame is pinned, as in a new replacer.
pub proof fn lemma_size_bounds(states: Seq<u8>, k: int)
    requires
        0 <= k <= states.len(),
    ensures
        0 <= count_unpinned(states, k) <= k,
        (forall|g: int| 0 <= g < k ==> #[trigger] states[g] == STATE_PINNED) ==> count_unpinned(
            states,
            k,
        ) == 0,
    decreases k,
{
    if k > 0 {
        lemma_size_bounds(states, k - 1);
    }
}

/// The clock counts as evictable exactly the frames that are not pinned.
proof fn lemma_count_evictable(r: ClockReplacer, k: int)
    requires
        0 <= k <= r.capacity(),
    ensures
        ({
            let evictable_frames = Set::new(|g: int| 0 <= g < k && r.evictable(g));
            &&& evictable_frames.finite()
            &&& evictable_frames.len() == count_unpinned(r.states(), k)
        }),
    decreases k,
{
    broadcast use vstd::set::group_set_axioms;

    let evictable_frames = Set::new(|g: int| 0 <= g < k && r.evictable(g));
    if k == 0 {
        assert(evictable_frames =~= Set::<int>::empty());
    } else {
        lemma_count_evictable(r, k - 1);
        let before = Set::new(|g: int| 0 <= g < k - 1 && r.evictable(g));
        if r.evictable(k - 1) {
            assert(evictable_frames =~= before.insert(k - 1));
            assert(!before.contains(k - 1));
        } else {
            assert(evictable_frames =~= before);
        }
    }
}

/// Number of steps the hand takes from `hand` to reach frame `f`.
pub open spec fn clock_distance(hand: int, f: int, capacity: int) -> int {
    if f >= hand {
        f - hand
    } else {
        f - hand + capacity
    }
}

/// The frame the hand reaches `k` steps after `hand` (within one round).
pub open spec fn clock_advance(hand: int, k: int, capacity: int) -> int {
    if hand + k < capacity {
        hand + k
    } else {
        hand + k - capacity
    }
}

/// What second-chance eviction gives from frame `states` with the hand at
/// `hand`, as frame states `after`, hand `after_hand` and the frame chosen:
/// - with no unpinned frame, nothing is chosen and nothing changes;
/// - else the chosen frame was unpinned, is now pinned, and the hand stands
///   just past it;
/// - if some frame is cold, the chosen frame is the cold frame the hand
///   reaches first; every hot frame the hand passed on the way is now cold
///   (it got its second chance), every other frame is as it was;
/// - if no frame is cold, the chosen frame is the hot frame the hand
///   reaches first, and every other hot frame is now cold.
pub open spec fn clock_choice(
    states: Seq<u8>,
    hand: int,
    capacity: int,
    after: Seq<u8>,
    after_hand: int,
    chosen: Option<int>,
) -> bool {
    match chosen {
        None => {
            &&& forall|g: int| 0 <= g < capacity ==> #[trigger] states[g] == STATE_PINNED
            &&& after == states
            &&& after_hand == hand
        },
        Some(f) => {
            &&& 0 <= f < capacity
            &&& states[f] != STATE_PINNED
            &&& after[f] == STATE_PINNED
            &&& after_hand == clock_next(f, capacity)
            &&& states[f] == STATE_COLD ==> forall|g: int|
                0 <= g < capacity && #[trigger] states[g] == STATE_COLD ==> clock_distance(
                    hand,
                    f,
                    capacity,
                ) <= clock_distance(hand, g, capacity)
            &&& states[f] == STATE_HOT ==> forall|g: int|
                0 <= g < capacity ==> #[trigger] states[g] != STATE_COLD && (states[g]
                    == STATE_HOT ==> clock_distance(hand, f, capacity) <= clock_distance(
                    hand,
                    g,
                    capacity,
                ))
            &&& forall|g: int|
                0 <= g < capacity && g != f ==> #[trigger] after[g] == if states[g] == STATE_HOT
                    && (states[f] == STATE_HOT || clock_distance(hand, g, capacity)
                    < clock_distance(hand, f, capacity)) {
                    STATE_COLD
                } else {
                    states[g]
                }
        },
    }
}

/// The states after the hand passed `k` frames from `hand` without meeting
/// a cold one: every hot frame it passed is cold.
pub open spec fn clock_turned(states: Seq<u8>, hand: int, k: int, capacity: int) -> Seq<u8> {
    Seq::new(
        capacity as nat,
        |g: int|
            if states[g] == STATE_HOT && clock_distance(hand, g, capacity) < k {
                STATE_COLD
            } else {
                states[g]
            },
    )
}

/// The first step `j' >= j` (within one round) at which the hand meets a
/// frame in state `x`, or `capacity`.
pub open spec fn clock_find(states: Seq<u8>, hand: int, capacity: int, j: int, x: u8) -> int
    decreases capacity - j,
{
    if j >= capacity {
        capacity
    } else if states[clock_advance(hand, j, capacity)] == x {
        j
    } else {
        clock_find(states, hand, capacity, j + 1, x)
    }
}

proof fn lemma_clock_find(states: Seq<u8>, hand: int, capacity: int, j: int, x: u8)
    requires
        0 <= j <= capacity,
    ensures
        j <= clock_find(states, hand, capacity, j, x) <= capacity,
        clock_find(states, hand, capacity, j, x) < capacity ==> states[clock_advance(
            hand,
            clock_find(states, hand, capacity, j, x),
            capacity,
        )] == x,
        forall|i: int|
            j <= i < clock_find(states, hand, capacity, j, x) ==> states[#[trigger] clock_advance(
                hand,
                i,
                capacity,
            )] != x,
    decreases capacity - j,
{
    if j < capacity && states[clock_advance(hand, j, capacity)] != x {
        lemma_clock_find(states, hand, capacity, j + 1, x);
    }
}

/// Distances and positions within one round correspond.
proof fn lemma_clock_positions(hand: int, capacity: int)
    requires
        0 <= hand < capacity,
    ensures
        forall|g: int|
            0 <= g < capacity ==> 0 <= #[trigger] clock_distance(hand, g, capacity) < capacity
                && clock_advance(hand, clock_distance(hand, g, capacity), capacity) == g,
        forall|j: int|
            0 <= j < capacity ==> 0 <= #[trigger] clock_advance(hand, j, capacity) < capacity
                && clock_distance(hand, clock_advance(hand, j, capacity), capacity) == j,
{
}

/// One step of the hand brings every other frame one step closer, and puts
/// the frame it left a full round minus one away.
proof fn lemma_distance_step(hand: int, capacity: int)
    requires
        0 <= hand < capacity,
    ensures
        clock_frame(hand, capacity) == hand,
        0 <= clock_next(hand, capacity) < capacity,
        clock_distance(clock_next(hand, capacity), hand, capacity) == capacity - 1,
        forall|g: int|
            0 <= g < capacity && g != hand ==> #[trigger] clock_distance(
                clock_next(hand, capacity),
                g,
                capacity,
            ) == clock_distance(hand, g, capacity) - 1,
        forall|k: int|
            1 <= k <= capacity ==> #[trigger] clock_advance(clock_next(hand, capacity), k - 1, capacity)
                == clock_advance(hand, k, capacity),
{
    lemma_small_mod(hand as nat, capacity as nat);
}

/// From `hand`, the sweep evicts the nearest cold frame `f`, turning the hot
/// frames it passes cold.
proof fn lemma_sweep_nearest_cold(states: Seq<u8>, hand: int, c: int, steps: int, f: int)
    requires
        states.len() == c,
        0 <= hand < c,
        0 <= f < c,
        states[f] == STATE_COLD,
        forall|g: int|
            0 <= g < c && #[trigger] states[g] == STATE_COLD ==> clock_distance(hand, f, c)
                <= clock_distance(hand, g, c),
        steps > clock_distance(hand, f, c),
    ensures
        ({
            let (s2, h2, chosen) = clock_sweep(states, hand, c, steps);
            &&& chosen == Some(f)
            &&& h2 == clock_next(f, c)
            &&& s2.len() == c
            &&& forall|g: int|
                0 <= g < c ==> #[trigger] s2[g] == if g == f {
                    STATE_PINNED
                } else if states[g] == STATE_HOT && clock_distance(hand, g, c) < clock_distance(
                    hand,
                    f,
                    c,
                ) {
                    STATE_COLD
                } else {
                    states[g]
                }
        }),
    decreases clock_distance(hand, f, c),
{
    lemma_distance_step(hand, c);
    if hand != f {
        assert(states[hand] != STATE_COLD) by {
            if states[hand] == STATE_COLD {
                assert(clock_distance(hand, hand, c) == 0);
            }
        }
        let next = clock_next(hand, c);
        let st = if states[hand] == STATE_HOT {
            states.update(hand, STATE_COLD)
        } else {
            states
        };
        assert(clock_sweep(states, hand, c, steps) == clock_sweep(st, next, c, steps - 1));
        assert forall|g: int| 0 <= g < c && #[trigger] st[g] == STATE_COLD implies clock_distance(
            next,
            f,
            c,
        ) <= clock_distance(next, g, c) by {
            if g != hand {
                assert(states[g] == STATE_COLD);
            }
        }
        lemma_sweep_nearest_cold(st, next, c, steps - 1, f);
        let s2 = clock_sweep(st, next, c, steps - 1).0;
        assert forall|g: int| 0 <= g < c implies #[trigger] s2[g] == if g == f {
            STATE_PINNED
        } else if states[g] == STATE_HOT && clock_distance(hand, g, c) < clock_distance(hand, f, c) {
            STATE_COLD
        } else {
            states[g]
        } by {
            if g != hand {
                assert(st[g] == states[g]);
            }
        }
    }
}

/// The hand passes `k` frames, none of them cold: the sweep goes on from
/// the frame `k` steps on, with the hot frames passed turned cold.
proof fn lemma_sweep_round(states: Seq<u8>, hand: int, c: int, steps: int, k: int)
    requires
        states.len() == c,
        0 <= hand < c,
        0 <= k <= c,
        k <= steps,
        forall|g: int|
            0 <= g < c && clock_distance(hand, g, c) < k ==> #[trigger] states[g] != STATE_COLD,
    ensures
        clock_sweep(states, hand, c, steps) == clock_sweep(
            clock_turned(states, hand, k, c),
            clock_advance(hand, k, c),
            c,
            steps - k,
        ),
    decreases k,
{
    if k == 0 {
        assert(clock_turned(states, hand, k, c) =~= states);
    } else {
        lemma_distance_step(hand, c);
        assert(clock_distance(hand, hand, c) == 0);
        let next = clock_next(hand, c);
        let st = if states[hand] == STATE_HOT {
            states.update(hand, STATE_COLD)
        } else {
            states
        };
        assert(clock_sweep(states, hand, c, steps) == clock_sweep(st, next, c, steps - 1));
        assert forall|g: int|
            0 <= g < c && clock_distance(next, g, c) < k - 1 implies #[trigger] st[g]
            != STATE_COLD by {
            if g != hand {
                assert(states[g] != STATE_COLD);
            }
        }
        lemma_sweep_round(st, next, c, steps - 1, k - 1);
        assert(clock_turned(st, next, k - 1, c) =~= clock_turned(states, hand, k, c));
    }
}

/// Second-chance eviction: what two rounds of the clock choose and change,
/// stated by where the frames stand from the hand (see `clock_choice`).
/// A hot frame is never evicted while a cold one exists, and of the
/// candidates the hand reaches the nearest first.
pub proof fn lemma_victim_choice(states: Seq<u8>, hand: int, capacity: int)
    requires
        states.len() == capacity,
        states_valid(states),
        capacity > 0 ==> 0 <= hand < capacity,
    ensures
        ({
            let (s2, h2, chosen) = clock_sweep(states, hand, capacity, 2 * capacity);
            clock_choice(states, hand, capacity, s2, h2, chosen)
        }),
{
    let c = capacity;
    if c > 0 {
        lemma_clock_positions(hand, c);
        lemma_clock_find(states, hand, c, 0, STATE_COLD);
        lemma_clock_find(states, hand, c, 0, STATE_HOT);
        let jc = clock_find(states, hand, c, 0, STATE_COLD);
        let jh = clock_find(states, hand, c, 0, STATE_HOT);
        if jc < c {
            let f = clock_advance(hand, jc, c);
            assert forall|g: int|
                0 <= g < c && #[trigger] states[g] == STATE_COLD implies clock_distance(hand, f, c)
                <= clock_distance(hand, g, c) by {
                assert(states[clock_advance(hand, clock_distance(hand, g, c), c)] == STATE_COLD);
            }
            lemma_sweep_nearest_cold(states, hand, c, 2 * c, f);
        } else {
            assert forall|g: int| 0 <= g < c implies #[trigger] states[g] != STATE_COLD by {
                assert(states[clock_advance(hand, clock_distance(hand, g, c), c)] != STATE_COLD);
            }
            lemma_sweep_round(states, hand, c, 2 * c, c);
            let t = clock_turned(states, hand, c, c);
            assert(clock_advance(hand, c, c) == hand);
            if jh < c {
                let f = clock_advance(hand, jh, c);
                assert forall|g: int|
                    0 <= g < c && #[trigger] t[g] == STATE_COLD implies clock_distance(hand, f, c)
                    <= clock_distance(hand, g, c) by {
                    assert(states[g] == STATE_HOT);
                    assert(states[clock_advance(hand, clock_distance(hand, g, c), c)] == STATE_HOT);
                }
                lemma_sweep_nearest_cold(t, hand, c, c, f);
                let (s2, h2, chosen) = clock_sweep(states, hand, c, 2 * c);
                assert forall|g: int|
                    0 <= g < c && states[g] == STATE_HOT implies clock_distance(hand, f, c)
                    <= clock_distance(hand, g, c) by {
                    assert(states[clock_advance(hand, clock_distance(hand, g, c), c)] == STATE_HOT);
                }
            } else {
                assert forall|g: int| 0 <= g < c implies #[trigger] states[g] == STATE_PINNED by {
                    assert(states[clock_advance(hand, clock_distance(hand, g, c), c)] != STATE_HOT);
                }
                assert(t =~= states);
                lemma_sweep_round(states, hand, c, c, c);
            }
        }
    }
}

} // verus!
