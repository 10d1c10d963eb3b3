//! The generator of the primes in ascending order.
//!
//! A [`Prime`] keeps a window of four numbers over the stream of candidates
//! `5, 7, 11, 13, 17, 19, ...` (the numbers of the form `6k - 1` and
//! `6k + 1`): the prime it hands out next, the prime after that, already
//! confirmed, and the next two candidates that have not been tested yet.
//!
//! The wheel saturates at `u64::MAX`, which is a multiple of 3. Once the
//! look-ahead has run into it there is no further prime to hand out, and
//! `next` answers `None` from the call after the last prime below `2^64` on.

use crate::primality::{divides, is_prime, prime};
use vstd::prelude::*;

verus! {

/// `p` is the first prime after `n`: it is prime, greater than `n`, and no
/// prime lies strictly between the two.
pub open spec fn first_prime_after(n: nat, p: nat) -> bool {
    n < p && prime(p) && forall|q: nat| n < q < p ==> !#[trigger] prime(q)
}

/// What the generator holds ready after it has handed out `n`: the first
/// prime after `n` where that fits in a `u64`, and nothing where it does
/// not.
pub open spec fn successor(n: nat) -> Option<nat> {
    if exists|p: nat| p <= u64::MAX && #[trigger] first_prime_after(n, p) {
        Some(choose|p: nat| p <= u64::MAX && #[trigger] first_prime_after(n, p))
    } else {
        None
    }
}

/// The value in a slot of the window is a prime, or the slot has run into
/// the end of the range.
spec fn prime_or_end(v: u64) -> bool {
    v == u64::MAX || prime(v as nat)
}

/// `hi` lies beyond `lo` with no prime strictly between them; at the end of
/// the range the two may coincide.
spec fn prime_free_gap(lo: u64, hi: u64) -> bool {
    &&& lo <= hi
    &&& lo < u64::MAX ==> lo < hi
    &&& forall|q: nat| lo < q < hi ==> !#[trigger] prime(q)
}

/// `c` is a stop of the wheel: 3, where it starts; a number of the form
/// `6k - 1` or `6k + 1` from 5 on; or `u64::MAX`, where it ends.
spec fn on_wheel(c: u64) -> bool {
    c == 3 || (c >= 5 && (c % 6 == 5 || c % 6 == 1)) || c == u64::MAX
}

/// The stop of the wheel that follows `c`: from 3 to 5, from `6k - 1` to
/// `6k + 1`, from `6k + 1` to `6k + 5`, and `u64::MAX` where that would
/// pass the end of the range.
spec fn wheel_after(c: u64) -> u64 {
    if c == 3 {
        5
    } else if c % 6 == 5 {
        (c + 2) as u64
    } else if c % 6 == 1 && c + 4 <= u64::MAX {
        (c + 4) as u64
    } else {
        u64::MAX
    }
}

/// The generator's window over the candidates.
pub struct Prime {
    /// The prime that the next call hands out.
    curr: u64,
    /// The prime after `curr`, already confirmed.
    next: u64,
    /// The first candidate that has not been tested yet.
    trial1: u64,
    /// The candidate after `trial1`.
    trial2: u64,
}

impl View for Prime {
    type V = Option<nat>;

    /// The value that the next call of `next` hands out; `None` once every
    /// prime below `2^64` has been handed out.
    closed spec fn view(&self) -> Option<nat> {
        if self.curr == u64::MAX {
            None
        } else {
            Some(self.curr as nat)
        }
    }
}

impl Prime {
    /// The window is in order: the first two slots hold consecutive primes
    /// (or have run into the end of the range), and the two candidates are
    /// the two stops of the wheel that follow the second slot.
    pub closed spec fn wf(&self) -> bool {
        &&& prime_or_end(self.curr)
        &&& prime_or_end(self.next)
        &&& prime_free_gap(self.curr, self.next)
        &&& on_wheel(self.next)
        &&& self.trial1 == wheel_after(self.next)
        &&& self.trial2 == wheel_after(self.trial1)
    }

    /// A generator at the start of the sequence: it hands out 2 first.
    pub fn new() -> (g: Prime)
        ensures
            g.wf(),
            g@ == Some(2nat),
    {
        proof {
            lemma_seed();
        }
        Prime { curr: 2, next: 3, trial1: 5, trial2: 7 }
    }

    /// Hands out the next prime of the sequence and moves the window on,
    /// so that the prime after it stands ready before this call returns.
    ///
    /// After the last prime below `2^64` the answer is `None`, and the
    /// generator stays as it is.
    pub fn next(&mut self) -> (result: Option<u64>)
        requires
            old(self).wf(),
        ensures
            produces(*old(self), result, *final(self)),
            result matches Some(v) ==> prime(v as nat),
    {
        if self.curr == u64::MAX {
            return None;
        }
        let prime = self.curr;
        self.curr = self.next;
        proof {
            lemma_wheel_turn(self.next);
        }
        loop
            invariant_except_break
                prime_free_gap(self.curr, self.trial1),
            invariant
                self.curr == old(self).next,
                on_wheel(self.trial1),
                self.trial1 >= 5,
                self.trial2 == wheel_after(self.trial1),
            ensures
                prime_or_end(self.next),
                prime_free_gap(self.curr, self.next),
                on_wheel(self.next),
                self.trial1 == wheel_after(self.next),
            decreases u64::MAX - self.trial1,
        {
            self.next = self.trial1;
            self.trial1 = self.trial2;
            self.trial2 = self.next.saturating_add(6);
            proof {
                lemma_wheel_turn(self.next);
            }
            if self.next == u64::MAX || is_prime(self.next) {
                break;
            }
        }
        proof {
            lemma_successor(prime, self.curr);
        }
        Some(prime)
    }
}

/// One call of `next`: from `pre`, with `out` handed out, to `post`.
///
/// A generator that has a value ready hands it out and then holds ready
/// the successor of that value; one that has none answers `None` and stays
/// as it is.
pub open spec fn produces(pre: Prime, out: Option<u64>, post: Prime) -> bool {
    &&& pre.wf()
    &&& post.wf()
    &&& match out {
        Some(v) => pre@ == Some(v as nat) && post@ == successor(v as nat),
        None => pre@.is_none() && post == pre,
    }
}

/// A run of one generator: the states it passes through, and between each
/// state and the next the answer of the call that led from one to the
/// other.
pub open spec fn run(states: Seq<Prime>, outs: Seq<Option<u64>>) -> bool {
    &&& states.len() == outs.len() + 1
    &&& forall|i: int|
        0 <= i < outs.len() ==> produces(states[i], #[trigger] outs[i], states[i + 1])
}

/// Two generators that have the same value ready, as any two fresh ones
/// have, hand out the same values when they are driven the same number of
/// steps.
pub proof fn law_equal_runs(
    states1: Seq<Prime>,
    outs1: Seq<Option<u64>>,
    states2: Seq<Prime>,
    outs2: Seq<Option<u64>>,
)
    requires
        run(states1, outs1),
        run(states2, outs2),
        outs1.len() == outs2.len(),
        states1[0]@ == states2[0]@,
    ensures
        outs1 == outs2,
{
    assert forall|i: int| 0 <= i < outs1.len() implies outs1[i] == outs2[i] by {
        lemma_runs_agree(states1, outs1, states2, outs2, i);
    }
    assert(outs1 =~= outs2);
}

/// Of the values that one generator hands out, each is strictly greater
/// than every one handed out before it.
pub proof fn law_ascending(states: Seq<Prime>, outs: Seq<Option<u64>>, i: int, j: int)
    requires
        run(states, outs),
        0 <= i < j < outs.len(),
        outs[i].is_some(),
        outs[j].is_some(),
    ensures
        outs[i].unwrap() < outs[j].unwrap(),
    decreases j - i,
{
    let before = outs[j - 1];
    assert(produces(states[j - 1], before, states[j]));
    assert(produces(states[j], outs[j], states[j + 1]));
    assert(first_prime_after(before.unwrap() as nat, outs[j].unwrap() as nat));
    if i < j - 1 {
        law_ascending(states, outs, i, j - 1);
    }
}

/// Every value that a generator hands out is prime: `is_prime` answers
/// `true` on it.
pub proof fn law_values_are_prime(states: Seq<Prime>, outs: Seq<Option<u64>>, i: int)
    requires
        run(states, outs),
        0 <= i < outs.len(),
        outs[i].is_some(),
    ensures
        prime(outs[i].unwrap() as nat),
{
    assert(produces(states[i], outs[i], states[i + 1]));
}

/// Two runs that start with the same value ready agree up to and including
/// the answer of step `i`, and have the same value ready after it.
proof fn lemma_runs_agree(
    states1: Seq<Prime>,
    outs1: Seq<Option<u64>>,
    states2: Seq<Prime>,
    outs2: Seq<Option<u64>>,
    i: int,
)
    requires
        run(states1, outs1),
        run(states2, outs2),
        outs1.len() == outs2.len(),
        states1[0]@ == states2[0]@,
        0 <= i < outs1.len(),
    ensures
        outs1[i] == outs2[i],
        states1[i + 1]@ == states2[i + 1]@,
    decreases i,
{
    if i > 0 {
        lemma_runs_agree(states1, outs1, states2, outs2, i - 1);
    }
    assert(produces(states1[i], outs1[i], states1[i + 1]));
    assert(produces(states2[i], outs2[i], states2[i + 1]));
}

/// 2 and 3 are consecutive primes.
proof fn lemma_seed()
    ensures
        prime(2),
        prime(3),
        prime_free_gap(2, 3),
{
    assert(!divides(2, 3)) by {
        assert(3nat % 2 == 1);
    }
}

/// From a stop `c` of the wheel to the one that follows it there is no
/// prime, the stop after that is `c + 6` (held at `u64::MAX`), and the wheel
/// moves on until it reaches `u64::MAX`.
proof fn lemma_wheel_turn(c: u64)
    requires
        on_wheel(c),
    ensures
        on_wheel(wheel_after(c)),
        wheel_after(c) >= 5,
        prime_free_gap(c, wheel_after(c)),
        c >= 5 ==> wheel_after(wheel_after(c)) == (if c + 6 > u64::MAX {
            u64::MAX
        } else {
            (c + 6) as u64
        }),
{
    assert forall|q: nat| c < q < wheel_after(c) implies !#[trigger] prime(q) by {
        let k: nat = (c / 6) as nat;
        if c == 3 {
            assert(divides(2, 4)) by {
                assert(4nat % 2 == 0);
            }
        } else if c % 6 == 5 {
            assert(q == 2 * (3 * k + 3));
            assert(divides(2, q));
        } else if q == c + 2 {
            assert(q == 3 * (2 * k + 1));
            assert(divides(3, q));
        } else {
            assert(q == 2 * (3 * k + 1) || q == 2 * (3 * k + 2));
            assert(divides(2, q));
        }
    }
}

/// A generator's window is a function of the value it has ready: two
/// generators that have the same value ready are equal.
pub proof fn lemma_ready_value_fixes_window(a: Prime, b: Prime)
    requires
        a.wf(),
        b.wf(),
        a@ == b@,
    ensures
        a == b,
{
    assert(a.curr == b.curr);
    assert(a.next == b.next) by {
        lemma_end_is_not_prime();
    }
}

/// What the window's second slot holds is what `successor` names: the
/// first prime after `c`, or nothing once the slot has run into the end of
/// the range.
proof fn lemma_successor(c: u64, n: u64)
    requires
        prime_or_end(n),
        prime_free_gap(c, n),
        c < u64::MAX,
    ensures
        successor(c as nat) == (if n == u64::MAX {
            None
        } else {
            Some(n as nat)
        }),
{
    if n == u64::MAX {
        lemma_end_is_not_prime();
        assert forall|p: nat| p <= u64::MAX implies !#[trigger] first_prime_after(c as nat, p) by {}
    } else {
        lemma_successor_found(c as nat, n as nat);
    }
}

/// A first prime after `n` that fits in a `u64` is the successor of `n`.
pub proof fn lemma_successor_found(n: nat, p: nat)
    requires
        first_prime_after(n, p),
        p <= u64::MAX,
    ensures
        successor(n) == Some(p),
{
    let q = choose|q: nat| q <= u64::MAX && #[trigger] first_prime_after(n, q);
    lemma_first_prime_after_is_unique(n, q, p);
}

/// `u64::MAX` is a multiple of 3, and so no prime.
proof fn lemma_end_is_not_prime()
    ensures
        !prime(u64::MAX as nat),
{
    assert(divides(3, u64::MAX as nat)) by {
        assert(0xFFFF_FFFF_FFFF_FFFFnat % 3 == 0);
    }
}

/// There is at most one first prime after `n`.
pub proof fn lemma_first_prime_after_is_unique(n: nat, p: nat, q: nat)
    requires
        first_prime_after(n, p),
        first_prime_after(n, q),
    ensures
        p == q,
{
}

} // verus!
