//! The exact part of the robust estimator.
//!
//! The estimator turns the first `n` samples of a window into one stable
//! value: it starts from the mean and spread of the samples and then
//! reweights them round by round with a Gaussian kernel. The reweighting is
//! numeric work on real numbers and is done by the caller. What this module
//! settles exactly is everything around it: which windows need no numeric
//! work at all, the sorted snapshot the numeric work starts from, the exact
//! sum behind the initial mean, and how many rounds may be run.

use vstd::prelude::*;
use vstd::seq_lib::*;
use crate::sort::{lemma_sorted_permutation_unique, permutation, quicksort, sorted};
use crate::window::MAX_WINDOW;

verus! {

/// The largest number of reweighting rounds of one estimate.
pub const MAX_ROUNDS: u32 = 30;

/// The sum of the values of `s`.
pub open spec fn sum_of(s: Seq<i32>) -> int
    decreases s.len(),
{
    if s.len() == 0 {
        0
    } else {
        sum_of(s.drop_last()) + s.last()
    }
}

/// `s` is the sorted snapshot of the window `w`: the samples of `w` in
/// ascending order.
pub open spec fn snapshot_of(s: Seq<i32>, w: Seq<i32>) -> bool {
    sorted(s) && permutation(s, w)
}

/// A sum of `n` samples lies between `n` times the least and `n` times the
/// greatest value a sample can have.
pub proof fn lemma_sum_bounds(s: Seq<i32>)
    ensures
        i32::MIN * s.len() <= sum_of(s) <= i32::MAX * s.len(),
    decreases s.len(),
{
    if s.len() > 0 {
        lemma_sum_bounds(s.drop_last());
        assert(i32::MIN * s.len() == i32::MIN * s.drop_last().len() + i32::MIN) by (nonlinear_arith)
            requires
                s.len() == s.drop_last().len() + 1,
        ;
        assert(i32::MAX * s.len() == i32::MAX * s.drop_last().len() + i32::MAX) by (nonlinear_arith)
            requires
                s.len() == s.drop_last().len() + 1,
        ;
    }
}

/// Taking one value out of a sequence takes it out of the sum.
proof fn lemma_sum_remove(s: Seq<i32>, k: int)
    requires
        0 <= k < s.len(),
    ensures
        sum_of(s) == sum_of(s.remove(k)) + s[k],
    decreases s.len(),
{
    if k == s.len() - 1 {
        assert(s.remove(k) =~= s.drop_last());
    } else {
        lemma_sum_remove(s.drop_last(), k);
        assert(s.remove(k).drop_last() =~= s.drop_last().remove(k));
        assert(s.remove(k).last() == s.last());
    }
}

/// The sum does not depend on the order of the samples.
pub proof fn lemma_sum_order_independent(a: Seq<i32>, b: Seq<i32>)
    requires
        permutation(a, b),
    ensures
        sum_of(a) == sum_of(b),
    decreases a.len(),
{
    to_multiset_len(a);
    to_multiset_len(b);
    if a.len() > 0 {
        let last = a.last();
        assert(a.contains(last));
        to_multiset_contains(a, last);
        to_multiset_contains(b, last);
        let k = choose|k: int| 0 <= k < b.len() && b[k] == last;
        to_multiset_remove(a, a.len() - 1);
        to_multiset_remove(b, k);
        assert(a.remove(a.len() - 1) =~= a.drop_last());
        lemma_sum_order_independent(a.drop_last(), b.remove(k));
        lemma_sum_remove(b, k);
    }
}

/// The estimate does not depend on the order of the samples in the window:
/// two windows that are permutations of each other have the same sorted
/// snapshot and the same sum, so everything computed from the snapshot, the
/// initial mean and spread first of all, is the same for both.
pub proof fn lemma_snapshot_order_independent(
    w1: Seq<i32>,
    w2: Seq<i32>,
    s1: Seq<i32>,
    s2: Seq<i32>,
)
    requires
        permutation(w1, w2),
        snapshot_of(s1, w1),
        snapshot_of(s2, w2),
    ensures
        s1 == s2,
        sum_of(s1) == sum_of(w1),
        sum_of(w1) == sum_of(w2),
{
    lemma_sorted_permutation_unique(s1, s2);
    lemma_sum_order_independent(s1, w1);
    lemma_sum_order_independent(w1, w2);
}

/// A window that holds one value `v` throughout is its own snapshot, and its
/// sum is `v` times its length: the mean is `v` exactly and no sample
/// deviates from it.
pub proof fn lemma_constant_window(w: Seq<i32>, v: i32, s: Seq<i32>)
    requires
        forall|i: int| 0 <= i < w.len() ==> w[i] == v,
        snapshot_of(s, w),
    ensures
        s == w,
        sum_of(w) == v * w.len(),
{
    assert(sorted(w));
    lemma_sorted_permutation_unique(s, w);
    lemma_constant_sum(w, v);
}

proof fn lemma_constant_sum(w: Seq<i32>, v: i32)
    requires
        forall|i: int| 0 <= i < w.len() ==> w[i] == v,
    ensures
        sum_of(w) == v * w.len(),
    decreases w.len(),
{
    if w.len() > 0 {
        lemma_constant_sum(w.drop_last(), v);
        assert(v * w.len() == v * w.drop_last().len() + v) by (nonlinear_arith)
            requires
                w.len() == w.drop_last().len() + 1,
        ;
    }
}

/// A sorted copy of the first samples of a window, held in a buffer of fixed
/// size together with the number of samples in use.
pub struct Snapshot {
    samples: [i32; 64],
    len: usize,
}

impl View for Snapshot {
    type V = Seq<i32>;

    /// The samples in use, in ascending order.
    closed spec fn view(&self) -> Seq<i32> {
        self.samples@.take(self.len as int)
    }
}

impl Snapshot {
    #[verifier::type_invariant]
    spec fn well_formed(self) -> bool {
        self.len <= MAX_WINDOW && sorted(self@)
    }

    /// Copies the first `n` samples of `x` and sorts the copy.
    pub fn capture(x: &[i32], n: usize) -> (r: Snapshot)
        requires
            n <= x@.len(),
            n <= MAX_WINDOW,
        ensures
            snapshot_of(r@, x@.take(n as int)),
            r@.len() == n,
    {
        let mut samples: [i32; 64] = [0; 64];
        let mut i: usize = 0;
        while i < n
            invariant
                i <= n <= MAX_WINDOW,
                n <= x@.len(),
                forall|k: int| 0 <= k < i ==> samples@[k] == x@[k],
            decreases n - i,
        {
            samples[i] = x[i];
            i += 1;
        }
        assert(samples@.take(n as int) =~= x@.take(n as int));
        let whole: &mut [i32] = &mut samples;
        let (head, _tail) = whole.split_at_mut(n);
        quicksort(head);
        assert(samples@.take(n as int) =~= final(head)@);
        Snapshot { samples, len: n }
    }

    /// The number of samples in the snapshot.
    pub fn len(&self) -> (r: usize)
        ensures
            r == self@.len(),
            r <= MAX_WINDOW,
    {
        proof {
            use_type_invariant(self);
        }
        self.len
    }

    /// The sample at place `i` of the ascending order.
    pub fn get(&self, i: usize) -> (r: i32)
        requires
            i < self@.len(),
        ensures
            r == self@[i as int],
    {
        proof {
            use_type_invariant(self);
        }
        self.samples[i]
    }

    /// The samples in ascending order.
    pub fn to_vec(&self) -> (r: Vec<i32>)
        ensures
            r@ == self@,
    {
        proof {
            use_type_invariant(self);
        }
        let mut out: Vec<i32> = Vec::new();
        let mut i: usize = 0;
        while i < self.len
            invariant
                i <= self.len <= MAX_WINDOW,
                out@ == self@.take(i as int),
            decreases self.len - i,
        {
            out.push(self.samples[i]);
            assert(self@.take(i + 1) =~= self@.take(i as int).push(self@[i as int]));
            i += 1;
        }
        assert(self@.take(self.len as int) =~= self@);
        out
    }

    /// The exact sum of the samples.
    pub fn sum(&self) -> (r: i64)
        ensures
            r == sum_of(self@),
    {
        proof {
            use_type_invariant(self);
        }
        let mut total: i64 = 0;
        let mut i: usize = 0;
        while i < self.len
            invariant
                i <= self.len <= MAX_WINDOW,
                total == sum_of(self@.take(i as int)),
            decreases self.len - i,
        {
            proof {
                lemma_sum_bounds(self@.take(i as int));
                assert(self@.take(i + 1).drop_last() =~= self@.take(i as int));
                assert(self@.take(i + 1).last() == self@[i as int]);
                assert(i32::MIN * i >= i32::MIN * 64 && i32::MAX * i <= i32::MAX * 64)
                    by (nonlinear_arith)
                    requires
                        0 <= i <= 64,
                ;
            }
            total = total + self.samples[i] as i64;
            i += 1;
        }
        assert(self@.take(self.len as int) =~= self@);
        total
    }
}

/// What the estimator starts from.
pub enum Prepared {
    /// No sample: the estimate is zero.
    Empty,
    /// One sample: it is the estimate.
    Single(i32),
    /// Two samples or more: the estimate is refined from their snapshot.
    Several(Snapshot),
}

/// Prepares the estimate over the first `n` samples of `x`.
///
/// An empty window and a window of one sample are settled here. For any
/// other the result is the sorted snapshot of the `n` samples, from which
/// the initial mean and spread are computed and then refined.
pub fn prepare(x: &[i32], n: usize) -> (r: Prepared)
    requires
        n <= x@.len(),
        n <= MAX_WINDOW,
    ensures
        match r {
            Prepared::Empty => n == 0,
            Prepared::Single(v) => n == 1 && v == x@[0],
            Prepared::Several(s) => n >= 2 && s@.len() == n && snapshot_of(s@, x@.take(n as int)),
        },
{
    if n == 0 {
        Prepared::Empty
    } else if n == 1 {
        Prepared::Single(x[0])
    } else {
        Prepared::Several(Snapshot::capture(x, n))
    }
}

/// The budget of reweighting rounds of one estimate.
///
/// A round is run while the schedule is pending. Each round reports whether
/// the estimate has converged; the schedule stops at the first round that
/// has, and after `MAX_ROUNDS` rounds in any case.
pub struct Rounds {
    used: u32,
    settled: bool,
}

impl Rounds {
    #[verifier::type_invariant]
    spec fn well_formed(self) -> bool {
        self.used <= MAX_ROUNDS
    }

    /// The number of rounds that were run.
    pub closed spec fn used(self) -> nat {
        self.used as nat
    }

    /// Whether the last round that was run reported convergence.
    pub closed spec fn settled(self) -> bool {
        self.settled
    }

    /// The number of rounds that may still be run.
    pub open spec fn remaining(self) -> nat {
        if self.settled() || self.used() >= MAX_ROUNDS {
            0
        } else {
            (MAX_ROUNDS - self.used()) as nat
        }
    }

    /// The schedule after one more round that reported `converged`. A
    /// schedule that is no longer pending stays as it is.
    pub closed spec fn advanced(self, converged: bool) -> Rounds {
        if self.remaining() > 0 {
            Rounds { used: (self.used + 1) as u32, settled: converged }
        } else {
            self
        }
    }

    /// The schedule before the first round.
    pub closed spec fn fresh() -> Rounds {
        Rounds { used: 0, settled: false }
    }

    /// The schedule after the rounds whose reports are `reports`, first
    /// round first. Reports behind the end of the schedule are ignored.
    pub open spec fn after(reports: Seq<bool>) -> Rounds
        decreases reports.len(),
    {
        if reports.len() == 0 {
            Rounds::fresh()
        } else {
            Rounds::after(reports.drop_last()).advanced(reports.last())
        }
    }

    /// A schedule with all its rounds ahead.
    pub fn new() -> (r: Rounds)
        ensures
            r == Rounds::fresh(),
            r.used() == 0,
            !r.settled(),
            r.remaining() == MAX_ROUNDS,
    {
        Rounds { used: 0, settled: false }
    }

    /// Whether another round is to be run.
    pub fn pending(&self) -> (b: bool)
        ensures
            b == (self.remaining() > 0),
    {
        proof {
            use_type_invariant(self);
        }
        !self.settled && self.used < MAX_ROUNDS
    }

    /// The number of rounds that were run.
    pub fn rounds_used(&self) -> (r: u32)
        ensures
            r == self.used(),
            r <= MAX_ROUNDS,
    {
        proof {
            use_type_invariant(self);
        }
        self.used
    }

    /// Records a round and whether it reported convergence.
    ///
    /// On a pending schedule this uses up one round, and none is left where
    /// the round converged. A schedule that is not pending stays unchanged.
    pub fn advance(&mut self, converged: bool)
        ensures
            *final(self) == old(self).advanced(converged),
            old(self).remaining() > 0 ==> final(self).used() == old(self).used() + 1
                && final(self).settled() == converged && final(self).remaining() < old(
                self,
            ).remaining(),
            old(self).remaining() == 0 ==> *final(self) == *old(self),
            converged ==> final(self).remaining() == 0,
    {
        proof {
            use_type_invariant(&*self);
        }
        if !self.settled && self.used < MAX_ROUNDS {
            self.used = self.used + 1;
            self.settled = converged;
        }
    }

    /// The schedule always ends: whatever the rounds report, at most
    /// `MAX_ROUNDS` of them are run, none after the first that converged,
    /// and after `MAX_ROUNDS` reports nothing is pending.
    pub proof fn lemma_rounds_end(reports: Seq<bool>)
        ensures
            Rounds::after(reports).used() <= MAX_ROUNDS,
            Rounds::after(reports).used() <= reports.len(),
            reports.len() >= MAX_ROUNDS ==> Rounds::after(reports).remaining() == 0,
            forall|i: int|
                0 <= i < reports.len() && #[trigger] reports[i] ==> Rounds::after(reports).used()
                    <= i + 1 && Rounds::after(reports).remaining() == 0,
            (forall|i: int| 0 <= i < reports.len() ==> !#[trigger] reports[i]) ==> Rounds::after(
                reports,
            ).used() == if reports.len() <= MAX_ROUNDS {
                reports.len()
            } else {
                MAX_ROUNDS as nat
            },
        decreases reports.len(),
    {
        if reports.len() > 0 {
            let earlier = reports.drop_last();
            Rounds::lemma_rounds_end(earlier);
            let before = Rounds::after(earlier);
            let now = Rounds::after(reports);
            assert(now == before.advanced(reports.last()));
            assert forall|i: int| 0 <= i < reports.len() && #[trigger] reports[i] implies now.used()
                <= i + 1 && now.remaining() == 0 by {
                if i < earlier.len() {
                    assert(earlier[i]);
                }
            }
            if forall|i: int| 0 <= i < reports.len() ==> !#[trigger] reports[i] {
                assert forall|i: int| 0 <= i < earlier.len() implies !#[trigger] earlier[i] by {
                    assert(!reports[i]);
                }
                lemma_unsettled_without_convergence(earlier);
            }
        }
    }
}

/// While no round has converged the schedule is not settled.
proof fn lemma_unsettled_without_convergence(reports: Seq<bool>)
    requires
        forall|i: int| 0 <= i < reports.len() ==> !#[trigger] reports[i],
    ensures
        !Rounds::after(reports).settled(),
    decreases reports.len(),
{
    if reports.len() > 0 {
        let earlier = reports.drop_last();
        assert forall|i: int| 0 <= i < earlier.len() implies !#[trigger] earlier[i] by {
            assert(!reports[i]);
        }
        lemma_unsettled_without_convergence(earlier);
        assert(!reports[reports.len() - 1]);
    }
}

} // verus!
