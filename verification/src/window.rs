//! The sliding window of one sensor channel: a fixed-capacity buffer of
//! samples, most recent first.
//!
//! A window lives in a slice whose first `capacity` entries are the window
//! proper. A push writes the new sample at index 0 and moves the others one
//! place toward the tail; the entry at `capacity - 1` is lost. Entries the
//! pushes have not reached yet keep what the buffer was created with.

use vstd::prelude::*;
use vstd::slice::slice_subrange;

verus! {

/// The largest capacity a window can have.
pub const MAX_WINDOW: usize = 64;

/// The window `w` after `value` was pushed at its front: `value`, then the
/// first `capacity - 1` entries of `w`; whatever lies behind the capacity is
/// untouched. A window without capacity holds nothing and stays as it is.
pub open spec fn pushed(w: Seq<i32>, capacity: int, value: i32) -> Seq<i32> {
    if capacity <= 0 {
        w
    } else {
        seq![value] + w.subrange(0, capacity - 1) + w.subrange(capacity, w.len() as int)
    }
}

/// The window `w` after the samples of `values` were pushed one by one,
/// `values[0]` first.
pub open spec fn pushed_all(w: Seq<i32>, capacity: int, values: Seq<i32>) -> Seq<i32>
    decreases values.len(),
{
    if values.len() == 0 {
        w
    } else {
        pushed(pushed_all(w, capacity, values.drop_last()), capacity, values.last())
    }
}

/// Pushes `value` at the front of the window held in the first `capacity`
/// entries of `window`.
pub fn push_front(window: &mut [i32], capacity: usize, value: i32)
    requires
        capacity <= old(window)@.len(),
    ensures
        final(window)@ == pushed(old(window)@, capacity as int, value),
{
    if capacity == 0 {
        return;
    }
    let mut i: usize = capacity - 1;
    while i > 0
        invariant
            i < capacity <= window@.len(),
            window@.len() == old(window)@.len(),
            forall|k: int| 0 <= k <= i ==> window@[k] == old(window)@[k],
            forall|k: int| i < k < capacity ==> window@[k] == old(window)@[k - 1],
            forall|k: int| capacity <= k < window@.len() ==> window@[k] == old(window)@[k],
        decreases i,
    {
        window[i] = window[i - 1];
        i -= 1;
    }
    window[0] = value;
    assert(window@ =~= pushed(old(window)@, capacity as int, value));
}

/// A window that owns its buffer: a buffer of fixed size, of which the first
/// `capacity` entries are in use.
pub struct Window {
    samples: [i32; 64],
    capacity: usize,
}

impl View for Window {
    type V = Seq<i32>;

    /// The entries in use, most recent first.
    closed spec fn view(&self) -> Seq<i32> {
        self.samples@.take(self.capacity as int)
    }
}

impl Window {
    #[verifier::type_invariant]
    spec fn well_formed(self) -> bool {
        self.capacity <= MAX_WINDOW
    }

    /// A window of the given capacity with every entry zero, or nothing
    /// where the capacity exceeds `MAX_WINDOW`.
    pub fn new(capacity: usize) -> (r: Option<Window>)
        ensures
            r is Some <==> capacity <= MAX_WINDOW,
            r matches Some(w) ==> w@ == Seq::new(capacity as nat, |i: int| 0i32),
    {
        if capacity > MAX_WINDOW {
            return None;
        }
        let w = Window { samples: [0; 64], capacity };
        assert(w@ =~= Seq::new(capacity as nat, |i: int| 0i32));
        Some(w)
    }

    /// The number of entries of the window.
    pub fn capacity(&self) -> (r: usize)
        ensures
            r == self@.len(),
            r <= MAX_WINDOW,
    {
        proof {
            use_type_invariant(self);
        }
        self.capacity
    }

    /// The entry at place `i`, counted from the most recent.
    pub fn get(&self, i: usize) -> (r: i32)
        requires
            i < self@.len(),
        ensures
            r == self@[i as int],
    {
        proof {
            use_type_invariant(self);
        }
        self.samples[i]
    }

    /// The entries of the window, most recent first.
    pub fn samples(&self) -> (r: &[i32])
        ensures
            r@ == self@,
    {
        proof {
            use_type_invariant(self);
        }
        slice_subrange(self.samples.as_slice(), 0, self.capacity)
    }

    /// Pushes `value` at the front of the window; the oldest entry is lost.
    pub fn push_front(&mut self, value: i32)
        ensures
            final(self)@ == pushed(old(self)@, old(self)@.len() as int, value),
            final(self)@.len() == old(self)@.len(),
    {
        proof {
            use_type_invariant(&*self);
        }
        let capacity: usize = self.capacity;
        let whole: &mut [i32] = &mut self.samples;
        self::push_front(whole, capacity, value);
        assert(self@ =~= pushed(old(self)@, old(self)@.len() as int, value));
    }
}

/// A push never changes the length of the buffer: the window does not grow.
pub proof fn lemma_push_keeps_length(w: Seq<i32>, capacity: int, value: i32)
    requires
        capacity <= w.len(),
    ensures
        pushed(w, capacity, value).len() == w.len(),
{
}

/// After `k` pushes the window reads most recent first.
///
/// With `k = values.len()`: the first `min(k, capacity)` entries are the
/// pushed samples from the newest backward; where fewer samples than the
/// capacity were pushed, the old entries follow, moved `k` places toward the
/// tail; where more were pushed, the oldest are gone. The buffer keeps its
/// length, and what lies behind the capacity is never touched.
pub proof fn lemma_pushes_read_newest_first(w: Seq<i32>, capacity: int, values: Seq<i32>)
    requires
        0 < capacity <= w.len(),
    ensures
        pushed_all(w, capacity, values).len() == w.len(),
        forall|i: int|
            0 <= i < capacity && i < values.len() ==> #[trigger] pushed_all(w, capacity, values)[i]
                == values[values.len() - 1 - i],
        forall|i: int|
            values.len() <= i < capacity ==> #[trigger] pushed_all(w, capacity, values)[i] == w[i
                - values.len()],
        forall|i: int|
            capacity <= i < w.len() ==> #[trigger] pushed_all(w, capacity, values)[i] == w[i],
    decreases values.len(),
{
    if values.len() > 0 {
        let earlier = values.drop_last();
        lemma_pushes_read_newest_first(w, capacity, earlier);
        let before = pushed_all(w, capacity, earlier);
        let after = pushed_all(w, capacity, values);
        assert(after == pushed(before, capacity, values.last()));
        assert forall|i: int| 0 <= i < capacity && i < values.len() implies #[trigger] after[i]
            == values[values.len() - 1 - i] by {
            if i > 0 {
                assert(after[i] == before[i - 1]);
                assert(before[i - 1] == earlier[earlier.len() - 1 - (i - 1)]);
            }
        }
        assert forall|i: int| values.len() <= i < capacity implies #[trigger] after[i] == w[i
            - values.len()] by {
            assert(after[i] == before[i - 1]);
        }
        assert forall|i: int| capacity <= i < w.len() implies #[trigger] after[i] == w[i] by {
            assert(after[i] == before[i]);
        }
    }
}

/// A window without capacity ignores every push.
pub proof fn lemma_pushes_without_capacity(w: Seq<i32>, values: Seq<i32>)
    ensures
        pushed_all(w, 0, values) == w,
    decreases values.len(),
{
    if values.len() > 0 {
        lemma_pushes_without_capacity(w, values.drop_last());
    }
}

} // verus!
