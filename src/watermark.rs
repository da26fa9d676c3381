use vstd::prelude::*;

use vstd::math::max;

verus! {

/// The longest gap between beats, in seconds, seen since the process started.
/// It only ever grows.
#[derive(Debug)]
pub struct Watermark {
    longest: i64,
}

impl View for Watermark {
    type V = int;

    closed spec fn view(&self) -> int {
        self.longest as int
    }
}

/// The watermark that starts at `w` and then observes each of `xs` in turn.
pub open spec fn observe_all(w: int, xs: Seq<i64>) -> int
    decreases xs.len(),
{
    if xs.len() == 0 {
        w
    } else {
        max(observe_all(w, xs.drop_last()), xs.last() as int)
    }
}

impl Watermark {
    /// A watermark that starts at `initial` (the longest absence already recorded,
    /// or zero).
    pub fn new(initial: i64) -> (r: Watermark)
        ensures
            r@ == initial as int,
    {
        Watermark { longest: initial }
    }

    /// Raises the watermark to `seconds` if that is longer.
    pub fn observe(&mut self, seconds: i64)
        ensures
            final(self)@ == max(old(self)@, seconds as int),
    {
        if seconds > self.longest {
            self.longest = seconds;
        }
    }

    /// The current value of the watermark.
    pub fn read(&self) -> (r: i64)
        ensures
            r as int == self@,
    {
        self.longest
    }
}

/// After any sequence of observations the watermark is the largest of its starting
/// value and of the values observed.
pub proof fn lemma_watermark_is_maximum(w: int, xs: Seq<i64>)
    ensures
        w <= observe_all(w, xs),
        forall|i: int| 0 <= i < xs.len() ==> xs[i] <= observe_all(w, xs),
        observe_all(w, xs) == w || exists|i: int|
            0 <= i < xs.len() && observe_all(w, xs) == xs[i] as int,
    decreases xs.len(),
{
    if xs.len() > 0 {
        let init = xs.drop_last();
        lemma_watermark_is_maximum(w, init);
        assert forall|i: int| 0 <= i < xs.len() implies xs[i] <= observe_all(w, xs) by {
            if i < xs.len() - 1 {
                assert(xs[i] == init[i]);
            }
        }
        if observe_all(w, xs) != w && observe_all(w, xs) != xs.last() as int {
            let i = choose|i: int| 0 <= i < init.len() && observe_all(w, init) == init[i] as int;
            assert(observe_all(w, xs) == xs[i] as int);
        }
    }
}

/// The watermark does not depend on the order of the observations: two sequences
/// holding the same values, each as often, leave it at the same value.
pub proof fn lemma_watermark_order_free(w: int, xs: Seq<i64>, ys: Seq<i64>)
    requires
        xs.to_multiset() == ys.to_multiset(),
    ensures
        observe_all(w, xs) == observe_all(w, ys),
{
    lemma_watermark_is_maximum(w, xs);
    lemma_watermark_is_maximum(w, ys);
    lemma_bounded_by(w, xs, ys);
    lemma_bounded_by(w, ys, xs);
}

/// Where every value of `xs` occurs in `ys`, the watermark of `xs` is at most that
/// of `ys`.
proof fn lemma_bounded_by(w: int, xs: Seq<i64>, ys: Seq<i64>)
    requires
        xs.to_multiset() == ys.to_multiset(),
    ensures
        observe_all(w, xs) <= observe_all(w, ys),
{
    broadcast use vstd::seq_lib::group_to_multiset_ensures;

    lemma_watermark_is_maximum(w, xs);
    lemma_watermark_is_maximum(w, ys);
    if observe_all(w, xs) != w {
        let i = choose|i: int| 0 <= i < xs.len() && observe_all(w, xs) == xs[i] as int;
        assert(xs.contains(xs[i]));
        assert(ys.to_multiset().count(xs[i]) > 0);
        assert(ys.contains(xs[i]));
        let j = choose|j: int| 0 <= j < ys.len() && ys[j] == xs[i];
        assert(ys[j] <= observe_all(w, ys));
    }
}

} // verus!
