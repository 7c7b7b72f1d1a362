//! The reported value of an arrangement.

use vstd::prelude::*;
use crate::model::{Slide, SlideModel, all_slides_wf, slide_views};
use crate::scorer::{calculate_score, interest_score, lemma_measures_bounded};
use crate::tagset::lemma_tag_set_len;

verus! {

/// The interest summed over every two consecutive slides.
pub open spec fn total_interest(slides: Seq<SlideModel>) -> int
    decreases slides.len(),
{
    if slides.len() < 2 {
        0
    } else {
        total_interest(slides.drop_last()) + interest_score(
            slides[slides.len() - 2].tags,
            slides[slides.len() - 1].tags,
        )
    }
}

/// The summed interest of well-formed slides is bounded by their number.
pub proof fn lemma_total_interest_bounded(slides: Seq<SlideModel>)
    requires
        all_slides_wf(slides),
    ensures
        0 <= total_interest(slides) <= slides.len() * 0x1_0000_0000,
    decreases slides.len(),
{
    if slides.len() >= 2 {
        let n = slides.len() as int;
        lemma_total_interest_bounded(slides.drop_last());
        lemma_measures_bounded(slides[n - 2].tags, slides[n - 1].tags);
        assert(slides[n - 1].wf());
        lemma_tag_set_len(slides[n - 1].tags);
        assert((n - 1) * 0x1_0000_0000 + 0x1_0000_0000 == n * 0x1_0000_0000) by (nonlinear_arith);
    }
}

/// The summed interest of the first slides is at most that of all of them.
pub proof fn lemma_total_interest_grows(slides: Seq<SlideModel>, n: int)
    requires
        0 <= n <= slides.len(),
    ensures
        0 <= total_interest(slides.take(n)) <= total_interest(slides),
    decreases slides.len() - n,
{
    if n < slides.len() {
        lemma_total_interest_grows(slides, n + 1);
        assert(slides.take(n + 1).drop_last() =~= slides.take(n));
        if n >= 1 {
            lemma_measures_bounded(slides[n - 1].tags, slides[n].tags);
        }
        lemma_total_interest_not_negative(slides.take(n));
    } else {
        assert(slides.take(n) =~= slides);
        lemma_total_interest_not_negative(slides);
    }
}

proof fn lemma_total_interest_not_negative(slides: Seq<SlideModel>)
    ensures
        0 <= total_interest(slides),
    decreases slides.len(),
{
    if slides.len() >= 2 {
        let n = slides.len() as int;
        lemma_total_interest_not_negative(slides.drop_last());
        lemma_measures_bounded(slides[n - 2].tags, slides[n - 1].tags);
    }
}

/// Sums the interest over every two consecutive slides of an arrangement.
/// The sum has to fit in 64 bits, which it does whenever the slides are
/// fewer than 2^32.
pub fn rate_slideshow(slides: &[Slide]) -> (score: u64)
    requires
        all_slides_wf(slide_views(slides@)),
        total_interest(slide_views(slides@)) <= u64::MAX,
    ensures
        score == total_interest(slide_views(slides@)),
{
    let n = slides.len();
    let mut score: u64 = 0;
    if n < 2 {
        return score;
    }
    let ghost views = slide_views(slides@);
    let mut i: usize = 1;
    while i < n
        invariant
            1 <= i <= n,
            n == slides@.len(),
            total_interest(views) <= u64::MAX,
            views == slide_views(slides@),
            all_slides_wf(views),
            score == total_interest(views.take(i as int)),
        decreases n - i,
    {
        proof {
            assert(views.take(i + 1).drop_last() =~= views.take(i as int));
            assert(views[i - 1].wf() && views[i as int].wf());
            lemma_total_interest_grows(views, i + 1);
        }
        let step = calculate_score(slides[i - 1].tags.as_slice(), slides[i].tags.as_slice());
        score = score + step;
        i += 1;
    }
    proof {
        assert(views.take(n as int) =~= views);
    }
    score
}

} // verus!
