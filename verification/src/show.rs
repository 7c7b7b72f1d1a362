//! From pictures to a rated slideshow, in one step.

use vstd::prelude::*;
use crate::model::{Picture, Slide, all_pictures_wf, picture_views, slide_views};
use crate::pairing::{create_slides, slides_of};
use crate::rater::{lemma_total_interest_bounded, rate_slideshow, total_interest};
use crate::tour::{arrange_slides, is_greedy_path};

verus! {

/// Makes the slides of the pictures, arranges them into a greedy path that
/// starts with the first slide, and rates the arrangement.
pub fn make_slideshow(pictures: Vec<Picture>) -> (made: (Vec<Slide>, u64))
    requires
        all_pictures_wf(picture_views(pictures@)),
        pictures@.len() <= u32::MAX,
    ensures
        made.0@.len() == slides_of(picture_views(pictures@)).len(),
        slide_views(made.0@).to_multiset() == slides_of(picture_views(pictures@)).to_multiset(),
        made.0@.len() > 0 ==> made.0@[0]@ == slides_of(picture_views(pictures@))[0],
        is_greedy_path(slide_views(made.0@)),
        made.1 == total_interest(slide_views(made.0@)),
{
    let slides = create_slides(pictures);
    let tour = arrange_slides(slides);
    proof {
        lemma_total_interest_bounded(slide_views(tour@));
        assert(tour@.len() * 0x1_0000_0000 <= 0xffff_ffff * 0x1_0000_0000) by (nonlinear_arith)
            requires
                tour@.len() <= 0xffff_ffff,
        ;
    }
    let score = rate_slideshow(tour.as_slice());
    (tour, score)
}

} // verus!
