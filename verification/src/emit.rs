//! The listing of an arrangement: the number of slides, then one line for
//! each slide with the identifiers of its pictures.

use vstd::prelude::*;
use crate::model::{Slide, SlideModel, slide_views};

verus! {

/// The character of a decimal digit.
pub open spec fn digit(d: nat) -> u8 {
    (48 + d % 10) as u8
}

/// The decimal numeral of `n`, without leading zeros.
pub open spec fn decimal(n: nat) -> Seq<u8>
    decreases n,
{
    if n < 10 {
        seq![digit(n)]
    } else {
        decimal(n / 10).push(digit(n % 10))
    }
}

/// The line of one slide: its picture, or its two pictures with a space
/// between them.
pub open spec fn slide_line(slide: SlideModel) -> Seq<u8> {
    match slide.second_picture_id {
        Some(second) => decimal(slide.picture_id as nat) + seq![32u8] + decimal(second as nat),
        None => decimal(slide.picture_id as nat),
    }
}

/// The lines of the slides, each one begun by a line feed.
pub open spec fn slide_lines(slides: Seq<SlideModel>) -> Seq<u8>
    decreases slides.len(),
{
    if slides.len() == 0 {
        Seq::empty()
    } else {
        slide_lines(slides.drop_last()) + seq![10u8] + slide_line(slides.last())
    }
}

/// The whole listing: the number of slides, then the slides' lines.
pub open spec fn listing(slides: Seq<SlideModel>) -> Seq<u8> {
    decimal(slides.len()) + slide_lines(slides)
}

/// The numeral of what is left of a number once its last digits are taken
/// off: nothing when nothing is left.
spec fn leading_digits(rest: nat) -> Seq<u8> {
    if rest == 0 {
        Seq::empty()
    } else {
        decimal(rest)
    }
}

/// Appends the decimal numeral of `n`.
fn push_decimal(out: &mut Vec<u8>, n: u64)
    ensures
        final(out)@ == old(out)@ + decimal(n as nat),
{
    let mut digits: Vec<u8> = Vec::new();
    let mut rest = n;
    digits.push(48u8 + (rest % 10) as u8);
    rest = rest / 10;
    proof {
        assert(leading_digits(rest as nat) + digits@.reverse() =~= decimal(n as nat));
    }
    while rest > 0
        invariant
            leading_digits(rest as nat) + digits@.reverse() == decimal(n as nat),
        decreases rest,
    {
        let ghost before = digits@;
        let d = 48u8 + (rest % 10) as u8;
        digits.push(d);
        proof {
            assert(digits@.reverse() =~= seq![d] + before.reverse());
            assert(decimal(rest as nat) =~= leading_digits((rest / 10) as nat) + seq![d]);
            assert(leading_digits((rest / 10) as nat) + digits@.reverse() =~= decimal(rest as nat)
                + before.reverse());
        }
        rest = rest / 10;
    }
    let mut left = digits.len();
    proof {
        assert(leading_digits(rest as nat) + digits@.reverse() =~= digits@.reverse());
    }
    while left > 0
        invariant
            left <= digits@.len(),
            digits@.reverse() == decimal(n as nat),
            out@ == old(out)@ + digits@.reverse().take(digits@.len() - left),
        decreases left,
    {
        left -= 1;
        out.push(digits[left]);
        proof {
            let turned = digits@.reverse();
            let done = digits@.len() - left;
            assert(turned.take(done) =~= turned.take(done - 1).push(digits@[left as int]));
        }
    }
    proof {
        assert(digits@.reverse().take(digits@.len() as int) =~= digits@.reverse());
    }
}

/// Renders the listing of an arrangement.
pub fn render_slides(slides: &[Slide]) -> (text: Vec<u8>)
    ensures
        text@ == listing(slide_views(slides@)),
{
    let ghost views = slide_views(slides@);
    let mut text: Vec<u8> = Vec::new();
    push_decimal(&mut text, slides.len() as u64);
    let mut i: usize = 0;
    proof {
        assert(text@ =~= decimal(views.len()) + slide_lines(views.take(0)));
    }
    while i < slides.len()
        invariant
            i <= slides@.len(),
            views == slide_views(slides@),
            text@ == decimal(views.len()) + slide_lines(views.take(i as int)),
        decreases slides@.len() - i,
    {
        let ghost before = text@;
        text.push(10u8);
        push_decimal(&mut text, slides[i].picture_id as u64);
        match slides[i].second_picture_id {
            Some(second) => {
                text.push(32u8);
                push_decimal(&mut text, second as u64);
            },
            None => {},
        }
        proof {
            assert(views.take(i + 1).drop_last() =~= views.take(i as int));
            assert(text@ =~= before + seq![10u8] + slide_line(views[i as int]));
            assert(text@ =~= decimal(views.len()) + slide_lines(views.take(i + 1)));
        }
        i += 1;
    }
    proof {
        assert(views.take(slides@.len() as int) =~= views);
    }
    text
}

} // verus!
