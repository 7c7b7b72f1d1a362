//! Pictures, slides, and their mathematical views.

use vstd::prelude::*;
use crate::tagset::{is_strictly_ascending, is_tag_set};

verus! {

/// How a picture is held: a horizontal picture fills a slide by itself, two
/// vertical pictures share one.
#[derive(Debug, Clone, Copy, PartialEq, Eq)]
pub enum Orientation {
    Horizontal,
    Vertical,
}

/// An ingested photograph.
#[derive(Debug, Clone, PartialEq, Eq)]
pub struct Picture {
    pub id: u32,
    pub orientation: Orientation,
    pub tags: Vec<u32>,
}

/// The display unit: one horizontal picture, or two vertical pictures.
#[derive(Debug, Clone, PartialEq, Eq)]
pub struct Slide {
    pub picture_id: u32,
    pub second_picture_id: Option<u32>,
    pub tags: Vec<u32>,
}

/// What a [`Picture`] is, as a plain value.
pub struct PictureModel {
    pub id: u32,
    pub orientation: Orientation,
    pub tags: Seq<u32>,
}

/// What a [`Slide`] is, as a plain value.
pub struct SlideModel {
    pub picture_id: u32,
    pub second_picture_id: Option<u32>,
    pub tags: Seq<u32>,
}

impl View for Picture {
    type V = PictureModel;

    open spec fn view(&self) -> PictureModel {
        PictureModel { id: self.id, orientation: self.orientation, tags: self.tags@ }
    }
}

impl View for Slide {
    type V = SlideModel;

    open spec fn view(&self) -> SlideModel {
        SlideModel {
            picture_id: self.picture_id,
            second_picture_id: self.second_picture_id,
            tags: self.tags@,
        }
    }
}

impl PictureModel {
    /// The picture's tags form a tag set.
    pub open spec fn wf(self) -> bool {
        is_tag_set(self.tags)
    }
}

impl SlideModel {
    /// The slide's tags form a tag set.
    pub open spec fn wf(self) -> bool {
        is_tag_set(self.tags)
    }
}

/// The plain values of a sequence of pictures, in the same order.
pub open spec fn picture_views(pictures: Seq<Picture>) -> Seq<PictureModel> {
    pictures.map_values(|p: Picture| p@)
}

/// The plain values of a sequence of slides, in the same order.
pub open spec fn slide_views(slides: Seq<Slide>) -> Seq<SlideModel> {
    slides.map_values(|s: Slide| s@)
}

/// Every picture of the sequence is well formed.
pub open spec fn all_pictures_wf(pictures: Seq<PictureModel>) -> bool {
    forall|i: int| 0 <= i < pictures.len() ==> (#[trigger] pictures[i]).wf()
}

/// Every slide of the sequence is well formed.
pub open spec fn all_slides_wf(slides: Seq<SlideModel>) -> bool {
    forall|i: int| 0 <= i < slides.len() ==> (#[trigger] slides[i]).wf()
}

impl Picture {
    /// Tells whether the picture's tags are strictly ascending.
    pub fn is_well_formed(&self) -> (ok: bool)
        ensures
            ok == self@.wf(),
    {
        is_strictly_ascending(self.tags.as_slice())
    }
}

impl Slide {
    /// Tells whether the slide's tags are strictly ascending.
    pub fn is_well_formed(&self) -> (ok: bool)
        ensures
            ok == self@.wf(),
    {
        is_strictly_ascending(self.tags.as_slice())
    }
}

} // verus!
