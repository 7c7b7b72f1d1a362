//! Which pictures the slides show, and how often.

use vstd::multiset::Multiset;
use vstd::prelude::*;
use crate::model::{PictureModel, SlideModel};
use crate::pairing::{
    best_partner, by_descending_cardinality, composite_slide, horizontal_slide,
    horizontal_slides, horizontals, insert_by_cardinality, lemma_best_partner_in_pool,
    lemma_ordering_keeps_len, pair_up, slides_of, vertical_pool, verticals,
};

verus! {

/// The identifiers of the pictures, in order.
pub open spec fn picture_ids(pictures: Seq<PictureModel>) -> Seq<u32> {
    pictures.map_values(|p: PictureModel| p.id)
}

/// The identifiers of the pictures that one slide shows.
pub open spec fn ids_of(slide: SlideModel) -> Seq<u32> {
    match slide.second_picture_id {
        Some(second) => seq![slide.picture_id, second],
        None => seq![slide.picture_id],
    }
}

/// The identifiers of the pictures that the slides show, slide by slide.
pub open spec fn slide_ids(slides: Seq<SlideModel>) -> Seq<u32>
    decreases slides.len(),
{
    if slides.len() == 0 {
        Seq::empty()
    } else {
        slide_ids(slides.drop_last()) + ids_of(slides.last())
    }
}

proof fn lemma_slide_ids_push(slides: Seq<SlideModel>, slide: SlideModel)
    ensures
        slide_ids(slides.push(slide)) == slide_ids(slides) + ids_of(slide),
{
    assert(slides.push(slide).drop_last() =~= slides);
}

proof fn lemma_slide_ids_add(front: Seq<SlideModel>, back: Seq<SlideModel>)
    ensures
        slide_ids(front + back) == slide_ids(front) + slide_ids(back),
    decreases back.len(),
{
    if back.len() == 0 {
        assert(front + back =~= front);
        assert(slide_ids(front) + slide_ids(back) =~= slide_ids(front));
    } else {
        lemma_slide_ids_add(front, back.drop_last());
        assert((front + back).drop_last() =~= front + back.drop_last());
        assert((slide_ids(front) + slide_ids(back.drop_last())) + ids_of(back.last()) =~= slide_ids(
            front,
        ) + (slide_ids(back.drop_last()) + ids_of(back.last())));
    }
}

proof fn lemma_add_to_multiset(front: Seq<u32>, back: Seq<u32>)
    ensures
        (front + back).to_multiset() == front.to_multiset().add(back.to_multiset()),
    decreases back.len(),
{
    if back.len() == 0 {
        back.to_multiset_ensures();
        vstd::multiset::lemma_multiset_empty_len(back.to_multiset());
        assert(front + back =~= front);
        assert(front.to_multiset().add(back.to_multiset()) =~= front.to_multiset());
    } else {
        let most = back.drop_last();
        lemma_add_to_multiset(front, most);
        assert(front + back =~= (front + most).push(back.last()));
        assert(back =~= most.push(back.last()));
        vstd::seq_lib::to_multiset_build(front + most, back.last());
        vstd::seq_lib::to_multiset_build(most, back.last());
        assert((front + back).to_multiset() =~= front.to_multiset().add(back.to_multiset()));
    }
}

/// The horizontal slides show the horizontal pictures, one each.
proof fn lemma_horizontal_slide_ids(pictures: Seq<PictureModel>)
    ensures
        slide_ids(horizontal_slides(pictures)) == picture_ids(horizontals(pictures)),
    decreases pictures.len(),
{
    reveal(Seq::filter);
    if pictures.len() == 0 {
        assert(slide_ids(horizontal_slides(pictures)) =~= picture_ids(horizontals(pictures)));
    } else {
        let front = pictures.drop_last();
        let last = pictures.last();
        lemma_horizontal_slide_ids(front);
        if last.orientation is Horizontal {
            assert(horizontal_slides(pictures) =~= horizontal_slides(front).push(
                horizontal_slide(last),
            ));
            lemma_slide_ids_push(horizontal_slides(front), horizontal_slide(last));
            assert(slide_ids(horizontal_slides(pictures)) =~= picture_ids(horizontals(pictures)));
        }
    }
}

/// Every picture is horizontal or vertical, and none is both.
proof fn lemma_split_keeps_ids(pictures: Seq<PictureModel>)
    ensures
        picture_ids(horizontals(pictures)).to_multiset().add(
            picture_ids(verticals(pictures)).to_multiset(),
        ) == picture_ids(pictures).to_multiset(),
    decreases pictures.len(),
{
    reveal(Seq::filter);
    let h = picture_ids(horizontals(pictures)).to_multiset();
    let v = picture_ids(verticals(pictures)).to_multiset();
    if pictures.len() == 0 {
        lemma_add_to_multiset(picture_ids(horizontals(pictures)), picture_ids(verticals(pictures)));
        assert(picture_ids(horizontals(pictures)) + picture_ids(verticals(pictures))
            =~= picture_ids(pictures));
    } else {
        let front = pictures.drop_last();
        let last = pictures.last();
        lemma_split_keeps_ids(front);
        assert(picture_ids(pictures) =~= picture_ids(front).push(last.id));
        vstd::seq_lib::to_multiset_build(picture_ids(front), last.id);
        if last.orientation is Horizontal {
            assert(picture_ids(horizontals(pictures)) =~= picture_ids(horizontals(front)).push(
                last.id,
            ));
            vstd::seq_lib::to_multiset_build(picture_ids(horizontals(front)), last.id);
        } else {
            assert(picture_ids(verticals(pictures)) =~= picture_ids(verticals(front)).push(
                last.id,
            ));
            vstd::seq_lib::to_multiset_build(picture_ids(verticals(front)), last.id);
        }
        assert(h.add(v) =~= picture_ids(pictures).to_multiset());
    }
}

proof fn lemma_insert_keeps_ids(pool: Seq<PictureModel>, picture: PictureModel)
    ensures
        picture_ids(insert_by_cardinality(pool, picture)).to_multiset() == picture_ids(
            pool,
        ).to_multiset().insert(picture.id),
    decreases pool.len(),
{
    if pool.len() == 0 || pool.last().tags.len() >= picture.tags.len() {
        assert(picture_ids(pool.push(picture)) =~= picture_ids(pool).push(picture.id));
        vstd::seq_lib::to_multiset_build(picture_ids(pool), picture.id);
    } else {
        let front = pool.drop_last();
        let placed = insert_by_cardinality(front, picture);
        lemma_insert_keeps_ids(front, picture);
        assert(picture_ids(placed.push(pool.last())) =~= picture_ids(placed).push(pool.last().id));
        vstd::seq_lib::to_multiset_build(picture_ids(placed), pool.last().id);
        assert(picture_ids(pool) =~= picture_ids(front).push(pool.last().id));
        vstd::seq_lib::to_multiset_build(picture_ids(front), pool.last().id);
        assert(picture_ids(insert_by_cardinality(pool, picture)).to_multiset() =~= picture_ids(
            pool,
        ).to_multiset().insert(picture.id));
    }
}

/// Ordering the pool neither adds nor loses a picture.
proof fn lemma_ordering_keeps_ids(pictures: Seq<PictureModel>)
    ensures
        picture_ids(by_descending_cardinality(pictures)).to_multiset() == picture_ids(
            pictures,
        ).to_multiset(),
    decreases pictures.len(),
{
    if pictures.len() == 0 {
        assert(picture_ids(by_descending_cardinality(pictures)) =~= picture_ids(pictures));
    } else {
        let front = pictures.drop_last();
        lemma_ordering_keeps_ids(front);
        lemma_insert_keeps_ids(by_descending_cardinality(front), pictures.last());
        assert(picture_ids(pictures) =~= picture_ids(front).push(pictures.last().id));
        vstd::seq_lib::to_multiset_build(picture_ids(front), pictures.last().id);
    }
}

/// The composite slides show each picture of the pool at most as often as
/// the pool holds it, and exactly as often when the pool is even.
proof fn lemma_pairs_within_pool(pool: Seq<PictureModel>)
    ensures
        slide_ids(pair_up(pool)).to_multiset().subset_of(picture_ids(pool).to_multiset()),
        pool.len() % 2 == 0 ==> slide_ids(pair_up(pool)).to_multiset() == picture_ids(
            pool,
        ).to_multiset(),
    decreases pool.len(),
{
    if pool.len() < 2 {
        assert(slide_ids(pair_up(pool)) =~= Seq::<u32>::empty());
        slide_ids(pair_up(pool)).to_multiset_ensures();
        vstd::multiset::lemma_multiset_empty_len(slide_ids(pair_up(pool)).to_multiset());
        if pool.len() == 0 {
            assert(picture_ids(pool) =~= Seq::<u32>::empty());
        }
    } else {
        let rest = pool.drop_first();
        let k = best_partner(pool[0].tags, rest);
        lemma_best_partner_in_pool(pool[0].tags, rest);
        let left = rest.remove(k);
        let made = composite_slide(pool[0], rest[k]);
        lemma_pairs_within_pool(left);
        lemma_slide_ids_add(seq![made], pair_up(left));
        assert(seq![made] =~= Seq::<SlideModel>::empty().push(made));
        lemma_slide_ids_push(Seq::<SlideModel>::empty(), made);
        assert(slide_ids(seq![made]) =~= seq![pool[0].id, rest[k].id]);
        lemma_add_to_multiset(seq![pool[0].id, rest[k].id], slide_ids(pair_up(left)));
        let pair = seq![pool[0].id, rest[k].id];
        assert(pair =~= Seq::<u32>::empty().push(pool[0].id).push(rest[k].id));
        vstd::seq_lib::to_multiset_build(Seq::<u32>::empty(), pool[0].id);
        vstd::seq_lib::to_multiset_build(Seq::<u32>::empty().push(pool[0].id), rest[k].id);
        Seq::<u32>::empty().to_multiset_ensures();
        vstd::multiset::lemma_multiset_empty_len(Seq::<u32>::empty().to_multiset());
        assert(pair.to_multiset() =~= Multiset::<u32>::empty().insert(pool[0].id).insert(
            rest[k].id,
        ));
        assert(picture_ids(left) =~= picture_ids(rest).remove(k));
        vstd::seq_lib::to_multiset_remove(picture_ids(rest), k);
        assert(picture_ids(rest).to_multiset().count(rest[k].id) > 0) by {
            vstd::seq_lib::to_multiset_contains(picture_ids(rest), rest[k].id);
            assert(picture_ids(rest)[k] == rest[k].id);
            assert(picture_ids(rest).contains(rest[k].id));
        }
        assert(picture_ids(rest) =~= picture_ids(pool).remove(0));
        vstd::seq_lib::to_multiset_remove(picture_ids(pool), 0);
        assert(picture_ids(pool).to_multiset().count(pool[0].id) > 0) by {
            vstd::seq_lib::to_multiset_contains(picture_ids(pool), pool[0].id);
            assert(picture_ids(pool)[0] == pool[0].id);
            assert(picture_ids(pool).contains(pool[0].id));
        }
        let shown = slide_ids(pair_up(pool)).to_multiset();
        let given = picture_ids(pool).to_multiset();
        let inner = slide_ids(pair_up(left)).to_multiset();
        assert forall|id: u32| shown.count(id) <= given.count(id) by {
            assert(inner.count(id) <= picture_ids(left).to_multiset().count(id));
        }
        if pool.len() % 2 == 0 {
            assert(left.len() % 2 == 0);
            assert(shown =~= given);
        }
    }
}

/// No picture is shown more often than it was given: each identifier occurs
/// among the slides at most as often as among the pictures.
pub proof fn lemma_pictures_used_at_most_once(pictures: Seq<PictureModel>)
    ensures
        slide_ids(slides_of(pictures)).to_multiset().subset_of(
            picture_ids(pictures).to_multiset(),
        ),
{
    let pool = vertical_pool(pictures);
    lemma_slide_ids_add(horizontal_slides(pictures), pair_up(pool));
    lemma_add_to_multiset(slide_ids(horizontal_slides(pictures)), slide_ids(pair_up(pool)));
    lemma_horizontal_slide_ids(pictures);
    lemma_pairs_within_pool(pool);
    lemma_ordering_keeps_ids(verticals(pictures));
    lemma_split_keeps_ids(pictures);
    let shown = slide_ids(slides_of(pictures)).to_multiset();
    let given = picture_ids(pictures).to_multiset();
    let paired = slide_ids(pair_up(pool)).to_multiset();
    assert forall|id: u32| shown.count(id) <= given.count(id) by {
        assert(paired.count(id) <= picture_ids(pool).to_multiset().count(id));
    }
}

/// When the vertical pictures are even in number, every picture is shown
/// exactly as often as it was given: none is left out.
pub proof fn lemma_all_pictures_shown(pictures: Seq<PictureModel>)
    requires
        verticals(pictures).len() % 2 == 0,
    ensures
        slide_ids(slides_of(pictures)).to_multiset() == picture_ids(pictures).to_multiset(),
{
    let pool = vertical_pool(pictures);
    lemma_slide_ids_add(horizontal_slides(pictures), pair_up(pool));
    lemma_add_to_multiset(slide_ids(horizontal_slides(pictures)), slide_ids(pair_up(pool)));
    lemma_horizontal_slide_ids(pictures);
    lemma_ordering_keeps_len(verticals(pictures));
    lemma_pairs_within_pool(pool);
    lemma_ordering_keeps_ids(verticals(pictures));
    lemma_split_keeps_ids(pictures);
}

/// When the pictures have distinct identifiers, no identifier appears twice
/// among the slides, neither in two slides nor on both sides of one.
pub proof fn lemma_no_picture_shown_twice(pictures: Seq<PictureModel>)
    requires
        picture_ids(pictures).no_duplicates(),
    ensures
        slide_ids(slides_of(pictures)).no_duplicates(),
{
    lemma_pictures_used_at_most_once(pictures);
    picture_ids(pictures).lemma_multiset_has_no_duplicates();
    let shown = slide_ids(slides_of(pictures));
    let given = picture_ids(pictures).to_multiset();
    assert forall|id: u32| shown.to_multiset().contains(id) implies shown.to_multiset().count(id)
        == 1 by {
        assert(shown.to_multiset().count(id) <= given.count(id));
        assert(given.contains(id));
    }
    shown.lemma_multiset_has_no_duplicates_conv();
}

} // verus!
