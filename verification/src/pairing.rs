//! Turning pictures into slides: horizontal pictures pass through, vertical
//! pictures are matched two by two so that each pair shares as few tags as
//! possible.

use vstd::prelude::*;
use crate::model::{Orientation, Picture, PictureModel, Slide, SlideModel};
use crate::model::{all_pictures_wf, all_slides_wf, picture_views, slide_views};
use crate::scorer::{calculate_common_tags, common_count};
use crate::selection::{first_min, is_first_min, lemma_first_min_exists, lemma_first_min_unique};
use crate::tagset::{is_tag_set, lemma_merged_tags, merge_tags, merged_tags};

verus! {

/// The slide that shows one horizontal picture.
pub open spec fn horizontal_slide(picture: PictureModel) -> SlideModel {
    SlideModel { picture_id: picture.id, second_picture_id: None, tags: picture.tags }
}

/// The slide that shows two vertical pictures side by side.
pub open spec fn composite_slide(first: PictureModel, second: PictureModel) -> SlideModel {
    SlideModel {
        picture_id: first.id,
        second_picture_id: Some(second.id),
        tags: merged_tags(first.tags, second.tags),
    }
}

/// The horizontal pictures, in the order in which they came.
pub open spec fn horizontals(pictures: Seq<PictureModel>) -> Seq<PictureModel> {
    pictures.filter(|p: PictureModel| p.orientation is Horizontal)
}

/// The vertical pictures, in the order in which they came.
pub open spec fn verticals(pictures: Seq<PictureModel>) -> Seq<PictureModel> {
    pictures.filter(|p: PictureModel| p.orientation is Vertical)
}

/// `pool` with `picture` placed behind every picture that has at least as
/// many tags, and before the others.
pub open spec fn insert_by_cardinality(
    pool: Seq<PictureModel>,
    picture: PictureModel,
) -> Seq<PictureModel>
    decreases pool.len(),
{
    if pool.len() == 0 || pool.last().tags.len() >= picture.tags.len() {
        pool.push(picture)
    } else {
        insert_by_cardinality(pool.drop_last(), picture).push(pool.last())
    }
}

/// The pictures ordered from the most tags to the fewest; pictures with
/// equally many tags keep the order in which they came.
pub open spec fn by_descending_cardinality(pictures: Seq<PictureModel>) -> Seq<PictureModel>
    decreases pictures.len(),
{
    if pictures.len() == 0 {
        Seq::empty()
    } else {
        insert_by_cardinality(by_descending_cardinality(pictures.drop_last()), pictures.last())
    }
}

/// For each picture of the pool, the number of tags it shares with `tags`.
pub open spec fn overlap_keys(tags: Seq<u32>, pool: Seq<PictureModel>) -> Seq<int> {
    pool.map_values(|p: PictureModel| common_count(tags, p.tags) as int)
}

/// The position in `pool` of the first picture that shares the fewest tags
/// with `tags`.
pub open spec fn best_partner(tags: Seq<u32>, pool: Seq<PictureModel>) -> int {
    first_min(overlap_keys(tags, pool))
}

/// The composite slides made from an ordered pool: the front picture takes
/// its best partner among the rest, both leave the pool, and so on while two
/// pictures are left. A last single picture makes no slide.
pub open spec fn pair_up(pool: Seq<PictureModel>) -> Seq<SlideModel>
    decreases pool.len(),
{
    if pool.len() < 2 {
        Seq::empty()
    } else {
        let rest = pool.drop_first();
        let k = best_partner(pool[0].tags, rest);
        proof {
            lemma_first_min_exists(overlap_keys(pool[0].tags, rest));
        }
        seq![composite_slide(pool[0], rest[k])] + pair_up(rest.remove(k))
    }
}

/// One slide for each horizontal picture, in the order in which they came.
pub open spec fn horizontal_slides(pictures: Seq<PictureModel>) -> Seq<SlideModel> {
    horizontals(pictures).map_values(|p: PictureModel| horizontal_slide(p))
}

/// The vertical pictures as the pairing takes them up: most tags first.
pub open spec fn vertical_pool(pictures: Seq<PictureModel>) -> Seq<PictureModel> {
    by_descending_cardinality(verticals(pictures))
}

/// The slides made from a sequence of pictures: one for each horizontal
/// picture, then the composite slides of the vertical ones.
pub open spec fn slides_of(pictures: Seq<PictureModel>) -> Seq<SlideModel> {
    horizontal_slides(pictures) + pair_up(vertical_pool(pictures))
}

/// The best partner is a position of the pool.
pub proof fn lemma_best_partner_in_pool(tags: Seq<u32>, pool: Seq<PictureModel>)
    requires
        pool.len() > 0,
    ensures
        0 <= best_partner(tags, pool) < pool.len(),
        is_first_min(overlap_keys(tags, pool), best_partner(tags, pool)),
{
    lemma_first_min_exists(overlap_keys(tags, pool));
}

/// Ordering a pool keeps its size.
pub proof fn lemma_ordering_keeps_len(pictures: Seq<PictureModel>)
    ensures
        by_descending_cardinality(pictures).len() == pictures.len(),
    decreases pictures.len(),
{
    if pictures.len() > 0 {
        lemma_ordering_keeps_len(pictures.drop_last());
        lemma_insert_adds_one(by_descending_cardinality(pictures.drop_last()), pictures.last());
    }
}

proof fn lemma_insert_adds_one(pool: Seq<PictureModel>, picture: PictureModel)
    ensures
        insert_by_cardinality(pool, picture).len() == pool.len() + 1,
    decreases pool.len(),
{
    if !(pool.len() == 0 || pool.last().tags.len() >= picture.tags.len()) {
        lemma_insert_adds_one(pool.drop_last(), picture);
    }
}

/// The composite slides of any pool are well formed.
pub proof fn lemma_pairs_are_well_formed(pool: Seq<PictureModel>)
    ensures
        all_slides_wf(pair_up(pool)),
    decreases pool.len(),
{
    if pool.len() >= 2 {
        let rest = pool.drop_first();
        let k = best_partner(pool[0].tags, rest);
        lemma_best_partner_in_pool(pool[0].tags, rest);
        lemma_pairs_are_well_formed(rest.remove(k));
        lemma_merged_tags(pool[0].tags, rest[k].tags);
        let made = composite_slide(pool[0], rest[k]);
        let later = pair_up(rest.remove(k));
        assert forall|i: int| 0 <= i < pair_up(pool).len() implies (#[trigger] pair_up(
            pool,
        )[i]).wf() by {
            if i > 0 {
                assert(pair_up(pool)[i] == later[i - 1]);
            }
        }
    }
}

/// The slides of well-formed pictures are well formed: their tags ascend
/// strictly.
pub proof fn lemma_slides_are_well_formed(pictures: Seq<PictureModel>)
    requires
        all_pictures_wf(pictures),
    ensures
        all_slides_wf(slides_of(pictures)),
{
    let shown = horizontals(pictures);
    let singles = horizontal_slides(pictures);
    let pairs = pair_up(vertical_pool(pictures));
    lemma_pairs_are_well_formed(vertical_pool(pictures));
    assert forall|i: int| 0 <= i < slides_of(pictures).len() implies (#[trigger] slides_of(
        pictures,
    )[i]).wf() by {
        if i < singles.len() {
            pictures.lemma_filter_contains_rev(
                |p: PictureModel| p.orientation is Horizontal,
                shown[i],
            );
            assert(shown.contains(shown[i]));
            let at = choose|at: int| 0 <= at < pictures.len() && pictures[at] == shown[i];
            assert(pictures[at].wf());
        } else {
            assert(slides_of(pictures)[i] == pairs[i - singles.len()]);
        }
    }
}

/// Holds of the pictures with exactly `n` tags.
pub open spec fn has_cardinality(n: nat) -> spec_fn(PictureModel) -> bool {
    |p: PictureModel| p.tags.len() == n
}

/// No picture of the pool has fewer tags than one behind it.
pub open spec fn is_descending(pool: Seq<PictureModel>) -> bool {
    forall|i: int, j: int| 0 <= i < j < pool.len() ==> pool[i].tags.len() >= pool[j].tags.len()
}

proof fn lemma_insert_keeps_order(pool: Seq<PictureModel>, picture: PictureModel, n: nat)
    ensures
        is_descending(pool) ==> is_descending(insert_by_cardinality(pool, picture)),
        insert_by_cardinality(pool, picture).filter(has_cardinality(n)) == if picture.tags.len()
            == n {
            pool.filter(has_cardinality(n)).push(picture)
        } else {
            pool.filter(has_cardinality(n))
        },
    decreases pool.len(),
{
    let placed = insert_by_cardinality(pool, picture);
    if pool.len() == 0 || pool.last().tags.len() >= picture.tags.len() {
        pool.lemma_filter_push(picture, has_cardinality(n));
    } else {
        let front = pool.drop_last();
        let inner = insert_by_cardinality(front, picture);
        lemma_insert_keeps_order(front, picture, n);
        lemma_insert_adds_one(front, picture);
        inner.lemma_filter_push(pool.last(), has_cardinality(n));
        front.lemma_filter_push(pool.last(), has_cardinality(n));
        assert(front.push(pool.last()) =~= pool);
        if is_descending(pool) {
            assert forall|i: int, j: int| 0 <= i < j < front.len() implies front[i].tags.len()
                >= front[j].tags.len() by {
                assert(front[i] == pool[i] && front[j] == pool[j]);
            }
            lemma_inserted_come_from(front, picture);
            assert forall|i: int, j: int| 0 <= i < j < placed.len() implies placed[i].tags.len()
                >= placed[j].tags.len() by {
                if j < inner.len() {
                    assert(placed[i] == inner[i] && placed[j] == inner[j]);
                } else {
                    assert(placed[i] == inner[i]);
                    if inner[i] != picture {
                        let at = choose|at: int| 0 <= at < front.len() && front[at] == inner[i];
                        assert(pool[at] == front[at]);
                    }
                }
            }
        }
    }
}

proof fn lemma_inserted_come_from(pool: Seq<PictureModel>, picture: PictureModel)
    ensures
        forall|i: int|
            0 <= i < insert_by_cardinality(pool, picture).len() ==> {
                let found = #[trigger] insert_by_cardinality(pool, picture)[i];
                found == picture || exists|at: int| 0 <= at < pool.len() && pool[at] == found
            },
    decreases pool.len(),
{
    let placed = insert_by_cardinality(pool, picture);
    if pool.len() == 0 || pool.last().tags.len() >= picture.tags.len() {
        assert forall|i: int| 0 <= i < placed.len() implies {
            let found = #[trigger] placed[i];
            found == picture || exists|at: int| 0 <= at < pool.len() && pool[at] == found
        } by {
            if i < pool.len() {
                assert(pool[i] == placed[i]);
            }
        }
    } else {
        let front = pool.drop_last();
        let inner = insert_by_cardinality(front, picture);
        lemma_inserted_come_from(front, picture);
        assert forall|i: int| 0 <= i < placed.len() implies {
            let found = #[trigger] placed[i];
            found == picture || exists|at: int| 0 <= at < pool.len() && pool[at] == found
        } by {
            if i < inner.len() {
                assert(placed[i] == inner[i]);
                if inner[i] != picture {
                    let at = choose|at: int| 0 <= at < front.len() && front[at] == inner[i];
                    assert(pool[at] == placed[i]);
                }
            } else {
                assert(pool[pool.len() - 1] == placed[i]);
            }
        }
    }
}

/// The ordered pool goes from the most tags to the fewest, and for every
/// number of tags it holds the pictures with that many tags exactly as the
/// input does, in the same order: nothing is lost or added, and pictures
/// with equally many tags keep the order in which they came.
pub proof fn lemma_pool_order(pictures: Seq<PictureModel>, n: nat)
    ensures
        is_descending(by_descending_cardinality(pictures)),
        by_descending_cardinality(pictures).filter(has_cardinality(n)) == pictures.filter(
            has_cardinality(n),
        ),
    decreases pictures.len(),
{
    reveal(Seq::filter);
    if pictures.len() > 0 {
        let front = pictures.drop_last();
        lemma_pool_order(front, n);
        lemma_insert_keeps_order(by_descending_cardinality(front), pictures.last(), n);
        front.lemma_filter_push(pictures.last(), has_cardinality(n));
        assert(front.push(pictures.last()) =~= pictures);
    }
}

/// A pool yields one composite slide for every two pictures in it.
pub proof fn lemma_pair_up_len(pool: Seq<PictureModel>)
    ensures
        pair_up(pool).len() == pool.len() / 2,
    decreases pool.len(),
{
    if pool.len() >= 2 {
        let rest = pool.drop_first();
        lemma_best_partner_in_pool(pool[0].tags, rest);
        lemma_pair_up_len(rest.remove(best_partner(pool[0].tags, rest)));
    }
}

/// Every two vertical pictures make one composite slide: with `v` vertical
/// pictures among the input, `v / 2` slides have a second picture, and with
/// `v` even no picture is left over.
pub proof fn lemma_composite_slide_count(pictures: Seq<PictureModel>)
    ensures
        slides_of(pictures).len() == horizontals(pictures).len() + verticals(pictures).len() / 2,
        pair_up(vertical_pool(pictures)).len() == verticals(pictures).len() / 2,
{
    lemma_ordering_keeps_len(verticals(pictures));
    lemma_pair_up_len(vertical_pool(pictures));
}

/// The pictures that a sequence of positions points at.
spec fn pictures_at(pictures: Seq<PictureModel>, positions: Seq<usize>) -> Seq<
    PictureModel,
> {
    positions.map_values(|i: usize| pictures[i as int])
}

/// Every position points into a sequence of `len` pictures.
spec fn positions_below(positions: Seq<usize>, len: nat) -> bool {
    forall|k: int| 0 <= k < positions.len() ==> positions[k] < len
}

proof fn lemma_insert_position(pool: Seq<PictureModel>, picture: PictureModel, at: int)
    requires
        0 <= at <= pool.len(),
        forall|k: int| at <= k < pool.len() ==> pool[k].tags.len() < picture.tags.len(),
        at > 0 ==> pool[at - 1].tags.len() >= picture.tags.len(),
    ensures
        insert_by_cardinality(pool, picture) == pool.insert(at, picture),
    decreases pool.len(),
{
    if at == pool.len() {
        assert(pool.push(picture) =~= pool.insert(at, picture));
    } else {
        let front = pool.drop_last();
        lemma_insert_position(front, picture, at);
        assert(front.insert(at, picture).push(pool.last()) =~= pool.insert(at, picture));
    }
}

proof fn lemma_split_step(pictures: Seq<PictureModel>, i: int)
    requires
        0 <= i < pictures.len(),
    ensures
        pictures[i].orientation is Horizontal ==> {
            &&& horizontal_slides(pictures.take(i + 1)) == horizontal_slides(
                pictures.take(i),
            ).push(horizontal_slide(pictures[i]))
            &&& vertical_pool(pictures.take(i + 1)) == vertical_pool(pictures.take(i))
        },
        pictures[i].orientation is Vertical ==> {
            &&& horizontal_slides(pictures.take(i + 1)) == horizontal_slides(pictures.take(i))
            &&& vertical_pool(pictures.take(i + 1)) == insert_by_cardinality(
                vertical_pool(pictures.take(i)),
                pictures[i],
            )
        },
{
    let front = pictures.take(i);
    assert(pictures.take(i + 1) =~= front.push(pictures[i]));
    front.lemma_filter_push(pictures[i], |p: PictureModel| p.orientation is Horizontal);
    front.lemma_filter_push(pictures[i], |p: PictureModel| p.orientation is Vertical);
    if pictures[i].orientation is Horizontal {
        assert(horizontal_slides(front.push(pictures[i])) =~= horizontal_slides(front).push(
            horizontal_slide(pictures[i]),
        ));
    } else {
        let v = verticals(front);
        assert(v.push(pictures[i]).drop_last() =~= v);
    }
}

/// Places the picture at `position` into the pool, behind every picture of
/// the pool that has at least as many tags.
fn insert_into_pool(pictures: &Vec<Picture>, pool: &mut Vec<usize>, position: usize)
    requires
        position < pictures@.len(),
        positions_below(old(pool)@, pictures@.len()),
    ensures
        positions_below(final(pool)@, pictures@.len()),
        final(pool)@.len() == old(pool)@.len() + 1,
        pictures_at(picture_views(pictures@), final(pool)@) == insert_by_cardinality(
            pictures_at(picture_views(pictures@), old(pool)@),
            picture_views(pictures@)[position as int],
        ),
{
    let ghost views = picture_views(pictures@);
    let ghost before = pictures_at(views, pool@);
    let cardinality = pictures[position].tags.len();
    let mut at = pool.len();
    while at > 0 && pictures[pool[at - 1]].tags.len() < cardinality
        invariant
            at <= pool@.len(),
            pool@ == old(pool)@,
            positions_below(pool@, pictures@.len()),
            views == picture_views(pictures@),
            before == pictures_at(views, pool@),
            cardinality == views[position as int].tags.len(),
            forall|k: int| at <= k < before.len() ==> before[k].tags.len() < cardinality,
        decreases at,
    {
        at -= 1;
    }
    pool.insert(at, position);
    proof {
        lemma_insert_position(before, views[position as int], at as int);
        assert(pictures_at(views, pool@) =~= before.insert(at as int, views[position as int]));
    }
}

/// Finds in the pool the first picture that shares the fewest tags with the
/// picture at `current`, and stops as soon as one shares none.
fn find_partner(pictures: &Vec<Picture>, current: usize, pool: &Vec<usize>) -> (best: usize)
    requires
        all_pictures_wf(picture_views(pictures@)),
        current < pictures@.len(),
        pool@.len() > 0,
        positions_below(pool@, pictures@.len()),
    ensures
        best == best_partner(
            picture_views(pictures@)[current as int].tags,
            pictures_at(picture_views(pictures@), pool@),
        ),
        best < pool@.len(),
{
    let ghost views = picture_views(pictures@);
    let ghost keys = overlap_keys(views[current as int].tags, pictures_at(views, pool@));
    let tags = pictures[current].tags.as_slice();
    proof {
        assert(views[current as int].wf());
        assert(views[pool@[0] as int].wf());
    }
    let mut best: usize = 0;
    let mut least = calculate_common_tags(tags, pictures[pool[0]].tags.as_slice());
    let mut k: usize = 1;
    while k < pool.len() && least != 0
        invariant
            1 <= k <= pool@.len(),
            views == picture_views(pictures@),
            all_pictures_wf(views),
            positions_below(pool@, pictures@.len()),
            keys == overlap_keys(views[current as int].tags, pictures_at(views, pool@)),
            tags@ == views[current as int].tags,
            is_tag_set(tags@),
            best < k,
            least == keys[best as int],
            is_first_min(keys.take(k as int), best as int),
        decreases pool@.len() - k,
    {
        proof {
            assert(views[pool@[k as int] as int].wf());
        }
        let shared = calculate_common_tags(tags, pictures[pool[k]].tags.as_slice());
        proof {
            let shorter = keys.take(k as int);
            let longer = keys.take(k + 1);
            assert forall|j: int| 0 <= j < k implies longer[j] == shorter[j] by {}
            if shared < least {
                assert forall|j: int| 0 <= j < k implies longer[k as int] < longer[j] by {
                    assert(shorter[best as int] <= shorter[j]);
                }
                assert(is_first_min(longer, k as int));
            } else {
                assert forall|j: int| 0 <= j < k + 1 implies longer[best as int] <= longer[j] by {
                    if j < k {
                        assert(shorter[best as int] <= shorter[j]);
                    }
                }
                assert forall|j: int| 0 <= j < best implies longer[best as int] < longer[j] by {
                    assert(shorter[best as int] < shorter[j]);
                }
                assert(is_first_min(longer, best as int));
            }
        }
        if shared < least {
            least = shared;
            best = k;
        }
        k += 1;
    }
    proof {
        let seen = keys.take(k as int);
        assert forall|j: int| 0 <= j < keys.len() implies keys[best as int] <= keys[j] by {
            if j < k {
                assert(seen[best as int] <= seen[j]);
            }
        }
        assert forall|j: int| 0 <= j < best implies keys[best as int] < keys[j] by {
            assert(seen[best as int] < seen[j]);
        }
        lemma_first_min_unique(keys, best as int);
    }
    best
}

/// Makes the slides of a collection of pictures: one for each horizontal
/// picture, in the order in which they came, then one for each pair of
/// vertical pictures. The vertical pictures are taken up from the most tags
/// to the fewest; each takes, among those still free, the first that shares
/// the fewest tags with it. A vertical picture left without a partner makes
/// no slide.
pub fn create_slides(pictures: Vec<Picture>) -> (slides: Vec<Slide>)
    requires
        all_pictures_wf(picture_views(pictures@)),
    ensures
        slide_views(slides@) == slides_of(picture_views(pictures@)),
        all_slides_wf(slide_views(slides@)),
        slides@.len() <= pictures@.len(),
{
    let ghost views = picture_views(pictures@);
    let mut slides: Vec<Slide> = Vec::new();
    let mut pool: Vec<usize> = Vec::new();
    let n = pictures.len();
    let mut i: usize = 0;
    proof {
        reveal(Seq::filter);
        assert(views.take(0) =~= Seq::<PictureModel>::empty());
        assert(slide_views(slides@) =~= horizontal_slides(views.take(0)));
        assert(pictures_at(views, pool@) =~= vertical_pool(views.take(0)));
    }
    while i < n
        invariant
            i <= n,
            n == pictures@.len(),
            views == picture_views(pictures@),
            all_pictures_wf(views),
            positions_below(pool@, pictures@.len()),
            slide_views(slides@) == horizontal_slides(views.take(i as int)),
            pictures_at(views, pool@) == vertical_pool(views.take(i as int)),
            all_slides_wf(slide_views(slides@)),
            slides@.len() + pool@.len() <= i,
        decreases n - i,
    {
        proof {
            lemma_split_step(views, i as int);
            assert(views[i as int].wf());
        }
        match pictures[i].orientation {
            Orientation::Horizontal => {
                let ghost before = slide_views(slides@);
                let tags = pictures[i].tags.clone();
                assert(tags@ =~= pictures[i as int].tags@);
                let slide = Slide { picture_id: pictures[i].id, second_picture_id: None, tags };
                slides.push(slide);
                assert(slide_views(slides@) =~= before.push(horizontal_slide(views[i as int])));
            },
            Orientation::Vertical => {
                insert_into_pool(&pictures, &mut pool, i);
            },
        }
        i += 1;
    }
    proof {
        assert(views.take(n as int) =~= views);
    }
    while pool.len() >= 2
        invariant
            views == picture_views(pictures@),
            all_pictures_wf(views),
            positions_below(pool@, pictures@.len()),
            slide_views(slides@) + pair_up(pictures_at(views, pool@)) == slides_of(views),
            all_slides_wf(slide_views(slides@)),
            slides@.len() + pool@.len() <= pictures@.len(),
        decreases pool@.len(),
    {
        let ghost before = slide_views(slides@);
        let ghost waiting = pictures_at(views, pool@);
        let current = pool.remove(0);
        let ghost rest = pictures_at(views, pool@);
        let k = find_partner(&pictures, current, &pool);
        let partner = pool.remove(k);
        proof {
            assert(views[current as int].wf());
            assert(views[partner as int].wf());
            assert(rest =~= waiting.drop_first());
            assert(pictures_at(views, pool@) =~= rest.remove(k as int));
        }
        let tags = merge_tags(pictures[current].tags.as_slice(), pictures[partner].tags.as_slice());
        let slide = Slide {
            picture_id: pictures[current].id,
            second_picture_id: Some(pictures[partner].id),
            tags,
        };
        slides.push(slide);
        proof {
            let made = composite_slide(waiting[0], rest[k as int]);
            assert(slide_views(slides@) =~= before.push(made));
            assert(before.push(made) + pair_up(rest.remove(k as int)) =~= before + pair_up(
                waiting,
            ));
        }
    }
    proof {
        assert(pair_up(pictures_at(views, pool@)) =~= Seq::<SlideModel>::empty());
        assert(slide_views(slides@) + Seq::<SlideModel>::empty() =~= slide_views(slides@));
    }
    slides
}

} // verus!
