//! Ordering the slides: a greedy path that always goes on to a slide of
//! least waste among those not yet shown.

use rayon::iter::{IndexedParallelIterator, IntoParallelRefIterator, ParallelIterator};
use vstd::multiset::Multiset;
use vstd::prelude::*;
use crate::model::{Slide, SlideModel, all_slides_wf, slide_views};
use crate::scorer::{calculate_waste, waste};
use crate::selection::{
    first_min, is_first_min, is_min, lemma_first_min_exists, lemma_first_min_unique,
};
use crate::tagset::is_tag_set;

verus! {

/// For each slide of the pool, the waste between `tags` and that slide.
pub open spec fn waste_keys(tags: Seq<u32>, pool: Seq<SlideModel>) -> Seq<int> {
    pool.map_values(|s: SlideModel| waste(tags, s.tags))
}

/// The position in `pool` of the first slide of least waste after `tags`.
pub open spec fn nearest(tags: Seq<u32>, pool: Seq<SlideModel>) -> int {
    first_min(waste_keys(tags, pool))
}

/// The path that starts at position `start` of the pool and goes on, each
/// time, to the first slide of least waste among those left. With `start`
/// outside the pool there is no path.
pub open spec fn greedy_tour(pool: Seq<SlideModel>, start: int) -> Seq<SlideModel>
    decreases pool.len(),
{
    if 0 <= start < pool.len() {
        let rest = pool.remove(start);
        if rest.len() == 0 {
            seq![pool[start]]
        } else {
            seq![pool[start]] + greedy_tour(rest, nearest(pool[start].tags, rest))
        }
    } else {
        Seq::empty()
    }
}

/// The arrangement of a slide set when ties go to the slide that comes
/// first: the greedy path from the first slide.
pub open spec fn tour_of(slides: Seq<SlideModel>) -> Seq<SlideModel> {
    greedy_tour(slides, 0)
}

/// The waste between the slides at positions `k` and `j` of a tour.
pub open spec fn waste_between(tour: Seq<SlideModel>, k: int, j: int) -> int {
    waste(tour[k].tags, tour[j].tags)
}

/// The waste between the slide at position `k` of a tour and the slide at
/// position `j` of a pool.
spec fn waste_into(tour: Seq<SlideModel>, k: int, pool: Seq<SlideModel>, j: int) -> int {
    waste(tour[k].tags, pool[j].tags)
}

/// Every step of the tour but the one from its last slide has at most the
/// waste that any slide of the pool would have had in its place.
spec fn steps_beat_pool(tour: Seq<SlideModel>, pool: Seq<SlideModel>) -> bool {
    forall|k: int, j: int|
        0 <= k < tour.len() - 1 && 0 <= j < pool.len() ==> waste_between(tour, k, k + 1)
            <= #[trigger] waste_into(tour, k, pool, j)
}

/// In a greedy path, each slide is followed by one of least waste among all
/// the slides that come after it.
pub open spec fn is_greedy_path(tour: Seq<SlideModel>) -> bool {
    forall|k: int, j: int|
        0 <= k < j < tour.len() ==> waste_between(tour, k, k + 1) <= #[trigger] waste_between(
            tour,
            k,
            j,
        )
}

/// The nearest slide is a position of the pool.
pub proof fn lemma_nearest_in_pool(tags: Seq<u32>, pool: Seq<SlideModel>)
    requires
        pool.len() > 0,
    ensures
        0 <= nearest(tags, pool) < pool.len(),
        is_first_min(waste_keys(tags, pool), nearest(tags, pool)),
{
    lemma_first_min_exists(waste_keys(tags, pool));
}

/// Finds in the pool the first slide of least waste after `current`.
pub fn nearest_slide(current: &Slide, pool: &Vec<Slide>) -> (best: usize)
    requires
        current@.wf(),
        all_slides_wf(slide_views(pool@)),
        pool@.len() > 0,
    ensures
        best == nearest(current@.tags, slide_views(pool@)),
        best < pool@.len(),
{
    let ghost views = slide_views(pool@);
    let ghost keys = waste_keys(current@.tags, views);
    let tags = current.tags.as_slice();
    proof {
        assert(views[0].wf());
    }
    let mut best: usize = 0;
    let mut least = calculate_waste(tags, pool[0].tags.as_slice());
    let mut k: usize = 1;
    while k < pool.len()
        invariant
            1 <= k <= pool@.len(),
            views == slide_views(pool@),
            all_slides_wf(views),
            keys == waste_keys(current@.tags, views),
            tags@ == current@.tags,
            is_tag_set(tags@),
            best < k,
            least == keys[best as int],
            is_first_min(keys.take(k as int), best as int),
        decreases pool@.len() - k,
    {
        proof {
            assert(views[k as int].wf());
        }
        let wasted = calculate_waste(tags, pool[k].tags.as_slice());
        proof {
            let shorter = keys.take(k as int);
            let longer = keys.take(k + 1);
            assert forall|j: int| 0 <= j < k implies longer[j] == shorter[j] by {}
            if wasted < least {
                assert forall|j: int| 0 <= j < k implies longer[k as int] < longer[j] by {
                    assert(shorter[best as int] <= shorter[j]);
                }
                assert(is_first_min(longer, k as int));
            } else {
                assert forall|j: int| 0 <= j < k + 1 implies longer[best as int] <= longer[j] by {
                    if j < k {
                        assert(shorter[best as int] <= shorter[j]);
                    }
                }
                assert forall|j: int| 0 <= j < best implies longer[best as int] < longer[j] by {
                    assert(shorter[best as int] < shorter[j]);
                }
                assert(is_first_min(longer, best as int));
            }
        }
        if wasted < least {
            least = wasted;
            best = k;
        }
        k += 1;
    }
    proof {
        assert(keys.take(k as int) =~= keys);
        lemma_first_min_unique(keys, best as int);
    }
    best
}

/// Orders the slides, scanning the pool from front to back at every step,
/// so that among slides of equal waste the first one is taken: the result is
/// the same whenever the input is the same.
pub fn arrange_slides_sequential(slides: Vec<Slide>) -> (tour: Vec<Slide>)
    requires
        all_slides_wf(slide_views(slides@)),
    ensures
        slide_views(tour@) == tour_of(slide_views(slides@)),
        all_slides_wf(slide_views(tour@)),
{
    let ghost input = slide_views(slides@);
    let mut pool = slides;
    let mut tour: Vec<Slide> = Vec::new();
    let mut current: usize = 0;
    proof {
        assert(slide_views(tour@) + greedy_tour(slide_views(pool@), 0) =~= tour_of(input));
    }
    while pool.len() > 0
        invariant
            all_slides_wf(slide_views(pool@)),
            all_slides_wf(slide_views(tour@)),
            pool@.len() > 0 ==> current < pool@.len(),
            slide_views(tour@) + greedy_tour(slide_views(pool@), current as int) == tour_of(
                input,
            ),
        decreases pool@.len(),
    {
        let ghost before = slide_views(tour@);
        let ghost waiting = slide_views(pool@);
        let slide = pool.remove(current);
        proof {
            assert(slide_views(pool@) =~= waiting.remove(current as int));
            assert(slide@ == waiting[current as int]);
            assert(waiting[current as int].wf());
            assert forall|i: int| 0 <= i < pool@.len() implies (#[trigger] slide_views(
                pool@,
            )[i]).wf() by {
                let at = if i < current { i } else { i + 1 };
                assert(waiting[at].wf());
            }
        }
        let next = if pool.len() > 0 {
            nearest_slide(&slide, &pool)
        } else {
            0
        };
        tour.push(slide);
        proof {
            let rest = waiting.remove(current as int);
            assert(slide_views(tour@) =~= before.push(waiting[current as int]));
            if rest.len() > 0 {
                assert(before.push(waiting[current as int]) + greedy_tour(rest, next as int)
                    =~= before + greedy_tour(waiting, current as int));
            } else {
                assert(greedy_tour(rest, next as int) =~= Seq::<SlideModel>::empty());
                assert(before.push(waiting[current as int]) + greedy_tour(rest, next as int)
                    =~= before + greedy_tour(waiting, current as int));
            }
        }
        current = next;
    }
    proof {
        assert(greedy_tour(slide_views(pool@), current as int) =~= Seq::<SlideModel>::empty());
        assert(slide_views(tour@) + Seq::<SlideModel>::empty() =~= slide_views(tour@));
    }
    tour
}

/// Searches the pool on several threads for a slide of least waste after
/// `current`.
///
/// The body is rayon's `par_iter().enumerate().min_by_key(..)` on the pool,
/// keyed by [`calculate_waste`]. Of that call this contract takes on trust
/// that it gives `None` for an empty pool, and otherwise the position of a
/// slide whose waste no other slide of the pool is below. Which of several
/// such slides it gives is left open.
#[verifier::external_body]
fn least_waste_position(current: &Slide, pool: &Vec<Slide>) -> (found: Option<usize>)
    requires
        current@.wf(),
        all_slides_wf(slide_views(pool@)),
    ensures
        pool@.len() == 0 ==> found is None,
        pool@.len() > 0 ==> found is Some && is_min(
            waste_keys(current@.tags, slide_views(pool@)),
            found->Some_0 as int,
        ),
{
    pool.par_iter().enumerate().min_by_key(
        |(_, candidate)| calculate_waste(current.tags.as_slice(), candidate.tags.as_slice()),
    ).map(|(position, _)| position)
}

/// Orders the slides into a greedy path. The first slide of the input comes
/// first; after each slide comes one of least waste among those not yet
/// placed. The search for it runs on several threads, and which slide is
/// taken among several of equal waste is left open.
pub fn arrange_slides(slides: Vec<Slide>) -> (tour: Vec<Slide>)
    requires
        all_slides_wf(slide_views(slides@)),
    ensures
        tour@.len() == slides@.len(),
        slide_views(tour@).to_multiset() == slide_views(slides@).to_multiset(),
        slides@.len() > 0 ==> tour@[0]@ == slides@[0]@,
        is_greedy_path(slide_views(tour@)),
        all_slides_wf(slide_views(tour@)),
{
    let ghost input = slide_views(slides@);
    let mut pool = slides;
    let mut tour: Vec<Slide> = Vec::new();
    let mut current: usize = 0;
    proof {
        lemma_nothing_placed(slide_views(tour@), input);
    }
    while pool.len() > 0
        invariant
            all_slides_wf(slide_views(pool@)),
            all_slides_wf(slide_views(tour@)),
            pool@.len() > 0 ==> current < pool@.len(),
            tour@.len() + pool@.len() == input.len(),
            slide_views(tour@).to_multiset().add(slide_views(pool@).to_multiset())
                == input.to_multiset(),
            tour@.len() == 0 ==> slide_views(pool@) == input && current == 0,
            tour@.len() > 0 ==> slide_views(tour@)[0] == input[0],
            is_greedy_path(slide_views(tour@)),
            steps_beat_pool(slide_views(tour@), slide_views(pool@)),
            tour@.len() > 0 && pool@.len() > 0 ==> is_min(
                waste_keys(slide_views(tour@).last().tags, slide_views(pool@)),
                current as int,
            ),
        decreases pool@.len(),
    {
        let ghost placed = slide_views(tour@);
        let ghost waiting = slide_views(pool@);
        let slide = pool.remove(current);
        proof {
            assert(slide_views(pool@) =~= waiting.remove(current as int));
            assert(slide@ == waiting[current as int]);
            assert(waiting[current as int].wf());
            assert forall|i: int| 0 <= i < pool@.len() implies (#[trigger] slide_views(
                pool@,
            )[i]).wf() by {
                let at = if i < current { i } else { i + 1 };
                assert(waiting[at].wf());
            }
        }
        let found = least_waste_position(&slide, &pool);
        let next = match found {
            Some(position) => position,
            None => 0,
        };
        tour.push(slide);
        proof {
            let rest = waiting.remove(current as int);
            let chosen = waiting[current as int];
            let grown = placed.push(chosen);
            assert(slide_views(tour@) =~= grown);
            assert(slide_views(pool@) == rest);
            vstd::seq_lib::to_multiset_remove(waiting, current as int);
            vstd::seq_lib::to_multiset_build(placed, chosen);
            assert(waiting.to_multiset().count(chosen) > 0) by {
                vstd::seq_lib::to_multiset_contains(waiting, chosen);
                assert(waiting.contains(chosen));
            }
            assert(grown.to_multiset().add(rest.to_multiset()) =~= placed.to_multiset().add(
                waiting.to_multiset(),
            ));
            lemma_path_grows(placed, waiting, current as int);
        }
        current = next;
    }
    proof {
        lemma_nothing_placed(slide_views(pool@), slide_views(tour@));
        assert(slide_views(tour@).to_multiset().add(slide_views(pool@).to_multiset())
            =~= slide_views(pool@).to_multiset().add(slide_views(tour@).to_multiset()));
    }
    tour
}

/// An empty sequence adds nothing to the slides counted with it.
proof fn lemma_nothing_placed(none: Seq<SlideModel>, all: Seq<SlideModel>)
    requires
        none.len() == 0,
    ensures
        none.to_multiset().add(all.to_multiset()) == all.to_multiset(),
{
    none.to_multiset_ensures();
    vstd::multiset::lemma_multiset_empty_len(none.to_multiset());
    assert(none.to_multiset() =~= Multiset::<SlideModel>::empty());
    assert(none.to_multiset().add(all.to_multiset()) =~= all.to_multiset());
}

/// Moving a slide of least waste after the last placed one from the pool to
/// the end of a greedy path leaves a greedy path, and every step of it still
/// has least waste with regard to what is left in the pool.
proof fn lemma_path_grows(placed: Seq<SlideModel>, waiting: Seq<SlideModel>, current: int)
    requires
        0 <= current < waiting.len(),
        is_greedy_path(placed),
        steps_beat_pool(placed, waiting),
        placed.len() > 0 ==> is_min(waste_keys(placed.last().tags, waiting), current),
    ensures
        is_greedy_path(placed.push(waiting[current])),
        steps_beat_pool(placed.push(waiting[current]), waiting.remove(current)),
{
    let grown = placed.push(waiting[current]);
    let rest = waiting.remove(current);
    let n = placed.len() as int;
    assert forall|k: int, j: int| 0 <= k < j < grown.len() implies waste_between(grown, k, k + 1)
        <= #[trigger] waste_between(grown, k, j) by {
        if j < n {
            assert(waste_between(placed, k, k + 1) <= waste_between(placed, k, j));
        } else if k < n - 1 {
            assert(waste_between(placed, k, k + 1) <= waste_into(placed, k, waiting, current));
        }
    }
    assert forall|k: int, j: int| 0 <= k < n && 0 <= j < rest.len() implies waste_between(
        grown,
        k,
        k + 1,
    ) <= #[trigger] waste_into(grown, k, rest, j) by {
        let at = if j < current { j } else { j + 1 };
        assert(rest[j] == waiting[at]);
        if k < n - 1 {
            assert(waste_between(placed, k, k + 1) <= waste_into(placed, k, waiting, at));
        } else {
            let keys = waste_keys(placed.last().tags, waiting);
            assert(keys[current] <= keys[at]);
        }
    }
}

/// The greedy path from a position of the pool starts with the slide at
/// that position and holds every slide of the pool exactly as often as the
/// pool does.
pub proof fn lemma_greedy_tour_permutes(pool: Seq<SlideModel>, start: int)
    requires
        0 <= start < pool.len(),
    ensures
        greedy_tour(pool, start).len() == pool.len(),
        greedy_tour(pool, start)[0] == pool[start],
        greedy_tour(pool, start).to_multiset() == pool.to_multiset(),
    decreases pool.len(),
{
    let rest = pool.remove(start);
    let first = pool[start];
    vstd::seq_lib::to_multiset_remove(pool, start);
    assert(pool.to_multiset().count(first) > 0) by {
        vstd::seq_lib::to_multiset_contains(pool, first);
        assert(pool.contains(first));
    }
    if rest.len() == 0 {
        lemma_nothing_placed(rest, seq![first]);
        assert(seq![first] =~= rest.insert(0, first));
        vstd::seq_lib::to_multiset_insert(rest, 0, first);
        assert(seq![first].to_multiset() =~= pool.to_multiset());
    } else {
        let next = nearest(first.tags, rest);
        lemma_nearest_in_pool(first.tags, rest);
        lemma_greedy_tour_permutes(rest, next);
        let tail = greedy_tour(rest, next);
        assert(seq![first] + tail =~= tail.insert(0, first));
        vstd::seq_lib::to_multiset_insert(tail, 0, first);
        assert((seq![first] + tail).to_multiset() =~= pool.to_multiset());
    }
}

/// The greedy path from a position of the pool is a greedy path.
pub proof fn lemma_greedy_tour_is_greedy(pool: Seq<SlideModel>, start: int)
    requires
        0 <= start < pool.len(),
    ensures
        is_greedy_path(greedy_tour(pool, start)),
    decreases pool.len(),
{
    let rest = pool.remove(start);
    let first = pool[start];
    if rest.len() > 0 {
        let next = nearest(first.tags, rest);
        lemma_nearest_in_pool(first.tags, rest);
        lemma_greedy_tour_permutes(rest, next);
        lemma_greedy_tour_is_greedy(rest, next);
        let tail = greedy_tour(rest, next);
        let tour = seq![first] + tail;
        let keys = waste_keys(first.tags, rest);
        assert forall|k: int, j: int| 0 <= k < j < tour.len() implies waste_between(tour, k, k + 1)
            <= #[trigger] waste_between(tour, k, j) by {
            if k == 0 {
                vstd::seq_lib::to_multiset_contains(tail, tail[j - 1]);
                vstd::seq_lib::to_multiset_contains(rest, tail[j - 1]);
                assert(tail.contains(tail[j - 1]));
                let m = choose|m: int| 0 <= m < rest.len() && rest[m] == tail[j - 1];
                assert(keys[next] <= keys[m]);
            } else {
                assert(waste_between(tail, k - 1, k) <= waste_between(tail, k - 1, j - 1));
            }
        }
    }
}

/// The arrangement holds every slide of the input exactly as often as the
/// input does: none is lost, none is added, and the length is the same.
pub proof fn lemma_tour_is_permutation(slides: Seq<SlideModel>)
    ensures
        tour_of(slides).len() == slides.len(),
        tour_of(slides).to_multiset() == slides.to_multiset(),
        slides.len() > 0 ==> tour_of(slides)[0] == slides[0],
        is_greedy_path(tour_of(slides)),
{
    if slides.len() > 0 {
        lemma_greedy_tour_permutes(slides, 0);
        lemma_greedy_tour_is_greedy(slides, 0);
    } else {
        assert(tour_of(slides) =~= slides);
    }
}

/// No slide of the pool has the same waste to two other slides of the
/// pool.
pub open spec fn is_free_of_ties(pool: Seq<SlideModel>) -> bool {
    forall|i: int, j: int, k: int|
        0 <= i < pool.len() && 0 <= j < pool.len() && 0 <= k < pool.len() && i != j && i != k && j
            != k ==> #[trigger] waste_between(pool, i, j) != #[trigger] waste_between(pool, i, k)
}

/// In a pool free of ties there is one greedy path from each position: any
/// greedy path that starts with the slide at `start` and holds the slides of
/// the pool is the path in which ties go to the first slide.
pub proof fn lemma_greedy_path_is_unique(pool: Seq<SlideModel>, start: int, tour: Seq<SlideModel>)
    requires
        0 <= start < pool.len(),
        is_free_of_ties(pool),
        tour.to_multiset() == pool.to_multiset(),
        tour.len() > 0 ==> tour[0] == pool[start],
        is_greedy_path(tour),
    ensures
        tour == greedy_tour(pool, start),
    decreases pool.len(),
{
    let rest = pool.remove(start);
    let first = pool[start];
    tour.to_multiset_ensures();
    pool.to_multiset_ensures();
    assert(tour.len() == pool.len());
    let tail = tour.remove(0);
    vstd::seq_lib::to_multiset_remove(tour, 0);
    vstd::seq_lib::to_multiset_remove(pool, start);
    assert(tail.to_multiset() == rest.to_multiset());
    if rest.len() == 0 {
        assert(tour =~= seq![first]);
    } else {
        assert(tail.contains(tail[0]));
        vstd::seq_lib::to_multiset_contains(tail, tail[0]);
        vstd::seq_lib::to_multiset_contains(rest, tail[0]);
        let m = choose|m: int| 0 <= m < rest.len() && rest[m] == tail[0];
        let keys = waste_keys(first.tags, rest);
        assert forall|j: int| 0 <= j < rest.len() implies keys[m] <= keys[j] by {
            assert(rest.contains(rest[j]));
            vstd::seq_lib::to_multiset_contains(rest, rest[j]);
            vstd::seq_lib::to_multiset_contains(tail, rest[j]);
            let q = choose|q: int| 0 <= q < tail.len() && tail[q] == rest[j];
            assert(tour[q + 1] == tail[q]);
            assert(waste_between(tour, 0, 1) <= waste_between(tour, 0, q + 1));
        }
        assert forall|j: int| 0 <= j < rest.len() && j != m implies keys[m] != keys[j] by {
            let from_j = if j < start { j } else { j + 1 };
            let from_m = if m < start { m } else { m + 1 };
            assert(rest[j] == pool[from_j] && rest[m] == pool[from_m]);
            assert(waste_between(pool, start, from_j) != waste_between(pool, start, from_m));
        }
        lemma_first_min_unique(keys, m);
        assert forall|i: int, j: int, k: int|
            0 <= i < rest.len() && 0 <= j < rest.len() && 0 <= k < rest.len() && i != j && i != k
                && j != k implies #[trigger] waste_between(rest, i, j) != #[trigger] waste_between(
            rest,
            i,
            k,
        ) by {
            let from_i = if i < start { i } else { i + 1 };
            let from_j = if j < start { j } else { j + 1 };
            let from_k = if k < start { k } else { k + 1 };
            assert(waste_between(pool, from_i, from_j) != waste_between(pool, from_i, from_k));
        }
        assert forall|k: int, j: int| 0 <= k < j < tail.len() implies waste_between(tail, k, k + 1)
            <= #[trigger] waste_between(tail, k, j) by {
            assert(waste_between(tour, k + 1, k + 2) <= waste_between(tour, k + 1, j + 1));
        }
        lemma_greedy_path_is_unique(rest, m, tail);
        assert(tour =~= seq![first] + tail);
    }
}

/// Where no slide has the same waste to two others, every arrangement that
/// [`arrange_slides`] may give is the one that [`arrange_slides_sequential`]
/// gives.
pub proof fn lemma_arrangement_without_ties(slides: Seq<SlideModel>, tour: Seq<SlideModel>)
    requires
        is_free_of_ties(slides),
        tour.len() == slides.len(),
        tour.to_multiset() == slides.to_multiset(),
        slides.len() > 0 ==> tour[0] == slides[0],
        is_greedy_path(tour),
    ensures
        tour == tour_of(slides),
{
    if slides.len() > 0 {
        lemma_greedy_path_is_unique(slides, 0, tour);
    } else {
        assert(tour =~= tour_of(slides));
    }
}

/// With ties going to the first slide, the arrangement depends on the
/// slides alone: two runs on the same slides give the same arrangement.
pub proof fn lemma_sequential_tour_is_determined(
    slides: Seq<SlideModel>,
    first_run: Seq<SlideModel>,
    second_run: Seq<SlideModel>,
)
    requires
        first_run == tour_of(slides),
        second_run == tour_of(slides),
    ensures
        first_run == second_run,
{
}

} // verus!
