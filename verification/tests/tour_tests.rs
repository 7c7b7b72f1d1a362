use slideshow::model::Slide;
use slideshow::rater::rate_slideshow;
use slideshow::scorer::calculate_waste;
use slideshow::tour::{arrange_slides, arrange_slides_sequential, nearest_slide};

fn slide(id: u32, tags: Vec<u32>) -> Slide {
    Slide { picture_id: id, second_picture_id: None, tags }
}

fn ids(slides: &[Slide]) -> Vec<u32> {
    slides.iter().map(|s| s.picture_id).collect()
}

fn is_greedy_path(tour: &[Slide]) -> bool {
    let mut k: usize = 0;
    while k + 1 < tour.len() {
        let step: u64 = calculate_waste(&tour[k].tags, &tour[k + 1].tags);
        let mut j: usize = k + 1;
        while j < tour.len() {
            if calculate_waste(&tour[k].tags, &tour[j].tags) < step {
                return false;
            }
            j += 1;
        }
        k += 1;
    }
    true
}

fn chain_without_ties() -> Vec<Slide> {
    vec![
        slide(0, vec![1, 2, 3, 4]),
        slide(1, vec![10, 11, 12]),
        slide(2, vec![3, 4, 5, 6]),
        slide(3, vec![5, 6, 7, 8, 30]),
        slide(4, vec![7, 8, 30, 31, 32, 33]),
    ]
}

fn pool_with_ties() -> Vec<Slide> {
    vec![
        slide(0, vec![1, 2]),
        slide(1, vec![3, 4]),
        slide(2, vec![1, 3]),
        slide(3, vec![5, 6]),
        slide(4, vec![2, 5]),
    ]
}

#[test]
fn parallel_tour_follows_the_least_waste() {
    let tour = arrange_slides(chain_without_ties());
    assert_eq!(ids(&tour), vec![0, 2, 3, 4, 1]);
    assert_eq!(rate_slideshow(&tour), 6);
}

#[test]
fn sequential_tour_follows_the_least_waste() {
    let tour = arrange_slides_sequential(chain_without_ties());
    assert_eq!(ids(&tour), vec![0, 2, 3, 4, 1]);
    assert_eq!(tour[1], slide(2, vec![3, 4, 5, 6]));
}

#[test]
fn sequential_tour_takes_the_first_of_equal_waste() {
    let tour = arrange_slides_sequential(pool_with_ties());
    assert_eq!(ids(&tour), vec![0, 2, 1, 3, 4]);
    assert_eq!(rate_slideshow(&tour), 3);
}

#[test]
fn sequential_tour_is_the_same_on_every_run() {
    let first = arrange_slides_sequential(pool_with_ties());
    let second = arrange_slides_sequential(pool_with_ties());
    assert_eq!(first, second);
}

#[test]
fn parallel_tour_is_a_greedy_permutation() {
    let tour = arrange_slides(pool_with_ties());
    assert_eq!(tour.len(), 5);
    assert_eq!(tour[0], slide(0, vec![1, 2]));
    let mut seen = ids(&tour);
    seen.sort();
    assert_eq!(seen, vec![0, 1, 2, 3, 4]);
    assert!(is_greedy_path(&tour));
    for placed in tour.iter() {
        assert!(pool_with_ties().contains(placed));
    }
}

#[test]
fn sequential_tour_is_a_greedy_permutation() {
    let tour = arrange_slides_sequential(pool_with_ties());
    let mut seen = ids(&tour);
    seen.sort();
    assert_eq!(seen, vec![0, 1, 2, 3, 4]);
    assert!(is_greedy_path(&tour));
}

#[test]
fn empty_pool_gives_empty_tour() {
    assert_eq!(arrange_slides(Vec::new()), Vec::<Slide>::new());
    assert_eq!(arrange_slides_sequential(Vec::new()), Vec::<Slide>::new());
}

#[test]
fn single_slide_is_its_own_tour() {
    assert_eq!(arrange_slides(vec![slide(9, vec![1])]), vec![slide(9, vec![1])]);
    assert_eq!(arrange_slides_sequential(vec![slide(9, vec![1])]), vec![slide(9, vec![1])]);
}

#[test]
fn equal_slides_are_all_kept() {
    let pool = vec![slide(1, vec![1, 2]), slide(1, vec![1, 2]), slide(1, vec![1, 2])];
    assert_eq!(arrange_slides(pool.clone()), pool);
    assert_eq!(arrange_slides_sequential(pool.clone()), pool);
}

#[test]
fn nearest_slide_is_the_first_of_least_waste() {
    let current = slide(0, vec![1, 2, 3, 4]);
    let pool = vec![
        slide(1, vec![10, 11, 12]),
        slide(2, vec![3, 4, 5, 6]),
        slide(3, vec![1, 2, 7, 8]),
        slide(4, vec![1, 2, 3, 4]),
    ];
    assert_eq!(nearest_slide(&current, &pool), 1);
    assert_eq!(nearest_slide(&current, &pool[..1].to_vec()), 0);
}

#[test]
fn rating_sums_the_interest_of_neighbours() {
    let tour = vec![
        slide(0, vec![1, 2, 3, 4]),
        slide(1, vec![3, 4, 5, 6]),
        slide(2, vec![5, 6, 9, 10]),
        slide(3, vec![20, 21]),
        slide(4, vec![1, 2, 7, 8]),
    ];
    assert_eq!(rate_slideshow(&tour), 4);
    assert_eq!(rate_slideshow(&tour[..1]), 0);
    assert_eq!(rate_slideshow(&tour[..0]), 0);
    assert_eq!(rate_slideshow(&tour[..2]), 2);
}
