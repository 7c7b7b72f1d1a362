use slideshow::ingest::parse_pictures;
use slideshow::model::{Orientation, Picture, Slide};
use slideshow::pairing::create_slides;
use slideshow::rater::rate_slideshow;
use slideshow::scorer::{calculate_score, calculate_waste};
use slideshow::tour::{arrange_slides, arrange_slides_sequential};

fn next(state: &mut u64) -> u64 {
    *state = state.wrapping_mul(6364136223846793005).wrapping_add(1442695040888963407);
    *state >> 33
}

fn sample_text(count: usize, seed: u64) -> String {
    let mut state: u64 = seed;
    let mut text = format!("{}\n", count);
    let mut n: usize = 0;
    while n < count {
        let letter = if next(&mut state) % 3 == 0 { "H" } else { "V" };
        let tags: u64 = 1 + next(&mut state) % 8;
        text.push_str(&format!("{} {}", letter, tags));
        let mut t: u64 = 0;
        while t < tags {
            text.push_str(&format!(" t{}", next(&mut state) % 40));
            t += 1;
        }
        text.push_str("\n");
        n += 1;
    }
    text
}

fn sample_pictures() -> Vec<Picture> {
    parse_pictures(sample_text(300, 7).as_bytes()).unwrap()
}

fn sorted_keys(slides: &[Slide]) -> Vec<(u32, Option<u32>)> {
    let mut keys: Vec<(u32, Option<u32>)> =
        slides.iter().map(|s| (s.picture_id, s.second_picture_id)).collect();
    keys.sort();
    keys
}

fn follows_least_waste(tour: &[Slide]) -> bool {
    let mut k: usize = 0;
    while k + 1 < tour.len() {
        let step: u64 = calculate_waste(&tour[k].tags, &tour[k + 1].tags);
        let mut j: usize = k + 1;
        while j < tour.len() {
            if calculate_waste(&tour[k].tags, &tour[j].tags) < step {
                return false;
            }
            j += 1;
        }
        k += 1;
    }
    true
}

#[test]
fn many_pictures_are_read_with_dense_ascending_tags() {
    let pictures = sample_pictures();
    assert_eq!(pictures.len(), 300);
    let mut highest: u32 = 0;
    for (number, picture) in pictures.iter().enumerate() {
        assert_eq!(picture.id as usize, number);
        assert!(picture.is_well_formed());
        assert!(!picture.tags.is_empty());
        for tag in picture.tags.iter() {
            assert!(*tag <= highest + 1 || highest == 0);
            if *tag > highest {
                highest = *tag;
            }
        }
    }
    assert!(highest < 40);
}

#[test]
fn many_pictures_are_each_shown_at_most_once() {
    let pictures = sample_pictures();
    let horizontal: usize =
        pictures.iter().filter(|p| p.orientation == Orientation::Horizontal).count();
    let vertical: usize = pictures.len() - horizontal;
    let slides = create_slides(pictures.clone());
    assert_eq!(slides.len(), horizontal + vertical / 2);
    let mut shown: Vec<u32> = Vec::new();
    for slide in slides.iter() {
        assert!(slide.is_well_formed());
        shown.push(slide.picture_id);
        match slide.second_picture_id {
            Some(second) => {
                shown.push(second);
                let first = &pictures[slide.picture_id as usize];
                let other = &pictures[second as usize];
                assert_eq!(first.orientation, Orientation::Vertical);
                assert_eq!(other.orientation, Orientation::Vertical);
                assert!(first.tags.len() >= other.tags.len());
                for tag in slide.tags.iter() {
                    assert!(first.tags.contains(tag) || other.tags.contains(tag));
                }
                for tag in first.tags.iter().chain(other.tags.iter()) {
                    assert!(slide.tags.contains(tag));
                }
            }
            None => {
                let only = &pictures[slide.picture_id as usize];
                assert_eq!(only.orientation, Orientation::Horizontal);
                assert_eq!(slide.tags, only.tags);
            }
        }
    }
    let count: usize = shown.len();
    shown.sort();
    shown.dedup();
    assert_eq!(shown.len(), count);
    assert_eq!(count, horizontal + 2 * (vertical / 2));
}

#[test]
fn many_slides_are_arranged_into_a_greedy_permutation() {
    let slides = create_slides(sample_pictures());
    let tour = arrange_slides(slides.clone());
    assert_eq!(tour.len(), slides.len());
    assert_eq!(tour[0], slides[0]);
    assert_eq!(sorted_keys(&tour), sorted_keys(&slides));
    assert!(follows_least_waste(&tour));
    let mut sum: u64 = 0;
    let mut k: usize = 0;
    while k + 1 < tour.len() {
        sum += calculate_score(&tour[k].tags, &tour[k + 1].tags);
        k += 1;
    }
    assert_eq!(rate_slideshow(&tour), sum);
}

#[test]
fn many_slides_are_arranged_the_same_way_every_time() {
    let slides = create_slides(sample_pictures());
    let first = arrange_slides_sequential(slides.clone());
    let second = arrange_slides_sequential(slides.clone());
    assert_eq!(first, second);
    assert_eq!(first.len(), slides.len());
    assert_eq!(first[0], slides[0]);
    assert_eq!(sorted_keys(&first), sorted_keys(&slides));
    assert!(follows_least_waste(&first));
}
