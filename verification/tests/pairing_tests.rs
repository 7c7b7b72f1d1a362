use slideshow::model::{Orientation, Picture, Slide};
use slideshow::pairing::create_slides;

fn vertical(id: u32, tags: Vec<u32>) -> Picture {
    Picture { id, orientation: Orientation::Vertical, tags }
}

fn horizontal(id: u32, tags: Vec<u32>) -> Picture {
    Picture { id, orientation: Orientation::Horizontal, tags }
}

fn pair(first: u32, second: u32, tags: Vec<u32>) -> Slide {
    Slide { picture_id: first, second_picture_id: Some(second), tags }
}

fn single(id: u32, tags: Vec<u32>) -> Slide {
    Slide { picture_id: id, second_picture_id: None, tags }
}

#[test]
fn two_vertical_pairs_merge_their_tags() {
    let pictures = vec![
        vertical(0, vec![1, 2]),
        vertical(1, vec![3, 4]),
        vertical(2, vec![5, 6]),
        vertical(3, vec![5, 7]),
    ];
    let slides = create_slides(pictures);
    assert_eq!(slides, vec![pair(0, 1, vec![1, 2, 3, 4]), pair(2, 3, vec![5, 6, 7])]);
}

#[test]
fn horizontal_pictures_pass_through_in_order() {
    let pictures = vec![
        horizontal(0, vec![4, 5]),
        horizontal(1, vec![]),
        horizontal(2, vec![1, 2, 3]),
    ];
    let slides = create_slides(pictures);
    assert_eq!(
        slides,
        vec![single(0, vec![4, 5]), single(1, vec![]), single(2, vec![1, 2, 3])]
    );
}

#[test]
fn no_pictures_make_no_slides() {
    assert_eq!(create_slides(Vec::new()), Vec::<Slide>::new());
}

#[test]
fn most_tags_go_first_and_ties_keep_their_order() {
    let pictures = vec![
        vertical(0, vec![1, 2]),
        vertical(1, vec![1, 3]),
        vertical(2, vec![4, 5, 6]),
        vertical(3, vec![1, 4, 7]),
        vertical(4, vec![8, 9]),
        horizontal(5, vec![1]),
        vertical(6, vec![2, 9]),
    ];
    let slides = create_slides(pictures);
    assert_eq!(
        slides,
        vec![
            single(5, vec![1]),
            pair(2, 0, vec![1, 2, 4, 5, 6]),
            pair(3, 4, vec![1, 4, 7, 8, 9]),
            pair(1, 6, vec![1, 2, 3, 9]),
        ]
    );
}

#[test]
fn first_partner_without_shared_tags_is_taken() {
    let pictures = vec![
        vertical(0, vec![1, 2, 3]),
        vertical(1, vec![1, 9]),
        vertical(2, vec![7, 8]),
        vertical(3, vec![5, 6]),
    ];
    let slides = create_slides(pictures);
    assert_eq!(slides, vec![pair(0, 2, vec![1, 2, 3, 7, 8]), pair(1, 3, vec![1, 5, 6, 9])]);
}

#[test]
fn least_overlap_wins_when_every_partner_shares_a_tag() {
    let pictures = vec![
        vertical(0, vec![1, 2, 3, 4]),
        vertical(1, vec![1, 2, 3]),
        vertical(2, vec![1, 2, 9]),
        vertical(3, vec![1, 8, 9]),
    ];
    let slides = create_slides(pictures);
    assert_eq!(slides, vec![pair(0, 3, vec![1, 2, 3, 4, 8, 9]), pair(1, 2, vec![1, 2, 3, 9])]);
}

#[test]
fn odd_vertical_picture_is_left_out() {
    let pictures = vec![vertical(0, vec![1, 2, 3]), vertical(1, vec![4]), vertical(2, vec![5, 6])];
    let slides = create_slides(pictures);
    assert_eq!(slides, vec![pair(0, 2, vec![1, 2, 3, 5, 6])]);
}

#[test]
fn single_vertical_picture_makes_no_slide() {
    let slides = create_slides(vec![vertical(0, vec![1]), horizontal(1, vec![2])]);
    assert_eq!(slides, vec![single(1, vec![2])]);
}

#[test]
fn even_number_of_vertical_pictures_is_paired_completely() {
    let mut pictures: Vec<Picture> = Vec::new();
    let mut id: u32 = 0;
    while id < 10 {
        pictures.push(vertical(id, vec![id % 3, 10 + id]));
        id += 1;
    }
    let slides = create_slides(pictures);
    assert_eq!(slides.len(), 5);
    for slide in slides.iter() {
        assert!(slide.second_picture_id.is_some());
    }
}

#[test]
fn no_picture_appears_in_two_slides() {
    let mut pictures: Vec<Picture> = Vec::new();
    let mut id: u32 = 0;
    while id < 13 {
        let tags: Vec<u32> = vec![id % 4, 4 + id % 5, 20 + id];
        if id % 4 == 3 {
            pictures.push(horizontal(id, tags));
        } else {
            pictures.push(vertical(id, tags));
        }
        id += 1;
    }
    let slides = create_slides(pictures);
    assert_eq!(slides.len(), 3 + 5);
    let mut seen: Vec<u32> = Vec::new();
    for slide in slides.iter() {
        assert!(!seen.contains(&slide.picture_id));
        seen.push(slide.picture_id);
        if let Some(second) = slide.second_picture_id {
            assert!(!seen.contains(&second));
            seen.push(second);
        }
        assert!(slide.is_well_formed());
    }
    assert_eq!(seen.len(), 3 + 10);
}
