use slideshow::model::{Orientation, Picture, Slide};
use slideshow::tagset::{insert_tag, is_strictly_ascending, merge_tags};

#[test]
fn merge_keeps_each_tag_once() {
    let a: [u32; 2] = [5, 6];
    let b: [u32; 2] = [5, 7];
    assert_eq!(merge_tags(&a, &b), vec![5, 6, 7]);
}

#[test]
fn merge_of_disjoint_sets_interleaves() {
    let a: [u32; 3] = [1, 4, 9];
    let b: [u32; 4] = [2, 3, 10, 11];
    assert_eq!(merge_tags(&a, &b), vec![1, 2, 3, 4, 9, 10, 11]);
    assert_eq!(merge_tags(&b, &a), vec![1, 2, 3, 4, 9, 10, 11]);
}

#[test]
fn merge_with_empty_set_is_the_other_set() {
    let none: [u32; 0] = [];
    let some: [u32; 3] = [2, 4, 6];
    assert_eq!(merge_tags(&none, &some), vec![2, 4, 6]);
    assert_eq!(merge_tags(&some, &none), vec![2, 4, 6]);
    assert_eq!(merge_tags(&none, &none), Vec::<u32>::new());
}

#[test]
fn merge_of_equal_sets_is_that_set() {
    let a: [u32; 3] = [1, 2, 3];
    assert_eq!(merge_tags(&a, &a), vec![1, 2, 3]);
}

#[test]
fn insert_tag_keeps_order_and_drops_repeats() {
    let mut tags: Vec<u32> = Vec::new();
    insert_tag(&mut tags, 5);
    insert_tag(&mut tags, 1);
    insert_tag(&mut tags, 9);
    insert_tag(&mut tags, 5);
    insert_tag(&mut tags, 3);
    insert_tag(&mut tags, 1);
    insert_tag(&mut tags, 9);
    assert_eq!(tags, vec![1, 3, 5, 9]);
}

#[test]
fn strictly_ascending_is_told_from_the_rest() {
    let none: [u32; 0] = [];
    assert!(is_strictly_ascending(&none));
    assert!(is_strictly_ascending(&[7]));
    assert!(is_strictly_ascending(&[1, 2, 3]));
    assert!(!is_strictly_ascending(&[1, 1, 2]));
    assert!(!is_strictly_ascending(&[1, 3, 2]));
    assert!(!is_strictly_ascending(&[2, 1]));
}

#[test]
fn well_formed_pictures_and_slides_are_recognised() {
    let good = Picture { id: 0, orientation: Orientation::Vertical, tags: vec![1, 2, 8] };
    let bad = Picture { id: 1, orientation: Orientation::Horizontal, tags: vec![2, 2] };
    assert!(good.is_well_formed());
    assert!(!bad.is_well_formed());
    let good = Slide { picture_id: 0, second_picture_id: None, tags: vec![] };
    let bad = Slide { picture_id: 0, second_picture_id: Some(1), tags: vec![3, 1] };
    assert!(good.is_well_formed());
    assert!(!bad.is_well_formed());
}
