use slideshow::scorer::{calculate_common_tags, calculate_score, calculate_waste};

#[test]
fn overlapping_triples_share_two_tags() {
    let a: [u32; 3] = [1, 2, 3];
    let b: [u32; 3] = [2, 3, 4];
    assert_eq!(calculate_common_tags(&a, &b), 2);
    assert_eq!(calculate_score(&a, &b), 1);
    assert_eq!(calculate_waste(&a, &b), 1);
}

#[test]
fn common_count_is_symmetric() {
    let a: [u32; 5] = [1, 4, 6, 9, 12];
    let b: [u32; 4] = [0, 4, 9, 13];
    assert_eq!(calculate_common_tags(&a, &b), 2);
    assert_eq!(calculate_common_tags(&b, &a), 2);
    assert_eq!(calculate_score(&a, &b), calculate_score(&b, &a));
    assert_eq!(calculate_waste(&a, &b), calculate_waste(&b, &a));
}

#[test]
fn disjoint_tag_sets_have_no_interest() {
    let a: [u32; 3] = [1, 3, 5];
    let b: [u32; 4] = [0, 2, 4, 6];
    assert_eq!(calculate_common_tags(&a, &b), 0);
    assert_eq!(calculate_score(&a, &b), 0);
    assert_eq!(calculate_waste(&a, &b), 7);
}

#[test]
fn interest_never_exceeds_the_shorter_set() {
    let sets: Vec<Vec<u32>> = vec![
        vec![],
        vec![5],
        vec![1, 2, 3, 4],
        vec![3, 4, 5, 6],
        vec![1, 2, 3, 4, 5, 6, 7, 8],
        vec![2, 4, 6, 8, 10],
    ];
    for a in sets.iter() {
        for b in sets.iter() {
            let score: u64 = calculate_score(a, b);
            assert!(score <= a.len() as u64);
            assert!(score <= b.len() as u64);
            assert!(score <= calculate_common_tags(a, b));
        }
    }
}

#[test]
fn empty_tag_sets_share_nothing() {
    let none: [u32; 0] = [];
    let some: [u32; 2] = [7, 8];
    assert_eq!(calculate_common_tags(&none, &none), 0);
    assert_eq!(calculate_common_tags(&none, &some), 0);
    assert_eq!(calculate_common_tags(&some, &none), 0);
    assert_eq!(calculate_score(&none, &some), 0);
    assert_eq!(calculate_waste(&none, &some), 2);
    assert_eq!(calculate_waste(&none, &none), 0);
}

#[test]
fn equal_tag_sets_waste_all_they_share() {
    let a: [u32; 4] = [1, 2, 3, 4];
    assert_eq!(calculate_common_tags(&a, &a), 4);
    assert_eq!(calculate_score(&a, &a), 0);
    assert_eq!(calculate_waste(&a, &a), 4);
}

#[test]
fn balanced_overlap_wastes_nothing() {
    let a: [u32; 4] = [1, 2, 3, 4];
    let b: [u32; 4] = [3, 4, 5, 6];
    assert_eq!(calculate_common_tags(&a, &b), 2);
    assert_eq!(calculate_score(&a, &b), 2);
    assert_eq!(calculate_waste(&a, &b), 0);
}

#[test]
fn walk_finds_matches_at_both_ends() {
    let a: [u32; 4] = [0, 10, 20, 4_294_967_295];
    let b: [u32; 5] = [0, 5, 15, 25, 4_294_967_295];
    assert_eq!(calculate_common_tags(&a, &b), 2);
    assert_eq!(calculate_score(&a, &b), 2);
    assert_eq!(calculate_waste(&a, &b), 1);
}

#[test]
fn one_set_inside_the_other() {
    let small: [u32; 2] = [3, 4];
    let large: [u32; 5] = [1, 2, 3, 4, 5];
    assert_eq!(calculate_common_tags(&small, &large), 2);
    assert_eq!(calculate_score(&small, &large), 0);
    assert_eq!(calculate_waste(&small, &large), 5);
}
