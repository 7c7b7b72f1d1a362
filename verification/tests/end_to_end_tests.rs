use slideshow::emit::render_slides;
use slideshow::ingest::parse_pictures;
use slideshow::model::{Orientation, Picture, Slide};
use slideshow::pairing::create_slides;
use slideshow::rater::rate_slideshow;
use slideshow::scorer::calculate_score;
use slideshow::show::make_slideshow;
use slideshow::tour::{arrange_slides, arrange_slides_sequential};

fn horizontal(id: u32, tags: Vec<u32>) -> Picture {
    Picture { id, orientation: Orientation::Horizontal, tags }
}

fn vertical(id: u32, tags: Vec<u32>) -> Picture {
    Picture { id, orientation: Orientation::Vertical, tags }
}

#[test]
fn disjoint_horizontal_pictures_score_nothing() {
    let pictures = vec![
        horizontal(0, vec![0, 1, 2]),
        horizontal(1, vec![3, 4, 5]),
        horizontal(2, vec![6, 7, 8]),
        horizontal(3, vec![9, 10, 11]),
    ];
    let slides = create_slides(pictures);
    assert_eq!(slides.len(), 4);
    for a in slides.iter() {
        for b in slides.iter() {
            if a.picture_id != b.picture_id {
                assert_eq!(calculate_score(&a.tags, &b.tags), 0);
            }
        }
    }
    let tour = arrange_slides(slides.clone());
    assert_eq!(tour.len(), 4);
    assert_eq!(rate_slideshow(&tour), 0);
    let tour = arrange_slides_sequential(slides);
    assert_eq!(tour.len(), 4);
    assert_eq!(rate_slideshow(&tour), 0);
}

#[test]
fn two_composite_slides_without_shared_tags_score_nothing() {
    let pictures = vec![
        vertical(0, vec![1, 2]),
        vertical(1, vec![3, 4]),
        vertical(2, vec![5, 6]),
        vertical(3, vec![5, 7]),
    ];
    let slides = create_slides(pictures);
    assert_eq!(slides.len(), 2);
    assert_eq!(slides[0].tags, vec![1, 2, 3, 4]);
    assert_eq!(slides[1].tags, vec![5, 6, 7]);
    assert_eq!(calculate_score(&slides[0].tags, &slides[1].tags), 0);
    let tour = arrange_slides(slides);
    assert_eq!(tour.len(), 2);
    assert_eq!(rate_slideshow(&tour), 0);
}

#[test]
fn example_text_becomes_a_listing() {
    let text = "4\nH 3 cat beach sun\nV 2 selfie smile\nV 2 garden selfie\nH 2 garden cat\n";
    let pictures = parse_pictures(text.as_bytes()).unwrap();
    let (tour, score) = make_slideshow(pictures);
    assert_eq!(
        tour,
        vec![
            Slide { picture_id: 0, second_picture_id: None, tags: vec![0, 1, 2] },
            Slide { picture_id: 3, second_picture_id: None, tags: vec![0, 5] },
            Slide { picture_id: 1, second_picture_id: Some(2), tags: vec![3, 4, 5] },
        ]
    );
    assert_eq!(score, 2);
    assert_eq!(render_slides(&tour), "3\n0\n3\n1 2".as_bytes().to_vec());
}

#[test]
fn slideshow_of_nothing_is_empty() {
    let (tour, score) = make_slideshow(Vec::new());
    assert_eq!(tour, Vec::<Slide>::new());
    assert_eq!(score, 0);
}
