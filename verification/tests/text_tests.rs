use slideshow::emit::render_slides;
use slideshow::ingest::{parse_pictures, IngestError};
use slideshow::inputs::input_file_name;
use slideshow::model::{Orientation, Picture, Slide};
use slideshow::vocabulary::Vocabulary;

fn picture(id: u32, orientation: Orientation, tags: Vec<u32>) -> Picture {
    Picture { id, orientation, tags }
}

#[test]
fn example_text_is_read() {
    let text = "4\nH 3 cat beach sun\nV 2 selfie smile\nV 2 garden selfie\nH 2 garden cat\n";
    let pictures = parse_pictures(text.as_bytes()).unwrap();
    assert_eq!(
        pictures,
        vec![
            picture(0, Orientation::Horizontal, vec![0, 1, 2]),
            picture(1, Orientation::Vertical, vec![3, 4]),
            picture(2, Orientation::Vertical, vec![3, 5]),
            picture(3, Orientation::Horizontal, vec![0, 5]),
        ]
    );
}

#[test]
fn tags_come_out_ascending_and_each_once() {
    let text = "3\nH 2 a b\nV 1 b\nH 3 c a c\n";
    let pictures = parse_pictures(text.as_bytes()).unwrap();
    assert_eq!(
        pictures,
        vec![
            picture(0, Orientation::Horizontal, vec![0, 1]),
            picture(1, Orientation::Vertical, vec![1]),
            picture(2, Orientation::Horizontal, vec![0, 2]),
        ]
    );
    for read in pictures.iter() {
        assert!(read.is_well_formed());
    }
}

#[test]
fn any_run_of_spaces_parts_the_words() {
    let text = "1\r\nH 2 sun  sea\r\nV\t1\tsea\r\n";
    let pictures = parse_pictures(text.as_bytes()).unwrap();
    assert_eq!(
        pictures,
        vec![
            picture(0, Orientation::Horizontal, vec![0, 1]),
            picture(1, Orientation::Vertical, vec![1]),
        ]
    );
}

#[test]
fn every_space_character_parts_the_words() {
    let text = "1\nH 4 sun\u{a0}sea\u{3000}sky\u{2003}fog\u{85}\u{1680}\u{2028}\u{205f}\u{202f}ice\n";
    let pictures = parse_pictures(text.as_bytes()).unwrap();
    assert_eq!(pictures, vec![picture(0, Orientation::Horizontal, vec![0, 1, 2, 3, 4])]);
    let text = "1\n\u{2000}V\u{200a}0\u{2029}\n";
    let pictures = parse_pictures(text.as_bytes()).unwrap();
    assert_eq!(pictures, vec![picture(0, Orientation::Vertical, vec![])]);
}

#[test]
fn other_characters_stay_inside_their_word() {
    let text = "1\nH 2 caf\u{e9} a\u{200b}b caf\u{e9} \u{e2}\u{80}\n";
    let pictures = parse_pictures(text.as_bytes()).unwrap();
    assert_eq!(pictures, vec![picture(0, Orientation::Horizontal, vec![0, 1, 2])]);
    let bytes: [u8; 12] = [49, 10, 72, 32, 49, 32, 0xe2, 0x80, 32, 0xc2, 32, 0xe3];
    let pictures = parse_pictures(&bytes).unwrap();
    assert_eq!(pictures, vec![picture(0, Orientation::Horizontal, vec![0, 1, 2])]);
}

#[test]
fn last_line_needs_no_line_feed() {
    let pictures = parse_pictures("1\nV 0".as_bytes()).unwrap();
    assert_eq!(pictures, vec![picture(0, Orientation::Vertical, vec![])]);
}

#[test]
fn text_without_records_gives_no_pictures() {
    assert_eq!(parse_pictures("".as_bytes()), Ok(Vec::new()));
    assert_eq!(parse_pictures("5".as_bytes()), Ok(Vec::new()));
    assert_eq!(parse_pictures("not a number\n".as_bytes()), Ok(Vec::new()));
}

#[test]
fn tag_count_is_not_held_against_the_words() {
    let pictures = parse_pictures("1\nH 7 a b\n".as_bytes()).unwrap();
    assert_eq!(pictures, vec![picture(0, Orientation::Horizontal, vec![0, 1])]);
}

#[test]
fn unknown_orientation_is_malformed() {
    assert_eq!(
        parse_pictures("2\nH 1 a\nX 1 b\n".as_bytes()),
        Err(IngestError::MalformedRecord { record: 1 })
    );
    assert_eq!(
        parse_pictures("1\nHH 1 a\n".as_bytes()),
        Err(IngestError::MalformedRecord { record: 0 })
    );
    assert_eq!(
        parse_pictures("1\nh 1 a\n".as_bytes()),
        Err(IngestError::MalformedRecord { record: 0 })
    );
}

#[test]
fn empty_record_is_malformed() {
    assert_eq!(
        parse_pictures("2\nH 1 a\n\n".as_bytes()),
        Err(IngestError::MalformedRecord { record: 1 })
    );
    assert_eq!(
        parse_pictures("2\n   \nH 1 a\n".as_bytes()),
        Err(IngestError::MalformedRecord { record: 0 })
    );
}

#[test]
fn tag_count_that_is_no_numeral_is_malformed() {
    assert_eq!(
        parse_pictures("2\nH x a\n".as_bytes()),
        Err(IngestError::MalformedRecord { record: 0 })
    );
    assert_eq!(
        parse_pictures("1\nH 1 a\nV 12a b\n".as_bytes()),
        Err(IngestError::MalformedRecord { record: 1 })
    );
    assert_eq!(
        parse_pictures("2\nH\n".as_bytes()),
        Err(IngestError::MalformedRecord { record: 0 })
    );
    assert_eq!(
        parse_pictures("2\nV -1 a\n".as_bytes()),
        Err(IngestError::MalformedRecord { record: 0 })
    );
}

#[test]
fn first_malformed_record_is_reported() {
    assert_eq!(
        parse_pictures("4\nH 1 a\nV 1 b\nQ 1 c\nH z d\n".as_bytes()),
        Err(IngestError::MalformedRecord { record: 2 })
    );
}

#[test]
fn vocabulary_numbers_words_as_they_come() {
    let mut vocabulary = Vocabulary::new();
    assert_eq!(vocabulary.len(), 0);
    assert_eq!(vocabulary.intern("cat".as_bytes()), 0);
    assert_eq!(vocabulary.intern("dog".as_bytes()), 1);
    assert_eq!(vocabulary.intern("cat".as_bytes()), 0);
    assert_eq!(vocabulary.intern("".as_bytes()), 2);
    assert_eq!(vocabulary.intern("do".as_bytes()), 3);
    assert_eq!(vocabulary.intern("dog".as_bytes()), 1);
    assert_eq!(vocabulary.len(), 4);
}

#[test]
fn vocabulary_holds_many_words() {
    let mut vocabulary = Vocabulary::new();
    let mut n: u32 = 0;
    while n < 2000 {
        assert_eq!(vocabulary.intern(format!("tag{}", n).as_bytes()), n);
        n += 1;
    }
    let mut n: u32 = 0;
    while n < 2000 {
        assert_eq!(vocabulary.intern(format!("tag{}", n).as_bytes()), n);
        n += 1;
    }
    assert_eq!(vocabulary.len(), 2000);
}

#[test]
fn listing_names_the_pictures_of_each_slide() {
    let slides = vec![
        Slide { picture_id: 0, second_picture_id: None, tags: vec![0, 1, 2] },
        Slide { picture_id: 3, second_picture_id: None, tags: vec![0, 5] },
        Slide { picture_id: 1, second_picture_id: Some(2), tags: vec![3, 4, 5] },
    ];
    assert_eq!(render_slides(&slides), "3\n0\n3\n1 2".as_bytes().to_vec());
}

#[test]
fn listing_of_nothing_is_a_zero() {
    assert_eq!(render_slides(&[]), "0".as_bytes().to_vec());
}

#[test]
fn listing_writes_large_numbers_in_full() {
    let slides = vec![
        Slide { picture_id: 4_294_967_295, second_picture_id: Some(1_000_000), tags: vec![] },
        Slide { picture_id: 10, second_picture_id: Some(0), tags: vec![] },
        Slide { picture_id: 907, second_picture_id: None, tags: vec![] },
    ];
    assert_eq!(
        render_slides(&slides),
        "3\n4294967295 1000000\n10 0\n907".as_bytes().to_vec()
    );
}

#[test]
fn listing_counts_more_than_nine_slides() {
    let mut slides: Vec<Slide> = Vec::new();
    let mut id: u32 = 0;
    while id < 12 {
        slides.push(Slide { picture_id: id, second_picture_id: None, tags: vec![] });
        id += 1;
    }
    assert_eq!(
        render_slides(&slides),
        "12\n0\n1\n2\n3\n4\n5\n6\n7\n8\n9\n10\n11".as_bytes().to_vec()
    );
}

#[test]
fn letters_name_the_input_files() {
    assert_eq!(input_file_name('a'), Some("a_example.txt"));
    assert_eq!(input_file_name('b'), Some("b_lovely_landscapes.txt"));
    assert_eq!(input_file_name('c'), Some("c_memorable_moments.txt"));
    assert_eq!(input_file_name('d'), Some("d_pet_pictures.txt"));
    assert_eq!(input_file_name('e'), Some("e_shiny_selfies.txt"));
    assert_eq!(input_file_name('f'), None);
    assert_eq!(input_file_name('A'), None);
}
