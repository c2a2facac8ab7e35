use circuit_lab::bitmap::DecodedImage;
use circuit_lab::lab_parser::{parse, MessageType};
use circuit_lab::panels::{
    assemble_panels, decimal_string, image_file_path, ImageLoad, MultiQuestion, PanelContent,
};

#[test]
fn new_question_is_empty_with_three_chances() {
    let q = MultiQuestion::new();
    assert_eq!(q.question, "");
    assert!(q.choices.is_empty());
    assert_eq!(q.answer_index, None);
    assert_eq!(q.number_chances, 3);
    assert!(q.answers.is_empty());
}

#[test]
fn decimal_string_writes_digits() {
    assert_eq!(decimal_string(0), "0");
    assert_eq!(decimal_string(7), "7");
    assert_eq!(decimal_string(10), "10");
    assert_eq!(decimal_string(40512), "40512");
}

#[test]
fn image_file_path_drops_one_leading_space() {
    assert_eq!(image_file_path(" a.png"), "a.png");
    assert_eq!(image_file_path("  a.png"), " a.png");
    assert_eq!(image_file_path("a.png"), "a.png");
    assert_eq!(image_file_path(""), "");
}

#[test]
fn answers_attach_to_the_latest_question() {
    let text = "x\n#Section\n#Question\nFirst?\n#AnswerWrong no\n#Question\nSecond?\n#AnswerCorrect yes\n#AnswerWrong no\n";
    let (sections, errors) = parse(text);
    assert!(errors.is_empty());
    let (panels, errors) = assemble_panels(&sections, &vec![], errors);
    assert_eq!(panels.len(), 1);
    assert_eq!(panels[0].contents.len(), 2);
    match &panels[0].contents[0] {
        PanelContent::Question(q) => {
            assert_eq!(q.question, "First?");
            assert_eq!(q.choices, vec![" no".to_string()]);
            assert_eq!(q.answer_index, None);
        }
        _ => panic!("expected a question"),
    }
    match &panels[0].contents[1] {
        PanelContent::Question(q) => {
            assert_eq!(q.question, "Second?");
            assert_eq!(q.choices, vec![" yes".to_string(), " no\n".to_string()]);
            assert_eq!(q.answer_index, Some(0));
        }
        _ => panic!("expected a question"),
    }
    // The first question has no correct answer.
    assert_eq!(errors.len(), 1);
    assert!(errors[0].0 == MessageType::Error);
    assert_eq!(errors[0].1, "Error:  Question in panel(0), has no correct answer.");
}

#[test]
fn answer_before_any_question_is_dropped() {
    let (sections, errors) = parse("x\n#Section\n#AnswerCorrect lost\n#Text\nkept");
    let (panels, errors) = assemble_panels(&sections, &vec![], errors);
    assert_eq!(panels.len(), 1);
    assert_eq!(panels[0].contents.len(), 1);
    match &panels[0].contents[0] {
        PanelContent::Text(t) => assert_eq!(t, "kept"),
        _ => panic!("expected text"),
    }
    assert!(errors.is_empty());
}

#[test]
fn images_become_bitmaps_or_errors() {
    let text = "x\n#Section\n#Text\nfirst\n#Section\n#image a.png\n#image b.png\n#image c.png\n";
    let (sections, _) = parse(text);
    let earlier = vec![(MessageType::Default, "before".to_string())];
    let decoded = DecodedImage {
        width: 1,
        height: 2,
        bits_per_pixel: 32,
        buffer: vec![1, 2, 3, 4, 5, 6, 7, 8],
    };
    let images = vec![ImageLoad::Decoded(decoded), ImageLoad::Missing, ImageLoad::Undecodable];
    let (panels, errors) = assemble_panels(&sections, &images, earlier);
    assert_eq!(panels.len(), 2);
    assert_eq!(panels[1].contents.len(), 1);
    match &panels[1].contents[0] {
        PanelContent::Image(b) => {
            assert_eq!(b.width, 1);
            assert_eq!(b.height, 2);
            // Bottom row first, red and blue swapped.
            assert_eq!(b.rgba, vec![7, 6, 5, 8, 3, 2, 1, 4]);
            assert_eq!(b.info_header.bit_per_pixel, 32);
        }
        _ => panic!("expected an image"),
    }
    assert_eq!(errors.len(), 2);
    assert_eq!(errors[0].1, "before");
    assert_eq!(errors[1].1, "Error:  Image, c.png, on panel 1, could not be opened by program.");
}
