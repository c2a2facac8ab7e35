use circuit_lab::lab_parser::{
    lab_text_is_parsable, missing_image_errors, parse, peek, peek_is_char, scan_directives,
    section_image_names, strip_lab_comments, Content, MessageType, Section,
};

const EXAMPLE: &str = "//comments should be ignored
#Section 
#Header Beginning
#Text
This is the beginning of the lab.
The lab is about a great many things that you will never understand.
Sorry.

#Section 
#Header Initial Questions
#Text
Lets begin with some questions.
Please do you best answers will be graded harshly.

#Question
How large is the farm?

#AnswerWrong   Pint sized.
#AnswerCorrect Byte sized.
#AnswerWrong   bit sized.
#AnswerWrong   bite sized.

#Section
#Text
I hope you got that anwser right.
LOL
#image screenshot.bmp

";

fn text_of(c: &Content) -> String {
    match c {
        Content::Question(s) => format!("Q:{}", s),
        Content::Header(s) => format!("H:{}", s),
        Content::Text(s) => format!("T:{}", s),
        Content::Answer(s, b) => format!("A{}:{}", if *b { "+" } else { "-" }, s),
        Content::Image(s) => format!("I:{}", s),
    }
}

fn texts(sections: &[Section]) -> Vec<Vec<String>> {
    sections.iter().map(|s| s.contents.iter().map(text_of).collect()).collect()
}

#[test]
fn peek_looks_one_ahead() {
    let buf = vec!['a', 'b', 'c'];
    assert_eq!(peek(0, &buf), Some('b'));
    assert_eq!(peek(1, &buf), Some('c'));
    assert_eq!(peek(2, &buf), None);
    assert_eq!(peek(7, &buf), None);
}

#[test]
fn peek_is_char_compares_the_next_character() {
    let buf = vec!['x', '\n', 'y'];
    assert!(peek_is_char(0, &buf, '\n'));
    assert!(!peek_is_char(1, &buf, '\n'));
    assert!(!peek_is_char(2, &buf, 'y'));
}

#[test]
fn comments_are_cut_up_to_the_newline() {
    let input: Vec<char> = "ab//cd\nef".chars().collect();
    let out = strip_lab_comments(input).unwrap();
    assert_eq!(out.iter().collect::<String>(), "ab\nef");
}

#[test]
fn comment_without_a_newline_cannot_be_parsed() {
    assert!(!lab_text_is_parsable(""));
    assert!(!lab_text_is_parsable("ab//cd"));
    assert!(lab_text_is_parsable("ab"));
    assert!(lab_text_is_parsable(EXAMPLE));
}

#[test]
fn example_lab_parses_into_three_sections() {
    let (sections, errors) = parse(EXAMPLE);
    let t = texts(&sections);
    assert_eq!(t.len(), 3);
    assert_eq!(
        t[0],
        vec![
            "H:Beginning".to_string(),
            "T:This is the beginning of the lab.\nThe lab is about a great many things that you will never understand.\nSorry.\n".to_string(),
        ]
    );
    assert_eq!(
        t[1],
        vec![
            "H:Initial Questions".to_string(),
            "T:Lets begin with some questions.\nPlease do you best answers will be graded harshly.\n".to_string(),
            "Q:How large is the farm?\n".to_string(),
            "A-:   Pint sized.".to_string(),
            "A+: Byte sized.".to_string(),
            "A-:   bit sized.".to_string(),
            "A-:   bite sized.\n".to_string(),
        ]
    );
    assert_eq!(
        t[2],
        vec![
            "T:I hope you got that anwser right.\nLOL".to_string(),
            "I:screenshot.bmp".to_string(),
        ]
    );
    assert_eq!(errors.len(), 1);
    assert!(errors[0].0 == MessageType::Error);
    assert_eq!(errors[0].1, "Error:  Image file, screenshot.bmp, does not exist.");
}

#[test]
fn image_at_the_end_of_the_file_is_worded_differently() {
    let (sections, errors) = parse("x\n#Section\n#Image no_such_image.png");
    let t = texts(&sections);
    assert_eq!(t, vec![vec!["I:no_such_image.png".to_string()]]);
    assert_eq!(errors.len(), 1);
    assert_eq!(errors[0].1, "Error:  no_such_image.png does not exist");
}

#[test]
fn directives_ignore_case_and_need_a_section() {
    let (sections, errors) = parse("x\n#TEXT before\n#section\n#header Top\n#text body");
    let t = texts(&sections);
    assert_eq!(t, vec![vec!["H:Top".to_string(), "T:body".to_string()]]);
    assert!(errors.is_empty());
}

#[test]
fn only_images_not_found_get_errors() {
    let refs = vec![
        ("a.png".to_string(), false),
        ("b.png".to_string(), false),
        ("c.png".to_string(), true),
    ];
    let errs = missing_image_errors(&refs, &vec![true, false, false]);
    assert_eq!(errs.len(), 2);
    assert_eq!(errs[0].1, "Error:  Image file, b.png, does not exist.");
    assert_eq!(errs[1].1, "Error:  c.png does not exist");
    assert!(missing_image_errors(&refs, &vec![true, true, true]).is_empty());
}

#[test]
fn image_names_come_in_section_order() {
    let a: Vec<char> = "x\n#Section\n#image a.png\n#Section\n#Text\nt\n#image b.png\n#image c.png".chars().collect();
    let (sections, refs) = scan_directives(&a);
    assert_eq!(section_image_names(&sections), vec!["a.png", "b.png", "c.png"]);
    let names: Vec<String> = refs.iter().map(|r| r.0.clone()).collect();
    assert_eq!(names, vec!["a.png", "b.png", "c.png"]);
    assert_eq!(refs.iter().map(|r| r.1).collect::<Vec<bool>>(), vec![false, false, true]);
}

#[test]
fn directive_case_does_not_change_the_parse() {
    let a = parse("x\n#Section\n#Header Top\n#Text\nbody\n#Question\nQ?\n#AnswerWrong no\n#AnswerCorrect yes");
    let b = parse("x\n#SECTION\n#header Top\n#tExT\nbody\n#QUESTION\nQ?\n#answerwrong no\n#ANSWERCORRECT yes");
    assert_eq!(texts(&a.0), texts(&b.0));
    assert_eq!(a.0.len(), 1);
    assert_eq!(a.1.len(), b.1.len());
}

#[test]
fn case_after_the_scan_stops_does_not_matter() {
    // The scan stops at an image before any section; later words are never read.
    let a = parse("\n#Image a\n#Section\n#Text\nHi");
    let b = parse("\n#Image a\n#SECTION\n#text\nHi");
    assert_eq!(texts(&a.0), texts(&b.0));
    assert!(a.0.is_empty());
    assert_eq!(a.1.len(), b.1.len());
}
