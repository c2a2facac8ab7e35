use circuit_lab::panels::MultiQuestion;
use circuit_lab::quiz::QuizFeedback;

fn question(answer: usize, choices: usize) -> MultiQuestion {
    let mut q = MultiQuestion::new();
    q.question = String::from("Which one?");
    q.choices = (0..choices).map(|i| format!("choice {}", i)).collect();
    q.answer_index = Some(answer);
    q
}

fn clicks(n: usize, picked: &[usize]) -> Vec<bool> {
    (0..n).map(|i| picked.contains(&i)).collect()
}

#[test]
fn nothing_clicked_shows_nothing() {
    let mut q = question(1, 3);
    assert!(matches!(q.record_answer(&clicks(3, &[])), QuizFeedback::Silent));
    assert!(q.answers.is_empty());
    assert_eq!(q.number_chances, 3);
}

#[test]
fn a_wrong_pick_is_counted() {
    let mut q = question(1, 3);
    match q.record_answer(&clicks(3, &[2])) {
        QuizFeedback::Incorrect { tries, chances } => assert_eq!((tries, chances), (1, 3)),
        _ => panic!("expected the incorrect feedback"),
    }
    assert_eq!(q.answers, vec![2]);
    // The next frame without clicks still shows the count.
    match q.record_answer(&clicks(3, &[])) {
        QuizFeedback::Incorrect { tries, chances } => assert_eq!((tries, chances), (1, 3)),
        _ => panic!("expected the incorrect feedback"),
    }
}

#[test]
fn the_right_pick_closes_the_question() {
    let mut q = question(1, 3);
    assert!(matches!(q.record_answer(&clicks(3, &[1])), QuizFeedback::Silent));
    assert_eq!(q.number_chances, 0);
    assert_eq!(q.answers, vec![1]);
    // Closed: later clicks are ignored and the answer is reported correct.
    assert!(matches!(q.record_answer(&clicks(3, &[0])), QuizFeedback::Correct));
    assert_eq!(q.answers, vec![1]);
}

#[test]
fn used_up_chances_reveal_the_answer() {
    let mut q = question(0, 3);
    for pick in [1, 2, 1] {
        q.record_answer(&clicks(3, &[pick]));
    }
    assert_eq!(q.answers, vec![1, 2, 1]);
    match q.record_answer(&clicks(3, &[0])) {
        QuizFeedback::Reveal { answer } => assert_eq!(answer, 0),
        _ => panic!("expected the answer to be shown"),
    }
    assert_eq!(q.answers, vec![1, 2, 1]);
}
