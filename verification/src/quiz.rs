//! Answering a multiple-choice question, one frame at a time: the choices the student picked in
//! a frame are recorded while the question is open, picking the right one closes it, and each
//! frame ends with the feedback line to show under the question.
use vstd::prelude::*;

use crate::panels::{MultiQuestion, QuestionView};

verus! {

/// The feedback line shown under a question after a frame.
pub enum QuizFeedback {
    /// Nothing is shown.
    Silent,
    /// The question is open and the last pick was wrong: `tries` picks of `chances` are made.
    Incorrect { tries: usize, chances: usize },
    /// The question is closed and the last pick was right.
    Correct,
    /// The question is closed and the last pick was wrong; the right choice is `answer`.
    Reveal { answer: usize },
}

/// The indices, in increasing order, at which `clicked` holds.
pub open spec fn clicked_indices(clicked: Seq<bool>) -> Seq<usize>
    decreases clicked.len(),
{
    if clicked.len() == 0 {
        Seq::empty()
    } else {
        let rest = clicked_indices(clicked.drop_last());
        if clicked.last() {
            rest.push((clicked.len() - 1) as usize)
        } else {
            rest
        }
    }
}

/// A question takes picks while fewer picks were made than it has chances.
pub open spec fn question_open(q: QuestionView) -> bool {
    q.answers.len() < q.number_chances
}

/// Whether the right choice is among the picks of `clicked`.
pub open spec fn picks_right(clicked: Seq<bool>, answer: usize) -> bool {
    answer < clicked.len() && clicked[answer as int]
}

/// The question after a frame in which the choices flagged in `clicked` were picked: an open
/// question records every pick in order, and loses its chances if the right choice was picked;
/// a closed one is left as it is.
pub open spec fn question_after(q: QuestionView, clicked: Seq<bool>) -> QuestionView {
    if question_open(q) {
        QuestionView {
            question: q.question,
            choices: q.choices,
            answer_index: q.answer_index,
            number_chances: if picks_right(clicked, q.answer_index.unwrap()) {
                0
            } else {
                q.number_chances
            },
            answers: q.answers + clicked_indices(clicked),
        }
    } else {
        q
    }
}

/// The feedback after that frame. While the question was open at its start, a wrong last pick
/// is reported with the count of picks and chances; once it was closed, the last pick is judged.
pub open spec fn feedback_after(q: QuestionView, clicked: Seq<bool>) -> QuizFeedback {
    let answer = q.answer_index.unwrap();
    let after = question_after(q, clicked);
    if after.answers.len() == 0 {
        QuizFeedback::Silent
    } else if question_open(q) {
        if after.answers.last() != answer {
            QuizFeedback::Incorrect {
                tries: after.answers.len() as usize,
                chances: after.number_chances,
            }
        } else {
            QuizFeedback::Silent
        }
    } else if after.answers.last() == answer {
        QuizFeedback::Correct
    } else {
        QuizFeedback::Reveal { answer }
    }
}

impl MultiQuestion {
    /// One frame of answering: `clicked[i]` tells whether choice `i` was clicked (released over
    /// it) in this frame. Records the picks and returns the feedback to show.
    pub fn record_answer(&mut self, clicked: &Vec<bool>) -> (fb: QuizFeedback)
        requires
            old(self).answer_index is Some,
        ensures
            final(self)@ == question_after(old(self)@, clicked@),
            fb == feedback_after(old(self)@, clicked@),
    {
        let ghost q0 = self@;
        let answer = match self.answer_index {
            Some(a) => a,
            None => 0,
        };
        let open = self.answers.len() < self.number_chances;
        if open {
            let mut i: usize = 0;
            while i < clicked.len()
                invariant
                    i <= clicked.len(),
                    self.question@ == q0.question,
                    self.choices@.map_values(|s: String| s@) == q0.choices,
                    self.answer_index == q0.answer_index,
                    q0.answer_index == Some(answer),
                    self.answers@ == q0.answers + clicked_indices(clicked@.take(i as int)),
                    self.number_chances == if picks_right(clicked@.take(i as int), answer) {
                        0
                    } else {
                        q0.number_chances
                    },
                decreases clicked.len() - i,
            {
                let ghost before = clicked@.take(i as int);
                assert(clicked@.take(i + 1).drop_last() =~= before);
                if clicked[i] {
                    self.answers.push(i);
                    if i == answer {
                        self.number_chances = 0;
                    }
                }
                i = i + 1;
                assert(self.answers@ =~= q0.answers + clicked_indices(clicked@.take(i as int)));
            }
            assert(clicked@.take(clicked.len() as int) =~= clicked@);
        }
        proof {
            assert(self@.choices =~= question_after(q0, clicked@).choices);
            assert(self@ == question_after(q0, clicked@));
        }
        let n = self.answers.len();
        if n == 0 {
            QuizFeedback::Silent
        } else if open {
            if self.answers[n - 1] != answer {
                QuizFeedback::Incorrect { tries: n, chances: self.number_chances }
            } else {
                QuizFeedback::Silent
            }
        } else if self.answers[n - 1] == answer {
            QuizFeedback::Correct
        } else {
            QuizFeedback::Reveal { answer }
        }
    }
}

/// A closed question is final: no frame changes it, whatever is clicked.
pub proof fn lemma_closed_question_unchanged(q: QuestionView, clicked: Seq<bool>)
    requires
        !question_open(q),
    ensures
        question_after(q, clicked) == q,
{
}

/// Picking the right choice closes an open question for good: every later frame leaves it
/// unchanged, and where the right choice was the last pick, every later frame reports it correct.
pub proof fn lemma_right_pick_closes(q: QuestionView, clicked: Seq<bool>, later: Seq<bool>)
    requires
        q.answer_index is Some,
        question_open(q),
        picks_right(clicked, q.answer_index.unwrap()),
    ensures
        !question_open(question_after(q, clicked)),
        question_after(question_after(q, clicked), later) == question_after(q, clicked),
        question_after(q, clicked).answers.last() == q.answer_index.unwrap() ==> feedback_after(
            question_after(q, clicked),
            later,
        ) == QuizFeedback::Correct,
{
    lemma_clicked_indices_has(clicked, q.answer_index.unwrap());
}

/// A picked index is recorded.
proof fn lemma_clicked_indices_has(clicked: Seq<bool>, k: usize)
    requires
        k < clicked.len(),
        clicked[k as int],
    ensures
        clicked_indices(clicked).len() > 0,
    decreases clicked.len(),
{
    if k + 1 < clicked.len() {
        assert(clicked.drop_last()[k as int] == clicked[k as int]);
        lemma_clicked_indices_has(clicked.drop_last(), k);
    }
}

/// Every frame keeps the picks made before it, in order, as a prefix.
pub proof fn lemma_picks_kept(q: QuestionView, clicked: Seq<bool>)
    ensures
        q.answers.is_prefix_of(question_after(q, clicked).answers),
{
    assert(question_after(q, clicked).answers.subrange(0, q.answers.len() as int) =~= q.answers);
}


/// The wrong-pick feedback counts picks and chances of the question after the frame: the
/// number of picks recorded so far, and the chances the question still has (none once the
/// right choice was picked in the frame), whatever the number of choices.
pub proof fn lemma_incorrect_counts(q: QuestionView, clicked: Seq<bool>)
    requires
        q.answer_index is Some,
        q.answers.len() + clicked.len() <= usize::MAX,
    ensures
        feedback_after(q, clicked) matches QuizFeedback::Incorrect { tries, chances } ==> {
            &&& q.answers.len() < q.number_chances
            &&& chances == if q.answer_index.unwrap() < clicked.len()
                && clicked[q.answer_index.unwrap() as int] {
                0
            } else {
                q.number_chances
            }
            &&& tries == question_after(q, clicked).answers.len()
            &&& question_after(q, clicked).answers.last() != q.answer_index.unwrap()
        },
{
    lemma_clicked_indices_len(clicked);
}

proof fn lemma_clicked_indices_len(clicked: Seq<bool>)
    ensures
        clicked_indices(clicked).len() <= clicked.len(),
    decreases clicked.len(),
{
    if clicked.len() > 0 {
        lemma_clicked_indices_len(clicked.drop_last());
    }
}


/// What each feedback means: `Correct` only for a closed question whose last pick is the right
/// choice; `Reveal` only for a closed question whose last pick is wrong, and it names the right
/// choice; `Silent` when nothing was picked yet, or when the last pick of a question that was
/// open is the right choice.
pub proof fn lemma_feedback_meaning(q: QuestionView, clicked: Seq<bool>)
    requires
        q.answer_index is Some,
    ensures
        feedback_after(q, clicked) is Correct ==> !question_open(q) && q.answers.len() > 0
            && q.answers.last() == q.answer_index.unwrap(),
        feedback_after(q, clicked) matches QuizFeedback::Reveal { answer } ==> !question_open(q)
            && q.answers.len() > 0 && q.answers.last() != q.answer_index.unwrap() && answer
            == q.answer_index.unwrap(),
        feedback_after(q, clicked) is Silent ==> question_after(q, clicked).answers.len() == 0 || (
        question_open(q) && question_after(q, clicked).answers.last() == q.answer_index.unwrap()),
{
}

proof fn lemma_clicked_indices_facts(clicked: Seq<bool>)
    requires
        clicked.len() <= usize::MAX,
    ensures
        forall|t: int|
            0 <= t < clicked_indices(clicked).len() ==> (#[trigger] clicked_indices(clicked)[t])
                < clicked.len() && clicked[clicked_indices(clicked)[t] as int],
        forall|t: int, u: int|
            0 <= t < u < clicked_indices(clicked).len() ==> (#[trigger] clicked_indices(clicked)[t])
                < (#[trigger] clicked_indices(clicked)[u]),
        forall|i: int|
            0 <= i < clicked.len() && #[trigger] clicked[i] ==> clicked_indices(clicked).contains(
                i as usize,
            ),
    decreases clicked.len(),
{
    if clicked.len() > 0 {
        let rest = clicked.drop_last();
        lemma_clicked_indices_facts(rest);
        let ci = clicked_indices(clicked);
        let cr = clicked_indices(rest);
        assert forall|t: int| 0 <= t < ci.len() implies (#[trigger] ci[t]) < clicked.len()
            && clicked[ci[t] as int] by {
            if t < cr.len() {
                assert(ci[t] == cr[t]);
                assert(rest[cr[t] as int] == clicked[cr[t] as int]);
            }
        }
        assert forall|t: int, u: int| 0 <= t < u < ci.len() implies (#[trigger] ci[t]) < (
        #[trigger] ci[u]) by {
            assert(ci[t] == cr[t]);
            if u < cr.len() {
                assert(ci[u] == cr[u]);
            } else {
                assert(cr[t] < rest.len());
            }
        }
        assert forall|i: int| 0 <= i < clicked.len() && #[trigger] clicked[i] implies ci.contains(
            i as usize,
        ) by {
            if i < clicked.len() - 1 {
                assert(rest[i] == clicked[i]);
                assert(cr.contains(i as usize));
                let t = choose|t: int| 0 <= t < cr.len() && cr[t] == i as usize;
                assert(ci[t] == cr[t]);
            } else {
                assert(ci[cr.len() as int] == i as usize);
            }
        }
    }
}

/// An open question records, after its earlier picks, exactly the choices clicked in the frame,
/// each once and in increasing order; it loses its chances exactly when the right choice is
/// among them. A closed question records nothing.
pub proof fn lemma_picks_recorded(q: QuestionView, clicked: Seq<bool>)
    requires
        q.answer_index is Some,
        clicked.len() <= usize::MAX,
    ensures
        question_open(q) ==> {
            let a = question_after(q, clicked).answers;
            let n = q.answers.len() as int;
            &&& a.len() >= n
            &&& a.subrange(0, n) == q.answers
            &&& forall|t: int| n <= t < a.len() ==> (#[trigger] a[t]) < clicked.len() && clicked[a[t] as int]
            &&& forall|t: int, u: int| n <= t < u < a.len() ==> (#[trigger] a[t]) < (#[trigger] a[u])
            &&& forall|i: int| 0 <= i < clicked.len() && #[trigger] clicked[i] ==> a.contains(i as usize)
            &&& (question_after(q, clicked).number_chances == 0 || question_after(q, clicked).number_chances == q.number_chances)
            &&& ((q.answer_index.unwrap() < clicked.len() && clicked[q.answer_index.unwrap() as int])
                <==> question_after(q, clicked).number_chances == 0 || q.number_chances == 0)
        },
        !question_open(q) ==> question_after(q, clicked) == q,
{
    lemma_clicked_indices_facts(clicked);
    if question_open(q) {
        let a = question_after(q, clicked).answers;
        let ci = clicked_indices(clicked);
        let n = q.answers.len() as int;
        assert(a.subrange(0, n) =~= q.answers);
        assert forall|t: int| n <= t < a.len() implies (#[trigger] a[t]) < clicked.len() && clicked[a[t] as int] by {
            assert(a[t] == ci[t - n]);
        }
        assert forall|t: int, u: int| n <= t < u < a.len() implies (#[trigger] a[t]) < (#[trigger] a[u]) by {
            assert(a[t] == ci[t - n]);
            assert(a[u] == ci[u - n]);
        }
        assert forall|i: int| 0 <= i < clicked.len() && #[trigger] clicked[i] implies a.contains(i as usize) by {
            let t = choose|t: int| 0 <= t < ci.len() && ci[t] == i as usize;
            assert(a[n + t] == ci[t]);
        }
    }
}

} // verus!
