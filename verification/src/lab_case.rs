//! Letter case in lab files: directive names are matched without regard to case, so
//! changing the case of letters changes a parsed lab only in the text it takes as content.
use vstd::prelude::*;

use crate::lab_parser::{
    ContentView,
    Keyword,
    ScanState,
    directive_step,
    find_block_end,
    find_newline,
    find_token_end,
    keyword_of,
    kw_answer_correct,
    kw_answer_correct_upper,
    kw_answer_wrong,
    kw_answer_wrong_upper,
    kw_header,
    kw_header_upper,
    kw_image,
    kw_image_upper,
    kw_question,
    kw_question_upper,
    kw_section,
    kw_section_upper,
    kw_text,
    kw_text_upper,
    parse_defined,
    parse_spec,
    push_content,
    scan_from,
    scan_step,
    slice_or_empty,
    strip_comments,
    strip_comments_from,
    text_content,
    trim_leading_space,
    word_matches_ci,
};

verus! {

/// `x` and `y` are the same character, or the same ASCII letter in either case.
pub open spec fn case_eq(x: char, y: char) -> bool {
    ||| x == y
    ||| ('a' <= x <= 'z' && (y as u32) + 32 == (x as u32))
    ||| ('a' <= y <= 'z' && (x as u32) + 32 == (y as u32))
}

/// `b` is `a` with the case of some ASCII letters changed.
pub open spec fn case_variant(a: Seq<char>, b: Seq<char>) -> bool {
    &&& a.len() == b.len()
    &&& forall|k: int| 0 <= k < a.len() ==> #[trigger] case_eq(a[k], b[k])
}

/// The same content, its text differing at most in letter case.
pub open spec fn content_variant(c1: ContentView, c2: ContentView) -> bool {
    match (c1, c2) {
        (ContentView::Question(x), ContentView::Question(y)) => case_variant(x, y),
        (ContentView::Header(x), ContentView::Header(y)) => case_variant(x, y),
        (ContentView::Text(x), ContentView::Text(y)) => case_variant(x, y),
        (ContentView::Answer(x, b1), ContentView::Answer(y, b2)) => case_variant(x, y) && b1
            == b2,
        (ContentView::Image(x), ContentView::Image(y)) => case_variant(x, y),
        _ => false,
    }
}

/// Two parse results that differ at most in the letter case of their texts and paths.
pub open spec fn state_variant(s1: ScanState, s2: ScanState) -> bool {
    &&& s1.0.len() == s2.0.len()
    &&& forall|i: int|
        0 <= i < s1.0.len() ==> (#[trigger] s1.0[i]).len() == s2.0[i].len() && forall|j: int|
            0 <= j < s1.0[i].len() ==> #[trigger] content_variant(s1.0[i][j], s2.0[i][j])
    &&& s1.1.len() == s2.1.len()
    &&& forall|i: int|
        0 <= i < s1.1.len() ==> case_variant((#[trigger] s1.1[i]).0, s2.1[i].0) && s1.1[i].1
            == s2.1[i].1
}

proof fn lemma_case_eq_keeps_marks(x: char, y: char)
    requires
        case_eq(x, y),
    ensures
        (x == '\n') == (y == '\n'),
        (x == ' ') == (y == ' '),
        (x == '#') == (y == '#'),
        (x == '/') == (y == '/'),
{
}

proof fn lemma_find_newline_case(a: Seq<char>, b: Seq<char>, from: int)
    requires
        case_variant(a, b),
    ensures
        find_newline(a, from) == find_newline(b, from),
    decreases a.len() - from,
{
    if 0 <= from < a.len() {
        lemma_case_eq_keeps_marks(a[from], b[from]);
        lemma_find_newline_case(a, b, from + 1);
    }
}

proof fn lemma_find_token_end_case(a: Seq<char>, b: Seq<char>, from: int)
    requires
        case_variant(a, b),
    ensures
        find_token_end(a, from) == find_token_end(b, from),
    decreases a.len() - from,
{
    if 0 <= from < a.len() {
        if from + 1 < a.len() {
            lemma_case_eq_keeps_marks(a[from + 1], b[from + 1]);
        }
        lemma_find_token_end_case(a, b, from + 1);
    }
}

proof fn lemma_find_block_end_case(a: Seq<char>, b: Seq<char>, from: int)
    requires
        case_variant(a, b),
    ensures
        find_block_end(a, from) == find_block_end(b, from),
    decreases a.len() - from,
{
    if 0 <= from < a.len() {
        lemma_case_eq_keeps_marks(a[from], b[from]);
        if from + 1 < a.len() {
            lemma_case_eq_keeps_marks(a[from + 1], b[from + 1]);
        }
        lemma_find_block_end_case(a, b, from + 1);
    }
}

proof fn lemma_subrange_case(a: Seq<char>, b: Seq<char>, s: int, e: int)
    requires
        case_variant(a, b),
        0 <= s <= e <= a.len(),
    ensures
        case_variant(a.subrange(s, e), b.subrange(s, e)),
{
    assert forall|k: int| 0 <= k < e - s implies #[trigger] case_eq(
        a.subrange(s, e)[k],
        b.subrange(s, e)[k],
    ) by {
        assert(case_eq(a[s + k], b[s + k]));
    }
}

proof fn lemma_slice_case(a: Seq<char>, b: Seq<char>, s: int, e: int)
    requires
        case_variant(a, b),
        0 <= s,
        e == a.len(),
    ensures
        case_variant(slice_or_empty(a, s, e), slice_or_empty(b, s, e)),
{
    if s < e {
        lemma_subrange_case(a, b, s, e);
    }
}

proof fn lemma_trim_case(x: Seq<char>, y: Seq<char>)
    requires
        case_variant(x, y),
    ensures
        case_variant(trim_leading_space(x), trim_leading_space(y)),
{
    if x.len() > 0 {
        lemma_case_eq_keeps_marks(x[0], y[0]);
        if x[0] == ' ' {
            assert forall|k: int| 0 <= k < x.len() - 1 implies #[trigger] case_eq(
                x.drop_first()[k],
                y.drop_first()[k],
            ) by {
                assert(case_eq(x[k + 1], y[k + 1]));
            }
        }
    }
}

proof fn lemma_chars_by_code(x: char, lower: char, upper: char)
    ensures
        (x as u32) == (lower as u32) ==> x == lower,
        (x as u32) == (upper as u32) ==> x == upper,
{
    vstd::utf8::char_u32_cast(x, x as u32);
    vstd::utf8::char_u32_cast(lower, lower as u32);
    vstd::utf8::char_u32_cast(upper, upper as u32);
}

/// A letter of a directive word matches in one case exactly where its variant matches.
proof fn lemma_word_case(t1: Seq<char>, t2: Seq<char>, lower: Seq<char>, upper: Seq<char>)
    requires
        case_variant(t1, t2),
        lower.len() == upper.len(),
        forall|k: int|
            0 <= k < lower.len() ==> 'a' <= #[trigger] lower[k] <= 'z' && (upper[k] as u32) + 32
                == (lower[k] as u32),
    ensures
        word_matches_ci(t1, lower, upper) == word_matches_ci(t2, lower, upper),
{
    if word_matches_ci(t1, lower, upper) {
        assert forall|k: int| 0 <= k < t2.len() implies #[trigger] t2[k] == lower[k] || t2[k]
            == upper[k] by {
            assert(case_eq(t1[k], t2[k]));
            assert(t1[k] == lower[k] || t1[k] == upper[k]);
            assert('a' <= lower[k] <= 'z');
            lemma_chars_by_code(t2[k], lower[k], upper[k]);
        }
    }
    if word_matches_ci(t2, lower, upper) {
        assert forall|k: int| 0 <= k < t1.len() implies #[trigger] t1[k] == lower[k] || t1[k]
            == upper[k] by {
            assert(case_eq(t1[k], t2[k]));
            assert(t2[k] == lower[k] || t2[k] == upper[k]);
            assert('a' <= lower[k] <= 'z');
            lemma_chars_by_code(t1[k], lower[k], upper[k]);
        }
    }
}

/// Directive names are matched without regard to the case of their letters.
pub proof fn lemma_keyword_case(t1: Seq<char>, t2: Seq<char>)
    requires
        case_variant(t1, t2),
    ensures
        keyword_of(t1) == keyword_of(t2),
{
    lemma_word_case(t1, t2, kw_section(), kw_section_upper());
    lemma_word_case(t1, t2, kw_header(), kw_header_upper());
    lemma_word_case(t1, t2, kw_text(), kw_text_upper());
    lemma_word_case(t1, t2, kw_question(), kw_question_upper());
    lemma_word_case(t1, t2, kw_image(), kw_image_upper());
    lemma_word_case(t1, t2, kw_answer_correct(), kw_answer_correct_upper());
    lemma_word_case(t1, t2, kw_answer_wrong(), kw_answer_wrong_upper());
}

proof fn lemma_push_case(s1: ScanState, s2: ScanState, c1: ContentView, c2: ContentView)
    requires
        state_variant(s1, s2),
        s1.0.len() > 0,
        content_variant(c1, c2),
    ensures
        state_variant((push_content(s1.0, c1), s1.1), (push_content(s2.0, c2), s2.1)),
{
    let n1 = push_content(s1.0, c1);
    let n2 = push_content(s2.0, c2);
    let last = s1.0.len() - 1;
    assert forall|i: int| 0 <= i < n1.len() implies (#[trigger] n1[i]).len() == n2[i].len()
        && forall|j: int| 0 <= j < n1[i].len() ==> #[trigger] content_variant(n1[i][j], n2[i][j]) by {
        assert(s1.0[i].len() == s2.0[i].len());
        if i == last {
            assert forall|j: int| 0 <= j < n1[i].len() implies #[trigger] content_variant(
                n1[i][j],
                n2[i][j],
            ) by {
                if j < s1.0[i].len() {
                    assert(n1[i][j] == s1.0[i][j]);
                    assert(n2[i][j] == s2.0[i][j]);
                }
            }
        }
    }
}

proof fn lemma_text_content_case(kw: Keyword, x: Seq<char>, y: Seq<char>)
    requires
        case_variant(x, y),
    ensures
        content_variant(text_content(kw, x), text_content(kw, y)),
{
}

proof fn lemma_directive_step_case(a: Seq<char>, b: Seq<char>, p: int, kw: Keyword, s1: ScanState, s2: ScanState)
    requires
        case_variant(a, b),
        state_variant(s1, s2),
        0 <= p < a.len(),
    ensures
        directive_step(a, p, kw, s1).0 == directive_step(b, p, kw, s2).0,
        directive_step(a, p, kw, s1).1 == directive_step(b, p, kw, s2).1,
        state_variant(directive_step(a, p, kw, s1).2, directive_step(b, p, kw, s2).2),
{
    lemma_case_eq_keeps_marks(a[p], b[p]);
    let len = a.len() as int;
    match kw {
        Keyword::Section => {
            let n1 = s1.0.push(Seq::empty());
            let n2 = s2.0.push(Seq::empty());
            assert forall|i: int| 0 <= i < n1.len() implies (#[trigger] n1[i]).len() == n2[i].len()
                && forall|j: int| 0 <= j < n1[i].len() ==> #[trigger] content_variant(
                n1[i][j],
                n2[i][j],
            ) by {
                if i < s1.0.len() {
                    assert(s1.0[i].len() == s2.0[i].len());
                }
            }
        },
        Keyword::Header | Keyword::Text | Keyword::Question => {
            if s1.0.len() > 0 {
                let s = if a[p] == '\n' || a[p] == ' ' {
                    p + 1
                } else {
                    p
                };
                lemma_find_block_end_case(a, b, s);
                crate::lab_parser::lemma_find_block_end(a, s);
                match find_block_end(a, s) {
                    None => {
                        lemma_slice_case(a, b, s, len);
                        lemma_text_content_case(kw, slice_or_empty(a, s, len), slice_or_empty(b, s, len));
                        lemma_push_case(
                            s1,
                            s2,
                            text_content(kw, slice_or_empty(a, s, len)),
                            text_content(kw, slice_or_empty(b, s, len)),
                        );
                    },
                    Some(q) => {
                        lemma_subrange_case(a, b, s, q);
                        lemma_text_content_case(kw, a.subrange(s, q), b.subrange(s, q));
                        lemma_push_case(
                            s1,
                            s2,
                            text_content(kw, a.subrange(s, q)),
                            text_content(kw, b.subrange(s, q)),
                        );
                    },
                }
            }
        },
        Keyword::Image => {
            if s1.0.len() > 0 {
                let s = if a[p] == '\n' {
                    p + 1
                } else {
                    p
                };
                lemma_find_newline_case(a, b, s);
                crate::lab_parser::lemma_find_newline(a, s);
                let (pa, pb, at_end) = match find_newline(a, s) {
                    None => {
                        lemma_slice_case(a, b, s, len);
                        (slice_or_empty(a, s, len), slice_or_empty(b, s, len), true)
                    },
                    Some(q) => {
                        lemma_subrange_case(a, b, s, q);
                        (a.subrange(s, q), b.subrange(s, q), false)
                    },
                };
                lemma_trim_case(pa, pb);
                lemma_push_case(
                    s1,
                    s2,
                    ContentView::Image(trim_leading_space(pa)),
                    ContentView::Image(trim_leading_space(pb)),
                );
                let r1 = s1.1.push((trim_leading_space(pa), at_end));
                let r2 = s2.1.push((trim_leading_space(pb), at_end));
                assert forall|i: int| 0 <= i < r1.len() implies case_variant(
                    (#[trigger] r1[i]).0,
                    r2[i].0,
                ) && r1[i].1 == r2[i].1 by {
                    if i < s1.1.len() {
                        assert(case_variant(s1.1[i].0, s2.1[i].0));
                    }
                }
            }
        },
        Keyword::AnswerCorrect | Keyword::AnswerWrong => {
            if s1.0.len() > 0 {
                let correct = kw == Keyword::AnswerCorrect;
                let s = if a[p] == '\n' {
                    p + 2
                } else {
                    p
                };
                lemma_find_block_end_case(a, b, s);
                crate::lab_parser::lemma_find_block_end(a, s);
                match find_block_end(a, s) {
                    None => {
                        lemma_slice_case(a, b, s, len);
                        lemma_push_case(
                            s1,
                            s2,
                            ContentView::Answer(slice_or_empty(a, s, len), correct),
                            ContentView::Answer(slice_or_empty(b, s, len), correct),
                        );
                    },
                    Some(q) => {
                        lemma_subrange_case(a, b, s, q);
                        lemma_push_case(
                            s1,
                            s2,
                            ContentView::Answer(a.subrange(s, q), correct),
                            ContentView::Answer(b.subrange(s, q), correct),
                        );
                    },
                }
            }
        },
        Keyword::Other => {},
    }
}

proof fn lemma_scan_step_case(a: Seq<char>, b: Seq<char>, i: int, s1: ScanState, s2: ScanState)
    requires
        case_variant(a, b),
        state_variant(s1, s2),
        0 <= i < a.len(),
    ensures
        scan_step(a, i, s1).0 == scan_step(b, i, s2).0,
        scan_step(a, i, s1).1 == scan_step(b, i, s2).1,
        state_variant(scan_step(a, i, s1).2, scan_step(b, i, s2).2),
{
    lemma_case_eq_keeps_marks(a[i], b[i]);
    if i + 1 < a.len() {
        lemma_case_eq_keeps_marks(a[i + 1], b[i + 1]);
    }
    lemma_find_newline_case(a, b, i + 1);
    lemma_find_token_end_case(a, b, i + 2);
    if !(a[i] == '/' && i + 1 < a.len() && a[i + 1] == '/') && a[i] == '\n' && i + 2 < a.len()
        && a[i + 1] == '#' {
        crate::lab_parser::lemma_find_token_end(a, i + 2);
        match find_token_end(a, i + 2) {
            None => {},
            Some(e) => {
                lemma_subrange_case(a, b, i + 2, e + 1);
                lemma_keyword_case(a.subrange(i + 2, e + 1), b.subrange(i + 2, e + 1));
                lemma_directive_step_case(
                    a,
                    b,
                    e + 1,
                    keyword_of(a.subrange(i + 2, e + 1)),
                    s1,
                    s2,
                );
            },
        }
    }
}

proof fn lemma_scan_from_case(a: Seq<char>, b: Seq<char>, i: int, s1: ScanState, s2: ScanState)
    requires
        case_variant(a, b),
        state_variant(s1, s2),
    ensures
        state_variant(scan_from(a, i, s1), scan_from(b, i, s2)),
    decreases a.len() - i,
{
    if 0 <= i < a.len() {
        lemma_scan_step_case(a, b, i, s1, s2);
        let (go_on, next, st1) = scan_step(a, i, s1);
        let st2 = scan_step(b, i, s2).2;
        if go_on && i < next <= a.len() {
            lemma_scan_from_case(a, b, next, st1, st2);
        }
    }
}


proof fn lemma_cut_case(a: Seq<char>, b: Seq<char>, k: int, q: int)
    requires
        case_variant(a, b),
        0 <= k <= q <= a.len(),
    ensures
        case_variant(
            a.subrange(0, k) + a.subrange(q, a.len() as int),
            b.subrange(0, k) + b.subrange(q, b.len() as int),
        ),
{
    let x = a.subrange(0, k) + a.subrange(q, a.len() as int);
    let y = b.subrange(0, k) + b.subrange(q, b.len() as int);
    assert forall|m: int| 0 <= m < x.len() implies #[trigger] case_eq(x[m], y[m]) by {
        if m < k {
            assert(case_eq(a[m], b[m]));
        } else {
            assert(case_eq(a[q + m - k], b[q + m - k]));
        }
    }
}

proof fn lemma_strip_case(a: Seq<char>, b: Seq<char>, k: int)
    requires
        case_variant(a, b),
    ensures
        (strip_comments_from(a, k) is Some) == (strip_comments_from(b, k) is Some),
        strip_comments_from(a, k) is Some ==> case_variant(
            strip_comments_from(a, k).unwrap(),
            strip_comments_from(b, k).unwrap(),
        ),
    decreases a.len() - k,
{
    if 0 <= k < a.len() && k + 1 < a.len() {
        lemma_case_eq_keeps_marks(a[k], b[k]);
        lemma_case_eq_keeps_marks(a[k + 1], b[k + 1]);
        if a[k] == '/' && a[k + 1] == '/' {
            lemma_find_newline_case(a, b, k + 2);
            match find_newline(a, k + 2) {
                None => {},
                Some(q) => {
                    if k + 2 <= q < a.len() {
                        lemma_cut_case(a, b, k, q);
                        lemma_strip_case(
                            a.subrange(0, k) + a.subrange(q, a.len() as int),
                            b.subrange(0, k) + b.subrange(q, b.len() as int),
                            k + 1,
                        );
                    }
                },
            }
        } else {
            lemma_strip_case(a, b, k + 1);
        }
    }
}

/// Letter case does not steer the parse: changing the case of ASCII letters anywhere in a
/// lab file leaves it parsable or not as before, and leaves its sections, contents, image
/// references and their order as they were; only the texts and paths taken from the file
/// can differ, and only in that case.
pub proof fn lemma_parse_case_insensitive(input: Seq<char>, t: Seq<char>)
    requires
        case_variant(input, t),
    ensures
        parse_defined(input) == parse_defined(t),
        parse_defined(input) ==> state_variant(parse_spec(input), parse_spec(t)),
{
    lemma_strip_case(input, t, 0);
    if parse_defined(input) {
        let st: ScanState = (Seq::empty(), Seq::empty());
        lemma_scan_from_case(strip_comments(input).unwrap(), strip_comments(t).unwrap(), 0, st, st);
    }
}

/// The positions whose characters a directive step at `p` copies into the content it adds:
/// the text of a header, text block, question or answer, or the path of an image.
pub open spec fn step_content(a: Seq<char>, p: int, kw: Keyword, st: ScanState) -> Set<int> {
    let len = a.len() as int;
    if st.0.len() == 0 {
        Set::empty()
    } else {
        match kw {
            Keyword::Header | Keyword::Text | Keyword::Question => {
                let s = if a[p] == '\n' || a[p] == ' ' {
                    p + 1
                } else {
                    p
                };
                match find_block_end(a, s) {
                    None => Set::new(|k: int| s <= k < len),
                    Some(q) => Set::new(|k: int| s <= k < q),
                }
            },
            Keyword::Image => {
                let s = if a[p] == '\n' {
                    p + 1
                } else {
                    p
                };
                match find_newline(a, s) {
                    None => Set::new(|k: int| s <= k < len),
                    Some(q) => Set::new(|k: int| s <= k < q),
                }
            },
            Keyword::AnswerCorrect | Keyword::AnswerWrong => {
                let s = if a[p] == '\n' {
                    p + 2
                } else {
                    p
                };
                match find_block_end(a, s) {
                    None => Set::new(|k: int| s <= k < len),
                    Some(q) => Set::new(|k: int| s <= k < q),
                }
            },
            _ => Set::empty(),
        }
    }
}

/// The positions whose characters the scan, from position `i` on, takes as content.
pub open spec fn content_positions(a: Seq<char>, i: int, st: ScanState) -> Set<int>
    decreases a.len() - i,
{
    if i < 0 || i >= a.len() {
        Set::empty()
    } else {
        let (go_on, next, st2) = scan_step(a, i, st);
        let here = if !(a[i] == '/' && i + 1 < a.len() && a[i + 1] == '/') && a[i] == '\n' && i + 2
            < a.len() && a[i + 1] == '#' {
            match find_token_end(a, i + 2) {
                Some(e) => step_content(a, e + 1, keyword_of(a.subrange(i + 2, e + 1)), st),
                None => Set::empty(),
            }
        } else {
            Set::empty()
        };
        if go_on && i < next <= a.len() {
            here.union(content_positions(a, next, st2))
        } else {
            here
        }
    }
}

proof fn lemma_directive_step_same(a: Seq<char>, b: Seq<char>, p: int, kw: Keyword, st: ScanState)
    requires
        case_variant(a, b),
        0 <= p < a.len(),
        forall|k: int|
            0 <= k < a.len() && a[k] != b[k] ==> !(#[trigger] step_content(a, p, kw, st).contains(k)),
    ensures
        directive_step(a, p, kw, st) == directive_step(b, p, kw, st),
{
    let len = a.len() as int;
    lemma_case_eq_keeps_marks(a[p], b[p]);
    let c = step_content(a, p, kw, st);
    if st.0.len() > 0 {
        match kw {
            Keyword::Header | Keyword::Text | Keyword::Question => {
                let s = if a[p] == '\n' || a[p] == ' ' {
                    p + 1
                } else {
                    p
                };
                lemma_find_block_end_case(a, b, s);
                crate::lab_parser::lemma_find_block_end(a, s);
                match find_block_end(a, s) {
                    None => {
                        if s < len {
                            assert forall|k: int| s <= k < len implies a[k] == b[k] by {
                                assert(c.contains(k));
                            }
                            assert(a.subrange(s, len) =~= b.subrange(s, len));
                        }
                    },
                    Some(q) => {
                        assert forall|k: int| s <= k < q implies a[k] == b[k] by {
                            assert(c.contains(k));
                        }
                        assert(a.subrange(s, q) =~= b.subrange(s, q));
                    },
                }
            },
            Keyword::Image => {
                let s = if a[p] == '\n' {
                    p + 1
                } else {
                    p
                };
                lemma_find_newline_case(a, b, s);
                crate::lab_parser::lemma_find_newline(a, s);
                match find_newline(a, s) {
                    None => {
                        if s < len {
                            assert forall|k: int| s <= k < len implies a[k] == b[k] by {
                                assert(c.contains(k));
                            }
                            assert(a.subrange(s, len) =~= b.subrange(s, len));
                        }
                    },
                    Some(q) => {
                        assert forall|k: int| s <= k < q implies a[k] == b[k] by {
                            assert(c.contains(k));
                        }
                        assert(a.subrange(s, q) =~= b.subrange(s, q));
                    },
                }
            },
            Keyword::AnswerCorrect | Keyword::AnswerWrong => {
                let s = if a[p] == '\n' {
                    p + 2
                } else {
                    p
                };
                lemma_find_block_end_case(a, b, s);
                crate::lab_parser::lemma_find_block_end(a, s);
                match find_block_end(a, s) {
                    None => {
                        if s < len {
                            assert forall|k: int| s <= k < len implies a[k] == b[k] by {
                                assert(c.contains(k));
                            }
                            assert(a.subrange(s, len) =~= b.subrange(s, len));
                        }
                    },
                    Some(q) => {
                        assert forall|k: int| s <= k < q implies a[k] == b[k] by {
                            assert(c.contains(k));
                        }
                        assert(a.subrange(s, q) =~= b.subrange(s, q));
                    },
                }
            },
            _ => {},
        }
    }
}

proof fn lemma_scan_from_content(a: Seq<char>, b: Seq<char>, i: int, st: ScanState)
    requires
        case_variant(a, b),
        forall|k: int|
            0 <= k < a.len() && a[k] != b[k] ==> !(#[trigger] content_positions(a, i, st).contains(
                k,
            )),
    ensures
        scan_from(a, i, st) == scan_from(b, i, st),
    decreases a.len() - i,
{
    if 0 <= i < a.len() {
        let len = a.len() as int;
        lemma_case_eq_keeps_marks(a[i], b[i]);
        if i + 1 < len {
            lemma_case_eq_keeps_marks(a[i + 1], b[i + 1]);
        }
        lemma_find_newline_case(a, b, i + 1);
        lemma_find_token_end_case(a, b, i + 2);
        let (go_on, next, st2) = scan_step(a, i, st);
        let directive = !(a[i] == '/' && i + 1 < len && a[i + 1] == '/') && a[i] == '\n' && i + 2
            < len && a[i + 1] == '#';
        if directive {
            crate::lab_parser::lemma_find_token_end(a, i + 2);
            match find_token_end(a, i + 2) {
                None => {},
                Some(e) => {
                    let p = e + 1;
                    let kw = keyword_of(a.subrange(i + 2, p));
                    lemma_subrange_case(a, b, i + 2, p);
                    lemma_keyword_case(a.subrange(i + 2, p), b.subrange(i + 2, p));
                    assert forall|k: int| 0 <= k < len && a[k] != b[k] implies !(
                    #[trigger] step_content(a, p, kw, st).contains(k)) by {
                        assert(!content_positions(a, i, st).contains(k));
                    }
                    lemma_directive_step_same(a, b, p, kw, st);
                },
            }
        }
        assert(scan_step(a, i, st) == scan_step(b, i, st));
        if go_on && i < next <= len {
            assert forall|k: int| 0 <= k < len && a[k] != b[k] implies !(
            #[trigger] content_positions(a, next, st2).contains(k)) by {
                assert(!content_positions(a, i, st).contains(k));
            }
            lemma_scan_from_content(a, b, next, st2);
        }
    }
}

/// Changing the letter case of words the parse does not take as content leaves the parse
/// unchanged: where a lab file differs from another only in the case of letters that, once
/// comments are removed, the parse does not copy into a header, text, question, answer or
/// image path (directive names such as `#Section`, `#TEXT`, `#answerCorrect`, words the scan
/// steps over, words after the scan stopped), both parse alike. A line starting with `#`
/// directly after a `#Text` line is taken as content, and there case shows.
pub proof fn lemma_parse_case_outside_content(input: Seq<char>, t: Seq<char>)
    requires
        parse_defined(input),
        case_variant(input, t),
        forall|k: int|
            0 <= k < strip_comments(input).unwrap().len() && strip_comments(input).unwrap()[k]
                != strip_comments(t).unwrap()[k] ==> !(#[trigger] content_positions(
                strip_comments(input).unwrap(),
                0,
                (Seq::empty(), Seq::empty()),
            ).contains(k)),
    ensures
        parse_defined(t),
        parse_spec(t) == parse_spec(input),
{
    lemma_strip_case(input, t, 0);
    lemma_scan_from_content(
        strip_comments(input).unwrap(),
        strip_comments(t).unwrap(),
        0,
        (Seq::empty(), Seq::empty()),
    );
}

} // verus!
