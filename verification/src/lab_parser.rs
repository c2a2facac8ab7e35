//! The lab-file markup: `//` comments, `#Section`, `#Header`, `#Text`, `#Question`,
//! `#AnswerCorrect`, `#AnswerWrong` and `#Image` directives.
//!
//! The format is described by the spec functions below. `parse` turns a lab file into a
//! list of sections and, for every referenced image that cannot be found, an error message.
use vstd::prelude::*;

verus! {

/// Severity of a message handed back to the user interface.
#[derive(PartialEq, Eq, Structural, Clone, Copy, Debug)]
pub enum MessageType {
    Error,
    Default,
}

/// One piece of content of a lab section.
#[derive(Debug)]
pub enum Content {
    Question(String),
    Header(String),
    Text(String),
    Answer(String, bool),
    Image(String),
}

/// A lab section: the contents between two `#Section` directives.
#[derive(Debug)]
pub struct Section {
    pub contents: Vec<Content>,
}

/// The mathematical value of a piece of content.
pub enum ContentView {
    Question(Seq<char>),
    Header(Seq<char>),
    Text(Seq<char>),
    Answer(Seq<char>, bool),
    Image(Seq<char>),
}

impl View for Content {
    type V = ContentView;

    open spec fn view(&self) -> ContentView {
        match self {
            Content::Question(s) => ContentView::Question(s@),
            Content::Header(s) => ContentView::Header(s@),
            Content::Text(s) => ContentView::Text(s@),
            Content::Answer(s, b) => ContentView::Answer(s@, *b),
            Content::Image(s) => ContentView::Image(s@),
        }
    }
}

impl View for Section {
    type V = Seq<ContentView>;

    open spec fn view(&self) -> Seq<ContentView> {
        self.contents@.map_values(|c: Content| c@)
    }
}

/// The directive named after a `#`.
#[derive(PartialEq, Eq, Structural, Clone, Copy, Debug)]
pub enum Keyword {
    Section,
    Header,
    Text,
    Question,
    Image,
    AnswerCorrect,
    AnswerWrong,
    Other,
}

// ---------------------------------------------------------------------------------------
// Specification of the format
// ---------------------------------------------------------------------------------------

/// `tok` spells a word given in lower case `lower` and upper case `upper`, each letter in
/// either case.
pub open spec fn word_matches_ci(tok: Seq<char>, lower: Seq<char>, upper: Seq<char>) -> bool {
    &&& tok.len() == lower.len()
    &&& forall|k: int| 0 <= k < tok.len() ==> #[trigger] tok[k] == lower[k] || tok[k] == upper[k]
}

pub open spec fn kw_section() -> Seq<char> {
    seq!['s', 'e', 'c', 't', 'i', 'o', 'n']
}

pub open spec fn kw_section_upper() -> Seq<char> {
    seq!['S', 'E', 'C', 'T', 'I', 'O', 'N']
}

pub open spec fn kw_header() -> Seq<char> {
    seq!['h', 'e', 'a', 'd', 'e', 'r']
}

pub open spec fn kw_header_upper() -> Seq<char> {
    seq!['H', 'E', 'A', 'D', 'E', 'R']
}

pub open spec fn kw_text() -> Seq<char> {
    seq!['t', 'e', 'x', 't']
}

pub open spec fn kw_text_upper() -> Seq<char> {
    seq!['T', 'E', 'X', 'T']
}

pub open spec fn kw_question() -> Seq<char> {
    seq!['q', 'u', 'e', 's', 't', 'i', 'o', 'n']
}

pub open spec fn kw_question_upper() -> Seq<char> {
    seq!['Q', 'U', 'E', 'S', 'T', 'I', 'O', 'N']
}

pub open spec fn kw_image() -> Seq<char> {
    seq!['i', 'm', 'a', 'g', 'e']
}

pub open spec fn kw_image_upper() -> Seq<char> {
    seq!['I', 'M', 'A', 'G', 'E']
}

pub open spec fn kw_answer_correct() -> Seq<char> {
    seq!['a', 'n', 's', 'w', 'e', 'r', 'c', 'o', 'r', 'r', 'e', 'c', 't']
}

pub open spec fn kw_answer_correct_upper() -> Seq<char> {
    seq!['A', 'N', 'S', 'W', 'E', 'R', 'C', 'O', 'R', 'R', 'E', 'C', 'T']
}

pub open spec fn kw_answer_wrong() -> Seq<char> {
    seq!['a', 'n', 's', 'w', 'e', 'r', 'w', 'r', 'o', 'n', 'g']
}

pub open spec fn kw_answer_wrong_upper() -> Seq<char> {
    seq!['A', 'N', 'S', 'W', 'E', 'R', 'W', 'R', 'O', 'N', 'G']
}

/// The directive that a token names (directive names are case-insensitive).
pub open spec fn keyword_of(tok: Seq<char>) -> Keyword {
    if word_matches_ci(tok, kw_section(), kw_section_upper()) {
        Keyword::Section
    } else if word_matches_ci(tok, kw_header(), kw_header_upper()) {
        Keyword::Header
    } else if word_matches_ci(tok, kw_text(), kw_text_upper()) {
        Keyword::Text
    } else if word_matches_ci(tok, kw_question(), kw_question_upper()) {
        Keyword::Question
    } else if word_matches_ci(tok, kw_image(), kw_image_upper()) {
        Keyword::Image
    } else if word_matches_ci(tok, kw_answer_correct(), kw_answer_correct_upper()) {
        Keyword::AnswerCorrect
    } else if word_matches_ci(tok, kw_answer_wrong(), kw_answer_wrong_upper()) {
        Keyword::AnswerWrong
    } else {
        Keyword::Other
    }
}

/// The first position at or after `from` that holds a newline.
pub open spec fn find_newline(a: Seq<char>, from: int) -> Option<int>
    decreases a.len() - from,
{
    if from < 0 || from >= a.len() {
        None
    } else if a[from] == '\n' {
        Some(from)
    } else {
        find_newline(a, from + 1)
    }
}

/// The first position `e` at or after `from` that is followed by a space or a newline:
/// the last character of a directive name.
pub open spec fn find_token_end(a: Seq<char>, from: int) -> Option<int>
    decreases a.len() - from,
{
    if from < 0 || from >= a.len() {
        None
    } else if from + 1 < a.len() && (a[from + 1] == ' ' || a[from + 1] == '\n') {
        Some(from)
    } else {
        find_token_end(a, from + 1)
    }
}

/// The first position at or after `from` holding a newline that is followed by `#`:
/// the end of a block of text.
pub open spec fn find_block_end(a: Seq<char>, from: int) -> Option<int>
    decreases a.len() - from,
{
    if from < 0 || from >= a.len() {
        None
    } else if a[from] == '\n' && from + 1 < a.len() && a[from + 1] == '#' {
        Some(from)
    } else {
        find_block_end(a, from + 1)
    }
}

/// Comment removal, reading from position `k`: every `//` up to (not including) the next
/// newline is cut out. `None` where no such newline follows a `//`, or where a removed
/// comment leaves no character behind its newline (the scan reads past the end there).
pub open spec fn strip_comments_from(a: Seq<char>, k: int) -> Option<Seq<char>>
    decreases a.len() - k,
{
    if k < 0 || k >= a.len() {
        None
    } else if k + 1 >= a.len() {
        Some(a)
    } else if a[k] == '/' && a[k + 1] == '/' {
        match find_newline(a, k + 2) {
            None => None,
            Some(q) => {
                if k + 2 <= q < a.len() {
                    strip_comments_from(a.subrange(0, k) + a.subrange(q, a.len() as int), k + 1)
                } else {
                    None
                }
            },
        }
    } else {
        strip_comments_from(a, k + 1)
    }
}

/// The text left once comments are removed, where that removal is defined.
pub open spec fn strip_comments(a: Seq<char>) -> Option<Seq<char>> {
    strip_comments_from(a, 0)
}

/// An image reference met while parsing: the path, and whether the reference ran to the
/// end of the input (the two places produce differently worded errors).
pub type ImageRefView = (Seq<char>, bool);

/// The state the directive scan carries: the sections so far and the image references.
pub type ScanState = (Seq<Seq<ContentView>>, Seq<ImageRefView>);

/// Append `c` to the last section.
pub open spec fn push_content(secs: Seq<Seq<ContentView>>, c: ContentView) -> Seq<
    Seq<ContentView>,
> {
    secs.update(secs.len() - 1, secs.last().push(c))
}

/// Drop one leading space.
pub open spec fn trim_leading_space(s: Seq<char>) -> Seq<char> {
    if s.len() > 0 && s[0] == ' ' {
        s.drop_first()
    } else {
        s
    }
}

/// `a[s..e]`, empty where `s` is past the end.
pub open spec fn slice_or_empty(a: Seq<char>, s: int, e: int) -> Seq<char> {
    if s < e {
        a.subrange(s, e)
    } else {
        Seq::empty()
    }
}

pub open spec fn text_content(kw: Keyword, s: Seq<char>) -> ContentView {
    if kw == Keyword::Header {
        ContentView::Header(s)
    } else if kw == Keyword::Text {
        ContentView::Text(s)
    } else {
        ContentView::Question(s)
    }
}

/// One step of the scan after a directive name: `p` is the position just behind the name.
/// The result says whether the scan goes on, where, and with which state.
pub open spec fn directive_step(a: Seq<char>, p: int, kw: Keyword, st: ScanState) -> (
    bool,
    int,
    ScanState,
) {
    let (secs, imgs) = st;
    match kw {
        Keyword::Section => (true, p, (secs.push(Seq::empty()), imgs)),
        Keyword::Header | Keyword::Text | Keyword::Question => {
            if secs.len() == 0 {
                (true, p + 1, st)
            } else {
                let s = if a[p] == '\n' || a[p] == ' ' {
                    p + 1
                } else {
                    p
                };
                match find_block_end(a, s) {
                    None => (
                        false,
                        p,
                        (push_content(secs, text_content(kw, slice_or_empty(a, s, a.len() as int))), imgs),
                    ),
                    Some(q) => (true, q, (push_content(secs, text_content(kw, a.subrange(s, q))), imgs)),
                }
            }
        },
        Keyword::Image => {
            if secs.len() == 0 {
                (false, p, st)
            } else {
                let s = if a[p] == '\n' {
                    p + 1
                } else {
                    p
                };
                match find_newline(a, s) {
                    None => {
                        let path = trim_leading_space(slice_or_empty(a, s, a.len() as int));
                        (
                            false,
                            p,
                            (push_content(secs, ContentView::Image(path)), imgs.push((path, true))),
                        )
                    },
                    Some(q) => {
                        let path = trim_leading_space(a.subrange(s, q));
                        (
                            true,
                            q,
                            (push_content(secs, ContentView::Image(path)), imgs.push((path, false))),
                        )
                    },
                }
            }
        },
        Keyword::AnswerCorrect | Keyword::AnswerWrong => {
            if secs.len() == 0 {
                (false, p, st)
            } else {
                let correct = kw == Keyword::AnswerCorrect;
                let s = if a[p] == '\n' {
                    p + 2
                } else {
                    p
                };
                match find_block_end(a, s) {
                    None => (
                        false,
                        p,
                        (
                            push_content(
                                secs,
                                ContentView::Answer(slice_or_empty(a, s, a.len() as int), correct),
                            ),
                            imgs,
                        ),
                    ),
                    Some(q) => (
                        true,
                        q,
                        (push_content(secs, ContentView::Answer(a.subrange(s, q), correct)), imgs),
                    ),
                }
            }
        },
        Keyword::Other => (true, p + 1, st),
    }
}

/// One step of the directive scan at position `i` (which must be in range).
pub open spec fn scan_step(a: Seq<char>, i: int, st: ScanState) -> (bool, int, ScanState) {
    if a[i] == '/' && i + 1 < a.len() && a[i + 1] == '/' {
        match find_newline(a, i + 1) {
            None => (false, i, st),
            Some(q) => (true, q, st),
        }
    } else if a[i] == '\n' && i + 2 < a.len() && a[i + 1] == '#' {
        match find_token_end(a, i + 2) {
            None => (false, i, st),
            Some(e) => directive_step(a, e + 1, keyword_of(a.subrange(i + 2, e + 1)), st),
        }
    } else {
        (true, i + 1, st)
    }
}

/// The directive scan from position `i` with state `st`, run to its end.
pub open spec fn scan_from(a: Seq<char>, i: int, st: ScanState) -> ScanState
    decreases a.len() - i,
{
    if i < 0 || i >= a.len() {
        st
    } else {
        let (go_on, next, st2) = scan_step(a, i, st);
        if go_on && i < next <= a.len() {
            scan_from(a, next, st2)
        } else {
            st2
        }
    }
}

/// The sections and image references of a lab file whose comments are already removed.
pub open spec fn scan(a: Seq<char>) -> ScanState {
    scan_from(a, 0, (Seq::empty(), Seq::empty()))
}

/// A lab file can be parsed exactly when its comments can be removed.
pub open spec fn parse_defined(input: Seq<char>) -> bool {
    strip_comments(input) is Some
}

/// The sections and image references of a lab file (meaningful where `parse_defined`).
pub open spec fn parse_spec(input: Seq<char>) -> ScanState {
    scan(strip_comments(input).unwrap())
}


// ---------------------------------------------------------------------------------------
// Facts about the search functions
// ---------------------------------------------------------------------------------------

pub proof fn lemma_find_newline(a: Seq<char>, from: int)
    requires
        0 <= from,
    ensures
        find_newline(a, from) matches Some(q) ==> from <= q < a.len() && a[q] == '\n',
        find_newline(a, from) is None ==> forall|k: int|
            from <= k < a.len() ==> #[trigger] a[k] != '\n',
    decreases a.len() - from,
{
    if from >= 0 && from < a.len() && a[from] != '\n' {
        lemma_find_newline(a, from + 1);
    }
}

pub proof fn lemma_find_token_end(a: Seq<char>, from: int)
    ensures
        find_token_end(a, from) matches Some(e) ==> from <= e && e + 1 < a.len(),
    decreases a.len() - from,
{
    if from >= 0 && from < a.len() && !(from + 1 < a.len() && (a[from + 1] == ' ' || a[from
        + 1] == '\n')) {
        lemma_find_token_end(a, from + 1);
    }
}

pub proof fn lemma_find_block_end(a: Seq<char>, from: int)
    ensures
        find_block_end(a, from) matches Some(q) ==> from <= q && q + 1 < a.len() && a[q]
            == '\n',
    decreases a.len() - from,
{
    if from >= 0 && from < a.len() && !(a[from] == '\n' && from + 1 < a.len() && a[from + 1]
        == '#') {
        lemma_find_block_end(a, from + 1);
    }
}

// ---------------------------------------------------------------------------------------
// Executable parser
// ---------------------------------------------------------------------------------------

/// The character behind position `i`, if there is one.
pub fn peek(i: usize, buffer: &[char]) -> (r: Option<char>)
    requires
        i < usize::MAX,
    ensures
        i + 1 < buffer@.len() ==> r == Some(buffer@[i + 1]),
        i + 1 >= buffer@.len() ==> r is None,
{
    if i + 1 >= buffer.len() {
        None
    } else {
        Some(buffer[i + 1])
    }
}

/// Whether the character behind position `i` is `character`.
pub fn peek_is_char(i: usize, buffer: &[char], character: char) -> (r: bool)
    requires
        i < usize::MAX,
    ensures
        r == (i + 1 < buffer@.len() && buffer@[i + 1] == character),
{
    match peek(i, buffer) {
        Some(c) => c == character,
        None => false,
    }
}

/// The characters of a string, in order.
pub fn chars_of(input: &str) -> (v: Vec<char>)
    ensures
        v@ == input@,
{
    let mut v: Vec<char> = Vec::new();
    for c in it: input.chars()
        invariant
            v@ == it.seq().take(it.index() as int),
    {
        v.push(c);
    }
    v
}


/// First newline at or after `from`.
fn next_newline(a: &Vec<char>, from: usize) -> (r: Option<usize>)
    ensures
        r matches Some(q) ==> find_newline(a@, from as int) == Some(q as int),
        r is None ==> find_newline(a@, from as int) is None,
{
    let mut k = from;
    while k < a.len()
        invariant
            from <= k,
            find_newline(a@, from as int) == find_newline(a@, k as int),
        decreases a.len() - k,
    {
        if a[k] == '\n' {
            return Some(k);
        }
        k = k + 1;
    }
    None
}

/// Last character of a directive name starting at `from`.
fn next_token_end(a: &Vec<char>, from: usize) -> (r: Option<usize>)
    ensures
        r matches Some(e) ==> find_token_end(a@, from as int) == Some(e as int),
        r is None ==> find_token_end(a@, from as int) is None,
{
    let mut k = from;
    while k < a.len()
        invariant
            from <= k,
            find_token_end(a@, from as int) == find_token_end(a@, k as int),
        decreases a.len() - k,
    {
        if k + 1 < a.len() && (a[k + 1] == ' ' || a[k + 1] == '\n') {
            return Some(k);
        }
        k = k + 1;
    }
    None
}

/// End of a text block starting at `from`: a newline followed by `#`.
fn next_block_end(a: &Vec<char>, from: usize) -> (r: Option<usize>)
    ensures
        r matches Some(q) ==> find_block_end(a@, from as int) == Some(q as int),
        r is None ==> find_block_end(a@, from as int) is None,
{
    let mut k = from;
    while k < a.len()
        invariant
            from <= k,
            find_block_end(a@, from as int) == find_block_end(a@, k as int),
        decreases a.len() - k,
    {
        if a[k] == '\n' && k + 1 < a.len() && a[k + 1] == '#' {
            return Some(k);
        }
        k = k + 1;
    }
    None
}

/// `a[s..e]` compared with a word given in lower case and in upper case.
fn range_matches_word(a: &Vec<char>, s: usize, e: usize, lower: &Vec<char>, upper: &Vec<char>) -> (r: bool)
    requires
        s <= e <= a@.len(),
        lower@.len() == upper@.len(),
    ensures
        r == word_matches_ci(a@.subrange(s as int, e as int), lower@, upper@),
{
    if e - s != lower.len() {
        return false;
    }
    let mut k: usize = 0;
    while k < lower.len()
        invariant
            s <= e <= a@.len(),
            e - s == lower@.len(),
            lower@.len() == upper@.len(),
            k <= lower@.len(),
            forall|m: int| 0 <= m < k ==> a@[s + m] == lower@[m] || a@[s + m] == upper@[m],
        decreases lower.len() - k,
    {
        let c = a[s + k];
        if !(c == lower[k] || c == upper[k]) {
            assert(a@.subrange(s as int, e as int)[k as int] == a@[s + k]);
            return false;
        }
        k = k + 1;
    }
    assert forall|m: int| 0 <= m < a@.subrange(s as int, e as int).len() implies #[trigger] a@.subrange(
        s as int,
        e as int,
    )[m] == lower@[m] || a@.subrange(s as int, e as int)[m] == upper@[m] by {
        assert(a@.subrange(s as int, e as int)[m] == a@[s + m]);
    }
    true
}

/// The directive named by `a[s..e]`.
fn keyword_at(a: &Vec<char>, s: usize, e: usize) -> (kw: Keyword)
    requires
        s <= e <= a@.len(),
    ensures
        kw == keyword_of(a@.subrange(s as int, e as int)),
{
    let w = vec!['s', 'e', 'c', 't', 'i', 'o', 'n'];
    let u = vec!['S', 'E', 'C', 'T', 'I', 'O', 'N'];
    assert(w@ =~= kw_section());
    assert(u@ =~= kw_section_upper());
    if range_matches_word(a, s, e, &w, &u) {
        return Keyword::Section;
    }
    let w = vec!['h', 'e', 'a', 'd', 'e', 'r'];
    let u = vec!['H', 'E', 'A', 'D', 'E', 'R'];
    assert(w@ =~= kw_header());
    assert(u@ =~= kw_header_upper());
    if range_matches_word(a, s, e, &w, &u) {
        return Keyword::Header;
    }
    let w = vec!['t', 'e', 'x', 't'];
    let u = vec!['T', 'E', 'X', 'T'];
    assert(w@ =~= kw_text());
    assert(u@ =~= kw_text_upper());
    if range_matches_word(a, s, e, &w, &u) {
        return Keyword::Text;
    }
    let w = vec!['q', 'u', 'e', 's', 't', 'i', 'o', 'n'];
    let u = vec!['Q', 'U', 'E', 'S', 'T', 'I', 'O', 'N'];
    assert(w@ =~= kw_question());
    assert(u@ =~= kw_question_upper());
    if range_matches_word(a, s, e, &w, &u) {
        return Keyword::Question;
    }
    let w = vec!['i', 'm', 'a', 'g', 'e'];
    let u = vec!['I', 'M', 'A', 'G', 'E'];
    assert(w@ =~= kw_image());
    assert(u@ =~= kw_image_upper());
    if range_matches_word(a, s, e, &w, &u) {
        return Keyword::Image;
    }
    let w = vec!['a', 'n', 's', 'w', 'e', 'r', 'c', 'o', 'r', 'r', 'e', 'c', 't'];
    let u = vec!['A', 'N', 'S', 'W', 'E', 'R', 'C', 'O', 'R', 'R', 'E', 'C', 'T'];
    assert(w@ =~= kw_answer_correct());
    assert(u@ =~= kw_answer_correct_upper());
    if range_matches_word(a, s, e, &w, &u) {
        return Keyword::AnswerCorrect;
    }
    let w = vec!['a', 'n', 's', 'w', 'e', 'r', 'w', 'r', 'o', 'n', 'g'];
    let u = vec!['A', 'N', 'S', 'W', 'E', 'R', 'W', 'R', 'O', 'N', 'G'];
    assert(w@ =~= kw_answer_wrong());
    assert(u@ =~= kw_answer_wrong_upper());
    if range_matches_word(a, s, e, &w, &u) {
        return Keyword::AnswerWrong;
    }
    Keyword::Other
}

/// Appends `c` to `s`, by `String::push`.
#[verifier::external_body]
fn push_char(s: &mut String, c: char)
    ensures
        final(s)@ == old(s)@.push(c),
{
    s.push(c);
}

/// A `String` holding the given characters.
pub(crate) fn string_from_chars(chars: &[char]) -> (s: String)
    ensures
        s@ == chars@,
{
    let mut s = String::new();
    let mut k: usize = 0;
    while k < chars.len()
        invariant
            k <= chars@.len(),
            s@ == chars@.take(k as int),
        decreases chars.len() - k,
    {
        push_char(&mut s, chars[k]);
        k = k + 1;
        assert(s@ =~= chars@.take(k as int));
    }
    assert(chars@.take(k as int) =~= chars@);
    s
}

/// A `String` holding `a[s..e]`.
fn string_of_range(a: &Vec<char>, s: usize, e: usize) -> (r: String)
    requires
        s <= e <= a@.len(),
    ensures
        r@ == a@.subrange(s as int, e as int),
{
    let mut v: Vec<char> = Vec::new();
    let mut k = s;
    while k < e
        invariant
            s <= k <= e <= a@.len(),
            v@ == a@.subrange(s as int, k as int),
        decreases e - k,
    {
        v.push(a[k]);
        k = k + 1;
        assert(v@ =~= a@.subrange(s as int, k as int));
    }
    string_from_chars(v.as_slice())
}


/// `a` with `a[k..q]` cut out.
fn cut_range(a: &Vec<char>, k: usize, q: usize) -> (v: Vec<char>)
    requires
        k <= q <= a@.len(),
    ensures
        v@ == a@.subrange(0, k as int) + a@.subrange(q as int, a@.len() as int),
{
    let mut v: Vec<char> = Vec::new();
    let mut m: usize = 0;
    while m < k
        invariant
            m <= k <= q <= a@.len(),
            v@ == a@.subrange(0, m as int),
        decreases k - m,
    {
        v.push(a[m]);
        m = m + 1;
        assert(v@ =~= a@.subrange(0, m as int));
    }
    let mut m: usize = q;
    while m < a.len()
        invariant
            k <= q <= m <= a@.len(),
            v@ == a@.subrange(0, k as int) + a@.subrange(q as int, m as int),
        decreases a.len() - m,
    {
        v.push(a[m]);
        m = m + 1;
        assert(v@ =~= a@.subrange(0, k as int) + a@.subrange(q as int, m as int));
    }
    v
}

/// Removes the `//` comments of a lab file; `None` exactly where `strip_comments` is
/// undefined.
pub fn strip_lab_comments(input: Vec<char>) -> (r: Option<Vec<char>>)
    ensures
        r matches Some(v) ==> strip_comments(input@) == Some(v@),
        r is None ==> strip_comments(input@) is None,
{
    let mut a = input;
    let mut k: usize = 0;
    loop
        invariant
            strip_comments_from(a@, k as int) == strip_comments(input@),
        decreases a@.len() - k,
    {
        if k >= a.len() {
            return None;
        }
        if k + 1 >= a.len() {
            return Some(a);
        }
        if a[k] == '/' && a[k + 1] == '/' {
            match next_newline(&a, k + 2) {
                None => {
                    return None;
                },
                Some(q) => {
                    proof {
                        lemma_find_newline(a@, k + 2);
                    }
                    a = cut_range(&a, k, q);
                    k = k + 1;
                },
            }
        } else {
            k = k + 1;
        }
    }
}

/// Whether a lab file can be parsed (see `parse`).
pub fn lab_text_is_parsable(input: &str) -> (r: bool)
    ensures
        r == parse_defined(input@),
{
    strip_lab_comments(chars_of(input)).is_some()
}

pub open spec fn sections_view(v: Seq<Section>) -> Seq<Seq<ContentView>> {
    v.map_values(|s: Section| s@)
}

pub open spec fn image_refs_view(v: Seq<(String, bool)>) -> Seq<ImageRefView> {
    v.map_values(|p: (String, bool)| (p.0@, p.1))
}

/// Appends `c` to the last section.
fn push_to_last(rt: &mut Vec<Section>, c: Content)
    requires
        old(rt)@.len() > 0,
    ensures
        sections_view(final(rt)@) == push_content(sections_view(old(rt)@), c@),
{
    let ghost old_view = sections_view(rt@);
    let mut last = rt.pop().unwrap();
    let ghost last_view = last@;
    last.contents.push(c);
    assert(last@ =~= last_view.push(c@));
    rt.push(last);
    assert(sections_view(rt@) =~= push_content(old_view, c@));
}

/// One step of the directive scan at position `i`: whether the scan goes on, and where.
fn scan_one(a: &Vec<char>, i: usize, rt: &mut Vec<Section>, imgs: &mut Vec<(String, bool)>) -> (r: (bool, usize))
    requires
        i < a@.len(),
    ensures
        scan_step(a@, i as int, (sections_view(old(rt)@), image_refs_view(old(imgs)@))) == (
            r.0,
            r.1 as int,
            (sections_view(final(rt)@), image_refs_view(final(imgs)@)),
        ),
        r.0 ==> i < r.1 <= a@.len(),
{
    let len = a.len();
        let c = a[i];
        if c == '/' && peek_is_char(i, a.as_slice(), '/') {
            match next_newline(a, i + 1) {
                None => {
                    return (false, i);
                },
                Some(q) => {
                    proof {
                        lemma_find_newline(a@, i + 1);
                    }
                    return (true, q);
                },
            }
        } else if c == '\n' && len - i > 2 && peek_is_char(i, a.as_slice(), '#') {
            match next_token_end(a, i + 2) {
                None => {
                    return (false, i);
                },
                Some(e) => {
                    proof {
                        lemma_find_token_end(a@, i + 2);
                    }
                    let p = e + 1;
                    let kw = keyword_at(a, i + 2, p);
                    match kw {
                        Keyword::Section => {
                            let ghost sv = sections_view(rt@);
                            rt.push(Section { contents: Vec::new() });
                            assert(sections_view(rt@) =~= sv.push(Seq::empty())) by {
                                assert(rt@.last()@ =~= Seq::<ContentView>::empty());
                            }
                            return (true, p);
                        },
                        Keyword::Header | Keyword::Text | Keyword::Question => {
                            if rt.len() == 0 {
                                return (true, p + 1);
                            } else {
                                let s = if a[p] == '\n' || a[p] == ' ' {
                                    p + 1
                                } else {
                                    p
                                };
                                match next_block_end(a, s) {
                                    None => {
                                        let text = string_of_range(a, s, len);
                                        assert(slice_or_empty(a@, s as int, len as int) =~= text@);
                                        let content = match kw {
                                            Keyword::Header => Content::Header(text),
                                            Keyword::Text => Content::Text(text),
                                            _ => Content::Question(text),
                                        };
                                        push_to_last(rt, content);
                                        return (false, p);
                                    },
                                    Some(q) => {
                                        proof {
                                            lemma_find_block_end(a@, s as int);
                                        }
                                        let text = string_of_range(a, s, q);
                                        let content = match kw {
                                            Keyword::Header => Content::Header(text),
                                            Keyword::Text => Content::Text(text),
                                            _ => Content::Question(text),
                                        };
                                        push_to_last(rt, content);
                                        return (true, q);
                                    },
                                }
                            }
                        },
                        Keyword::Image => {
                            if rt.len() == 0 {
                                return (false, p);
                            }
                            let s = if a[p] == '\n' {
                                p + 1
                            } else {
                                p
                            };
                            let found = next_newline(a, s);
                            let (e, at_end) = match found {
                                None => (len, true),
                                Some(q) => (q, false),
                            };
                            proof {
                                lemma_find_newline(a@, s as int);
                            }
                            let s2 = if s < e && a[s] == ' ' {
                                s + 1
                            } else {
                                s
                            };
                            assert(trim_leading_space(slice_or_empty(a@, s as int, e as int))
                                =~= a@.subrange(s2 as int, e as int));
                            let path = string_of_range(a, s2, e);
                            let path_copy = string_of_range(a, s2, e);
                            let ghost iv = image_refs_view(imgs@);
                            imgs.push((path_copy, at_end));
                            assert(image_refs_view(imgs@) =~= iv.push((path@, at_end)));
                            push_to_last(rt, Content::Image(path));
                            if at_end {
                                return (false, p);
                            }
                            return (true, e);
                        },
                        Keyword::AnswerCorrect | Keyword::AnswerWrong => {
                            if rt.len() == 0 {
                                return (false, p);
                            }
                            let correct = match kw {
                                Keyword::AnswerCorrect => true,
                                _ => false,
                            };
                            let s = if a[p] == '\n' {
                                if p + 1 < len {
                                    p + 2
                                } else {
                                    len
                                }
                            } else {
                                p
                            };
                            match next_block_end(a, s) {
                                None => {
                                    let text = string_of_range(a, s, len);
                                    assert(slice_or_empty(
                                        a@,
                                        if a@[p as int] == '\n' {
                                            p + 2
                                        } else {
                                            p as int
                                        },
                                        len as int,
                                    ) =~= text@);
                                    push_to_last(rt, Content::Answer(text, correct));
                                    return (false, p);
                                },
                                Some(q) => {
                                    proof {
                                        lemma_find_block_end(a@, s as int);
                                    }
                                    let text = string_of_range(a, s, q);
                                    push_to_last(rt, Content::Answer(text, correct));
                                    return (true, q);
                                },
                            }
                        },
                        Keyword::Other => {
                            return (true, p + 1);
                        },
                    }
                },
            }
        } else {
            return (true, i + 1);
        }
}

/// Runs the directive scan over a lab file whose comments are removed: the sections, and
/// the image references with the flag saying whether the reference ran to the end.
pub fn scan_directives(a: &Vec<char>) -> (r: (Vec<Section>, Vec<(String, bool)>))
    ensures
        (sections_view(r.0@), image_refs_view(r.1@)) == scan(a@),
{
    let mut rt: Vec<Section> = Vec::new();
    let mut imgs: Vec<(String, bool)> = Vec::new();
    let mut i: usize = 0;
    let ghost total = scan(a@);
    assert(sections_view(rt@) =~= Seq::<Seq<ContentView>>::empty());
    assert(image_refs_view(imgs@) =~= Seq::<ImageRefView>::empty());
    while i < a.len()
        invariant
            i <= a@.len(),
            total == scan(a@),
            scan_from(a@, i as int, (sections_view(rt@), image_refs_view(imgs@))) == total,
        decreases a@.len() - i,
    {
        let ghost st0 = (sections_view(rt@), image_refs_view(imgs@));
        let (go_on, next) = scan_one(a, i, &mut rt, &mut imgs);
        assert(scan_from(a@, i as int, st0) == if go_on {
            scan_from(a@, next as int, (sections_view(rt@), image_refs_view(imgs@)))
        } else {
            (sections_view(rt@), image_refs_view(imgs@))
        });
        if !go_on {
            return (rt, imgs);
        }
        i = next;
    }
    (rt, imgs)
}


/// The message reporting a missing image: worded after whether the reference ran to the
/// end of the file.
pub open spec fn image_error_text(path: Seq<char>, at_end: bool) -> Seq<char> {
    if at_end {
        "Error:  "@ + path + " does not exist"@
    } else {
        "Error:  Image file, "@ + path + ", does not exist."@
    }
}

/// The error messages for image references `refs`, where `found[k]` says whether the
/// `k`-th image exists: one error, in order, for each image that does not.
pub open spec fn image_errors(refs: Seq<ImageRefView>, found: Seq<bool>) -> Seq<
    (MessageType, Seq<char>),
>
    decreases refs.len(),
{
    if refs.len() == 0 {
        Seq::empty()
    } else {
        let rest = image_errors(refs.drop_last(), found.drop_last());
        if found.last() {
            rest
        } else {
            rest.push((MessageType::Error, image_error_text(refs.last().0, refs.last().1)))
        }
    }
}

pub open spec fn messages_view(v: Seq<(MessageType, String)>) -> Seq<(MessageType, Seq<char>)> {
    v.map_values(|m: (MessageType, String)| (m.0, m.1@))
}

/// Whether a file exists at `path`. This depends on the file system, so nothing is stated
/// of the answer.
#[verifier::external_body]
fn path_exists(path: &str) -> bool {
    std::path::Path::new(path).exists()
}

/// The message for a missing image.
fn image_error_message(path: &String, at_end: bool) -> (m: String)
    ensures
        m@ == image_error_text(path@, at_end),
{
    if at_end {
        let mut m = String::from_str("Error:  ");
        m.append(path.as_str());
        m.append(" does not exist");
        m
    } else {
        let mut m = String::from_str("Error:  Image file, ");
        m.append(path.as_str());
        m.append(", does not exist.");
        m
    }
}

/// The error messages for the image references `refs`, where `found[k]` says whether the
/// `k`-th referenced image exists: one message, in order, for each that does not.
pub fn missing_image_errors(refs: &Vec<(String, bool)>, found: &Vec<bool>) -> (errs: Vec<
    (MessageType, String),
>)
    requires
        found@.len() == refs@.len(),
    ensures
        messages_view(errs@) == image_errors(image_refs_view(refs@), found@),
{
    let mut errs: Vec<(MessageType, String)> = Vec::new();
    let mut k: usize = 0;
    assert(messages_view(errs@) =~= image_errors(
        image_refs_view(refs@).take(0),
        found@.take(0),
    ));
    while k < refs.len()
        invariant
            k <= refs@.len(),
            found@.len() == refs@.len(),
            messages_view(errs@) == image_errors(
                image_refs_view(refs@).take(k as int),
                found@.take(k as int),
            ),
        decreases refs.len() - k,
    {
        assert(image_refs_view(refs@).take(k + 1).drop_last() =~= image_refs_view(refs@).take(
            k as int,
        ));
        assert(found@.take(k + 1).drop_last() =~= found@.take(k as int));
        if !found[k] {
            let m = image_error_message(&refs[k].0, refs[k].1);
            let ghost mv = messages_view(errs@);
            errs.push((MessageType::Error, m));
            assert(messages_view(errs@) =~= mv.push((MessageType::Error, m@)));
        }
        k = k + 1;
    }
    assert(image_refs_view(refs@).take(k as int) =~= image_refs_view(refs@));
    assert(found@.take(k as int) =~= found@);
    errs
}

/// Parses a lab file into its sections; each image that is referenced but cannot be found
/// on disk gets an error message, in the order of the references.
///
/// Directives start a line with `#`; text after `//` up to the end of the line is a comment.
pub fn parse(input: &str) -> (r: (Vec<Section>, Vec<(MessageType, String)>))
    requires
        parse_defined(input@),
    ensures
        sections_view(r.0@) == parse_spec(input@).0,
        exists|found: Seq<bool>|
            found.len() == parse_spec(input@).1.len() && messages_view(r.1@) == image_errors(
                parse_spec(input@).1,
                found,
            ),
{
    let arr = strip_lab_comments(chars_of(input)).unwrap();
    let (sections, refs) = scan_directives(&arr);
    let mut found: Vec<bool> = Vec::new();
    let mut k: usize = 0;
    while k < refs.len()
        invariant
            k <= refs@.len(),
            found@.len() == k,
        decreases refs.len() - k,
    {
        found.push(path_exists(refs[k].0.as_str()));
        k = k + 1;
    }
    let errs = missing_image_errors(&refs, &found);
    assert(found@.len() == parse_spec(input@).1.len() && messages_view(errs@) == image_errors(
        parse_spec(input@).1,
        found@,
    ));
    (sections, errs)
}


// ---------------------------------------------------------------------------------------
// Image references and the images in the sections
// ---------------------------------------------------------------------------------------

/// The paths of the images among `cs`, in order.
pub open spec fn images_of(cs: Seq<ContentView>) -> Seq<Seq<char>>
    decreases cs.len(),
{
    if cs.len() == 0 {
        Seq::empty()
    } else {
        images_of(cs.drop_last()) + match cs.last() {
            ContentView::Image(p) => seq![p],
            _ => Seq::empty(),
        }
    }
}

/// The paths of the images in all sections, in order.
pub open spec fn section_images(secs: Seq<Seq<ContentView>>) -> Seq<Seq<char>>
    decreases secs.len(),
{
    if secs.len() == 0 {
        Seq::empty()
    } else {
        section_images(secs.drop_last()) + images_of(secs.last())
    }
}

pub open spec fn ref_paths(refs: Seq<ImageRefView>) -> Seq<Seq<char>> {
    refs.map_values(|r: ImageRefView| r.0)
}

pub open spec fn images_agree(st: ScanState) -> bool {
    section_images(st.0) == ref_paths(st.1)
}

proof fn lemma_push_content_images(secs: Seq<Seq<ContentView>>, c: ContentView)
    requires
        secs.len() > 0,
    ensures
        section_images(push_content(secs, c)) == section_images(secs) + match c {
            ContentView::Image(p) => seq![p],
            _ => Seq::empty(),
        },
{
    let n = push_content(secs, c);
    assert(n.drop_last() =~= secs.drop_last());
    assert(n.last() == secs.last().push(c));
    assert(secs.last().push(c).drop_last() =~= secs.last());
    assert(section_images(n) =~= section_images(secs) + match c {
        ContentView::Image(p) => seq![p],
        _ => Seq::empty(),
    });
}

proof fn lemma_scan_step_images(a: Seq<char>, i: int, st: ScanState)
    requires
        0 <= i < a.len(),
        images_agree(st),
    ensures
        images_agree(scan_step(a, i, st).2),
{
    let (secs, imgs) = st;
    assert(section_images(secs.push(Seq::empty())) =~= section_images(secs)) by {
        assert(secs.push(Seq::<ContentView>::empty()).drop_last() =~= secs);
    }
    if secs.len() > 0 {
        let tok_end = find_token_end(a, i + 2);
        if a[i] == '\n' && i + 2 < a.len() && a[i + 1] == '#' && tok_end is Some {
            let p = tok_end.unwrap() + 1;
            let kw = keyword_of(a.subrange(i + 2, p));
            let r = directive_step(a, p, kw, st);
            match kw {
                Keyword::Header | Keyword::Text | Keyword::Question => {
                    let s = if a[p] == '\n' || a[p] == ' ' {
                        p + 1
                    } else {
                        p
                    };
                    match find_block_end(a, s) {
                        None => lemma_push_content_images(
                            secs,
                            text_content(kw, slice_or_empty(a, s, a.len() as int)),
                        ),
                        Some(q) => lemma_push_content_images(
                            secs,
                            text_content(kw, a.subrange(s, q)),
                        ),
                    }
                },
                Keyword::Image => {
                    let s = if a[p] == '\n' {
                        p + 1
                    } else {
                        p
                    };
                    let path = match find_newline(a, s) {
                        None => trim_leading_space(slice_or_empty(a, s, a.len() as int)),
                        Some(q) => trim_leading_space(a.subrange(s, q)),
                    };
                    lemma_push_content_images(secs, ContentView::Image(path));
                    assert(ref_paths(r.2.1) =~= ref_paths(imgs).push(path));
                },
                Keyword::AnswerCorrect | Keyword::AnswerWrong => {
                    let correct = kw == Keyword::AnswerCorrect;
                    let s = if a[p] == '\n' {
                        p + 2
                    } else {
                        p
                    };
                    match find_block_end(a, s) {
                        None => lemma_push_content_images(
                            secs,
                            ContentView::Answer(slice_or_empty(a, s, a.len() as int), correct),
                        ),
                        Some(q) => lemma_push_content_images(
                            secs,
                            ContentView::Answer(a.subrange(s, q), correct),
                        ),
                    }
                },
                _ => {},
            }
        }
    }
}

proof fn lemma_scan_from_images(a: Seq<char>, i: int, st: ScanState)
    requires
        images_agree(st),
    ensures
        images_agree(scan_from(a, i, st)),
    decreases a.len() - i,
{
    if 0 <= i < a.len() {
        lemma_scan_step_images(a, i, st);
        let (go_on, next, st2) = scan_step(a, i, st);
        if go_on && i < next <= a.len() {
            lemma_scan_from_images(a, next, st2);
        }
    }
}

/// The image names in `sections`, in order: what the panels of a lab load, one by one.
pub fn section_image_names(sections: &Vec<Section>) -> (v: Vec<String>)
    ensures
        v@.map_values(|s: String| s@) == section_images(sections_view(sections@)),
{
    let ghost secs = sections_view(sections@);
    let mut v: Vec<String> = Vec::new();
    let mut i: usize = 0;
    assert(secs.take(0) =~= Seq::<Seq<ContentView>>::empty());
    assert(v@.map_values(|s: String| s@) =~= Seq::<Seq<char>>::empty());
    while i < sections.len()
        invariant
            i <= sections@.len(),
            secs == sections_view(sections@),
            v@.map_values(|s: String| s@) == section_images(secs.take(i as int)),
        decreases sections.len() - i,
    {
        let ghost before = v@.map_values(|s: String| s@);
        let cs = &sections[i].contents;
        let ghost csv = secs[i as int];
        assert(csv == cs@.map_values(|c: Content| c@));
        let mut j: usize = 0;
        assert(csv.take(0) =~= Seq::<ContentView>::empty());
        assert(before + images_of(csv.take(0)) =~= before);
        while j < cs.len()
            invariant
                j <= cs@.len(),
                csv == cs@.map_values(|c: Content| c@),
                v@.map_values(|s: String| s@) == before + images_of(csv.take(j as int)),
            decreases cs.len() - j,
        {
            assert(csv.take(j + 1).drop_last() =~= csv.take(j as int));
            let ghost prev = v@.map_values(|s: String| s@);
            match &cs[j] {
                Content::Image(name) => {
                    v.push(name.clone());
                    assert(v@.map_values(|s: String| s@) =~= prev.push(name@));
                    assert(before + images_of(csv.take(j + 1)) =~= before + images_of(
                        csv.take(j as int),
                    ) + seq![name@]);
                },
                _ => {
                    assert(before + images_of(csv.take(j + 1)) =~= before + images_of(
                        csv.take(j as int),
                    ));
                },
            }
            j = j + 1;
        }
        assert(csv.take(j as int) =~= csv);
        assert(secs.take(i + 1).drop_last() =~= secs.take(i as int));
        assert(secs.take(i + 1).last() == csv);
        i = i + 1;
    }
    assert(secs.take(i as int) =~= secs);
    v
}

/// Every image reference of a lab file names an image content of its sections, and the
/// other way round: the image paths in the sections, in order, are the referenced paths,
/// in order. So each missing-image error speaks of an image that the sections show.
pub proof fn lemma_parse_images_match(input: Seq<char>)
    requires
        parse_defined(input),
    ensures
        section_images(parse_spec(input).0) == ref_paths(parse_spec(input).1),
{
    let st: ScanState = (Seq::empty(), Seq::empty());
    assert(ref_paths(st.1) =~= Seq::<Seq<char>>::empty());
    lemma_scan_from_images(strip_comments(input).unwrap(), 0, st);
}

} // verus!
