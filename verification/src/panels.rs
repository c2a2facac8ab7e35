//! Panels: the pages of a lab as shown to the student, built from the parsed sections.
use vstd::prelude::*;

use crate::bitmap::{DecodedImage, TGBitmap, TGBitmapFileHeader, TGBitmapHeaderInfo, converted_byte};
use crate::lab_parser::{
    Content,
    ContentView,
    MessageType,
    Section,
    messages_view,
    section_images,
    sections_view,
};

verus! {

/// A multiple-choice question with its choices and the index of the correct one.
pub struct MultiQuestion {
    pub question: String,
    pub choices: Vec<String>,
    pub answer_index: Option<usize>,
    pub number_chances: usize,
    pub answers: Vec<usize>,
}

impl MultiQuestion {
    /// A question with no text and no choices; three chances to answer.
    pub fn new() -> (q: MultiQuestion)
        ensures
            q@ == (QuestionView {
                question: Seq::empty(),
                choices: Seq::empty(),
                answer_index: None,
                number_chances: 3,
                answers: Seq::empty(),
            }),
    {
        let q = MultiQuestion {
            question: String::new(),
            choices: Vec::new(),
            answer_index: None,
            number_chances: 3,
            answers: Vec::new(),
        };
        assert(q@.choices =~= Seq::<Seq<char>>::empty());
        q
    }
}

/// A piece of a panel.
pub enum PanelContent {
    Header(String),
    Text(String),
    Image(TGBitmap),
    Question(MultiQuestion),
}

/// A page of the lab.
pub struct Panel {
    pub contents: Vec<PanelContent>,
}

/// What became of loading an image file named in the lab text.
pub enum ImageLoad {
    /// The file could not be opened.
    Missing,
    /// The file was read but could not be decoded.
    Undecodable,
    /// The decoded image.
    Decoded(DecodedImage),
}

pub struct QuestionView {
    pub question: Seq<char>,
    pub choices: Seq<Seq<char>>,
    pub answer_index: Option<usize>,
    pub number_chances: usize,
    pub answers: Seq<usize>,
}

impl View for MultiQuestion {
    type V = QuestionView;

    open spec fn view(&self) -> QuestionView {
        QuestionView {
            question: self.question@,
            choices: self.choices@.map_values(|s: String| s@),
            answer_index: self.answer_index,
            number_chances: self.number_chances,
            answers: self.answers@,
        }
    }
}

pub struct BitmapView {
    pub file_header: TGBitmapFileHeader,
    pub info_header: TGBitmapHeaderInfo,
    pub rgba: Seq<u8>,
    pub width: i32,
    pub height: i32,
}

pub open spec fn bitmap_view(b: TGBitmap) -> BitmapView {
    BitmapView {
        file_header: b.file_header,
        info_header: b.info_header,
        rgba: b.rgba@,
        width: b.width,
        height: b.height,
    }
}

pub enum PanelContentView {
    Header(Seq<char>),
    Text(Seq<char>),
    Image(BitmapView),
    Question(QuestionView),
}

impl View for PanelContent {
    type V = PanelContentView;

    open spec fn view(&self) -> PanelContentView {
        match self {
            PanelContent::Header(s) => PanelContentView::Header(s@),
            PanelContent::Text(s) => PanelContentView::Text(s@),
            PanelContent::Image(b) => PanelContentView::Image(bitmap_view(*b)),
            PanelContent::Question(q) => PanelContentView::Question(q@),
        }
    }
}

impl View for Panel {
    type V = Seq<PanelContentView>;

    open spec fn view(&self) -> Seq<PanelContentView> {
        self.contents@.map_values(|c: PanelContent| c@)
    }
}

pub open spec fn panels_view(v: Seq<Panel>) -> Seq<Seq<PanelContentView>> {
    v.map_values(|p: Panel| p@)
}

pub enum ImageLoadView {
    Missing,
    Undecodable,
    Decoded(i32, i32, Seq<u8>),
}

impl View for ImageLoad {
    type V = ImageLoadView;

    open spec fn view(&self) -> ImageLoadView {
        match self {
            ImageLoad::Missing => ImageLoadView::Missing,
            ImageLoad::Undecodable => ImageLoadView::Undecodable,
            ImageLoad::Decoded(im) => ImageLoadView::Decoded(im.width, im.height, im.buffer@),
        }
    }
}

// ---------------------------------------------------------------------------------------
// Decimal numbers
// ---------------------------------------------------------------------------------------

pub open spec fn digit_char(d: nat) -> char {
    if d == 0 {
        '0'
    } else if d == 1 {
        '1'
    } else if d == 2 {
        '2'
    } else if d == 3 {
        '3'
    } else if d == 4 {
        '4'
    } else if d == 5 {
        '5'
    } else if d == 6 {
        '6'
    } else if d == 7 {
        '7'
    } else if d == 8 {
        '8'
    } else {
        '9'
    }
}

/// The decimal digits of `n`.
pub open spec fn decimal(n: nat) -> Seq<char>
    decreases n,
{
    if n < 10 {
        seq![digit_char(n)]
    } else {
        decimal(n / 10).push(digit_char(n % 10))
    }
}

fn digit(d: usize) -> (c: char)
    requires
        d < 10,
    ensures
        c == digit_char(d as nat),
{
    if d == 0 {
        '0'
    } else if d == 1 {
        '1'
    } else if d == 2 {
        '2'
    } else if d == 3 {
        '3'
    } else if d == 4 {
        '4'
    } else if d == 5 {
        '5'
    } else if d == 6 {
        '6'
    } else if d == 7 {
        '7'
    } else if d == 8 {
        '8'
    } else {
        '9'
    }
}

fn decimal_chars(n: usize) -> (v: Vec<char>)
    ensures
        v@ == decimal(n as nat),
    decreases n,
{
    if n < 10 {
        vec![digit(n)]
    } else {
        let mut v = decimal_chars(n / 10);
        v.push(digit(n % 10));
        v
    }
}

/// The decimal form of `n`.
pub fn decimal_string(n: usize) -> (s: String)
    ensures
        s@ == decimal(n as nat),
{
    let v = decimal_chars(n);
    crate::lab_parser::string_from_chars(v.as_slice())
}

// ---------------------------------------------------------------------------------------
// Specification of panel assembly
// ---------------------------------------------------------------------------------------

/// The message for an image that was found but could not be decoded.
pub open spec fn undecodable_image_text(path: Seq<char>, panel: nat) -> Seq<char> {
    "Error:  Image, "@ + path + ", on panel "@ + decimal(panel) + ", could not be opened by program."@
}

/// The message for a question without a correct answer.
pub open spec fn unanswerable_question_text(panel: nat) -> Seq<char> {
    "Error:  Question in panel("@ + decimal(panel) + "), has no correct answer."@
}

/// The bitmap built from a decoded image: rows put bottom first, red and blue swapped.
pub open spec fn decoded_bitmap(w: i32, h: i32, buffer: Seq<u8>) -> BitmapView {
    BitmapView {
        file_header: TGBitmapFileHeader {
            type_: 0,
            size_: 0,
            reserved_1: 0,
            reserved_2: 0,
            off_bits: 0,
        },
        info_header: TGBitmapHeaderInfo {
            header_size: 0,
            width: w,
            height: h,
            planes: 1,
            bit_per_pixel: 32,
            compression: 0,
            image_size: 0,
            x_px_per_meter: 0,
            y_px_per_meter: 0,
            colors_used: 0,
            colors_important: 0,
        },
        rgba: Seq::new(
            (if h <= 0 {
                0
            } else {
                4 * w * h
            }) as nat,
            |k: int| converted_byte(buffer, w as int, h as int, k),
        ),
        width: w,
        height: h,
    }
}

/// A decoded image can be turned into a bitmap: its pixel data covers its size (a height
/// of -1 or 0 gives an empty bitmap).
pub open spec fn decoded_ok(w: i32, h: i32, buffer: Seq<u8>) -> bool {
    ||| h == -1
    ||| h == 0
    ||| (0 <= w && 0 < h < i32::MAX && 4 * w * h <= buffer.len())
}

/// State of assembling one panel: its contents so far, the position of the question that
/// answers attach to, the number of images consumed so far, and the errors so far.
pub struct AssemblyState {
    pub contents: Seq<PanelContentView>,
    pub question_at: Option<int>,
    pub images_used: int,
    pub errors: Seq<(MessageType, Seq<char>)>,
}

pub open spec fn fresh_question(s: Seq<char>) -> QuestionView {
    QuestionView {
        question: s,
        choices: Seq::empty(),
        answer_index: None,
        number_chances: 3,
        answers: Seq::empty(),
    }
}

/// Adds answer `s` (correct or not) to question `q`.
pub open spec fn add_answer(q: QuestionView, s: Seq<char>, correct: bool) -> QuestionView {
    QuestionView {
        choices: q.choices.push(s),
        answer_index: if correct {
            Some(q.choices.len() as usize)
        } else {
            q.answer_index
        },
        ..q
    }
}

/// Adds one parsed content to the panel being assembled.
pub open spec fn content_step(
    st: AssemblyState,
    c: ContentView,
    outcomes: Seq<ImageLoadView>,
    panel: nat,
) -> AssemblyState {
    match c {
        ContentView::Text(s) => AssemblyState {
            contents: st.contents.push(PanelContentView::Text(s)),
            ..st
        },
        ContentView::Header(s) => AssemblyState {
            contents: st.contents.push(PanelContentView::Header(s)),
            ..st
        },
        ContentView::Image(path) => {
            let used = AssemblyState { images_used: st.images_used + 1, ..st };
            match outcomes[st.images_used] {
                ImageLoadView::Missing => used,
                ImageLoadView::Undecodable => AssemblyState {
                    errors: st.errors.push(
                        (MessageType::Error, undecodable_image_text(path, panel)),
                    ),
                    ..used
                },
                ImageLoadView::Decoded(w, h, buffer) => AssemblyState {
                    contents: st.contents.push(PanelContentView::Image(decoded_bitmap(w, h, buffer))),
                    ..used
                },
            }
        },
        ContentView::Question(s) => AssemblyState {
            contents: st.contents.push(PanelContentView::Question(fresh_question(s))),
            question_at: Some(st.contents.len() as int),
            ..st
        },
        ContentView::Answer(s, correct) => match st.question_at {
            None => st,
            Some(q) => match st.contents[q] {
                PanelContentView::Question(qv) => AssemblyState {
                    contents: st.contents.update(
                        q,
                        PanelContentView::Question(add_answer(qv, s, correct)),
                    ),
                    ..st
                },
                _ => st,
            },
        },
    }
}


/// Adds the contents `cs` one after the other.
pub open spec fn contents_fold(
    cs: Seq<ContentView>,
    st: AssemblyState,
    outcomes: Seq<ImageLoadView>,
    panel: nat,
) -> AssemblyState
    decreases cs.len(),
{
    if cs.len() == 0 {
        st
    } else {
        content_step(contents_fold(cs.drop_last(), st, outcomes, panel), cs.last(), outcomes, panel)
    }
}

/// One error for each question of the panel that has text and no correct answer.
pub open spec fn question_errors(contents: Seq<PanelContentView>, panel: nat) -> Seq<
    (MessageType, Seq<char>),
>
    decreases contents.len(),
{
    if contents.len() == 0 {
        Seq::empty()
    } else {
        let rest = question_errors(contents.drop_last(), panel);
        match contents.last() {
            PanelContentView::Question(q) => if q.question.len() > 0 && q.answer_index is None {
                rest.push((MessageType::Error, unanswerable_question_text(panel)))
            } else {
                rest
            },
            _ => rest,
        }
    }
}

/// Assembly of the panels: the panels so far, the number of images consumed, the errors.
pub type PanelsState = (Seq<Seq<PanelContentView>>, int, Seq<(MessageType, Seq<char>)>);

/// Panels for the sections `secs`, given the outcome of loading each image in order and
/// the errors met before.
pub open spec fn assemble_spec(
    secs: Seq<Seq<ContentView>>,
    outcomes: Seq<ImageLoadView>,
    errors: Seq<(MessageType, Seq<char>)>,
) -> PanelsState
    decreases secs.len(),
{
    if secs.len() == 0 {
        (Seq::empty(), 0, errors)
    } else {
        let (panels, used, errs) = assemble_spec(secs.drop_last(), outcomes, errors);
        let panel = (secs.len() - 1) as nat;
        let st = contents_fold(
            secs.last(),
            AssemblyState { contents: Seq::empty(), question_at: None, images_used: used, errors: errs },
            outcomes,
            panel,
        );
        (panels.push(st.contents), st.images_used, st.errors + question_errors(st.contents, panel))
    }
}


// ---------------------------------------------------------------------------------------
// Image counting
// ---------------------------------------------------------------------------------------

proof fn lemma_fold_images_used(
    cs: Seq<ContentView>,
    st: AssemblyState,
    outcomes: Seq<ImageLoadView>,
    panel: nat,
)
    ensures
        contents_fold(cs, st, outcomes, panel).images_used == st.images_used
            + crate::lab_parser::images_of(cs).len(),
    decreases cs.len(),
{
    if cs.len() > 0 {
        lemma_fold_images_used(cs.drop_last(), st, outcomes, panel);
    }
}

proof fn lemma_assemble_images_used(
    secs: Seq<Seq<ContentView>>,
    outcomes: Seq<ImageLoadView>,
    errors: Seq<(MessageType, Seq<char>)>,
)
    ensures
        assemble_spec(secs, outcomes, errors).1 == section_images(secs).len(),
        assemble_spec(secs, outcomes, errors).0.len() == secs.len(),
    decreases secs.len(),
{
    if secs.len() > 0 {
        lemma_assemble_images_used(secs.drop_last(), outcomes, errors);
        let (panels, used, errs) = assemble_spec(secs.drop_last(), outcomes, errors);
        lemma_fold_images_used(
            secs.last(),
            AssemblyState { contents: Seq::empty(), question_at: None, images_used: used, errors: errs },
            outcomes,
            (secs.len() - 1) as nat,
        );
    }
}

proof fn lemma_images_of_prefix(cs: Seq<ContentView>, k: int)
    requires
        0 <= k < cs.len(),
    ensures
        crate::lab_parser::images_of(cs.take(k + 1)) == crate::lab_parser::images_of(cs.take(k))
            + match cs[k] {
            ContentView::Image(p) => seq![p],
            _ => Seq::empty(),
        },
{
    assert(cs.take(k + 1).drop_last() =~= cs.take(k));
}

proof fn lemma_images_of_bounded(cs: Seq<ContentView>, k: int)
    requires
        0 <= k <= cs.len(),
    ensures
        crate::lab_parser::images_of(cs.take(k)).len() <= crate::lab_parser::images_of(cs).len(),
    decreases cs.len() - k,
{
    if k < cs.len() {
        lemma_images_of_bounded(cs, k + 1);
        lemma_images_of_prefix(cs, k);
    } else {
        assert(cs.take(k) =~= cs);
    }
}

proof fn lemma_fold_errors_extend(
    cs: Seq<ContentView>,
    st: AssemblyState,
    outcomes: Seq<ImageLoadView>,
    panel: nat,
)
    ensures
        contents_fold(cs, st, outcomes, panel).errors.len() >= st.errors.len(),
        contents_fold(cs, st, outcomes, panel).errors.take(st.errors.len() as int) == st.errors,
    decreases cs.len(),
{
    if cs.len() > 0 {
        lemma_fold_errors_extend(cs.drop_last(), st, outcomes, panel);
        let prev = contents_fold(cs.drop_last(), st, outcomes, panel);
        let next = contents_fold(cs, st, outcomes, panel);
        assert(next.errors.len() >= prev.errors.len());
        assert(next.errors.take(prev.errors.len() as int) == prev.errors);
        assert(next.errors.take(st.errors.len() as int) =~= prev.errors.take(
            st.errors.len() as int,
        ));
    }
}

/// Assembly gives one panel for each section, and keeps the messages met before in front of
/// the ones it adds.
pub proof fn lemma_assembly_shape(
    secs: Seq<Seq<ContentView>>,
    outcomes: Seq<ImageLoadView>,
    errors: Seq<(MessageType, Seq<char>)>,
)
    ensures
        assemble_spec(secs, outcomes, errors).0.len() == secs.len(),
        assemble_spec(secs, outcomes, errors).2.len() >= errors.len(),
        assemble_spec(secs, outcomes, errors).2.take(errors.len() as int) == errors,
    decreases secs.len(),
{
    lemma_assemble_images_used(secs, outcomes, errors);
    if secs.len() > 0 {
        lemma_assembly_shape(secs.drop_last(), outcomes, errors);
        let (panels, used, errs) = assemble_spec(secs.drop_last(), outcomes, errors);
        let st0 = AssemblyState { contents: Seq::empty(), question_at: None, images_used: used, errors: errs };
        let panel = (secs.len() - 1) as nat;
        lemma_fold_errors_extend(secs.last(), st0, outcomes, panel);
        let st = contents_fold(secs.last(), st0, outcomes, panel);
        let all = st.errors + question_errors(st.contents, panel);
        assert(all.take(errs.len() as int) =~= errs);
        assert(all.take(errors.len() as int) =~= errs.take(errors.len() as int));
    } else {
        assert(errors.take(errors.len() as int) =~= errors);
    }
}

// ---------------------------------------------------------------------------------------
// Executable panel assembly
// ---------------------------------------------------------------------------------------

/// The bitmap of a decoded image: rows bottom first, red and blue swapped.
fn bitmap_from_decoded(im: &DecodedImage) -> (b: TGBitmap)
    requires
        decoded_ok(im.width, im.height, im.buffer@),
    ensures
        bitmap_view(b) == decoded_bitmap(im.width, im.height, im.buffer@),
{
    let mut rgba: Vec<u8> = Vec::new();
    if im.height > 0 {
        let w = im.width as usize;
        let h = im.height as usize;
        let blen = im.buffer.len();
        proof {
            assert(4 * im.width * im.height == 4 * (w * h)) by (nonlinear_arith)
                requires w == im.width, h == im.height;
        }
        let mut r: usize = 0;
        while r < h
            invariant
                w == im.width,
                h == im.height,
                r <= h,
                blen == im.buffer@.len(),
                4 * (w * h) <= im.buffer@.len(),
                rgba@.len() == 4 * (r * w),
                forall|k: int|
                    0 <= k < rgba@.len() ==> #[trigger] rgba@[k] == converted_byte(
                        im.buffer@,
                        w as int,
                        h as int,
                        k,
                    ),
            decreases h - r,
        {
            let src_row = h - 1 - r;
            let mut i: usize = 0;
            while i < w
                invariant
                    w == im.width,
                    h == im.height,
                    r < h,
                    src_row == h - 1 - r,
                    i <= w,
                    blen == im.buffer@.len(),
                    4 * (w * h) <= im.buffer@.len(),
                    rgba@.len() == 4 * (r * w + i),
                    forall|k: int|
                        0 <= k < rgba@.len() ==> #[trigger] rgba@[k] == converted_byte(
                            im.buffer@,
                            w as int,
                            h as int,
                            k,
                        ),
                decreases w - i,
            {
                proof {
                    crate::bitmap::lemma_pixel_index(w as int, h as int, r as int, i as int);
                    assert(src_row * w + i == (h - 1 - r) * w + i);
                    assert(src_row * w <= src_row * w + i);
                }
                let k = (i + src_row * w) * 4;
                let ghost start = rgba@.len();
                rgba.push(im.buffer[k + 2]);
                rgba.push(im.buffer[k + 1]);
                rgba.push(im.buffer[k + 0]);
                rgba.push(im.buffer[k + 3]);
                proof {
                    assert(start == 4 * (r * w + i));
                    assert forall|c: int| 0 <= c < 4 implies #[trigger] rgba@[start + c]
                        == converted_byte(im.buffer@, w as int, h as int, start + c) by {
                        crate::bitmap::lemma_pixel_decompose(w as int, r as int, i as int, c);
                    }
                    assert forall|m: int| 0 <= m < rgba@.len() implies #[trigger] rgba@[m]
                        == converted_byte(im.buffer@, w as int, h as int, m) by {
                        if m >= start {
                            assert(rgba@[start + (m - start)] == rgba@[m]);
                        }
                    }
                    assert(rgba@.len() == 4 * (r * w + (i + 1))) by (nonlinear_arith)
                        requires rgba@.len() == 4 * (r * w + i) + 4;
                }
                i = i + 1;
            }
            proof {
                assert(4 * (r * w + w) == 4 * ((r + 1) * w)) by (nonlinear_arith);
            }
            r = r + 1;
        }
        proof {
            assert(4 * (r * w) == 4 * im.width * im.height) by (nonlinear_arith)
                requires r == h, w == im.width, h == im.height;
        }
    }
    let b = TGBitmap {
        file_header: TGBitmapFileHeader {
            type_: 0,
            size_: 0,
            reserved_1: 0,
            reserved_2: 0,
            off_bits: 0,
        },
        info_header: TGBitmapHeaderInfo {
            header_size: 0,
            width: im.width,
            height: im.height,
            planes: 1,
            bit_per_pixel: 32,
            compression: 0,
            image_size: 0,
            x_px_per_meter: 0,
            y_px_per_meter: 0,
            colors_used: 0,
            colors_important: 0,
        },
        rgba,
        width: im.width,
        height: im.height,
    };
    assert(bitmap_view(b).rgba =~= decoded_bitmap(im.width, im.height, im.buffer@).rgba);
    b
}

pub open spec fn image_loads_view(v: Seq<ImageLoad>) -> Seq<ImageLoadView> {
    v.map_values(|l: ImageLoad| l@)
}

/// Every decoded image among `v` can be turned into a bitmap.
pub open spec fn loads_ok(v: Seq<ImageLoad>) -> bool {
    forall|k: int|
        0 <= k < v.len() ==> match #[trigger] v[k] {
            ImageLoad::Decoded(im) => decoded_ok(im.width, im.height, im.buffer@),
            _ => true,
        }
}

pub open spec fn contents_view(v: Seq<PanelContent>) -> Seq<PanelContentView> {
    v.map_values(|c: PanelContent| c@)
}

/// The assembly state held by the executable variables.
pub open spec fn state_of(
    contents: Seq<PanelContent>,
    question_at: Option<usize>,
    used: usize,
    errs: Seq<(MessageType, String)>,
) -> AssemblyState {
    AssemblyState {
        contents: contents_view(contents),
        question_at: match question_at {
            Some(q) => Some(q as int),
            None => None,
        },
        images_used: used as int,
        errors: messages_view(errs),
    }
}

/// Adds one parsed content to the panel being assembled.
fn add_content(
    contents: &mut Vec<PanelContent>,
    question_at: &mut Option<usize>,
    used: &mut usize,
    errs: &mut Vec<(MessageType, String)>,
    c: &Content,
    images: &Vec<ImageLoad>,
    panel: usize,
)
    requires
        loads_ok(images@),
        *old(question_at) matches Some(q) ==> q < old(contents)@.len(),
        (c@ is Image) ==> *old(used) < images@.len(),
    ensures
        state_of(final(contents)@, *final(question_at), *final(used), final(errs)@) == content_step(
            state_of(old(contents)@, *old(question_at), *old(used), old(errs)@),
            c@,
            image_loads_view(images@),
            panel as nat,
        ),
        *final(question_at) matches Some(q) ==> q < final(contents)@.len(),
{
    let ghost st0 = state_of(contents@, *question_at, *used, errs@);
    match c {
        Content::Text(s) => {
            let ghost cv = contents_view(contents@);
            contents.push(PanelContent::Text(s.clone()));
            assert(contents_view(contents@) =~= cv.push(PanelContentView::Text(s@)));
        },
        Content::Header(s) => {
            let ghost cv = contents_view(contents@);
            contents.push(PanelContent::Header(s.clone()));
            assert(contents_view(contents@) =~= cv.push(PanelContentView::Header(s@)));
        },
        Content::Image(path) => {
            let k = *used;
            let n_images = images.len();
            *used = k + 1;
            match &images[k] {
                ImageLoad::Missing => {},
                ImageLoad::Undecodable => {
                    let mut m = String::from_str("Error:  Image, ");
                    m.append(path.as_str());
                    m.append(", on panel ");
                    let d = decimal_string(panel);
                    m.append(d.as_str());
                    m.append(", could not be opened by program.");
                    let ghost ev = messages_view(errs@);
                    errs.push((MessageType::Error, m));
                    assert(messages_view(errs@) =~= ev.push(
                        (MessageType::Error, undecodable_image_text(path@, panel as nat)),
                    ));
                },
                ImageLoad::Decoded(im) => {
                    assert(match images@[k as int] {
                        ImageLoad::Decoded(im) => decoded_ok(im.width, im.height, im.buffer@),
                        _ => true,
                    });
                    let b = bitmap_from_decoded(im);
                    let ghost cv = contents_view(contents@);
                    contents.push(PanelContent::Image(b));
                    assert(contents_view(contents@) =~= cv.push(
                        PanelContentView::Image(decoded_bitmap(im.width, im.height, im.buffer@)),
                    ));
                },
            }
        },
        Content::Question(s) => {
            let mut q = MultiQuestion::new();
            q.question = s.clone();
            let ghost cv = contents_view(contents@);
            let n = contents.len();
            contents.push(PanelContent::Question(q));
            assert(q@.choices =~= Seq::<Seq<char>>::empty());
            assert(contents_view(contents@) =~= cv.push(
                PanelContentView::Question(fresh_question(s@)),
            ));
            *question_at = Some(n);
        },
        Content::Answer(s, correct) => {
            match *question_at {
                None => {},
                Some(q) => {
                    let ghost cv = contents_view(contents@);
                    let item = contents.remove(q);
                    match item {
                        PanelContent::Question(mut qv) => {
                            let ghost qv0 = qv@;
                            qv.choices.push(s.clone());
                            if *correct {
                                qv.answer_index = Some(qv.choices.len() - 1);
                            }
                            assert(qv@.choices =~= qv0.choices.push(s@));
                            assert(qv@ == add_answer(qv0, s@, *correct));
                            contents.insert(q, PanelContent::Question(qv));
                            assert(contents_view(contents@) =~= cv.update(
                                q as int,
                                PanelContentView::Question(add_answer(qv0, s@, *correct)),
                            ));
                        },
                        other => {
                            contents.insert(q, other);
                            assert(contents_view(contents@) =~= cv);
                        },
                    }
                },
            }
        },
    }
}


proof fn lemma_take_step<A>(s: Seq<A>, k: int)
    requires
        0 <= k < s.len(),
    ensures
        s.take(k + 1).drop_last() == s.take(k),
        s.take(k + 1).last() == s[k],
        s.take(k + 1).len() == k + 1,
{
    assert(s.take(k + 1).drop_last() =~= s.take(k));
}

proof fn lemma_section_images_bounded(secs: Seq<Seq<ContentView>>, k: int)
    requires
        0 <= k <= secs.len(),
    ensures
        section_images(secs.take(k)).len() <= section_images(secs).len(),
    decreases secs.len() - k,
{
    if k < secs.len() {
        lemma_section_images_bounded(secs, k + 1);
        lemma_take_step(secs, k);
    } else {
        assert(secs.take(k) =~= secs);
    }
}

/// The error for each unanswerable question of `contents`, in order, appended to `errs`.
fn push_question_errors(
    errs: &mut Vec<(MessageType, String)>,
    contents: &Vec<PanelContent>,
    panel: usize,
)
    ensures
        messages_view(final(errs)@) == messages_view(old(errs)@) + question_errors(
            contents_view(contents@),
            panel as nat,
        ),
{
    let ghost e0 = messages_view(errs@);
    let ghost cv = contents_view(contents@);
    let mut k: usize = 0;
    assert(e0 + question_errors(cv.take(0), panel as nat) =~= e0);
    while k < contents.len()
        invariant
            k <= contents@.len(),
            cv == contents_view(contents@),
            messages_view(errs@) == e0 + question_errors(cv.take(k as int), panel as nat),
        decreases contents.len() - k,
    {
        proof {
            lemma_take_step(cv, k as int);
        }
        match &contents[k] {
            PanelContent::Question(q) => {
                if !q.question.as_str().is_empty() && q.answer_index.is_none() {
                    let mut m = String::from_str("Error:  Question in panel(");
                    let d = decimal_string(panel);
                    m.append(d.as_str());
                    m.append("), has no correct answer.");
                    let ghost mv = messages_view(errs@);
                    errs.push((MessageType::Error, m));
                    assert(messages_view(errs@) =~= mv.push(
                        (MessageType::Error, unanswerable_question_text(panel as nat)),
                    ));
                }
            },
            _ => {},
        }
        assert(messages_view(errs@) =~= e0 + question_errors(cv.take(k + 1), panel as nat));
        k = k + 1;
    }
    assert(cv.take(k as int) =~= cv);
}

/// Builds the panels of a lab from its parsed sections.
///
/// `images` holds, for each image that the sections name, in order, what became of loading
/// its file; `errors` holds the messages met so far. Each section gives one panel with its
/// contents in order: a decoded image becomes a bitmap (rows bottom first, red and blue
/// swapped), an image that was found but not decoded gives an error, a missing one is left
/// out; an answer is added to the latest question of its panel. Then each question of the
/// panel that has text and no correct answer gives an error.
pub fn assemble_panels(
    sections: &Vec<Section>,
    images: &Vec<ImageLoad>,
    errors: Vec<(MessageType, String)>,
) -> (r: (Vec<Panel>, Vec<(MessageType, String)>))
    requires
        images@.len() == section_images(sections_view(sections@)).len(),
        loads_ok(images@),
    ensures
        panels_view(r.0@) == assemble_spec(
            sections_view(sections@),
            image_loads_view(images@),
            messages_view(errors@),
        ).0,
        messages_view(r.1@) == assemble_spec(
            sections_view(sections@),
            image_loads_view(images@),
            messages_view(errors@),
        ).2,
{
    let ghost secs = sections_view(sections@);
    let ghost outs = image_loads_view(images@);
    let ghost e0 = messages_view(errors@);
    let mut errs = errors;
    let mut panels: Vec<Panel> = Vec::new();
    let mut used: usize = 0;
    let mut i: usize = 0;
    assert(panels_view(panels@) =~= assemble_spec(secs.take(0), outs, e0).0);
    while i < sections.len()
        invariant
            i <= sections@.len(),
            secs == sections_view(sections@),
            outs == image_loads_view(images@),
            images@.len() == section_images(secs).len(),
            loads_ok(images@),
            panels_view(panels@) == assemble_spec(secs.take(i as int), outs, e0).0,
            used == assemble_spec(secs.take(i as int), outs, e0).1,
            messages_view(errs@) == assemble_spec(secs.take(i as int), outs, e0).2,
        decreases sections.len() - i,
    {
        proof {
            lemma_take_step(secs, i as int);
            lemma_assemble_images_used(secs.take(i as int), outs, e0);
            lemma_section_images_bounded(secs, i + 1);
            lemma_take_step(secs, i as int);
        }
        let section = &sections[i];
        let ghost cs = secs[i as int];
        assert(cs == section@);
        let ghost st0 = AssemblyState {
            contents: Seq::empty(),
            question_at: None,
            images_used: used as int,
            errors: messages_view(errs@),
        };
        let ghost used0 = used as int;
        let mut contents: Vec<PanelContent> = Vec::new();
        let mut question_at: Option<usize> = None;
        let mut j: usize = 0;
        assert(state_of(contents@, question_at, used, errs@) == contents_fold(cs.take(0), st0, outs, i as nat)) by {
            assert(contents_view(contents@) =~= Seq::<PanelContentView>::empty());
        }
        while j < section.contents.len()
            invariant
                j <= section.contents@.len(),
                cs == section@,
                outs == image_loads_view(images@),
                loads_ok(images@),
                used0 + crate::lab_parser::images_of(cs).len() <= images@.len(),
                question_at matches Some(q) ==> q < contents@.len(),
                state_of(contents@, question_at, used, errs@) == contents_fold(
                    cs.take(j as int),
                    st0,
                    outs,
                    i as nat,
                ),
                st0.images_used == used0,
            decreases section.contents.len() - j,
        {
            proof {
                lemma_take_step(cs, j as int);
                lemma_fold_images_used(cs.take(j as int), st0, outs, i as nat);
                lemma_images_of_bounded(cs, j + 1);
                lemma_images_of_prefix(cs, j as int);
            }
            add_content(
                &mut contents,
                &mut question_at,
                &mut used,
                &mut errs,
                &section.contents[j],
                images,
                i,
            );
            j = j + 1;
        }
        assert(cs.take(j as int) =~= cs);
        let ghost st = contents_fold(cs, st0, outs, i as nat);
        push_question_errors(&mut errs, &contents, i);
        panels.push(Panel { contents });
        proof {
            let prev = assemble_spec(secs.take(i as int), outs, e0);
            assert(secs.take(i + 1).drop_last() =~= secs.take(i as int));
            assert(panels_view(panels@) =~= prev.0.push(st.contents));
        }
        i = i + 1;
    }
    assert(secs.take(i as int) =~= secs);
    (panels, errs)
}

/// The path of an image as the lab text names it, without one leading space.
pub fn image_file_path(name: &str) -> (p: String)
    ensures
        p@ == crate::lab_parser::trim_leading_space(name@),
{
    let chars = crate::lab_parser::chars_of(name);
    if chars.len() > 0 && chars[0] == ' ' {
        let mut rest: Vec<char> = Vec::new();
        let mut k: usize = 1;
        while k < chars.len()
            invariant
                1 <= k <= chars@.len(),
                rest@ == chars@.subrange(1, k as int),
            decreases chars.len() - k,
        {
            rest.push(chars[k]);
            k = k + 1;
        }
        crate::lab_parser::string_from_chars(rest.as_slice())
    } else {
        crate::lab_parser::string_from_chars(chars.as_slice())
    }
}


// ---------------------------------------------------------------------------------------
// Where correct answers come from
// ---------------------------------------------------------------------------------------

/// A question's correct choice, where it has one, is one of its choices and is the text of an
/// `#AnswerCorrect` directive of the section `src`.
pub open spec fn correct_choice_sourced(c: PanelContentView, src: Seq<ContentView>) -> bool {
    match c {
        PanelContentView::Question(qv) => match qv.answer_index {
            Some(i) => i < qv.choices.len() && exists|m: int|
                0 <= m < src.len() && #[trigger] src[m] == ContentView::Answer(
                    qv.choices[i as int],
                    true,
                ),
            None => true,
        },
        _ => true,
    }
}

/// No question of `contents` has more than `b` choices.
pub open spec fn choices_bounded(contents: Seq<PanelContentView>, b: int) -> bool {
    forall|p: int|
        0 <= p < contents.len() ==> (#[trigger] contents[p] matches PanelContentView::Question(qv)
            ==> qv.choices.len() <= b)
}

proof fn lemma_fold_sourced(
    cs: Seq<ContentView>,
    src: Seq<ContentView>,
    st: AssemblyState,
    outcomes: Seq<ImageLoadView>,
    panel: nat,
)
    requires
        cs.len() <= src.len(),
        forall|m: int| 0 <= m < cs.len() ==> cs[m] == src[m],
        forall|p: int|
            0 <= p < st.contents.len() ==> correct_choice_sourced(#[trigger] st.contents[p], src),
        st.question_at matches Some(q) ==> 0 <= q < st.contents.len(),
        choices_bounded(st.contents, 0),
        src.len() <= usize::MAX,
    ensures
        choices_bounded(contents_fold(cs, st, outcomes, panel).contents, cs.len() as int),
        contents_fold(cs, st, outcomes, panel).question_at matches Some(q) ==> 0 <= q
            < contents_fold(cs, st, outcomes, panel).contents.len(),
        forall|p: int|
            0 <= p < contents_fold(cs, st, outcomes, panel).contents.len() ==> correct_choice_sourced(
                #[trigger] contents_fold(cs, st, outcomes, panel).contents[p],
                src,
            ),
    decreases cs.len(),
{
    if cs.len() > 0 {
        let rest = cs.drop_last();
        lemma_fold_sourced(rest, src, st, outcomes, panel);
        let s0 = contents_fold(rest, st, outcomes, panel);
        let c = cs.last();
        let m0 = cs.len() - 1;
        assert(c == src[m0]);
        let s1 = content_step(s0, c, outcomes, panel);
        assert(s1 == contents_fold(cs, st, outcomes, panel));
        assert(cs.drop_last() == rest);
        assert forall|p: int| 0 <= p < s1.contents.len() implies (#[trigger] s1.contents[p] matches PanelContentView::Question(qv)
            ==> qv.choices.len() <= cs.len()) by {
            if p < s0.contents.len() {
                if s1.contents[p] != s0.contents[p] {
                } else {
                    assert(s0.contents[p] matches PanelContentView::Question(qv)
                        ==> qv.choices.len() <= rest.len());
                }
            }
            match c {
                ContentView::Answer(a, correct) => {
                    match s0.question_at {
                        None => {},
                        Some(q) => {
                            match s0.contents[q] {
                                PanelContentView::Question(qv) => {
                                    assert(qv.choices.len() <= rest.len());
                                },
                                _ => {},
                            }
                        },
                    }
                },
                _ => {},
            }
        }
        assert forall|p: int| 0 <= p < s1.contents.len() implies correct_choice_sourced(
            #[trigger] s1.contents[p],
            src,
        ) by {
            match c {
                ContentView::Answer(a, correct) => {
                    match s0.question_at {
                        None => {},
                        Some(q) => {
                            match s0.contents[q] {
                                PanelContentView::Question(qv) => {
                                    if p == q {
                                        let nq = add_answer(qv, a, correct);
                                        if correct {
                                            assert(nq.choices[qv.choices.len() as int] == a);
                                            assert(src[m0] == ContentView::Answer(a, true));
                                        } else {
                                            if 0 <= q < s0.contents.len() {
                                                assert(correct_choice_sourced(s0.contents[q], src));
                                            }
                                            match qv.answer_index {
                                                Some(i) => {
                                                    assert(nq.choices[i as int] == qv.choices[i as int]);
                                                },
                                                None => {},
                                            }
                                        }
                                    } else {
                                        assert(s1.contents[p] == s0.contents[p]);
                                    }
                                },
                                _ => {},
                            }
                        },
                    }
                },
                ContentView::Question(x) => {
                    if p < s0.contents.len() {
                        assert(s1.contents[p] == s0.contents[p]);
                    }
                },
                ContentView::Text(x) => {
                    if p < s0.contents.len() {
                        assert(s1.contents[p] == s0.contents[p]);
                    }
                },
                ContentView::Header(x) => {
                    if p < s0.contents.len() {
                        assert(s1.contents[p] == s0.contents[p]);
                    }
                },
                ContentView::Image(x) => {
                    if p < s0.contents.len() {
                        assert(s1.contents[p] == s0.contents[p]);
                    }
                },
            }
        }
    }
}

/// In assembled panels the correct choice of every question is the text of an
/// `#AnswerCorrect` directive of that question's section: `answer_index`, where it is set,
/// points into the choices at an answer marked correct, never at a wrong one.
pub proof fn lemma_correct_choice_is_a_correct_answer(
    secs: Seq<Seq<ContentView>>,
    outcomes: Seq<ImageLoadView>,
    errors: Seq<(MessageType, Seq<char>)>,
)
    requires
        forall|k: int| 0 <= k < secs.len() ==> (#[trigger] secs[k]).len() <= usize::MAX,
    ensures
        forall|k: int, p: int|
            0 <= k < secs.len() && 0 <= p < assemble_spec(secs, outcomes, errors).0[k].len()
                ==> correct_choice_sourced(
                #[trigger] assemble_spec(secs, outcomes, errors).0[k][p],
                secs[k],
            ),
    decreases secs.len(),
{
    lemma_assemble_images_used(secs, outcomes, errors);
    if secs.len() > 0 {
        let prev = secs.drop_last();
        assert forall|k: int| 0 <= k < prev.len() implies (#[trigger] prev[k]).len() <= usize::MAX by {
            assert(prev[k] == secs[k]);
        }
        assert(secs.last().len() <= usize::MAX) by {
            assert(secs[secs.len() - 1].len() <= usize::MAX);
        }
        lemma_correct_choice_is_a_correct_answer(prev, outcomes, errors);
        lemma_assemble_images_used(prev, outcomes, errors);
        let (panels, used, errs) = assemble_spec(prev, outcomes, errors);
        let panel = (secs.len() - 1) as nat;
        let st0 = AssemblyState {
            contents: Seq::empty(),
            question_at: None,
            images_used: used,
            errors: errs,
        };
        lemma_fold_sourced(secs.last(), secs.last(), st0, outcomes, panel);
        let all = assemble_spec(secs, outcomes, errors).0;
        assert forall|k: int, p: int| 0 <= k < secs.len() && 0 <= p < all[k].len() implies correct_choice_sourced(
            #[trigger] all[k][p],
            secs[k],
        ) by {
            if k < prev.len() {
                assert(all[k] == panels[k]);
                assert(prev[k] == secs[k]);
            }
        }
    }
}

} // verus!
