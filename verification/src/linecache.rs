//! The line cache: text, carets and style spans of the lines of a view, and
//! the diff engine that rebuilds the cache from an update.

use crate::codec::{
    conv_utf8_to_utf16_offset, lemma_encoded_len, lemma_offsets_bounded,
    lemma_wire_offset_monotonic, lemma_wire_offset_past_end, str_eq, utf16_len, wire_offset,
};
use crate::json::{member, value_array, value_i64, value_member, value_str, value_u64};
use serde_json::Value;
use std::ops::Range;
use vstd::prelude::*;
use vstd::string::*;

verus! {

/// Why a payload of the core could not be read.
#[derive(Debug, Clone, Copy, PartialEq, Eq, Structural)]
pub enum ParseError {
    /// The update has no array of operations.
    MissingOps,
    /// A copy, skip or invalidate operation has no count.
    MissingCount,
    /// An insert operation has no array of lines.
    MissingLines,
    /// A line has no text.
    MissingText,
    /// A caret of a line is no byte offset.
    BadCursor,
    /// The styles of a line are no list of triples, or a span starts before
    /// the line, ends before it starts, or lies beyond what an offset can
    /// hold.
    BadStyles,
    /// A request to scroll names no line.
    MissingLine,
}

/// A styled stretch of a line.
#[derive(Debug, PartialEq, Eq)]
pub struct StyleSpan {
    pub style_id: usize,
    /// Range of the span, in UTF-16 code units.
    pub range: Range<usize>,
}

impl Clone for StyleSpan {
    fn clone(&self) -> (r: Self)
        ensures
            r == *self,
    {
        StyleSpan { style_id: self.style_id, range: self.range.start..self.range.end }
    }
}

/// A style span as an update gives it: the start counts bytes from the end of
/// the span before it, the length counts bytes.
#[derive(Debug, Clone, Copy, PartialEq, Eq)]
pub struct RawStyle {
    pub start_delta: i64,
    pub length: i64,
    pub style_id: u64,
}

/// One line of the view.
#[derive(Debug, PartialEq, Eq)]
pub struct Line {
    text: String,
    /// Carets, in UTF-16 code units.
    cursor: Vec<usize>,
    styles: Vec<StyleSpan>,
}

/// What a line holds.
pub struct LineView {
    pub text: Seq<char>,
    pub cursor: Seq<usize>,
    pub styles: Seq<StyleSpan>,
}

/// Byte offset at which the first `k` spans of `styles` end: each span starts
/// `start_delta` after the end of the span before it, the first one
/// `start_delta` after the start of the line.
pub open spec fn spans_end(styles: Seq<RawStyle>, k: int) -> int
    decreases k,
{
    if k <= 0 {
        0
    } else {
        spans_end(styles, k - 1) + styles[k - 1].start_delta + styles[k - 1].length
    }
}

/// Byte offset at which span `k` of `styles` starts.
pub open spec fn span_start(styles: Seq<RawStyle>, k: int) -> int {
    spans_end(styles, k) + styles[k].start_delta
}

/// Span `k` starts in the line, does not end before it starts, ends at an
/// offset that a signed 64-bit integer holds, and has an id that fits.
pub open spec fn span_valid(styles: Seq<RawStyle>, k: int) -> bool {
    &&& 0 <= span_start(styles, k) <= spans_end(styles, k + 1) <= i64::MAX
    &&& styles[k].style_id <= usize::MAX
}

/// Every span of `styles` is valid.
pub open spec fn styles_valid(styles: Seq<RawStyle>) -> bool {
    forall|k: int| 0 <= k < styles.len() ==> #[trigger] span_valid(styles, k)
}

/// Span `k` of `styles` on the text of its line, in UTF-16 code units.
pub open spec fn span_of(text: Seq<char>, styles: Seq<RawStyle>, k: int) -> StyleSpan {
    StyleSpan {
        style_id: styles[k].style_id as usize,
        range: Range {
            start: wire_offset(text, span_start(styles, k) as nat) as usize,
            end: wire_offset(text, spans_end(styles, k + 1) as nat) as usize,
        },
    }
}

/// The spans of a line, in UTF-16 code units.
pub open spec fn spans_of(text: Seq<char>, styles: Seq<RawStyle>) -> Seq<StyleSpan> {
    Seq::new(styles.len(), |k: int| span_of(text, styles, k))
}

/// The carets of a line, in UTF-16 code units.
pub open spec fn carets_of(text: Seq<char>, cursor: Seq<u64>) -> Seq<usize> {
    Seq::new(cursor.len(), |i: int| wire_offset(text, cursor[i] as nat) as usize)
}

/// The line made of a text, carets at byte offsets and styles over byte
/// offsets.
pub open spec fn line_from_parts(text: Seq<char>, cursor: Seq<u64>, styles: Seq<RawStyle>) -> Result<
    LineView,
    ParseError,
> {
    if styles_valid(styles) {
        Ok(LineView { text, cursor: carets_of(text, cursor), styles: spans_of(text, styles) })
    } else {
        Err(ParseError::BadStyles)
    }
}

/// Carets and spans lie within the line, and no span ends before it starts.
pub open spec fn line_wf(line: LineView) -> bool {
    &&& forall|i: int| 0 <= i < line.cursor.len() ==> #[trigger] line.cursor[i] <= utf16_len(line.text)
    &&& forall|k: int|
        0 <= k < line.styles.len() ==> (#[trigger] line.styles[k]).range.start
            <= line.styles[k].range.end <= utf16_len(line.text)
}

impl View for Line {
    type V = LineView;

    closed spec fn view(&self) -> LineView {
        LineView { text: self.text@, cursor: self.cursor@, styles: self.styles@ }
    }
}

/// The carets that a line's `cursor` member gives: none where it is no array,
/// else each element as a byte offset.
pub open spec fn cursor_from_json(v: Value) -> Result<Seq<u64>, ParseError> {
    match value_array(v) {
        None => Ok(Seq::empty()),
        Some(a) => if forall|i: int| 0 <= i < a.len() ==> (#[trigger] value_u64(a[i])) is Some {
            Ok(Seq::new(a.len(), |i: int| value_u64(a[i])->0))
        } else {
            Err(ParseError::BadCursor)
        },
    }
}

/// Elements `3k`, `3k + 1` and `3k + 2` of a styles array are two signed
/// integers and an unsigned one.
pub open spec fn triple_valid(a: Seq<Value>, k: int) -> bool {
    &&& value_i64(a[3 * k]) is Some
    &&& value_i64(a[3 * k + 1]) is Some
    &&& value_u64(a[3 * k + 2]) is Some
}

/// Triple `k` of a styles array.
pub open spec fn triple_at(a: Seq<Value>, k: int) -> RawStyle {
    RawStyle {
        start_delta: value_i64(a[3 * k])->0,
        length: value_i64(a[3 * k + 1])->0,
        style_id: value_u64(a[3 * k + 2])->0,
    }
}

/// The styles that a line's `styles` member gives: none where it is no array,
/// else its elements three by three.
pub open spec fn styles_from_json(v: Value) -> Result<Seq<RawStyle>, ParseError> {
    match value_array(v) {
        None => Ok(Seq::empty()),
        Some(a) => if a.len() % 3 == 0 && forall|k: int|
            0 <= k < a.len() / 3 ==> #[trigger] triple_valid(a, k) {
            Ok(Seq::new(a.len() / 3, |k: int| triple_at(a, k)))
        } else {
            Err(ParseError::BadStyles)
        },
    }
}

/// The line that a JSON value describes: its `text` is required, its `cursor`
/// and `styles` are optional.
pub open spec fn line_from_json(v: Value) -> Result<LineView, ParseError> {
    match value_str(value_member(v, "text"@)) {
        None => Err(ParseError::MissingText),
        Some(text) => match cursor_from_json(value_member(v, "cursor"@)) {
            Err(e) => Err(e),
            Ok(cursor) => match styles_from_json(value_member(v, "styles"@)) {
                Err(e) => Err(e),
                Ok(styles) => line_from_parts(text, cursor, styles),
            },
        },
    }
}

fn cursor_of(v: &Value) -> (r: Result<Vec<u64>, ParseError>)
    ensures
        match r {
            Ok(c) => cursor_from_json(*v) == Ok::<Seq<u64>, ParseError>(c@),
            Err(e) => cursor_from_json(*v) == Err::<Seq<u64>, ParseError>(e),
        },
{
    let mut offsets: Vec<u64> = Vec::new();
    match v.as_array() {
        None => {},
        Some(a) => {
            let mut i: usize = 0;
            while i < a.len()
                invariant
                    value_array(*v) == Some(a@),
                    i <= a@.len(),
                    offsets@.len() == i,
                    forall|j: int| 0 <= j < i ==> (#[trigger] value_u64(a@[j])) == Some(offsets@[j]),
                decreases a@.len() - i,
            {
                match a[i].as_u64() {
                    Some(offset) => offsets.push(offset),
                    None => {
                        return Err(ParseError::BadCursor);
                    },
                }
                i = i + 1;
            }
            proof {
                assert(offsets@ =~= Seq::new(a@.len(), |i: int| value_u64(a@[i])->0));
            }
        },
    }
    Ok(offsets)
}

fn styles_of(v: &Value) -> (r: Result<Vec<RawStyle>, ParseError>)
    ensures
        match r {
            Ok(s) => styles_from_json(*v) == Ok::<Seq<RawStyle>, ParseError>(s@),
            Err(e) => styles_from_json(*v) == Err::<Seq<RawStyle>, ParseError>(e),
        },
{
    let mut styles: Vec<RawStyle> = Vec::new();
    match v.as_array() {
        None => {},
        Some(a) => {
            let len: usize = a.len();
            let mut i: usize = 0;
            while len - i >= 3
                invariant
                    value_array(*v) == Some(a@),
                    len == a@.len(),
                    i <= len,
                    i == 3 * styles@.len(),
                    forall|k: int| 0 <= k < styles@.len() ==> #[trigger] triple_valid(a@, k),
                    forall|k: int| 0 <= k < styles@.len() ==> #[trigger] styles@[k] == triple_at(a@, k),
                decreases len - i,
            {
                let ghost k = styles@.len() as int;
                let start_delta: i64 = match a[i].as_i64() {
                    Some(n) => n,
                    None => {
                        proof {
                            assert(!triple_valid(a@, k));
                        }
                        return Err(ParseError::BadStyles);
                    },
                };
                let length: i64 = match a[i + 1].as_i64() {
                    Some(n) => n,
                    None => {
                        proof {
                            assert(!triple_valid(a@, k));
                        }
                        return Err(ParseError::BadStyles);
                    },
                };
                let style_id: u64 = match a[i + 2].as_u64() {
                    Some(n) => n,
                    None => {
                        proof {
                            assert(!triple_valid(a@, k));
                        }
                        return Err(ParseError::BadStyles);
                    },
                };
                styles.push(RawStyle { start_delta, length, style_id });
                i = i + 3;
            }
            if i != len {
                return Err(ParseError::BadStyles);
            }
            proof {
                assert(styles@ =~= Seq::new(a@.len() / 3, |k: int| triple_at(a@, k)));
            }
        },
    }
    Ok(styles)
}

/// The wire offset of byte `offset` of `text`.
fn wire_offset_of(text: &str, offset: u64) -> (r: usize)
    ensures
        r == wire_offset(text@, offset as nat),
        r <= utf16_len(text@),
{
    let len: usize = text.as_bytes().len();
    proof {
        lemma_offsets_bounded(text@, offset as nat);
    }
    if offset >= len as u64 {
        let r = conv_utf8_to_utf16_offset(text, len);
        proof {
            lemma_encoded_len(text@);
            lemma_wire_offset_past_end(text@, len as nat);
            lemma_wire_offset_past_end(text@, offset as nat);
        }
        r
    } else {
        conv_utf8_to_utf16_offset(text, offset as usize)
    }
}

impl Line {
    #[verifier::type_invariant]
    spec fn inv(&self) -> bool {
        line_wf(self@)
    }

    /// Makes a line of its text, its carets at byte offsets of the text, and
    /// its styles over byte offsets of the text. An offset inside a character
    /// stands for the start of that character, one past the end for the end of
    /// the text.
    pub fn from_parts(text: String, cursor: &[u64], styles: &[RawStyle]) -> (r: Result<Line, ParseError>)
        ensures
            match r {
                Ok(line) => line_from_parts(text@, cursor@, styles@) == Ok::<LineView, ParseError>(
                    line@,
                ) && line_wf(line@),
                Err(e) => line_from_parts(text@, cursor@, styles@) == Err::<LineView, ParseError>(e),
            },
    {
        let mut carets: Vec<usize> = Vec::new();
        let mut i: usize = 0;
        while i < cursor.len()
            invariant
                i <= cursor@.len(),
                carets@.len() == i,
                forall|j: int|
                    0 <= j < i ==> #[trigger] carets@[j] == wire_offset(text@, cursor@[j] as nat),
                forall|j: int| 0 <= j < i ==> #[trigger] carets@[j] <= utf16_len(text@),
            decreases cursor@.len() - i,
        {
            let caret = wire_offset_of(text.as_str(), cursor[i]);
            carets.push(caret);
            i = i + 1;
        }
        let mut spans: Vec<StyleSpan> = Vec::new();
        let mut end: i128 = 0;
        let mut k: usize = 0;
        while k < styles.len()
            invariant
                k <= styles@.len(),
                spans@.len() == k,
                end == spans_end(styles@, k as int),
                0 <= end <= i64::MAX,
                forall|j: int| 0 <= j < k ==> #[trigger] span_valid(styles@, j),
                forall|j: int| 0 <= j < k ==> #[trigger] spans@[j] == span_of(text@, styles@, j),
                forall|j: int|
                    0 <= j < k ==> (#[trigger] spans@[j]).range.start <= spans@[j].range.end
                        <= utf16_len(text@),
            decreases styles@.len() - k,
        {
            let style: RawStyle = styles[k];
            let start: i128 = end + style.start_delta as i128;
            let next: i128 = start + style.length as i128;
            if start < 0 || next < start || next > i64::MAX as i128 || style.style_id
                > usize::MAX as u64 {
                proof {
                    assert(!span_valid(styles@, k as int));
                }
                return Err(ParseError::BadStyles);
            }
            let from = wire_offset_of(text.as_str(), start as u64);
            let to = wire_offset_of(text.as_str(), next as u64);
            proof {
                lemma_wire_offset_monotonic(text@, start as nat, next as nat);
            }
            spans.push(StyleSpan { style_id: style.style_id as usize, range: from..to });
            end = next;
            k = k + 1;
        }
        proof {
            assert(carets@ =~= carets_of(text@, cursor@));
            assert(spans@ =~= spans_of(text@, styles@));
        }
        Ok(Line { text, cursor: carets, styles: spans })
    }

    /// Reads a line from the JSON value that describes it.
    pub fn from_json(v: &Value) -> (r: Result<Line, ParseError>)
        ensures
            match r {
                Ok(line) => line_from_json(*v) == Ok::<LineView, ParseError>(line@) && line_wf(
                    line@,
                ),
                Err(e) => line_from_json(*v) == Err::<LineView, ParseError>(e),
            },
    {
        let text = match member(v, "text").as_str() {
            Some(t) => t.to_owned(),
            None => {
                return Err(ParseError::MissingText);
            },
        };
        let cursor = match cursor_of(member(v, "cursor")) {
            Ok(c) => c,
            Err(e) => {
                return Err(e);
            },
        };
        let styles = match styles_of(member(v, "styles")) {
            Ok(s) => s,
            Err(e) => {
                return Err(e);
            },
        };
        Line::from_parts(text, cursor.as_slice(), styles.as_slice())
    }

    /// The text of the line.
    pub fn text(&self) -> (r: &str)
        ensures
            r@ == self@.text,
    {
        self.text.as_str()
    }

    /// The carets on the line, in UTF-16 code units.
    pub fn cursor(&self) -> (r: &[usize])
        ensures
            r@ == self@.cursor,
            line_wf(self@),
    {
        proof {
            use_type_invariant(self);
        }
        self.cursor.as_slice()
    }

    /// The style spans of the line, in UTF-16 code units.
    pub fn styles(&self) -> (r: &[StyleSpan])
        ensures
            r@ == self@.styles,
            line_wf(self@),
    {
        proof {
            use_type_invariant(self);
        }
        self.styles.as_slice()
    }
}

/// One instruction of an update.
#[derive(Debug, PartialEq, Eq)]
pub enum DiffOp {
    /// New lines, to be appended.
    Insert(Vec<Line>),
    /// Take over the next rows of the old cache.
    Copy(u64),
    /// Pass over the next rows of the old cache.
    Skip(u64),
    /// Append rows whose content is not known yet.
    Invalidate(u64),
}

/// What an instruction holds.
pub enum DiffOpView {
    Insert(Seq<LineView>),
    Copy(nat),
    Skip(nat),
    Invalidate(nat),
}

impl View for DiffOp {
    type V = DiffOpView;

    open spec fn view(&self) -> DiffOpView {
        match self {
            DiffOp::Insert(lines) => DiffOpView::Insert(lines@.map_values(|line: Line| line@)),
            DiffOp::Copy(n) => DiffOpView::Copy(*n as nat),
            DiffOp::Skip(n) => DiffOpView::Skip(*n as nat),
            DiffOp::Invalidate(n) => DiffOpView::Invalidate(*n as nat),
        }
    }
}

/// What a list of instructions holds.
pub open spec fn ops_view(ops: Seq<DiffOp>) -> Seq<DiffOpView> {
    ops.map_values(|op: DiffOp| op@)
}

/// The lines that an array of JSON values describes; the error of the first
/// one that describes none.
pub open spec fn lines_from_json(a: Seq<Value>) -> Result<Seq<LineView>, ParseError>
    decreases a.len(),
{
    if a.len() == 0 {
        Ok(Seq::empty())
    } else {
        match lines_from_json(a.drop_last()) {
            Err(e) => Err(e),
            Ok(lines) => match line_from_json(a.last()) {
                Err(e) => Err(e),
                Ok(line) => Ok(lines.push(line)),
            },
        }
    }
}

/// The count of a copy, skip or invalidate instruction.
pub open spec fn count_from_json(op: Value) -> Result<nat, ParseError> {
    match value_u64(value_member(op, "n"@)) {
        None => Err(ParseError::MissingCount),
        Some(n) => Ok(n as nat),
    }
}

/// The instruction that a JSON value describes, by its `op` member: `ins`
/// with `lines`, or `copy`, `skip` or `invalidate` with a count `n`. A value
/// with any other `op`, or none, describes no instruction.
pub open spec fn op_from_json(op: Value) -> Result<Option<DiffOpView>, ParseError> {
    let kind = value_str(value_member(op, "op"@));
    if kind == Some("ins"@) {
        match value_array(value_member(op, "lines"@)) {
            None => Err(ParseError::MissingLines),
            Some(a) => match lines_from_json(a) {
                Err(e) => Err(e),
                Ok(lines) => Ok(Some(DiffOpView::Insert(lines))),
            },
        }
    } else if kind == Some("copy"@) {
        match count_from_json(op) {
            Err(e) => Err(e),
            Ok(n) => Ok(Some(DiffOpView::Copy(n))),
        }
    } else if kind == Some("skip"@) {
        match count_from_json(op) {
            Err(e) => Err(e),
            Ok(n) => Ok(Some(DiffOpView::Skip(n))),
        }
    } else if kind == Some("invalidate"@) {
        match count_from_json(op) {
            Err(e) => Err(e),
            Ok(n) => Ok(Some(DiffOpView::Invalidate(n))),
        }
    } else {
        Ok(None)
    }
}

/// The instructions that an array of JSON values describes, in order, without
/// the values that describe none; the error of the first one that cannot be
/// read.
pub open spec fn ops_from_json(a: Seq<Value>) -> Result<Seq<DiffOpView>, ParseError>
    decreases a.len(),
{
    if a.len() == 0 {
        Ok(Seq::empty())
    } else {
        match ops_from_json(a.drop_last()) {
            Err(e) => Err(e),
            Ok(ops) => match op_from_json(a.last()) {
                Err(e) => Err(e),
                Ok(Some(op)) => Ok(ops.push(op)),
                Ok(None) => Ok(ops),
            },
        }
    }
}

/// The instructions of an update: those of its `ops` member.
pub open spec fn update_from_json(update: Value) -> Result<Seq<DiffOpView>, ParseError> {
    match value_array(value_member(update, "ops"@)) {
        None => Err(ParseError::MissingOps),
        Some(a) => ops_from_json(a),
    }
}

fn lines_of(a: &Vec<Value>) -> (r: Result<Vec<Line>, ParseError>)
    ensures
        match r {
            Ok(lines) => lines_from_json(a@) == Ok::<Seq<LineView>, ParseError>(
                lines@.map_values(|line: Line| line@),
            ),
            Err(e) => lines_from_json(a@) == Err::<Seq<LineView>, ParseError>(e),
        },
{
    let mut lines: Vec<Line> = Vec::new();
    let mut i: usize = 0;
    proof {
        assert(a@.take(0).len() == 0);
        assert(lines@.map_values(|line: Line| line@) =~= Seq::<LineView>::empty());
    }
    while i < a.len()
        invariant
            i <= a@.len(),
            lines_from_json(a@.take(i as int)) == Ok::<Seq<LineView>, ParseError>(
                lines@.map_values(|line: Line| line@),
            ),
        decreases a@.len() - i,
    {
        proof {
            let next = a@.take(i + 1);
            assert(next.drop_last() =~= a@.take(i as int));
            assert(next.last() == a@[i as int]);
        }
        let ghost before = lines@.map_values(|line: Line| line@);
        match Line::from_json(&a[i]) {
            Ok(line) => {
                lines.push(line);
                proof {
                    assert(lines@.map_values(|line: Line| line@) =~= before.push(line@));
                }
            },
            Err(e) => {
                proof {
                    lemma_lines_error_stays(a@, i + 1, e);
                }
                return Err(e);
            },
        }
        i = i + 1;
    }
    proof {
        assert(a@.take(i as int) =~= a@);
    }
    Ok(lines)
}

/// Once a prefix of an array cannot be read as lines, neither can the array,
/// and the error is the same.
proof fn lemma_lines_error_stays(a: Seq<Value>, i: int, e: ParseError)
    requires
        0 <= i <= a.len(),
        lines_from_json(a.take(i)) == Err::<Seq<LineView>, ParseError>(e),
    ensures
        lines_from_json(a) == Err::<Seq<LineView>, ParseError>(e),
    decreases a.len() - i,
{
    if i < a.len() {
        let next = a.take(i + 1);
        assert(next.drop_last() =~= a.take(i));
        lemma_lines_error_stays(a, i + 1, e);
    } else {
        assert(a.take(i) =~= a);
    }
}

/// Once a prefix of an array cannot be read as instructions, neither can the
/// array, and the error is the same.
proof fn lemma_ops_error_stays(a: Seq<Value>, i: int, e: ParseError)
    requires
        0 <= i <= a.len(),
        ops_from_json(a.take(i)) == Err::<Seq<DiffOpView>, ParseError>(e),
    ensures
        ops_from_json(a) == Err::<Seq<DiffOpView>, ParseError>(e),
    decreases a.len() - i,
{
    if i < a.len() {
        let next = a.take(i + 1);
        assert(next.drop_last() =~= a.take(i));
        lemma_ops_error_stays(a, i + 1, e);
    } else {
        assert(a.take(i) =~= a);
    }
}

fn count_of(op: &Value) -> (r: Result<u64, ParseError>)
    ensures
        match r {
            Ok(n) => count_from_json(*op) == Ok::<nat, ParseError>(n as nat),
            Err(e) => count_from_json(*op) == Err::<nat, ParseError>(e),
        },
{
    match member(op, "n").as_u64() {
        Some(n) => Ok(n),
        None => Err(ParseError::MissingCount),
    }
}

impl DiffOp {
    /// Reads one instruction of an update from the JSON value that describes
    /// it; `None` for a value that describes none.
    pub fn from_json(op: &Value) -> (r: Result<Option<DiffOp>, ParseError>)
        ensures
            match r {
                Ok(Some(d)) => op_from_json(*op) == Ok::<Option<DiffOpView>, ParseError>(Some(d@)),
                Ok(None) => op_from_json(*op) == Ok::<Option<DiffOpView>, ParseError>(None),
                Err(e) => op_from_json(*op) == Err::<Option<DiffOpView>, ParseError>(e),
            },
    {
        let kind = match member(op, "op").as_str() {
            Some(kind) => kind,
            None => {
                return Ok(None);
            },
        };
        if str_eq(kind, "ins") {
            match member(op, "lines").as_array() {
                None => Err(ParseError::MissingLines),
                Some(a) => match lines_of(a) {
                    Err(e) => Err(e),
                    Ok(lines) => Ok(Some(DiffOp::Insert(lines))),
                },
            }
        } else if str_eq(kind, "copy") {
            match count_of(op) {
                Err(e) => Err(e),
                Ok(n) => Ok(Some(DiffOp::Copy(n))),
            }
        } else if str_eq(kind, "skip") {
            match count_of(op) {
                Err(e) => Err(e),
                Ok(n) => Ok(Some(DiffOp::Skip(n))),
            }
        } else if str_eq(kind, "invalidate") {
            match count_of(op) {
                Err(e) => Err(e),
                Ok(n) => Ok(Some(DiffOp::Invalidate(n))),
            }
        } else {
            Ok(None)
        }
    }
}

/// Reads the instructions of an update.
pub fn parse_update(update: &Value) -> (r: Result<Vec<DiffOp>, ParseError>)
    ensures
        match r {
            Ok(ops) => update_from_json(*update) == Ok::<Seq<DiffOpView>, ParseError>(
                ops_view(ops@),
            ),
            Err(e) => update_from_json(*update) == Err::<Seq<DiffOpView>, ParseError>(e),
        },
{
    let a = match member(update, "ops").as_array() {
        Some(a) => a,
        None => {
            return Err(ParseError::MissingOps);
        },
    };
    let mut ops: Vec<DiffOp> = Vec::new();
    let mut i: usize = 0;
    proof {
        assert(a@.take(0).len() == 0);
        assert(ops_view(ops@) =~= Seq::<DiffOpView>::empty());
    }
    while i < a.len()
        invariant
            value_array(value_member(*update, "ops"@)) == Some(a@),
            i <= a@.len(),
            ops_from_json(a@.take(i as int)) == Ok::<Seq<DiffOpView>, ParseError>(ops_view(ops@)),
        decreases a@.len() - i,
    {
        proof {
            let next = a@.take(i + 1);
            assert(next.drop_last() =~= a@.take(i as int));
            assert(next.last() == a@[i as int]);
        }
        let ghost before = ops_view(ops@);
        match DiffOp::from_json(&a[i]) {
            Ok(Some(op)) => {
                ops.push(op);
                proof {
                    assert(ops_view(ops@) =~= before.push(op@));
                }
            },
            Ok(None) => {},
            Err(e) => {
                proof {
                    lemma_ops_error_stays(a@, i + 1, e);
                }
                return Err(e);
            },
        }
        i = i + 1;
    }
    proof {
        assert(a@.take(i as int) =~= a@);
    }
    Ok(ops)
}

/// What a row of the cache holds: a line, or nothing where the content of the
/// row is not known.
pub open spec fn row_view(row: Option<Line>) -> Option<LineView> {
    match row {
        Some(line) => Some(line@),
        None => None,
    }
}

/// What a list of rows holds.
pub open spec fn rows_view(rows: Seq<Option<Line>>) -> Seq<Option<LineView>> {
    rows.map_values(|row: Option<Line>| row_view(row))
}

/// The `n` rows of `old` from row `from` on; a row that `old` does not have is
/// empty.
pub open spec fn old_rows(old: Seq<Option<LineView>>, from: nat, n: nat) -> Seq<Option<LineView>> {
    Seq::new(
        n,
        |i: int|
            if from + i < old.len() {
                old[from + i]
            } else {
                None
            },
    )
}

/// `n` rows without content.
pub open spec fn blank_rows(n: nat) -> Seq<Option<LineView>> {
    Seq::new(n, |i: int| None)
}

/// Each of `lines` as a row.
pub open spec fn line_rows(lines: Seq<LineView>) -> Seq<Option<LineView>> {
    lines.map_values(|line: LineView| Some(line))
}

/// The state of a rebuild: the rows built so far, and the read cursor into the
/// old cache.
pub struct Rebuild {
    pub rows: Seq<Option<LineView>>,
    pub cursor: nat,
}

/// One instruction, applied to the state of a rebuild of `old`.
pub open spec fn apply_op(old: Seq<Option<LineView>>, state: Rebuild, op: DiffOpView) -> Rebuild {
    match op {
        DiffOpView::Insert(lines) => Rebuild {
            rows: state.rows + line_rows(lines),
            cursor: state.cursor,
        },
        DiffOpView::Copy(n) => Rebuild {
            rows: state.rows + old_rows(old, state.cursor, n),
            cursor: state.cursor + n,
        },
        DiffOpView::Skip(n) => Rebuild { rows: state.rows, cursor: state.cursor + n },
        DiffOpView::Invalidate(n) => Rebuild {
            rows: state.rows + blank_rows(n),
            cursor: state.cursor,
        },
    }
}

/// The state after `ops`, applied in order to an empty new cache with the read
/// cursor at the start of `old`.
pub open spec fn rebuild(old: Seq<Option<LineView>>, ops: Seq<DiffOpView>) -> Rebuild
    decreases ops.len(),
{
    if ops.len() == 0 {
        Rebuild { rows: Seq::empty(), cursor: 0 }
    } else {
        apply_op(old, rebuild(old, ops.drop_last()), ops.last())
    }
}

/// The cache that `ops` make of the cache `old`.
pub open spec fn apply_ops(old: Seq<Option<LineView>>, ops: Seq<DiffOpView>) -> Seq<Option<LineView>> {
    rebuild(old, ops).rows
}

/// The lines of a view, as far as they are known.
#[derive(Debug)]
pub struct LineCache {
    lines: Vec<Option<Line>>,
}

impl View for LineCache {
    type V = Seq<Option<LineView>>;

    closed spec fn view(&self) -> Seq<Option<LineView>> {
        rows_view(self.lines@)
    }
}

impl Default for LineCache {
    fn default() -> (r: Self)
        ensures
            r@ == Seq::<Option<LineView>>::empty(),
    {
        LineCache::new()
    }
}

/// Appends `lines` to `rows`.
fn push_lines(rows: &mut Vec<Option<Line>>, lines: Vec<Line>)
    ensures
        rows_view(final(rows)@) == rows_view(old(rows)@) + line_rows(
            lines@.map_values(|line: Line| line@),
        ),
{
    let ghost start = rows_view(rows@);
    let ghost all = lines@.map_values(|line: Line| line@);
    proof {
        assert(rows_view(rows@) =~= start + line_rows(all.take(0)));
    }
    for line in it: lines
        invariant
            it.seq() == lines@,
            all == lines@.map_values(|line: Line| line@),
            rows_view(rows@) == start + line_rows(all.take(it.index() as int)),
    {
        let ghost before = rows_view(rows@);
        let ghost i = it.index() as int;
        rows.push(Some(line));
        proof {
            assert(rows_view(rows@) =~= before.push(Some(line@)));
            assert(line_rows(all.take(i + 1)) =~= line_rows(all.take(i)).push(Some(line@)));
            assert(rows_view(rows@) =~= start + line_rows(all.take(i + 1)));
        }
    }
    proof {
        assert(all.take(all.len() as int) =~= all);
    }
}

/// Appends `n` rows without content to `rows`.
fn push_blank(rows: &mut Vec<Option<Line>>, n: u64)
    ensures
        rows_view(final(rows)@) == rows_view(old(rows)@) + blank_rows(n as nat),
{
    let ghost start = rows_view(rows@);
    let mut i: u64 = 0;
    proof {
        assert(rows_view(rows@) =~= start + blank_rows(0));
    }
    while i < n
        invariant
            i <= n,
            rows_view(rows@) == start + blank_rows(i as nat),
        decreases n - i,
    {
        let ghost before = rows_view(rows@);
        rows.push(None);
        proof {
            assert(rows_view(rows@) =~= before.push(None));
            assert(blank_rows((i + 1) as nat) =~= blank_rows(i as nat).push(None));
            assert(rows_view(rows@) =~= start + blank_rows((i + 1) as nat));
        }
        i = i + 1;
    }
}

/// Moves the `n` rows of `source` from row `pos` on to the end of `rows`, with
/// an empty row for each that `source` does not have.
fn move_rows(
    source: &mut Vec<Option<Line>>,
    pos: usize,
    n: u64,
    rows: &mut Vec<Option<Line>>,
    Ghost(snapshot): Ghost<Seq<Option<LineView>>>,
) -> (next: usize)
    requires
        pos <= old(source)@.len(),
        old(source)@.len() == snapshot.len(),
        forall|j: int| pos <= j < snapshot.len() ==> row_view(old(source)@[j]) == snapshot[j],
    ensures
        final(source)@.len() == snapshot.len(),
        pos <= next <= snapshot.len(),
        next == if pos + n <= snapshot.len() {
            pos + n
        } else {
            snapshot.len() as int
        },
        forall|j: int| next <= j < snapshot.len() ==> row_view(final(source)@[j]) == snapshot[j],
        rows_view(final(rows)@) == rows_view(old(rows)@) + old_rows(snapshot, pos as nat, n as nat),
{
    let ghost start = rows_view(rows@);
    let len: usize = source.len();
    let mut at: usize = pos;
    let mut i: u64 = 0;
    proof {
        assert(rows_view(rows@) =~= start + old_rows(snapshot, pos as nat, 0));
    }
    while i < n
        invariant
            i <= n,
            len == snapshot.len(),
            source@.len() == snapshot.len(),
            pos <= at <= len,
            at == if pos + i <= len {
                pos + i
            } else {
                len as int
            },
            forall|j: int| at <= j < snapshot.len() ==> row_view(source@[j]) == snapshot[j],
            rows_view(rows@) == start + old_rows(snapshot, pos as nat, i as nat),
        decreases n - i,
    {
        let ghost before = rows_view(rows@);
        let ghost built = old_rows(snapshot, pos as nat, i as nat);
        if at < len {
            let row = source[at].take();
            proof {
                assert(row_view(row) == snapshot[at as int]);
            }
            rows.push(row);
            proof {
                assert(rows_view(rows@) =~= before.push(snapshot[at as int]));
                assert(old_rows(snapshot, pos as nat, (i + 1) as nat) =~= built.push(
                    snapshot[at as int],
                ));
            }
            at = at + 1;
        } else {
            rows.push(None);
            proof {
                assert(rows_view(rows@) =~= before.push(None));
                assert(old_rows(snapshot, pos as nat, (i + 1) as nat) =~= built.push(None));
            }
        }
        proof {
            assert(rows_view(rows@) =~= start + old_rows(snapshot, pos as nat, (i + 1) as nat));
        }
        i = i + 1;
    }
    at
}

impl LineCache {
    /// An empty cache.
    pub fn new() -> (r: Self)
        ensures
            r@ == Seq::<Option<LineView>>::empty(),
    {
        let r = LineCache { lines: Vec::new() };
        proof {
            assert(r@ =~= Seq::<Option<LineView>>::empty());
        }
        r
    }

    /// Rebuilds the cache from `ops`, applied from left to right: the rows of
    /// the old cache are read once, front to back, by the copy and skip
    /// instructions, and the new cache is what the insert, copy and invalidate
    /// instructions append.
    pub fn apply(&mut self, ops: Vec<DiffOp>)
        ensures
            final(self)@ == apply_ops(old(self)@, ops_view(ops@)),
    {
        let ghost snapshot = self@;
        let ghost all = ops_view(ops@);
        let mut source: Vec<Option<Line>> = Vec::new();
        std::mem::swap(&mut self.lines, &mut source);
        let len: usize = source.len();
        let mut rows: Vec<Option<Line>> = Vec::new();
        let mut pos: usize = 0;
        let ghost mut cursor: nat = 0;
        proof {
            assert(all.take(0).len() == 0);
            assert(rows_view(rows@) =~= Seq::<Option<LineView>>::empty());
        }
        for op in it: ops
            invariant
                it.seq() == ops@,
                all == ops_view(ops@),
                len == snapshot.len(),
                source@.len() == snapshot.len(),
                forall|j: int| pos <= j < snapshot.len() ==> row_view(source@[j]) == snapshot[j],
                rebuild(snapshot, all.take(it.index() as int)) == (Rebuild {
                    rows: rows_view(rows@),
                    cursor,
                }),
                pos == if cursor <= len {
                    cursor as int
                } else {
                    len as int
                },
        {
            let ghost i = it.index() as int;
            let ghost state = Rebuild { rows: rows_view(rows@), cursor };
            proof {
                let next = all.take(i + 1);
                assert(next.drop_last() =~= all.take(i));
                assert(next.last() == op@);
                assert(rebuild(snapshot, next) == apply_op(snapshot, state, op@));
            }
            match op {
                DiffOp::Insert(lines) => {
                    push_lines(&mut rows, lines);
                },
                DiffOp::Copy(n) => {
                    let ghost from = pos as nat;
                    pos = move_rows(&mut source, pos, n, &mut rows, Ghost(snapshot));
                    proof {
                        assert(old_rows(snapshot, from, n as nat) =~= old_rows(
                            snapshot,
                            cursor,
                            n as nat,
                        ));
                        cursor = cursor + n as nat;
                    }
                },
                DiffOp::Skip(n) => {
                    if n >= (len - pos) as u64 {
                        pos = len;
                    } else {
                        pos = pos + n as usize;
                    }
                    proof {
                        cursor = cursor + n as nat;
                    }
                },
                DiffOp::Invalidate(n) => {
                    push_blank(&mut rows, n);
                },
            }
        }
        proof {
            assert(all.take(all.len() as int) =~= all);
        }
        self.lines = rows;
    }

    /// Rebuilds the cache from an update. An update that cannot be read leaves
    /// the cache as it is.
    pub fn apply_update(&mut self, update: &Value) -> (r: Result<(), ParseError>)
        ensures
            match update_from_json(*update) {
                Ok(ops) => r is Ok && final(self)@ == apply_ops(old(self)@, ops),
                Err(e) => r == Err::<(), ParseError>(e) && final(self)@ == old(self)@,
            },
    {
        match parse_update(update) {
            Ok(ops) => {
                self.apply(ops);
                Ok(())
            },
            Err(e) => Err(e),
        }
    }

    /// The number of rows.
    pub fn height(&self) -> (n: usize)
        ensures
            n == self@.len(),
    {
        self.lines.len()
    }

    /// The line of row `i`; `None` where the cache has no such row, or does
    /// not know its content.
    pub fn get_line(&self, i: usize) -> (r: Option<&Line>)
        ensures
            match r {
                Some(line) => i < self@.len() && self@[i as int] == Some(line@),
                None => i >= self@.len() || self@[i as int] is None,
            },
    {
        if i < self.lines.len() {
            self.lines[i].as_ref()
        } else {
            None
        }
    }
}

/// The number of lines that the insert instructions of `ops` hold.
pub open spec fn inserted(ops: Seq<DiffOpView>) -> nat
    decreases ops.len(),
{
    if ops.len() == 0 {
        0
    } else {
        inserted(ops.drop_last()) + match ops.last() {
            DiffOpView::Insert(lines) => lines.len(),
            _ => 0,
        }
    }
}

/// The sum of the counts of the copy instructions of `ops`.
pub open spec fn copied(ops: Seq<DiffOpView>) -> nat
    decreases ops.len(),
{
    if ops.len() == 0 {
        0
    } else {
        copied(ops.drop_last()) + match ops.last() {
            DiffOpView::Copy(n) => n,
            _ => 0,
        }
    }
}

/// The sum of the counts of the skip instructions of `ops`.
pub open spec fn skipped(ops: Seq<DiffOpView>) -> nat
    decreases ops.len(),
{
    if ops.len() == 0 {
        0
    } else {
        skipped(ops.drop_last()) + match ops.last() {
            DiffOpView::Skip(n) => n,
            _ => 0,
        }
    }
}

/// The sum of the counts of the invalidate instructions of `ops`.
pub open spec fn invalidated(ops: Seq<DiffOpView>) -> nat
    decreases ops.len(),
{
    if ops.len() == 0 {
        0
    } else {
        invalidated(ops.drop_last()) + match ops.last() {
            DiffOpView::Invalidate(n) => n,
            _ => 0,
        }
    }
}

/// The new cache has one row for each inserted line, each copied row and each
/// invalidated row, and the read cursor has passed the copied and the
/// skipped rows.
pub proof fn lemma_height(old: Seq<Option<LineView>>, ops: Seq<DiffOpView>)
    ensures
        apply_ops(old, ops).len() == inserted(ops) + copied(ops) + invalidated(ops),
        rebuild(old, ops).cursor == copied(ops) + skipped(ops),
    decreases ops.len(),
{
    if ops.len() > 0 {
        lemma_height(old, ops.drop_last());
    }
}

/// A copy appends rows of the old cache as they are: row `k` of the rows that
/// it appends is the row of the old cache `k` after the read cursor, with
/// its text, carets and styles, or its lack of content. Where the old cache
/// ends before that, the row has no content.
pub proof fn lemma_copy_keeps_rows(old: Seq<Option<LineView>>, state: Rebuild, n: nat, k: int)
    requires
        0 <= k < n,
    ensures
        apply_op(old, state, DiffOpView::Copy(n)).rows.len() == state.rows.len() + n,
        apply_op(old, state, DiffOpView::Copy(n)).rows.take(state.rows.len() as int) == state.rows,
        apply_op(old, state, DiffOpView::Copy(n)).cursor == state.cursor + n,
        state.cursor + k < old.len() ==> apply_op(old, state, DiffOpView::Copy(n)).rows[state.rows.len()
            + k] == old[state.cursor + k],
        state.cursor + k >= old.len() ==> apply_op(old, state, DiffOpView::Copy(n)).rows[state.rows.len()
            + k] is None,
{
    let after = apply_op(old, state, DiffOpView::Copy(n));
    assert(after.rows.take(state.rows.len() as int) =~= state.rows);
}

/// An invalidate appends rows without content, whatever the old cache holds
/// and wherever the read cursor stands, and leaves the read cursor where it
/// is.
pub proof fn lemma_invalidate_blank(
    old: Seq<Option<LineView>>,
    other: Seq<Option<LineView>>,
    state: Rebuild,
    n: nat,
    k: int,
)
    requires
        0 <= k < n,
    ensures
        apply_op(old, state, DiffOpView::Invalidate(n)).rows.len() == state.rows.len() + n,
        apply_op(old, state, DiffOpView::Invalidate(n)).rows.take(state.rows.len() as int)
            == state.rows,
        apply_op(old, state, DiffOpView::Invalidate(n)).rows[state.rows.len() + k] is None,
        apply_op(old, state, DiffOpView::Invalidate(n)).cursor == state.cursor,
        apply_op(old, state, DiffOpView::Invalidate(n)) == apply_op(
            other,
            Rebuild { rows: state.rows, cursor: state.cursor },
            DiffOpView::Invalidate(n),
        ),
{
    let after = apply_op(old, state, DiffOpView::Invalidate(n));
    assert(after.rows.take(state.rows.len() as int) =~= state.rows);
}

/// A skip appends nothing, and the copy after it appends the rows of the old
/// cache that come right after the skipped ones.
pub proof fn lemma_skip_then_copy(
    old: Seq<Option<LineView>>,
    state: Rebuild,
    n: nat,
    m: nat,
    k: int,
)
    requires
        0 <= k < m,
    ensures
        apply_op(old, state, DiffOpView::Skip(n)).rows == state.rows,
        apply_op(old, state, DiffOpView::Skip(n)).cursor == state.cursor + n,
        apply_op(old, apply_op(old, state, DiffOpView::Skip(n)), DiffOpView::Copy(m)).rows
            == state.rows + old_rows(old, state.cursor + n, m),
        state.cursor + n + k < old.len() ==> apply_op(
            old,
            apply_op(old, state, DiffOpView::Skip(n)),
            DiffOpView::Copy(m),
        ).rows[state.rows.len() + k] == old[state.cursor + n + k],
{
}

/// An insert appends its lines, in order, and leaves the read cursor where it
/// is.
pub proof fn lemma_insert_appends(
    old: Seq<Option<LineView>>,
    state: Rebuild,
    lines: Seq<LineView>,
    k: int,
)
    requires
        0 <= k < lines.len(),
    ensures
        apply_op(old, state, DiffOpView::Insert(lines)).rows.len() == state.rows.len()
            + lines.len(),
        apply_op(old, state, DiffOpView::Insert(lines)).rows.take(state.rows.len() as int)
            == state.rows,
        apply_op(old, state, DiffOpView::Insert(lines)).rows[state.rows.len() + k] == Some(
            lines[k],
        ),
        apply_op(old, state, DiffOpView::Insert(lines)).cursor == state.cursor,
{
    let after = apply_op(old, state, DiffOpView::Insert(lines));
    assert(after.rows.take(state.rows.len() as int) =~= state.rows);
}

} // verus!
