//! Source positions and diagnostics: byte offsets with line numbers, byte
//! spans, and access to the lines an offset or span lies on.
use crate::chars::byte_of;
use crate::chars::lemma_byte_of_mono;
use crate::chars::lemma_byte_of_zero;
use crate::chars::line_of;
use crate::parse::input::find_nl;
use crate::parse::input::Input;
use vstd::prelude::*;
use vstd::string::StrSliceExecFns;

verus! {

/// The [`Offset`] of character position `i` of source `s`: its byte position
/// and 1-based line number.
pub open spec fn offset_at(s: Seq<char>, i: int) -> Offset {
    Offset { byte: byte_of(s, i) as usize, line_number: line_of(s, i) as usize }
}

/// The [`Span`] from character position `i` to `j` of source `s`.
pub open spec fn span_at(s: Seq<char>, i: int, j: int) -> Span {
    Span { offset: offset_at(s, i), len: (byte_of(s, j) - byte_of(s, i)) as usize }
}

/// A position in the source content passed to the parser: a byte offset
/// together with the 1-based number of the line it lies on.
#[derive(Debug, Clone, Copy, PartialEq, Eq, Hash, Structural)]
pub struct Offset {
    pub byte: usize,
    pub line_number: usize,
}

impl Offset {
    /// The position of the first byte of the source, on line 1.
    pub fn new() -> (r: Self)
        ensures
            r.byte == 0,
            r.line_number == 1,
    {
        Self { byte: 0, line_number: 1 }
    }

    /// The same line, `len` bytes further on.
    pub fn increase_bytes(&self, len: usize) -> (r: Self)
        requires
            self.byte + len <= usize::MAX,
        ensures
            r.byte == self.byte + len,
            r.line_number == self.line_number,
    {
        Self { byte: self.byte + len, line_number: self.line_number }
    }

    /// The same byte position, `lines` lines further on.
    pub fn increase_line_number(&self, lines: usize) -> (r: Self)
        requires
            self.line_number + lines <= usize::MAX,
        ensures
            r.byte == self.byte,
            r.line_number == self.line_number + lines,
    {
        Self { byte: self.byte, line_number: self.line_number + lines }
    }

    /// The span of `len` bytes starting at this position.
    pub fn span(&self, len: usize) -> (r: Span)
        ensures
            r.offset == *self,
            r.len == len,
    {
        Span { offset: *self, len }
    }

    /// The line number this offset is on.
    pub fn line_number(&self) -> (r: usize)
        ensures
            r == self.line_number,
    {
        self.line_number
    }
}

/// A contiguous region of the source content: a start [`Offset`] plus a
/// length in bytes.
#[derive(Debug, Clone, Copy, PartialEq, Eq, Hash, Structural)]
pub struct Span {
    pub offset: Offset,
    pub len: usize,
}

impl Span {
    /// The [`Offset`] this span starts at.
    pub fn offset(&self) -> (r: Offset)
        ensures
            r == self.offset,
    {
        self.offset
    }

    /// The line number this span starts on.
    pub fn line_number(&self) -> (r: usize)
        ensures
            r == self.offset.line_number,
    {
        self.offset.line_number
    }
}

impl From<Span> for Offset {
    fn from(span: Span) -> (r: Offset)
        ensures
            r == span.offset,
    {
        span.offset
    }
}

impl vstd::std_specs::convert::FromSpecImpl<Span> for Offset {
    open spec fn obeys_from_spec() -> bool {
        true
    }

    open spec fn from_spec(span: Span) -> Offset {
        span.offset
    }
}

/// True when `b` is the byte position of some character boundary of `s`
/// (the end of the text included).
pub open spec fn is_char_boundary_at(s: Seq<char>, b: int) -> bool {
    exists|i: int| 0 <= i <= s.len() && #[trigger] byte_of(s, i) == b
}

/// The character position whose byte position is `b`.
pub open spec fn char_pos_at(s: Seq<char>, b: int) -> int {
    choose|i: int| 0 <= i <= s.len() && #[trigger] byte_of(s, i) == b
}

/// Byte positions determine character positions: each boundary has exactly
/// one.
pub proof fn lemma_char_pos_unique(s: Seq<char>, i: int)
    requires
        0 <= i <= s.len(),
    ensures
        is_char_boundary_at(s, byte_of(s, i)),
        char_pos_at(s, byte_of(s, i)) == i,
{
    let b = byte_of(s, i);
    assert(is_char_boundary_at(s, b));
    let j = char_pos_at(s, b);
    if j < i {
        lemma_byte_of_mono(s, j, i);
    }
    if i < j {
        lemma_byte_of_mono(s, i, j);
    }
}

/// The start of the line character position `i` lies on: the position just
/// past the previous newline, or the start of the source.
pub open spec fn line_start_at(s: Seq<char>, i: int) -> int
    decreases i,
{
    if i <= 0 {
        0
    } else if s[i - 1] == '\n' {
        i
    } else {
        line_start_at(s, i - 1)
    }
}

/// A line start lies at or before its position, and no newline stands
/// between them.
pub proof fn lemma_line_start_props(s: Seq<char>, i: int)
    requires
        0 <= i <= s.len(),
    ensures
        0 <= line_start_at(s, i) <= i,
        forall|k: int| line_start_at(s, i) <= k < i ==> #[trigger] s[k] != '\n',
        line_start_at(s, i) > 0 ==> s[line_start_at(s, i) - 1] == '\n',
    decreases i,
{
    if i > 0 && s[i - 1] != '\n' {
        lemma_line_start_props(s, i - 1);
    }
}

/// The span of the line that character position `cp` lies on: from the line
/// start up to the next newline or the end of the source.
pub open spec fn spec_line_span(s: Seq<char>, cp: int) -> Span {
    let ls = line_start_at(s, cp);
    span_at(s, ls, find_nl(s, ls, s.len() as int))
}

/// Both ends of the span are character boundaries of `s`.
pub open spec fn span_wf(s: Seq<char>, span: Span) -> bool {
    &&& is_char_boundary_at(s, span.offset.byte as int)
    &&& is_char_boundary_at(s, span.offset.byte + span.len)
}

/// The characters the span covers.
pub open spec fn spec_span_str(s: Seq<char>, span: Span) -> Seq<char> {
    s.subrange(
        char_pos_at(s, span.offset.byte as int),
        char_pos_at(s, span.offset.byte + span.len),
    )
}

/// The character position of the byte position `b`.
fn char_pos_of(s: &str, b: usize) -> (cp: usize)
    requires
        is_char_boundary_at(s@, b as int),
    ensures
        cp <= s@.len(),
        byte_of(s@, cp as int) == b as int,
        cp as int == char_pos_at(s@, b as int),
{
    let ghost cpg = char_pos_at(s@, b as int);
    proof {
        assert(0 <= cpg <= s@.len() && byte_of(s@, cpg) == b as int);
    }
    let mut cur = Input::new(s);
    while cur.offset.byte < b
        invariant
            cur.wf(),
            cur.src == s,
            cur.end == s@.len(),
            0 <= cpg <= s@.len(),
            byte_of(s@, cpg) == b as int,
            cur.pos <= cpg,
        decreases cpg - cur.pos,
    {
        proof {
            if cur.pos as int >= cpg {
                lemma_byte_of_mono(s@, cpg, cur.pos as int);
            }
        }
        cur = cur.advance();
    }
    proof {
        lemma_byte_of_mono(s@, cur.pos as int, cpg);
        if (cur.pos as int) < cpg {
            assert(false);
        }
        lemma_char_pos_unique(s@, cur.pos as int);
    }
    cur.pos
}

/// The span of the line that the byte position `b` lies on.
fn line_span_at(s: &str, b: usize) -> (r: Span)
    requires
        is_char_boundary_at(s@, b as int),
    ensures
        r == spec_line_span(s@, char_pos_at(s@, b as int)),
{
    let ghost cp = char_pos_at(s@, b as int);
    proof {
        assert(0 <= cp <= s@.len() && byte_of(s@, cp) == b as int);
        lemma_byte_of_zero(s@);
        assert(s@.take(0) =~= Seq::<char>::empty());
    }
    let mut cur = Input::new(s);
    let mut ls_off = cur.offset();
    let ghost mut ls: int = 0;
    while cur.offset.byte < b
        invariant
            cur.wf(),
            cur.src == s,
            cur.end == s@.len(),
            0 <= cp <= s@.len(),
            byte_of(s@, cp) == b as int,
            cur.pos <= cp,
            ls == line_start_at(s@, cur.pos as int),
            0 <= ls <= cur.pos,
            ls_off == offset_at(s@, ls),
            find_nl(s@, ls, s@.len() as int) == find_nl(s@, cur.pos as int, s@.len() as int),
        decreases cp - cur.pos,
    {
        proof {
            if cur.pos as int >= cp {
                lemma_byte_of_mono(s@, cp, cur.pos as int);
            }
        }
        let c = cur.peek();
        let next = cur.advance();
        if c == '\n' {
            ls_off = next.offset();
            proof {
                ls = cur.pos + 1;
            }
        }
        cur = next;
    }
    proof {
        lemma_byte_of_mono(s@, cur.pos as int, cp);
        if (cur.pos as int) < cp {
            assert(false);
        }
        assert(cur.pos as int == cp);
    }
    let ghost lsg = ls;
    let mut fin = cur;
    while fin.pos < fin.end && fin.peek() != '\n'
        invariant
            fin.wf(),
            fin.src == s,
            fin.end == s@.len(),
            0 <= lsg <= fin.pos,
            ls_off == offset_at(s@, lsg),
            find_nl(s@, lsg, s@.len() as int) == find_nl(s@, fin.pos as int, s@.len() as int),
        decreases fin.end - fin.pos,
    {
        fin = fin.advance();
    }
    proof {
        assert(find_nl(s@, lsg, s@.len() as int) == fin.pos as int);
        lemma_byte_of_mono(s@, lsg, fin.pos as int);
    }
    Span { offset: ls_off, len: fin.offset.byte - ls_off.byte }
}

/// Source content access via [`Offset`] and [`Span`] locations.
///
/// Every method's result is stated against the content's characters
/// ([`SourceContext::chars`]); offsets handed in must lie on character
/// boundaries, as every offset produced by parsing does.
pub trait SourceContext {
    /// The characters of the full source content.
    spec fn chars(&self) -> Seq<char>;

    /// The full source content.
    fn full_str(&self) -> (r: &str)
        ensures
            r@ == self.chars(),
    ;

    /// Find the [`Span`] of the line a given [`Offset`] is on.
    fn line_span(&self, offset: Offset) -> (r: Span)
        requires
            is_char_boundary_at(self.chars(), offset.byte as int),
        ensures
            r == spec_line_span(self.chars(), char_pos_at(self.chars(), offset.byte as int)),
    ;

    /// Try to find the [`Span`] of the line before the one a given
    /// [`Offset`] is on.
    fn line_span_before(&self, offset: Offset) -> (r: Option<Span>)
        requires
            is_char_boundary_at(self.chars(), offset.byte as int),
        ensures
            ({
                let line = spec_line_span(self.chars(), char_pos_at(self.chars(), offset.byte as int));
                match r {
                    Some(prev) => line.offset.byte > 0 && prev == spec_line_span(
                        self.chars(),
                        line_start_at(self.chars(), char_pos_at(self.chars(), offset.byte as int)) - 1,
                    ),
                    None => line.offset.byte == 0,
                }
            }),
    ;

    /// Find the contents of a [`Span`].
    fn span_str(&self, span: Span) -> (r: &str)
        requires
            span_wf(self.chars(), span),
        ensures
            r@ == spec_span_str(self.chars(), span),
    ;

    /// Find the contents of the line a given [`Offset`] is on.
    fn line_str(&self, offset: Offset) -> (r: &str)
        requires
            is_char_boundary_at(self.chars(), offset.byte as int),
        ensures
            ({
                let cp = char_pos_at(self.chars(), offset.byte as int);
                let ls = line_start_at(self.chars(), cp);
                r@ == self.chars().subrange(
                    ls,
                    find_nl(self.chars(), ls, self.chars().len() as int),
                )
            }),
    ;

    /// Find the line-local byte column of a given [`Offset`].
    fn byte_offset_on_line(&self, offset: Offset) -> (r: usize)
        requires
            is_char_boundary_at(self.chars(), offset.byte as int),
        ensures
            r == offset.byte - byte_of(
                self.chars(),
                line_start_at(self.chars(), char_pos_at(self.chars(), offset.byte as int)),
            ),
    ;

    /// Create a [`HighlightDisplay`] for the line the given [`Offset`] is
    /// on, marking the single character at the offset.
    fn offset_highlight_display(&self, offset: Offset) -> (r: HighlightDisplay<'_>)
        requires
            is_char_boundary_at(self.chars(), offset.byte as int),
        ensures
            ({
                let s = self.chars();
                let cp = char_pos_at(s, offset.byte as int);
                &&& r.lead_template@ == s.subrange(line_start_at(s, cp), cp)
                &&& r.len == 1
            }),
    ;

    /// Create a [`HighlightDisplay`] for the line the given [`Span`] starts
    /// on, marking one caret per character of the span.
    fn span_highlight_display(&self, span: Span) -> (r: HighlightDisplay<'_>)
        requires
            span_wf(self.chars(), span),
        ensures
            ({
                let s = self.chars();
                let cs = char_pos_at(s, span.offset.byte as int);
                let ce = char_pos_at(s, span.offset.byte + span.len);
                &&& r.lead_template@ == s.subrange(line_start_at(s, cs), cs)
                &&& r.len == ce - cs
            }),
    ;

    /// Create a [`SectionDisplay`] for the given [`Offset`], highlighting
    /// the single character at the offset.
    fn offset_section_display(&self, offset: Offset) -> (r: SectionDisplay<'_>)
        requires
            is_char_boundary_at(self.chars(), offset.byte as int),
        ensures
            ({
                let s = self.chars();
                let cp = char_pos_at(s, offset.byte as int);
                &&& section_fields_ok(s, cp, r)
                &&& r.highlight.lead_template@ == s.subrange(line_start_at(s, cp), cp)
                &&& r.highlight.len == 1
            }),
    ;

    /// Create a [`SectionDisplay`] for the given [`Span`], highlighting
    /// each of its characters.
    fn span_section_display(&self, span: Span) -> (r: SectionDisplay<'_>)
        requires
            span_wf(self.chars(), span),
        ensures
            ({
                let s = self.chars();
                let cs = char_pos_at(s, span.offset.byte as int);
                let ce = char_pos_at(s, span.offset.byte + span.len);
                &&& section_fields_ok(s, cs, r)
                &&& r.highlight.lead_template@ == s.subrange(line_start_at(s, cs), cs)
                &&& r.highlight.len == ce - cs
            }),
    ;
}

/// The context rows of a [`SectionDisplay`] built for character position
/// `cp`: the line's number and text, the previous line when one exists, and
/// the elision marker when lines are left out above it.
pub open spec fn section_fields_ok<'a>(s: Seq<char>, cp: int, r: SectionDisplay<'a>) -> bool {
    let line = spec_line_span(s, cp);
    let ls = line_start_at(s, cp);
    &&& r.line_number == line.offset.line_number
    &&& r.line@ == s.subrange(ls, find_nl(s, ls, s.len() as int))
    &&& (match r.previous {
        Some((ln, content)) => {
            let pls = line_start_at(s, ls - 1);
            &&& line.offset.byte > 0
            &&& ln == spec_line_span(s, ls - 1).offset.line_number
            &&& content@ == s.subrange(pls, find_nl(s, pls, s.len() as int))
        },
        None => line.offset.byte == 0,
    })
    &&& ({
        let first: int = match r.previous {
            Some((ln, _)) => ln as int,
            None => line.offset.line_number as int,
        };
        r.elide_from == (if first > 1 {
            Some((first - 1) as usize)
        } else {
            None::<usize>
        })
    })
}

/// The span of a whole line has boundaries at both ends, and its start byte
/// is the line start's byte position.
pub proof fn lemma_line_span_wf(s: Seq<char>, cp: int)
    requires
        0 <= cp <= s.len(),
        vstd::utf8::encode_utf8(s).len() <= usize::MAX,
    ensures
        span_wf(s, spec_line_span(s, cp)),
        spec_line_span(s, cp).offset.byte == byte_of(s, line_start_at(s, cp)),
        spec_span_str(s, spec_line_span(s, cp)) == s.subrange(
            line_start_at(s, cp),
            find_nl(s, line_start_at(s, cp), s.len() as int),
        ),
{
    let ls = line_start_at(s, cp);
    lemma_line_start_props(s, cp);
    crate::parse::input::lemma_find_nl_bounds(s, ls, s.len() as int);
    let le = find_nl(s, ls, s.len() as int);
    lemma_byte_of_mono(s, ls, le);
    lemma_byte_of_mono(s, le, s.len() as int);
    lemma_char_pos_unique(s, ls);
    lemma_char_pos_unique(s, le);
    crate::chars::lemma_byte_of_full(s);
    assert(spec_line_span(s, cp).offset.byte + spec_line_span(s, cp).len == byte_of(s, le));
}

impl SourceContext for str {
    open spec fn chars(&self) -> Seq<char> {
        self@
    }

    fn full_str(&self) -> (r: &str) {
        self
    }

    fn line_span(&self, offset: Offset) -> (r: Span) {
        line_span_at(self, offset.byte)
    }

    fn line_span_before(&self, offset: Offset) -> (r: Option<Span>) {
        let ghost cp = char_pos_at(self@, offset.byte as int);
        let total = crate::chars::byte_len(self);
        proof {
            assert(0 <= cp <= self@.len() && byte_of(self@, cp) == offset.byte as int);
            assert(vstd::utf8::encode_utf8(self@).len() == total as int);
            lemma_line_span_wf(self@, cp);
        }
        let line = line_span_at(self, offset.byte);
        if line.offset.byte > 0 {
            proof {
                let ls = line_start_at(self@, cp);
                lemma_line_start_props(self@, cp);
                lemma_byte_of_zero(self@);
                crate::chars::lemma_byte_of_full(self@);
                lemma_byte_of_mono(self@, ls, self@.len() as int);
                if ls <= 0 {
                    assert(byte_of(self@, 0) == 0);
                    assert(false);
                }
                assert(self@[ls - 1] == '\n');
                crate::chars::lemma_byte_of_step(self@, ls - 1);
                lemma_char_pos_unique(self@, ls - 1);
            }
            Some(line_span_at(self, line.offset.byte - 1))
        } else {
            None
        }
    }

    fn span_str(&self, span: Span) -> (r: &str) {
        let ghost cs = char_pos_at(self@, span.offset.byte as int);
        let ghost ce = char_pos_at(self@, span.offset.byte + span.len);
        proof {
            assert(0 <= cs <= self@.len() && byte_of(self@, cs) == span.offset.byte as int);
            assert(0 <= ce <= self@.len() && byte_of(self@, ce) == span.offset.byte
                + span.len);
            if ce < cs {
                lemma_byte_of_mono(self@, ce, cs);
            }
        }
        let cp1 = char_pos_of(self, span.offset.byte);
        let total = crate::chars::byte_len(self);
        proof {
            crate::chars::lemma_byte_of_full(self@);
            lemma_byte_of_mono(self@, ce, self@.len() as int);
        }
        let cp2 = char_pos_of(self, span.offset.byte + span.len);
        self.substring_char(cp1, cp2)
    }

    fn line_str(&self, offset: Offset) -> (r: &str) {
        let ghost cp = char_pos_at(self@, offset.byte as int);
        let total = crate::chars::byte_len(self);
        proof {
            assert(0 <= cp <= self@.len() && byte_of(self@, cp) == offset.byte as int);
            assert(vstd::utf8::encode_utf8(self@).len() == total as int);
            lemma_line_span_wf(self@, cp);
        }
        let line = line_span_at(self, offset.byte);
        self.span_str(line)
    }

    fn byte_offset_on_line(&self, offset: Offset) -> (r: usize) {
        let ghost cp = char_pos_at(self@, offset.byte as int);
        let total = crate::chars::byte_len(self);
        proof {
            assert(0 <= cp <= self@.len() && byte_of(self@, cp) == offset.byte as int);
            assert(vstd::utf8::encode_utf8(self@).len() == total as int);
            lemma_line_span_wf(self@, cp);
            lemma_line_start_props(self@, cp);
            lemma_byte_of_mono(self@, line_start_at(self@, cp), cp);
        }
        let line = line_span_at(self, offset.byte);
        offset.byte - line.offset.byte
    }

    fn offset_highlight_display(&self, offset: Offset) -> (r: HighlightDisplay<'_>) {
        let ghost cp = char_pos_at(self@, offset.byte as int);
        let total = crate::chars::byte_len(self);
        proof {
            assert(0 <= cp <= self@.len() && byte_of(self@, cp) == offset.byte as int);
            assert(vstd::utf8::encode_utf8(self@).len() == total as int);
            lemma_line_span_wf(self@, cp);
            lemma_line_start_props(self@, cp);
            lemma_char_pos_unique(self@, line_start_at(self@, cp));
        }
        let line = line_span_at(self, offset.byte);
        let line_start = char_pos_of(self, line.offset.byte);
        let here = char_pos_of(self, offset.byte);
        proof {
            lemma_char_pos_unique(self@, cp);
        }
        let lead = self.substring_char(line_start, here);
        HighlightDisplay { lead_template: lead, len: 1 }
    }

    fn span_highlight_display(&self, span: Span) -> (r: HighlightDisplay<'_>) {
        let ghost cs = char_pos_at(self@, span.offset.byte as int);
        let ghost ce = char_pos_at(self@, span.offset.byte + span.len);
        let total = crate::chars::byte_len(self);
        proof {
            assert(0 <= cs <= self@.len() && byte_of(self@, cs) == span.offset.byte as int);
            assert(0 <= ce <= self@.len() && byte_of(self@, ce) == span.offset.byte
                + span.len);
            assert(vstd::utf8::encode_utf8(self@).len() == total as int);
            if ce < cs {
                lemma_byte_of_mono(self@, ce, cs);
            }
            lemma_line_span_wf(self@, cs);
            lemma_line_start_props(self@, cs);
            lemma_char_pos_unique(self@, line_start_at(self@, cs));
            crate::chars::lemma_byte_of_full(self@);
            lemma_byte_of_mono(self@, ce, self@.len() as int);
        }
        let line = line_span_at(self, span.offset.byte);
        let line_start = char_pos_of(self, line.offset.byte);
        let from = char_pos_of(self, span.offset.byte);
        let to = char_pos_of(self, span.offset.byte + span.len);
        proof {
            lemma_char_pos_unique(self@, cs);
            lemma_char_pos_unique(self@, ce);
        }
        let lead = self.substring_char(line_start, from);
        HighlightDisplay { lead_template: lead, len: to - from }
    }

    fn offset_section_display(&self, offset: Offset) -> (r: SectionDisplay<'_>) {
        let ghost cp = char_pos_at(self@, offset.byte as int);
        let total = crate::chars::byte_len(self);
        proof {
            assert(0 <= cp <= self@.len() && byte_of(self@, cp) == offset.byte as int);
            assert(vstd::utf8::encode_utf8(self@).len() == total as int);
            lemma_line_span_wf(self@, cp);
            lemma_line_start_props(self@, cp);
            if line_start_at(self@, cp) > 0 {
                lemma_line_span_wf(self@, line_start_at(self@, cp) - 1);
            }
        }
        let highlight = self.offset_highlight_display(offset);
        let line = line_span_at(self, offset.byte);
        let line_text = self.line_str(offset);
        let previous = match self.line_span_before(offset) {
            Some(prev_span) => Some((prev_span.offset.line_number, self.span_str(prev_span))),
            None => None,
        };
        let first_line_number = match previous {
            Some((line_number, _)) => line_number,
            None => line.offset.line_number,
        };
        let elide_from = if first_line_number > 1 {
            Some(first_line_number - 1)
        } else {
            None
        };
        SectionDisplay {
            elide_from,
            previous,
            line_number: line.offset.line_number,
            line: line_text,
            highlight,
        }
    }

    fn span_section_display(&self, span: Span) -> (r: SectionDisplay<'_>) {
        let ghost cs = char_pos_at(self@, span.offset.byte as int);
        let total = crate::chars::byte_len(self);
        proof {
            assert(0 <= cs <= self@.len() && byte_of(self@, cs) == span.offset.byte as int);
            assert(vstd::utf8::encode_utf8(self@).len() == total as int);
            lemma_line_span_wf(self@, cs);
            lemma_line_start_props(self@, cs);
            if line_start_at(self@, cs) > 0 {
                lemma_line_span_wf(self@, line_start_at(self@, cs) - 1);
            }
        }
        let highlight = self.span_highlight_display(span);
        let line = line_span_at(self, span.offset.byte);
        let line_text = self.line_str(span.offset);
        let previous = match self.line_span_before(span.offset) {
            Some(prev_span) => Some((prev_span.offset.line_number, self.span_str(prev_span))),
            None => None,
        };
        let first_line_number = match previous {
            Some((line_number, _)) => line_number,
            None => line.offset.line_number,
        };
        let elide_from = if first_line_number > 1 {
            Some(first_line_number - 1)
        } else {
            None
        };
        SectionDisplay {
            elide_from,
            previous,
            line_number: line.offset.line_number,
            line: line_text,
            highlight,
        }
    }
}

impl SourceContext for String {
    open spec fn chars(&self) -> Seq<char> {
        self@
    }

    fn full_str(&self) -> (r: &str) {
        self.as_str()
    }

    fn line_span(&self, offset: Offset) -> (r: Span) {
        self.as_str().line_span(offset)
    }

    fn line_span_before(&self, offset: Offset) -> (r: Option<Span>) {
        self.as_str().line_span_before(offset)
    }

    fn span_str(&self, span: Span) -> (r: &str) {
        self.as_str().span_str(span)
    }

    fn line_str(&self, offset: Offset) -> (r: &str) {
        self.as_str().line_str(offset)
    }

    fn byte_offset_on_line(&self, offset: Offset) -> (r: usize) {
        self.as_str().byte_offset_on_line(offset)
    }

    fn offset_highlight_display(&self, offset: Offset) -> (r: HighlightDisplay<'_>) {
        self.as_str().offset_highlight_display(offset)
    }

    fn span_highlight_display(&self, span: Span) -> (r: HighlightDisplay<'_>) {
        self.as_str().span_highlight_display(span)
    }

    fn offset_section_display(&self, offset: Offset) -> (r: SectionDisplay<'_>) {
        self.as_str().offset_section_display(offset)
    }

    fn span_section_display(&self, span: Span) -> (r: SectionDisplay<'_>) {
        self.as_str().span_section_display(span)
    }
}

/// The decimal digit character for `d`.
pub open spec fn digit_char_of(d: int) -> char {
    ((0x30 + d) as u8) as char
}

/// The decimal digits of `n`, most significant first.
pub open spec fn dec_digits(n: int) -> Seq<char>
    decreases n,
{
    if n < 10 {
        seq![digit_char_of(n)]
    } else {
        dec_digits(n / 10).push(digit_char_of(n % 10))
    }
}

/// A positive number has between one and `n` decimal digits.
proof fn lemma_dec_digits_len(n: int)
    requires
        n >= 1,
    ensures
        1 <= dec_digits(n).len() <= n,
    decreases n,
{
    if n >= 10 {
        lemma_dec_digits_len(n / 10);
    }
}

/// Counts the decimal digits of `n`.
pub fn count_digits(n: usize) -> (r: usize)
    ensures
        r as int == dec_digits(n as int).len(),
{
    if n == 0 {
        1
    } else {
        proof {
            lemma_dec_digits_len(n as int);
        }
        let mut digits: usize = 0;
        let mut m: usize = n;
        while m > 0
            invariant
                n >= 1,
                digits <= n,
                m > 0 ==> dec_digits(n as int).len() == digits + dec_digits(m as int).len(),
                m == 0 ==> dec_digits(n as int).len() == digits,
            decreases m,
        {
            proof {
                lemma_dec_digits_len(n as int);
                lemma_dec_digits_len(m as int);
                if m >= 10 {
                    lemma_dec_digits_len(m as int / 10);
                }
            }
            digits = digits + 1;
            m = m / 10;
        }
        digits
    }
}

/// Appends the decimal digits of `n`.
fn push_decimal(out: &mut Vec<char>, n: usize)
    ensures
        final(out)@ == old(out)@ + dec_digits(n as int),
    decreases n,
{
    if n < 10 {
        let d: u8 = 0x30 + (n as u8);
        out.push(d as char);
        proof {
            assert(out@ =~= old(out)@ + dec_digits(n as int));
        }
    } else {
        push_decimal(out, n / 10);
        let d: u8 = 0x30 + ((n % 10) as u8);
        out.push(d as char);
        proof {
            assert(out@ =~= old(out)@ + dec_digits(n as int));
        }
    }
}

/// Appends `n` spaces.
fn push_spaces(out: &mut Vec<char>, n: usize)
    ensures
        final(out)@ == old(out)@ + Seq::new(n as nat, |i: int| ' '),
{
    let mut i: usize = 0;
    while i < n
        invariant
            i <= n,
            out@ == old(out)@ + Seq::new(i as nat, |k: int| ' '),
        decreases n - i,
    {
        out.push(' ');
        proof {
            assert(out@ =~= old(out)@ + Seq::new((i + 1) as nat, |k: int| ' '));
        }
        i = i + 1;
    }
}

/// Appends the characters of `s`.
fn push_str_chars(out: &mut Vec<char>, s: &str)
    ensures
        final(out)@ == old(out)@ + s@,
{
    let len = s.unicode_len();
    let mut i: usize = 0;
    while i < len
        invariant
            i <= len,
            len == s@.len(),
            out@ == old(out)@ + s@.take(i as int),
        decreases len - i,
    {
        out.push(s.get_char(i));
        proof {
            assert(s@.take(i + 1) =~= s@.take(i as int).push(s@[i as int]));
            assert(out@ =~= old(out)@ + s@.take(i + 1));
        }
        i = i + 1;
    }
    proof {
        assert(s@.take(len as int) =~= s@);
    }
}

/// The character a column of the leading text renders as: tabs keep their
/// width, everything else becomes a space.
pub open spec fn lead_blank(c: char) -> char {
    if c == '\t' {
        '\t'
    } else {
        ' '
    }
}

/// The highlight line: the leading text blanked out (tabs preserved),
/// then one caret per highlighted character.
pub open spec fn spec_highlight(lead: Seq<char>, n: int) -> Seq<char> {
    Seq::new(lead.len(), |i: int| lead_blank(lead[i])) + Seq::new(n as nat, |i: int| '^')
}

/// `label`, padded with spaces on the left to at least `width` columns.
pub open spec fn pad_left(label: Seq<char>, width: int) -> Seq<char> {
    Seq::new(
        if label.len() < width {
            (width - label.len()) as nat
        } else {
            0
        },
        |i: int| ' ',
    ) + label
}

/// One rendered row: a space, the padded label, ` | `, the content, and a
/// newline.
pub open spec fn spec_row(width: int, label: Seq<char>, content: Seq<char>) -> Seq<char> {
    seq![' '] + pad_left(label, width) + seq![' ', '|', ' '] + content + seq!['\n']
}

/// Appends one rendered row; `label` is a line number or blank.
fn push_row(out: &mut Vec<char>, width: usize, label: Option<usize>, content: &str)
    ensures
        final(out)@ == old(out)@ + spec_row(
            width as int,
            match label {
                Some(n) => dec_digits(n as int),
                None => Seq::<char>::empty(),
            },
            content@,
        ),
{
    let ghost label_digits: Seq<char> = match label {
        Some(n) => dec_digits(n as int),
        None => Seq::<char>::empty(),
    };
    out.push(' ');
    let label_len = match label {
        Some(n) => count_digits(n),
        None => 0,
    };
    push_spaces(
        out,
        if width > label_len {
            width - label_len
        } else {
            0
        },
    );
    match label {
        Some(n) => push_decimal(out, n),
        None => {},
    }
    out.push(' ');
    out.push('|');
    out.push(' ');
    push_str_chars(out, content);
    out.push('\n');
    proof {
        assert(out@ =~= old(out)@ + spec_row(width as int, label_digits, content@));
    }
}

/// Used to render a highlight line under a [`Span`] or [`Offset`]: the text
/// before the highlighted region, and the number of characters to mark.
#[derive(Debug, Clone, Copy)]
pub struct HighlightDisplay<'a> {
    pub lead_template: &'a str,
    pub len: usize,
}

impl<'a> HighlightDisplay<'a> {
    /// Renders the highlight line: the leading text blanked out with tabs
    /// preserved, then one caret per highlighted character.
    pub fn render(&self) -> (r: String)
        ensures
            r@ == spec_highlight(self.lead_template@, self.len as int),
    {
        let mut out: Vec<char> = Vec::new();
        let lead_len = self.lead_template.unicode_len();
        let mut i: usize = 0;
        while i < lead_len
            invariant
                i <= lead_len,
                lead_len == self.lead_template@.len(),
                out@ == Seq::new(i as nat, |k: int| lead_blank(self.lead_template@[k])),
            decreases lead_len - i,
        {
            let c = self.lead_template.get_char(i);
            out.push(
                if c == '\t' {
                    '\t'
                } else {
                    ' '
                },
            );
            proof {
                assert(out@ =~= Seq::new(
                    (i + 1) as nat,
                    |k: int| lead_blank(self.lead_template@[k]),
                ));
            }
            i = i + 1;
        }
        let mut j: usize = 0;
        while j < self.len
            invariant
                j <= self.len,
                lead_len == self.lead_template@.len(),
                out@ == Seq::new(lead_len as nat, |k: int| lead_blank(self.lead_template@[k]))
                    + Seq::new(j as nat, |k: int| '^'),
            decreases self.len - j,
        {
            out.push('^');
            proof {
                assert(out@ =~= Seq::new(
                    lead_len as nat,
                    |k: int| lead_blank(self.lead_template@[k]),
                ) + Seq::new((j + 1) as nat, |k: int| '^'));
            }
            j = j + 1;
        }
        crate::chars::string_from_chars(&out)
    }
}

/// Used to render the section of the source around a [`Span`] or
/// [`Offset`]: an optional elision marker, the previous line when one
/// exists, the line itself, and a highlight line beneath it.
#[derive(Debug, Clone, Copy)]
pub struct SectionDisplay<'a> {
    pub elide_from: Option<usize>,
    pub previous: Option<(usize, &'a str)>,
    pub line_number: usize,
    pub line: &'a str,
    pub highlight: HighlightDisplay<'a>,
}

impl<'a> SectionDisplay<'a> {
    /// The rendered section: each row as [`spec_row`] describes it, with
    /// line numbers right-aligned to the current line number's width.
    pub open spec fn spec_render(self) -> Seq<char> {
        let width = dec_digits(self.line_number as int).len() as int;
        (match self.elide_from {
            Some(k) => spec_row(width, dec_digits(k as int), seq!['.', '.', '.']),
            None => Seq::<char>::empty(),
        }) + (match self.previous {
            Some((ln, content)) => spec_row(width, dec_digits(ln as int), content@),
            None => Seq::<char>::empty(),
        }) + spec_row(width, dec_digits(self.line_number as int), self.line@) + spec_row(
            width,
            Seq::<char>::empty(),
            spec_highlight(self.highlight.lead_template@, self.highlight.len as int),
        )
    }

    /// Renders the section ([`SectionDisplay::spec_render`]).
    pub fn render(&self) -> (r: String)
        ensures
            r@ == self.spec_render(),
    {
        let width = count_digits(self.line_number);
        let mut out: Vec<char> = Vec::new();
        match self.elide_from {
            Some(k) => push_row(&mut out, width, Some(k), "..."),
            None => {},
        }
        proof {
            reveal_strlit("...");
            assert("..."@ =~= seq!['.', '.', '.']);
        }
        match self.previous {
            Some((ln, content)) => push_row(&mut out, width, Some(ln), content),
            None => {},
        }
        push_row(&mut out, width, Some(self.line_number), self.line);
        let caret_line = self.highlight.render();
        push_row(&mut out, width, None, caret_line.as_str());
        proof {
            assert(out@ =~= self.spec_render());
        }
        crate::chars::string_from_chars(&out)
    }
}

} // verus!
