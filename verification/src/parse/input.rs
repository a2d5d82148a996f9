//! The input cursor: a cheap, copyable view over a region of the source
//! text together with the [`Offset`] of its first character.
//!
//! Every operation is pure: it returns a new cursor and leaves the receiver
//! untouched.  A cursor holds the whole source and a pair of character
//! indices; its offset's byte position and line number always agree with the
//! character position ([`Input::wf`]).
use crate::chars::byte_of;
use crate::chars::char_byte_len;
use crate::chars::is_structure;
use crate::chars::is_structure_char;
use crate::chars::is_ws_char;
use crate::chars::is_whitespace_char;
use crate::chars::lemma_byte_of_full;
use crate::chars::lemma_byte_of_mono;
use crate::chars::lemma_byte_of_step;
use crate::chars::lemma_byte_of_zero;
use crate::chars::lemma_count_nl_bound;
use crate::chars::lemma_line_of_step;
use crate::chars::line_of;
use crate::source::offset_at;
use crate::source::span_at;
use crate::source::Offset;
use crate::source::Span;
use vstd::prelude::*;
use vstd::string::StrSliceExecFns;
use vstd::utf8::encode_utf8;

verus! {

/// The position after skipping leading whitespace in `[p, e)`; if a comment
/// marker follows the whitespace, the whole rest of the region is skipped.
pub open spec fn spec_skip_ws(s: Seq<char>, p: int, e: int) -> int
    decreases e - p,
{
    if p < e && is_ws_char(s[p]) {
        spec_skip_ws(s, p + 1, e)
    } else if p < e && s[p] == ';' {
        e
    } else {
        p
    }
}

/// The end of the maximal run of token characters (neither whitespace nor
/// structural) starting at `p` in `[p, e)`.
pub open spec fn token_end(s: Seq<char>, p: int, e: int) -> int
    decreases e - p,
{
    if p < e && !is_structure(s[p]) {
        token_end(s, p + 1, e)
    } else {
        p
    }
}

/// The position of the first newline at or after `p` in `[p, e)`, or `e` if
/// there is none.
pub open spec fn find_nl(s: Seq<char>, p: int, e: int) -> int
    decreases e - p,
{
    if p < e && s[p] != '\n' {
        find_nl(s, p + 1, e)
    } else {
        p
    }
}

/// Skipping whitespace stays within the region.
pub proof fn lemma_skip_ws_bounds(s: Seq<char>, p: int, e: int)
    requires
        p <= e,
    ensures
        p <= spec_skip_ws(s, p, e) <= e,
    decreases e - p,
{
    if p < e && is_ws_char(s[p]) {
        lemma_skip_ws_bounds(s, p + 1, e);
    }
}

/// A token run stays within the region.
pub proof fn lemma_token_end_bounds(s: Seq<char>, p: int, e: int)
    requires
        p <= e,
    ensures
        p <= token_end(s, p, e) <= e,
    decreases e - p,
{
    if p < e && !is_structure(s[p]) {
        lemma_token_end_bounds(s, p + 1, e);
    }
}

/// Everything strictly inside a token run is a token character, and the run
/// ends at the region's end or at a structural character.
pub proof fn lemma_token_end_chars(s: Seq<char>, p: int, e: int)
    requires
        p <= e <= s.len(),
    ensures
        forall|i: int| p <= i < token_end(s, p, e) ==> !is_structure(#[trigger] s[i]),
        token_end(s, p, e) == e || is_structure(s[token_end(s, p, e)]),
    decreases e - p,
{
    if p < e && !is_structure(s[p]) {
        lemma_token_end_chars(s, p + 1, e);
    }
}

/// The newline search stays within the region and stops at a newline or the
/// region's end.
pub proof fn lemma_find_nl_bounds(s: Seq<char>, p: int, e: int)
    requires
        p <= e <= s.len(),
    ensures
        p <= find_nl(s, p, e) <= e,
        find_nl(s, p, e) < e ==> s[find_nl(s, p, e)] == '\n',
        forall|i: int| p <= i < find_nl(s, p, e) ==> #[trigger] s[i] != '\n',
    decreases e - p,
{
    if p < e && s[p] != '\n' {
        lemma_find_nl_bounds(s, p + 1, e);
    }
}

/// A view over the region `[pos, end)` of the source, with the [`Offset`] of
/// its first character.
#[derive(Clone, Copy)]
pub(crate) struct Input<'a> {
    pub(crate) src: &'a str,
    pub(crate) pos: usize,
    pub(crate) end: usize,
    pub(crate) offset: Offset,
}

impl<'a> Input<'a> {
    /// The cursor's indices lie within the source, the source's byte length
    /// fits the machine, and the offset agrees with the character position.
    pub(crate) open spec fn wf(self) -> bool {
        &&& self.pos <= self.end <= self.src@.len()
        &&& encode_utf8(self.src@).len() < usize::MAX
        &&& self.offset.byte as int == byte_of(self.src@, self.pos as int)
        &&& self.offset.line_number as int == line_of(self.src@, self.pos as int)
    }

    /// A cursor over the whole of `src`.
    pub(crate) fn new(src: &'a str) -> (r: Input<'a>)
        ensures
            r.wf(),
            r.src == src,
            r.pos == 0,
            r.end == src@.len(),
            r.offset == (Offset { byte: 0usize, line_number: 1usize }),
    {
        let total = crate::chars::byte_len(src);
        let end = src.unicode_len();
        proof {
            assert(total as int == encode_utf8(src@).len());
            lemma_byte_of_zero(src@);
            assert(src@.take(0) =~= Seq::<char>::empty());
        }
        Input { src, pos: 0, end, offset: Offset { byte: 0, line_number: 1 } }
    }

    /// True when the region is empty.
    pub(crate) fn is_empty(&self) -> (r: bool)
        ensures
            r == (self.pos == self.end),
    {
        self.pos == self.end
    }

    /// The offset of the region's first character.
    pub(crate) fn offset(&self) -> (r: Offset)
        ensures
            r == self.offset,
    {
        self.offset
    }

    /// The region's first character.
    pub(crate) fn peek(&self) -> (c: char)
        requires
            self.wf(),
            self.pos < self.end,
        ensures
            c == self.src@[self.pos as int],
    {
        self.src.get_char(self.pos)
    }

    /// The cursor one character further on.
    pub(crate) fn advance(&self) -> (r: Input<'a>)
        requires
            self.wf(),
            self.pos < self.end,
        ensures
            r.wf(),
            r.src == self.src,
            r.pos == self.pos + 1,
            r.end == self.end,
            r.offset == offset_at(self.src@, self.pos + 1),
    {
        let c = self.src.get_char(self.pos);
        let w = char_byte_len(c);
        proof {
            let s = self.src@;
            let p = self.pos as int;
            lemma_byte_of_step(s, p);
            lemma_line_of_step(s, p);
            lemma_byte_of_mono(s, p + 1, s.len() as int);
            lemma_byte_of_full(s);
            lemma_count_nl_bound(s.take(p + 1));
        }
        Input {
            src: self.src,
            pos: self.pos + 1,
            end: self.end,
            offset: Offset {
                byte: self.offset.byte + w,
                line_number: if c == '\n' {
                    self.offset.line_number + 1
                } else {
                    self.offset.line_number
                },
            },
        }
    }

    /// The cursor past the next character when it equals `c`, or `None`.
    pub(crate) fn skip_char(&self, c: char) -> (r: Option<Input<'a>>)
        requires
            self.wf(),
        ensures
            match r {
                Some(n) => {
                    &&& self.pos < self.end
                    &&& self.src@[self.pos as int] == c
                    &&& n.wf()
                    &&& n.src == self.src
                    &&& n.pos == self.pos + 1
                    &&& n.end == self.end
                },
                None => !(self.pos < self.end && self.src@[self.pos as int] == c),
            },
    {
        if self.pos < self.end {
            if self.peek() == c {
                return Some(self.advance());
            }
        }
        None
    }

    /// The cursor past any leading whitespace; a comment consumes the whole
    /// rest of the region.
    pub(crate) fn skip_whitespace_and_comments(&self) -> (r: Input<'a>)
        requires
            self.wf(),
        ensures
            r.wf(),
            r.src == self.src,
            r.end == self.end,
            self.pos <= r.pos,
            r.pos == spec_skip_ws(self.src@, self.pos as int, self.end as int),
    {
        let mut cur = *self;
        while cur.pos < cur.end
            invariant
                cur.wf(),
                cur.src == self.src,
                cur.end == self.end,
                self.pos <= cur.pos,
                spec_skip_ws(self.src@, self.pos as int, self.end as int) == spec_skip_ws(
                    self.src@,
                    cur.pos as int,
                    self.end as int,
                ),
            decreases cur.end - cur.pos,
        {
            let c = cur.peek();
            if is_whitespace_char(c) {
                cur = cur.advance();
            } else if c == ';' {
                while cur.pos < cur.end
                    invariant
                        cur.wf(),
                        cur.src == self.src,
                        cur.end == self.end,
                        self.pos <= cur.pos,
                        spec_skip_ws(self.src@, self.pos as int, self.end as int)
                            == self.end as int,
                    decreases cur.end - cur.pos,
                {
                    cur = cur.advance();
                }
                return cur;
            } else {
                return cur;
            }
        }
        cur
    }

    /// The maximal run of token characters at the front of the region: the
    /// token's text, its span, and the cursor past it; `None` when the first
    /// character is structural or the region is empty.
    pub(crate) fn try_take_token(&self) -> (r: Option<(&'a str, Span, Input<'a>)>)
        requires
            self.wf(),
        ensures
            match r {
                Some((tok, span, rest)) => {
                    let t = token_end(self.src@, self.pos as int, self.end as int);
                    &&& t > self.pos
                    &&& tok@ == self.src@.subrange(self.pos as int, t)
                    &&& span == span_at(self.src@, self.pos as int, t)
                    &&& rest.wf()
                    &&& rest.src == self.src
                    &&& rest.pos == t
                    &&& rest.end == self.end
                },
                None => token_end(self.src@, self.pos as int, self.end as int) == self.pos,
            },
    {
        let mut cur = *self;
        while cur.pos < cur.end && !is_structure_char(cur.peek())
            invariant
                cur.wf(),
                cur.src == self.src,
                cur.end == self.end,
                self.pos <= cur.pos,
                token_end(self.src@, self.pos as int, self.end as int) == token_end(
                    self.src@,
                    cur.pos as int,
                    self.end as int,
                ),
            decreases cur.end - cur.pos,
        {
            cur = cur.advance();
        }
        if cur.pos == self.pos {
            return None;
        }
        let tok = self.src.substring_char(self.pos, cur.pos);
        proof {
            lemma_byte_of_mono(self.src@, self.pos as int, cur.pos as int);
        }
        let span = Span { offset: self.offset, len: cur.offset.byte - self.offset.byte };
        Some((tok, span, cur))
    }

    /// Splits at the first newline: the region up to it, and the region past
    /// it, or `None` when the region holds no newline.
    pub(crate) fn split_line(&self) -> (r: (Input<'a>, Option<Input<'a>>))
        requires
            self.wf(),
        ensures
            ({
                let nl = find_nl(self.src@, self.pos as int, self.end as int);
                &&& r.0.wf()
                &&& r.0.src == self.src
                &&& r.0.pos == self.pos
                &&& r.0.end == nl
                &&& r.0.offset == self.offset
                &&& nl < self.end ==> match r.1 {
                    Some(n) => {
                        &&& n.wf()
                        &&& n.src == self.src
                        &&& n.pos == nl + 1
                        &&& n.end == self.end
                    },
                    None => false,
                }
                &&& nl == self.end ==> r.1 is None
            }),
    {
        let mut cur = *self;
        while cur.pos < cur.end && cur.peek() != '\n'
            invariant
                cur.wf(),
                cur.src == self.src,
                cur.end == self.end,
                self.pos <= cur.pos,
                find_nl(self.src@, self.pos as int, self.end as int) == find_nl(
                    self.src@,
                    cur.pos as int,
                    self.end as int,
                ),
            decreases cur.end - cur.pos,
        {
            cur = cur.advance();
        }
        let first = Input { src: self.src, pos: self.pos, end: cur.pos, offset: self.offset };
        if cur.pos < cur.end {
            (first, Some(cur.advance()))
        } else {
            (first, None)
        }
    }
}

} // verus!
