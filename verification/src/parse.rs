//! Parsing: errors, indentation, items, nodes, and the depth-stack tree
//! builder.
use crate::chars::is_digit_char;
use crate::chars::is_ws_char;
use crate::chars::is_whitespace_char;
use crate::chars::lemma_byte_of_mono;
use crate::literal::has_dot;
use crate::literal::is_float_token;
use crate::literal::parse_i32_token;
use crate::model::args_fails;
use crate::model::close_of;
use crate::model::is_open_delim;
use crate::model::item_end;
use crate::model::item_fails;
use crate::model::item_ok;
use crate::model::item_view;
use crate::model::items_view;
use crate::model::lemma_items_view_prepend;
use crate::model::attach_child;
use crate::model::build_lines;
use crate::model::empty_state;
use crate::model::lines_fail;
use crate::model::lines_ok;
use crate::model::node_fails;
use crate::model::node_ok;
use crate::model::node_view;
use crate::model::nodes_view;
use crate::model::lemma_nodes_view_push;
use crate::model::lemma_nodes_view_len;
use crate::model::parse_result_fails;
use crate::model::parse_result_ok;
use crate::model::spec_insert;
use crate::model::spec_vacate;
use crate::model::BuildState;
use crate::model::SpecLine;
use crate::model::SpecNode;
use crate::model::run_end;
use crate::model::run_fails;
use crate::model::run_ok;
use crate::model::sig_fails_from;
use crate::model::SpecErr;
use crate::model::SpecErrKind;
use crate::model::SpecItem;
use crate::source::offset_at;
use crate::source::span_at;
use crate::source::Offset;
use crate::source::Span;
use crate::word::smol_chars;
use crate::word::smol_from;
use crate::Directive;
use crate::Item;
use crate::ItemKind;
use crate::Node;
use crate::NodeKind;
use crate::Statement;
use crate::Tree;
use input::find_nl;
use input::lemma_skip_ws_bounds;
use input::spec_skip_ws;
use smol_str::SmolStr;
use vstd::prelude::*;

pub(crate) mod input;

use input::Input;

verus! {

/// Type alias for [`Result`] with [`SourceError`].
pub type ParseResult<T = ()> = Result<T, SourceError>;

/// Errors encountered during [`crate::Tree::parse`].
#[derive(Debug, Clone, PartialEq)]
pub enum ParseError {
    /// Leftover whitespace after stripping whole indentation units.
    IndentChars,
    /// A line's depth skips past the currently open levels.
    IndentDepth,
    /// A line indented under a statement, which is a leaf.
    StatementWithChild,
    /// A structural character where an item was expected.
    UnexpectedChar { unexpected: char },
    /// End of the line inside a group; `missing` is the closing delimiter.
    UnclosedGroup { missing: char },
    /// A token that must be an integer but is not a valid `i32` literal.
    InvalidInt { value: SmolStr },
    /// A token that must be a float but is not a valid float literal.
    InvalidFloat { value: SmolStr },
    /// A `:` with no preceding signature item on its line.
    EmptyDirectiveSignature,
}

/// A [`ParseError`] with the [`Offset`] it occurred at and, for some errors,
/// the offset of a related earlier position (the open level or parent a
/// depth error refers to).
#[derive(Debug, Clone, PartialEq)]
pub struct SourceError {
    pub error: ParseError,
    pub offset: Offset,
    pub context: Option<Offset>,
}

impl SourceError {
    /// An error at `offset` with no related position.
    pub fn new(error: ParseError, offset: Offset) -> (r: Self)
        ensures
            r.error == error,
            r.offset == offset,
            r.context is None,
    {
        SourceError { error, offset, context: None }
    }

    /// The same error, with a related position attached.
    pub fn with_context(self, context: Offset) -> (r: Self)
        ensures
            r.error == self.error,
            r.offset == self.offset,
            r.context == Some(context),
    {
        SourceError { error: self.error, offset: self.offset, context: Some(context) }
    }

    /// The underlying [`ParseError`].
    pub fn error(&self) -> (r: &ParseError)
        ensures
            r == &self.error,
    {
        &self.error
    }

    /// The underlying [`ParseError`], by value.
    pub fn into_error(self) -> (r: ParseError)
        ensures
            r == self.error,
    {
        self.error
    }

    /// The offset the error occurred at.
    pub fn offset(&self) -> (r: Offset)
        ensures
            r == self.offset,
    {
        self.offset
    }
}

/// The ghost value of a [`ParseError`].
pub open spec fn perr_view(e: ParseError) -> SpecErrKind {
    match e {
        ParseError::IndentChars => SpecErrKind::IndentChars,
        ParseError::IndentDepth => SpecErrKind::IndentDepth,
        ParseError::StatementWithChild => SpecErrKind::StatementWithChild,
        ParseError::UnexpectedChar { unexpected } => SpecErrKind::UnexpectedChar(unexpected),
        ParseError::UnclosedGroup { missing } => SpecErrKind::UnclosedGroup(missing),
        ParseError::InvalidInt { value } => SpecErrKind::InvalidInt(smol_chars(value)),
        ParseError::InvalidFloat { value } => SpecErrKind::InvalidFloat(smol_chars(value)),
        ParseError::EmptyDirectiveSignature => SpecErrKind::EmptyDirectiveSignature,
    }
}

/// The ghost value of a [`SourceError`].
pub open spec fn err_view(e: SourceError) -> SpecErr {
    SpecErr { kind: perr_view(e.error), offset: e.offset, context: e.context }
}

/// Indentation setting for [`crate::Tree::parse`]: one unit is a single tab,
/// or a fixed positive number of spaces.
#[derive(Debug, Clone, Copy, PartialEq, Eq, Structural)]
pub struct Indent {
    pub width: IndentWidth,
}

/// One indentation unit: a tab, or a number of spaces.
#[derive(Debug, Clone, Copy, PartialEq, Eq, Structural)]
pub enum IndentWidth {
    Tabs,
    Spaces(u8),
}

impl Indent {
    /// A space count of zero would make every line's depth ambiguous; every
    /// constructed `Indent` has a positive unit.
    pub open spec fn valid(self) -> bool {
        match self.width {
            IndentWidth::Tabs => true,
            IndentWidth::Spaces(n) => n > 0,
        }
    }

    /// The number of characters in one indentation unit.
    pub open spec fn unit_len(self) -> int {
        match self.width {
            IndentWidth::Tabs => 1,
            IndentWidth::Spaces(n) => n as int,
        }
    }

    /// One whole indentation unit stands at `p` in the region `[p, e)`.
    pub open spec fn unit_at(self, s: Seq<char>, p: int, e: int) -> bool {
        match self.width {
            IndentWidth::Tabs => p < e && s[p] == '\t',
            IndentWidth::Spaces(n) => p + n <= e && forall|i: int|
                p <= i < p + n ==> #[trigger] s[i] == ' ',
        }
    }

    /// Indentation by a single tab character.
    pub fn tabs() -> (r: Self)
        ensures
            r.width == IndentWidth::Tabs,
            r.valid(),
    {
        Self { width: IndentWidth::Tabs }
    }

    /// Indentation by `count` spaces.
    ///
    /// Returns `None` if the number of spaces is 0.
    pub fn try_spaces(count: u8) -> (r: Option<Self>)
        ensures
            count > 0 ==> (r matches Some(ind) && ind.width == IndentWidth::Spaces(count)
                && ind.valid()),
            count == 0 ==> r is None,
    {
        if count > 0 {
            Some(Self { width: IndentWidth::Spaces(count) })
        } else {
            None
        }
    }

    /// Indentation by `count` spaces, which must be positive.
    pub fn spaces(count: u8) -> (r: Self)
        requires
            count > 0,
        ensures
            r.width == IndentWidth::Spaces(count),
            r.valid(),
    {
        Self { width: IndentWidth::Spaces(count) }
    }
}

/// The depth and content position of a line: the number of whole
/// indentation units at the front of `[p, e)`, and the position after them.
pub open spec fn strip_indent(s: Seq<char>, p: int, e: int, ind: Indent) -> (int, int)
    decreases e - p,
{
    if ind.valid() && p < e && ind.unit_at(s, p, e) {
        let (d, q) = strip_indent(s, p + ind.unit_len(), e, ind);
        (d + 1, q)
    } else {
        (0, p)
    }
}

/// Stripping indentation stays within the region.
pub proof fn lemma_strip_indent_bounds(s: Seq<char>, p: int, e: int, ind: Indent)
    requires
        p <= e,
    ensures
        p <= strip_indent(s, p, e, ind).1 <= e,
        strip_indent(s, p, e, ind).0 >= 0,
        strip_indent(s, p, e, ind).1 - p <= e - p,
    decreases e - p,
{
    if ind.valid() && p < e && ind.unit_at(s, p, e) {
        lemma_strip_indent_bounds(s, p + ind.unit_len(), e, ind);
    }
}

impl Indent {
    /// The cursor past one indentation unit, or `None` when no whole unit
    /// stands at the front.
    pub(crate) fn try_deindent<'a>(&self, line: &Input<'a>) -> (r: Option<Input<'a>>)
        requires
            line.wf(),
            self.valid(),
        ensures
            match r {
                Some(n) => {
                    &&& self.unit_at(line.src@, line.pos as int, line.end as int)
                    &&& n.wf()
                    &&& n.src == line.src
                    &&& n.end == line.end
                    &&& n.pos == line.pos + self.unit_len()
                },
                None => !self.unit_at(line.src@, line.pos as int, line.end as int),
            },
    {
        match self.width {
            IndentWidth::Tabs => line.skip_char('\t'),
            IndentWidth::Spaces(n) => {
                let mut cur = *line;
                let mut k: u8 = 0;
                while k < n
                    invariant
                        k <= n,
                        cur.wf(),
                        cur.src == line.src,
                        cur.end == line.end,
                        cur.pos == line.pos + k,
                        self.width == IndentWidth::Spaces(n),
                        line.wf(),
                        forall|i: int|
                            line.pos <= i < line.pos + k ==> #[trigger] line.src@[i] == ' ',
                    decreases n - k,
                {
                    match cur.skip_char(' ') {
                        Some(next) => {
                            cur = next;
                            k = k + 1;
                        },
                        None => {
                            return None;
                        },
                    }
                }
                Some(cur)
            },
        }
    }

    /// Strips every whole indentation unit from the front of the line,
    /// producing the line's depth and its content cursor; fails with
    /// [`ParseError::IndentChars`] when whitespace that is not a whole unit
    /// remains.
    pub(crate) fn extract<'a>(&self, line: &Input<'a>) -> (r: ParseResult<(usize, Input<'a>)>)
        requires
            line.wf(),
            self.valid(),
        ensures
            ({
                let (d, q) = strip_indent(line.src@, line.pos as int, line.end as int, *self);
                match r {
                    Ok((depth, rest)) => {
                        &&& depth == d
                        &&& rest.wf()
                        &&& rest.src == line.src
                        &&& rest.end == line.end
                        &&& rest.pos == q
                        &&& !(q < line.end && is_ws_char(line.src@[q]))
                    },
                    Err(e) => {
                        &&& q < line.end
                        &&& is_ws_char(line.src@[q])
                        &&& err_view(e) == (SpecErr {
                            kind: SpecErrKind::IndentChars,
                            offset: offset_at(line.src@, q),
                            context: None,
                        })
                    },
                }
            }),
    {
        let ghost s = line.src@;
        let ghost p0 = line.pos as int;
        let ghost e = line.end as int;
        let mut depth: usize = 0;
        let mut cur = *line;
        loop
            invariant
                s == line.src@,
                p0 == line.pos as int,
                e == line.end as int,
                cur.wf(),
                cur.src == line.src,
                cur.end == line.end,
                line.wf(),
                self.valid(),
                strip_indent(s, p0, e, *self).0 == depth + strip_indent(
                    s,
                    cur.pos as int,
                    e,
                    *self,
                ).0,
                strip_indent(s, p0, e, *self).1 == strip_indent(s, cur.pos as int, e, *self).1,
                depth <= cur.pos,
            ensures
                cur.wf(),
                cur.src == line.src,
                cur.end == line.end,
                depth == strip_indent(s, p0, e, *self).0,
                cur.pos == strip_indent(s, p0, e, *self).1,
            decreases cur.end - cur.pos,
        {
            match self.try_deindent(&cur) {
                Some(next) => {
                    proof {
                        lemma_strip_indent_bounds(s, next.pos as int, e, *self);
                        assert(strip_indent(s, cur.pos as int, e, *self).0 == 1 + strip_indent(
                            s,
                            next.pos as int,
                            e,
                            *self,
                        ).0);
                    }
                    cur = next;
                    depth = depth + 1;
                },
                None => {
                    break ;
                },
            }
        }
        if cur.pos < cur.end {
            if is_whitespace_char(cur.peek()) {
                return Err(SourceError::new(ParseError::IndentChars, cur.offset()));
            }
        }
        Ok((depth, cur))
    }
}

/// The cursor past a group-opening delimiter, with the opening and closing
/// characters, or `None` when the next character opens no group.
pub(crate) fn try_skip_group_open<'a>(input: &Input<'a>) -> (r: Option<(Input<'a>, char, char)>)
    requires
        input.wf(),
    ensures
        match r {
            Some((rest, open_c, close_c)) => {
                &&& input.pos < input.end
                &&& input.src@[input.pos as int] == open_c
                &&& is_open_delim(open_c)
                &&& close_c == close_of(open_c)
                &&& rest.wf()
                &&& rest.src == input.src
                &&& rest.end == input.end
                &&& rest.pos == input.pos + 1
            },
            None => !(input.pos < input.end && is_open_delim(input.src@[input.pos as int])),
        },
{
    if input.pos < input.end {
        let c = input.peek();
        if c == '(' {
            Some((input.advance(), '(', ')'))
        } else if c == '[' {
            Some((input.advance(), '[', ']'))
        } else if c == '{' {
            Some((input.advance(), '{', '}'))
        } else {
            None
        }
    } else {
        None
    }
}

/// Parses one item at the front of the region: a group when a delimiter
/// opens one, otherwise the maximal token run, classified as a word or a
/// numeric literal by its first character.
pub(crate) fn parse_item<'a>(input: Input<'a>) -> (r: ParseResult<(Item, Input<'a>)>)
    requires
        input.wf(),
        input.pos < input.end,
    ensures
        match r {
            Ok((item, rest)) => {
                &&& rest.wf()
                &&& rest.src == input.src
                &&& rest.end == input.end
                &&& item_ok(input.src@, input.end as int, input.pos as int, item_view(item))
                &&& rest.pos as int == item_end(
                    input.src@,
                    input.end as int,
                    input.pos as int,
                    item_view(item),
                )
                &&& input.pos < rest.pos <= input.end
            },
            Err(e) => item_fails(input.src@, input.end as int, input.pos as int, err_view(e)),
        },
    decreases input.end - input.pos, 0int,
{
    let ghost s = input.src@;
    let ghost e = input.end as int;
    let ghost p = input.pos as int;
    if let Some((after_open, open_c, close_c)) = try_skip_group_open(&input) {
        match parse_items_until(after_open, close_c, input.offset()) {
            Ok((items, rest)) => {
                proof {
                    lemma_byte_of_mono(s, p, p + 1);
                }
                let location = Span {
                    offset: input.offset(),
                    len: after_open.offset().byte - input.offset().byte,
                };
                let kind = if open_c == '(' {
                    ItemKind::Parentheses(items)
                } else if open_c == '[' {
                    ItemKind::Brackets(items)
                } else {
                    ItemKind::Braces(items)
                };
                let item = Item { location, kind };
                proof {
                    assert(location == span_at(s, p, p + 1));
                }
                Ok((item, rest))
            },
            Err(e) => Err(e),
        }
    } else if let Some((tok, location, rest)) = input.try_take_token() {
        let c0 = input.peek();
        if is_digit_char(c0) || c0 == '-' {
            if has_dot(tok) {
                if is_float_token(tok) {
                    Ok((Item { location, kind: ItemKind::Float(smol_from(tok)) }, rest))
                } else {
                    Err(
                        SourceError::new(
                            ParseError::InvalidFloat { value: smol_from(tok) },
                            input.offset(),
                        ),
                    )
                }
            } else {
                match parse_i32_token(tok) {
                    Some(value) => Ok((Item { location, kind: ItemKind::Int(value) }, rest)),
                    None => Err(
                        SourceError::new(
                            ParseError::InvalidInt { value: smol_from(tok) },
                            input.offset(),
                        ),
                    ),
                }
            }
        } else {
            Ok((Item { location, kind: ItemKind::Word(smol_from(tok)) }, rest))
        }
    } else {
        let c = input.peek();
        Err(SourceError::new(ParseError::UnexpectedChar { unexpected: c }, input.offset()))
    }
}

/// Parses items up to the closing delimiter of a group that was opened at
/// `open_offset`; reaching the end of the region first is an unclosed
/// group.
pub(crate) fn parse_items_until<'a>(
    input: Input<'a>,
    close_c: char,
    open_offset: Offset,
) -> (r: ParseResult<(Vec<Item>, Input<'a>)>)
    requires
        input.wf(),
    ensures
        match r {
            Ok((items, rest)) => {
                &&& rest.wf()
                &&& rest.src == input.src
                &&& rest.end == input.end
                &&& run_ok(
                    input.src@,
                    input.end as int,
                    input.pos as int,
                    Some(close_c),
                    items_view(items@),
                )
                &&& rest.pos as int == run_end(
                    input.src@,
                    input.end as int,
                    input.pos as int,
                    items_view(items@),
                ) + 1
                &&& input.pos < rest.pos <= input.end
            },
            Err(e) => run_fails(
                input.src@,
                input.end as int,
                input.pos as int,
                close_c,
                open_offset,
                err_view(e),
            ),
        },
    decreases input.end - input.pos, 1int,
{
    let ghost s = input.src@;
    let ghost e = input.end as int;
    let ghost p = input.pos as int;
    proof {
        lemma_skip_ws_bounds(s, p, e);
    }
    let cur = input.skip_whitespace_and_comments();
    if cur.is_empty() {
        Err(SourceError::new(ParseError::UnclosedGroup { missing: close_c }, open_offset))
    } else if let Some(rest) = cur.skip_char(close_c) {
        let items: Vec<Item> = Vec::new();
        proof {
            assert(items_view(items@) =~= Seq::<SpecItem>::empty());
        }
        Ok((items, rest))
    } else {
        match parse_item(cur) {
            Ok((first, rest1)) => {
                match parse_items_until(rest1, close_c, open_offset) {
                    Ok((mut items, rest)) => {
                        proof {
                            lemma_items_view_prepend(first, items@);
                        }
                        let ghost tail = items@;
                        items.insert(0, first);
                        proof {
                            assert(items@ =~= seq![first] + tail);
                            let ivs = items_view(items@);
                            assert(ivs == seq![item_view(first)] + items_view(tail));
                            assert(ivs[0] == item_view(first));
                            assert(ivs.drop_first() =~= items_view(tail));
                        }
                        Ok((items, rest))
                    },
                    Err(err) => {
                        proof {
                            let w = cur.pos as int;
                            assert(item_ok(s, e, w, item_view(first)));
                            assert(rest1.pos as int == item_end(s, e, w, item_view(first)));
                            assert(run_fails(s, e, p, close_c, open_offset, err_view(err)));
                        }
                        Err(err)
                    },
                }
            },
            Err(err) => Err(err),
        }
    }
}

/// Parses items up to the end of the region: a directive's arguments.
pub(crate) fn parse_all_items<'a>(input: Input<'a>) -> (r: ParseResult<Vec<Item>>)
    requires
        input.wf(),
    ensures
        match r {
            Ok(items) => run_ok(
                input.src@,
                input.end as int,
                input.pos as int,
                None,
                items_view(items@),
            ),
            Err(e) => args_fails(input.src@, input.end as int, input.pos as int, err_view(e)),
        },
    decreases input.end - input.pos, 1int,
{
    let ghost s = input.src@;
    let ghost e = input.end as int;
    let ghost p = input.pos as int;
    proof {
        lemma_skip_ws_bounds(s, p, e);
    }
    let cur = input.skip_whitespace_and_comments();
    if cur.is_empty() {
        let items: Vec<Item> = Vec::new();
        proof {
            assert(items_view(items@) =~= Seq::<SpecItem>::empty());
        }
        Ok(items)
    } else {
        match parse_item(cur) {
            Ok((first, rest1)) => {
                match parse_all_items(rest1) {
                    Ok(mut items) => {
                        proof {
                            lemma_items_view_prepend(first, items@);
                        }
                        let ghost tail = items@;
                        items.insert(0, first);
                        proof {
                            assert(items@ =~= seq![first] + tail);
                            let ivs = items_view(items@);
                            assert(ivs == seq![item_view(first)] + items_view(tail));
                            assert(ivs[0] == item_view(first));
                            assert(ivs.drop_first() =~= items_view(tail));
                        }
                        Ok(items)
                    },
                    Err(err) => {
                        proof {
                            let w = cur.pos as int;
                            assert(item_ok(s, e, w, item_view(first)));
                            assert(rest1.pos as int == item_end(s, e, w, item_view(first)));
                            assert(args_fails(s, e, p, err_view(err)));
                        }
                        Err(err)
                    },
                }
            },
            Err(err) => Err(err),
        }
    }
}

/// Parses the rest of a line that already holds at least one signature
/// item: the remaining signature items, and the arguments when a `:` turns
/// the line into a directive.
pub(crate) fn parse_sig_from<'a>(input: Input<'a>) -> (r: ParseResult<
    (Vec<Item>, Option<Vec<Item>>),
>)
    requires
        input.wf(),
    ensures
        match r {
            Ok((sig, args_opt)) => {
                let s = input.src@;
                let e = input.end as int;
                let p = input.pos as int;
                match args_opt {
                    None => run_ok(s, e, p, None, items_view(sig@)),
                    Some(args) => {
                        &&& run_ok(s, e, p, Some(':'), items_view(sig@))
                        &&& run_ok(
                            s,
                            e,
                            run_end(s, e, p, items_view(sig@)) + 1,
                            None,
                            items_view(args@),
                        )
                    },
                }
            },
            Err(e) => sig_fails_from(input.src@, input.end as int, input.pos as int, err_view(e)),
        },
    decreases input.end - input.pos, 2int,
{
    let ghost s = input.src@;
    let ghost e = input.end as int;
    let ghost p = input.pos as int;
    proof {
        lemma_skip_ws_bounds(s, p, e);
    }
    let cur = input.skip_whitespace_and_comments();
    if cur.is_empty() {
        let sig: Vec<Item> = Vec::new();
        proof {
            assert(items_view(sig@) =~= Seq::<SpecItem>::empty());
        }
        Ok((sig, None))
    } else if let Some(after_colon) = cur.skip_char(':') {
        match parse_all_items(after_colon) {
            Ok(args) => {
                let sig: Vec<Item> = Vec::new();
                proof {
                    assert(items_view(sig@) =~= Seq::<SpecItem>::empty());
                }
                Ok((sig, Some(args)))
            },
            Err(err) => Err(err),
        }
    } else {
        match parse_item(cur) {
            Ok((first, rest1)) => {
                match parse_sig_from(rest1) {
                    Ok((mut sig, args_opt)) => {
                        proof {
                            lemma_items_view_prepend(first, sig@);
                        }
                        let ghost tail = sig@;
                        sig.insert(0, first);
                        proof {
                            assert(sig@ =~= seq![first] + tail);
                            let ivs = items_view(sig@);
                            assert(ivs == seq![item_view(first)] + items_view(tail));
                            assert(ivs[0] == item_view(first));
                            assert(ivs.drop_first() =~= items_view(tail));
                        }
                        Ok((sig, args_opt))
                    },
                    Err(err) => {
                        proof {
                            let w = cur.pos as int;
                            assert(item_ok(s, e, w, item_view(first)));
                            assert(rest1.pos as int == item_end(s, e, w, item_view(first)));
                            assert(sig_fails_from(s, e, p, err_view(err)));
                        }
                        Err(err)
                    },
                }
            },
            Err(err) => Err(err),
        }
    }
}

/// Classifies one logical line, already stripped of its indentation, as a
/// statement or a directive, and parses its items.
pub(crate) fn parse_node<'a>(input: Input<'a>) -> (r: ParseResult<Node>)
    requires
        input.wf(),
    ensures
        match r {
            Ok(node) => node_ok(input.src@, input.end as int, input.pos as int, node_view(node)),
            Err(e) => node_fails(input.src@, input.end as int, input.pos as int, err_view(e)),
        },
{
    let ghost s = input.src@;
    let ghost e = input.end as int;
    let ghost p = input.pos as int;
    proof {
        lemma_skip_ws_bounds(s, p, e);
    }
    let node_offset = input.offset();
    let cur = input.skip_whitespace_and_comments();
    if cur.is_empty() {
        let sig: Vec<Item> = Vec::new();
        proof {
            assert(items_view(sig@) =~= Seq::<SpecItem>::empty());
        }
        Ok(Node { location: node_offset, kind: NodeKind::Statement(Statement { signature: sig }) })
    } else if cur.peek() == ':' {
        Err(SourceError::new(ParseError::EmptyDirectiveSignature, node_offset))
    } else {
        match parse_item(cur) {
            Ok((first, rest1)) => {
                match parse_sig_from(rest1) {
                    Ok((mut sig, args_opt)) => {
                        proof {
                            lemma_items_view_prepend(first, sig@);
                        }
                        let ghost tail = sig@;
                        sig.insert(0, first);
                        proof {
                            assert(sig@ =~= seq![first] + tail);
                            let ivs = items_view(sig@);
                            assert(ivs == seq![item_view(first)] + items_view(tail));
                            assert(ivs[0] == item_view(first));
                            assert(ivs.drop_first() =~= items_view(tail));
                        }
                        match args_opt {
                            None => Ok(
                                Node {
                                    location: node_offset,
                                    kind: NodeKind::Statement(Statement { signature: sig }),
                                },
                            ),
                            Some(args) => {
                                let children: Vec<Node> = Vec::new();
                                proof {
                                    assert(crate::model::nodes_view(children@)
                                        =~= Seq::<crate::model::SpecNode>::empty());
                                }
                                Ok(
                                    Node {
                                        location: node_offset,
                                        kind: NodeKind::Directive(
                                            Directive { signature: sig, arguments: args, children },
                                        ),
                                    },
                                )
                            },
                        }
                    },
                    Err(err) => {
                        proof {
                            let w = cur.pos as int;
                            assert(item_ok(s, e, w, item_view(first)));
                            assert(rest1.pos as int == item_end(s, e, w, item_view(first)));
                            assert(node_fails(s, e, p, err_view(err)));
                        }
                        Err(err)
                    },
                }
            },
            Err(err) => Err(err),
        }
    }
}

/// The depth-stack tree builder: the finished roots, and the stack of
/// currently open ancestor nodes, indexed by depth.
pub(crate) struct DepthStack {
    pub(crate) tree: Tree,
    pub(crate) levels: Vec<Node>,
}

impl DepthStack {
    /// The ghost value of the builder's state.
    pub(crate) open spec fn view_state(self) -> BuildState {
        BuildState { roots: nodes_view(self.tree.roots@), levels: nodes_view(self.levels@) }
    }

    /// An empty builder.
    pub(crate) fn new() -> (r: Self)
        ensures
            r.view_state() == empty_state(),
    {
        let r = DepthStack { tree: Tree { roots: Vec::new() }, levels: Vec::new() };
        proof {
            assert(nodes_view(r.tree.roots@) =~= Seq::<SpecNode>::empty());
            assert(nodes_view(r.levels@) =~= Seq::<SpecNode>::empty());
        }
        r
    }

    /// Closes every open level deeper than `depth`, attaching each popped
    /// node to the directive beneath it, or to the roots when none remains.
    pub(crate) fn vacate_level(&mut self, depth: usize) -> (r: ParseResult)
        ensures
            match r {
                Ok(_) => spec_vacate(old(self).view_state(), depth as nat) == Ok::<
                    BuildState,
                    SpecErr,
                >(final(self).view_state()),
                Err(e) => spec_vacate(old(self).view_state(), depth as nat) == Err::<
                    BuildState,
                    SpecErr,
                >(err_view(e)),
            },
    {
        while self.levels.len() > depth
            invariant
                spec_vacate(old(self).view_state(), depth as nat) == spec_vacate(
                    self.view_state(),
                    depth as nat,
                ),
            decreases self.levels.len(),
        {
            let ghost st = self.view_state();
            let ghost lv = self.levels@;
            proof {
                lemma_nodes_view_len(lv);
                assert(st.levels.last() == node_view(lv.last()));
                assert(st.levels.drop_last() =~= nodes_view(lv.drop_last()));
            }
            let node = self.levels.pop().unwrap();
            proof {
                assert(self.levels@ =~= lv.drop_last());
            }
            if self.levels.len() > 0 {
                let ghost lv1 = self.levels@;
                proof {
                    lemma_nodes_view_len(lv1);
                    assert(nodes_view(lv1).last() == node_view(lv1.last()));
                    assert(nodes_view(lv1).drop_last() =~= nodes_view(lv1.drop_last()));
                }
                let parent = self.levels.pop().unwrap();
                proof {
                    assert(self.levels@ =~= lv1.drop_last());
                }
                let Node { kind: parent_kind, location: parent_location } = parent;
                match parent_kind {
                    NodeKind::Directive(mut directive) => {
                        let ghost ch = directive.children@;
                        directive.children.push(node);
                        proof {
                            lemma_nodes_view_push(ch, node);
                        }
                        let rebuilt = Node {
                            kind: NodeKind::Directive(directive),
                            location: parent_location,
                        };
                        let ghost base = self.levels@;
                        self.levels.push(rebuilt);
                        proof {
                            lemma_nodes_view_push(base, rebuilt);
                            assert(node_view(rebuilt) == attach_child(
                                node_view(parent),
                                node_view(node),
                            ));
                            assert(nodes_view(self.levels@) =~= st.levels.drop_last().drop_last()
                                .push(attach_child(node_view(parent), node_view(node))));
                        }
                    },
                    NodeKind::Statement(_) => {
                        let err = SourceError::new(
                            ParseError::StatementWithChild,
                            node.location,
                        ).with_context(parent_location);
                        proof {
                            assert(node_view(parent).kind is Statement);
                            assert(spec_vacate(st, depth as nat) == Err::<BuildState, SpecErr>(
                                err_view(err),
                            ));
                        }
                        return Err(err);
                    },
                }
            } else {
                let ghost rt = self.tree.roots@;
                self.tree.roots.push(node);
                proof {
                    lemma_nodes_view_push(rt, node);
                    assert(nodes_view(self.levels@) =~= Seq::<SpecNode>::empty());
                    assert(st.levels.drop_last() =~= Seq::<SpecNode>::empty());
                }
            }
        }
        proof {
            lemma_nodes_view_len(self.levels@);
        }
        Ok(())
    }

    /// Inserts a node at `depth`: deeper levels are closed first, and the
    /// depth must then equal the number of open levels.
    pub(crate) fn insert(&mut self, depth: usize, node: Node) -> (r: ParseResult)
        ensures
            match r {
                Ok(_) => spec_insert(old(self).view_state(), depth as nat, node_view(node)) == Ok::<
                    BuildState,
                    SpecErr,
                >(final(self).view_state()),
                Err(e) => spec_insert(old(self).view_state(), depth as nat, node_view(node))
                    == Err::<BuildState, SpecErr>(err_view(e)),
            },
    {
        match self.vacate_level(depth) {
            Ok(_) => {},
            Err(e) => {
                return Err(e);
            },
        }
        proof {
            lemma_nodes_view_len(self.levels@);
        }
        if depth != self.levels.len() {
            let mut error = SourceError::new(ParseError::IndentDepth, node.location);
            if self.levels.len() > 0 {
                let ghost lv = self.levels@;
                proof {
                    assert(nodes_view(lv).last() == node_view(lv.last()));
                }
                let nearest = &self.levels[self.levels.len() - 1];
                error = error.with_context(nearest.location);
            }
            return Err(error);
        }
        let ghost lv = self.levels@;
        self.levels.push(node);
        proof {
            lemma_nodes_view_push(lv, node);
        }
        Ok(())
    }

    /// Closes every open level and hands the finished tree out.
    pub(crate) fn into_tree(self) -> (r: ParseResult<Tree>)
        ensures
            match r {
                Ok(tree) => spec_vacate(self.view_state(), 0) matches Ok(fin) && nodes_view(
                    tree.roots@,
                ) == fin.roots,
                Err(e) => spec_vacate(self.view_state(), 0) == Err::<BuildState, SpecErr>(
                    err_view(e),
                ),
            },
    {
        let mut stack = self;
        match stack.vacate_level(0) {
            Ok(_) => Ok(stack.tree),
            Err(e) => Err(e),
        }
    }
}

/// Reads logical lines from the cursor on: blank and comment-only lines
/// are skipped, every other line is stripped of its indentation, parsed as
/// a node, and inserted into the builder at its depth.
pub(crate) fn parse_lines<'a>(input: Input<'a>, stack: &mut DepthStack, indent: Indent) -> (r:
    ParseResult)
    requires
        input.wf(),
        indent.valid(),
        input.end == input.src@.len(),
    ensures
        match r {
            Ok(_) => exists|lines: Seq<SpecLine>|
                #![trigger lines_ok(input.src@, indent, input.pos as int, lines)]
                {
                    &&& lines_ok(input.src@, indent, input.pos as int, lines)
                    &&& build_lines(old(stack).view_state(), lines) == Ok::<BuildState, SpecErr>(
                        final(stack).view_state(),
                    )
                },
            Err(e) => lines_fail(
                input.src@,
                indent,
                input.pos as int,
                old(stack).view_state(),
                err_view(e),
            ),
        },
    decreases input.src@.len() - input.pos,
{
    let ghost s = input.src@;
    let ghost p = input.pos as int;
    let ghost le = find_nl(s, p, s.len() as int);
    proof {
        crate::parse::input::lemma_find_nl_bounds(s, p, s.len() as int);
    }
    let (line, rest_opt) = input.split_line();
    let trimmed = line.skip_whitespace_and_comments();
    let ghost blank = spec_skip_ws(s, p, le) == le;
    if trimmed.is_empty() {
        proof {
            assert(blank);
        }
        match rest_opt {
            Some(rest) => {
                let r = parse_lines(rest, stack, indent);
                proof {
                    if r is Ok {
                        let lines = choose|lines: Seq<SpecLine>|
                            #![trigger lines_ok(s, indent, rest.pos as int, lines)]
                            {
                                &&& lines_ok(s, indent, rest.pos as int, lines)
                                &&& build_lines(old(stack).view_state(), lines) == Ok::<
                                    BuildState,
                                    SpecErr,
                                >(stack.view_state())
                            };
                        assert(lines_ok(s, indent, p, lines));
                    }
                }
                r
            },
            None => {
                proof {
                    let lines = Seq::<SpecLine>::empty();
                    assert(lines_ok(s, indent, p, lines));
                    assert(build_lines(old(stack).view_state(), lines) == Ok::<
                        BuildState,
                        SpecErr,
                    >(stack.view_state()));
                }
                Ok(())
            },
        }
    } else {
        proof {
            assert(!blank);
        }
        match indent.extract(&line) {
            Err(e) => {
                proof {
                    assert(lines_fail(s, indent, p, old(stack).view_state(), err_view(e)));
                }
                Err(e)
            },
            Ok((depth, content)) => {
                match parse_node(content) {
                    Err(e) => {
                        proof {
                            assert(node_fails(s, le, content.pos as int, err_view(e)));
                            assert(lines_fail(s, indent, p, old(stack).view_state(), err_view(e)));
                        }
                        Err(e)
                    },
                    Ok(node) => {
                        let ghost nv = node_view(node);
                        let ghost d = strip_indent(s, p, le, indent).0;
                        proof {
                            assert(node_ok(s, le, content.pos as int, nv));
                            assert(depth as int == d);
                        }
                        match stack.insert(depth, node) {
                            Err(e) => {
                                proof {
                                    assert(spec_insert(
                                        old(stack).view_state(),
                                        d as nat,
                                        nv,
                                    ) == Err::<BuildState, SpecErr>(err_view(e)));
                                    assert(lines_fail(
                                        s,
                                        indent,
                                        p,
                                        old(stack).view_state(),
                                        err_view(e),
                                    ));
                                }
                                Err(e)
                            },
                            Ok(_) => {
                                let ghost st1 = stack.view_state();
                                let ghost line0 = SpecLine { depth: depth as nat, node: nv };
                                match rest_opt {
                                    Some(rest) => {
                                        let r = parse_lines(rest, stack, indent);
                                        proof {
                                            match &r {
                                                Ok(_) => {
                                                    let tail = choose|tail: Seq<SpecLine>|
                                                        #![trigger lines_ok(s, indent, rest.pos as int, tail)]
                                                        {
                                                            &&& lines_ok(
                                                                s,
                                                                indent,
                                                                rest.pos as int,
                                                                tail,
                                                            )
                                                            &&& build_lines(st1, tail) == Ok::<
                                                                BuildState,
                                                                SpecErr,
                                                            >(stack.view_state())
                                                        };
                                                    let lines = seq![line0] + tail;
                                                    assert(lines[0] == line0);
                                                    assert(lines.drop_first() =~= tail);
                                                    assert(lines_ok(s, indent, p, lines));
                                                    assert(build_lines(
                                                        old(stack).view_state(),
                                                        lines,
                                                    ) == Ok::<BuildState, SpecErr>(
                                                        stack.view_state(),
                                                    ));
                                                },
                                                Err(e) => {
                                                    assert(lines_fail(
                                                        s,
                                                        indent,
                                                        rest.pos as int,
                                                        st1,
                                                        err_view(*e),
                                                    ));
                                                    assert(lines_fail(
                                                        s,
                                                        indent,
                                                        p,
                                                        old(stack).view_state(),
                                                        err_view(*e),
                                                    ));
                                                },
                                            }
                                        }
                                        r
                                    },
                                    None => {
                                        proof {
                                            let lines = seq![line0];
                                            assert(lines[0] == line0);
                                            assert(lines.drop_first()
                                                =~= Seq::<SpecLine>::empty());
                                            assert(lines_ok(s, indent, p, lines));
                                            assert(spec_insert(
                                                old(stack).view_state(),
                                                line0.depth,
                                                line0.node,
                                            ) == Ok::<BuildState, SpecErr>(st1));
                                            assert(build_lines(st1, Seq::<SpecLine>::empty())
                                                == Ok::<BuildState, SpecErr>(st1));
                                            assert(build_lines(old(stack).view_state(), lines)
                                                == Ok::<BuildState, SpecErr>(
                                                stack.view_state(),
                                            ));
                                        }
                                        Ok(())
                                    },
                                }
                            },
                        }
                    },
                }
            },
        }
    }
}

/// Parses the whole source into a tree with the given indentation.
pub(crate) fn parse_input(source: &str, indent: Indent) -> (r: ParseResult<Tree>)
    requires
        indent.valid(),
    ensures
        match r {
            Ok(tree) => parse_result_ok(source@, indent, nodes_view(tree.roots@)),
            Err(e) => parse_result_fails(source@, indent, err_view(e)),
        },
{
    let input = Input::new(source);
    let mut stack = DepthStack::new();
    match parse_lines(input, &mut stack, indent) {
        Err(e) => Err(e),
        Ok(_) => {
            let ghost s = source@;
            let ghost lines = choose|lines: Seq<SpecLine>|
                #![trigger lines_ok(s, indent, 0, lines)]
                {
                    &&& lines_ok(s, indent, 0, lines)
                    &&& build_lines(empty_state(), lines) == Ok::<BuildState, SpecErr>(
                        stack.view_state(),
                    )
                };
            match stack.into_tree() {
                Ok(tree) => {
                    proof {
                        assert(lines_ok(s, indent, 0, lines));
                        assert(parse_result_ok(s, indent, nodes_view(tree.roots@)));
                    }
                    Ok(tree)
                },
                Err(e) => {
                    proof {
                        assert(parse_result_fails(s, indent, err_view(e)));
                    }
                    Err(e)
                },
            }
        },
    }
}

} // verus!
