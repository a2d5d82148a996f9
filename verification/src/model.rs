//! The mathematical model of parsing.
//!
//! The executable parser works on cursors and produces [`Item`]s, [`Node`]s
//! and [`crate::Tree`]s; this module gives each of those a ghost mirror over
//! `Seq` and defines, over character positions into the source, exactly
//! which values a region of the source parses to.  The parser's contracts
//! are stated against these definitions.
use crate::chars::is_digit;
use crate::chars::is_ws_char;
use crate::parse::input::find_nl;
use crate::parse::strip_indent;
use crate::parse::Indent;
use crate::literal::int_literal_value;
use crate::literal::is_float_literal;
use crate::literal::is_int_literal;
use crate::parse::input::spec_skip_ws;
use crate::parse::input::token_end;
use crate::source::offset_at;
use crate::source::span_at;
use crate::source::Offset;
use crate::source::Span;
use crate::word::smol_chars;
use crate::Item;
use crate::ItemKind;
use crate::Node;
use crate::NodeKind;
use vstd::prelude::*;

verus! {

/// The ghost mirror of [`crate::parse::SourceError`]: an error kind with
/// the offset it occurred at and an optional related offset.
pub ghost struct SpecErr {
    pub kind: SpecErrKind,
    pub offset: Offset,
    pub context: Option<Offset>,
}

/// The ghost mirror of [`crate::parse::ParseError`].
pub ghost enum SpecErrKind {
    IndentChars,
    IndentDepth,
    StatementWithChild,
    UnexpectedChar(char),
    UnclosedGroup(char),
    InvalidInt(Seq<char>),
    InvalidFloat(Seq<char>),
    EmptyDirectiveSignature,
}

/// The ghost mirror of [`Item`]: the same data over `Seq`.
pub ghost struct SpecItem {
    pub location: Span,
    pub kind: SpecItemKind,
}

/// The ghost mirror of [`ItemKind`].
pub ghost enum SpecItemKind {
    Word(Seq<char>),
    Int(i32),
    Float(Seq<char>),
    Parentheses(Seq<SpecItem>),
    Brackets(Seq<SpecItem>),
    Braces(Seq<SpecItem>),
}

/// The ghost mirror of [`Node`].
pub ghost struct SpecNode {
    pub location: Offset,
    pub kind: SpecNodeKind,
}

/// The ghost mirror of [`NodeKind`].
pub ghost enum SpecNodeKind {
    Directive { signature: Seq<SpecItem>, arguments: Seq<SpecItem>, children: Seq<SpecNode> },
    Statement { signature: Seq<SpecItem> },
}

/// The ghost value of an [`Item`].
pub open spec fn item_view(item: Item) -> SpecItem
    decreases item,
{
    SpecItem { location: item.location, kind: kind_view(item.kind) }
}

/// The ghost value of an [`ItemKind`].
pub open spec fn kind_view(kind: ItemKind) -> SpecItemKind
    decreases kind,
{
    match kind {
        ItemKind::Word(w) => SpecItemKind::Word(smol_chars(w)),
        ItemKind::Int(v) => SpecItemKind::Int(v),
        ItemKind::Float(t) => SpecItemKind::Float(smol_chars(t)),
        ItemKind::Parentheses(v) => SpecItemKind::Parentheses(items_view(v@)),
        ItemKind::Brackets(v) => SpecItemKind::Brackets(items_view(v@)),
        ItemKind::Braces(v) => SpecItemKind::Braces(items_view(v@)),
    }
}

/// The ghost values of a sequence of [`Item`]s.
pub open spec fn items_view(s: Seq<Item>) -> Seq<SpecItem>
    decreases s,
{
    if s.len() == 0 {
        Seq::empty()
    } else {
        items_view(s.drop_last()).push(item_view(s.last()))
    }
}

/// The ghost value of a [`Node`].
pub open spec fn node_view(n: Node) -> SpecNode
    decreases n,
{
    SpecNode { location: n.location, kind: nkind_view(n.kind) }
}

/// The ghost value of a [`NodeKind`].
pub open spec fn nkind_view(k: NodeKind) -> SpecNodeKind
    decreases k,
{
    match k {
        NodeKind::Directive(d) => SpecNodeKind::Directive {
            signature: items_view(d.signature@),
            arguments: items_view(d.arguments@),
            children: nodes_view(d.children@),
        },
        NodeKind::Statement(s) => SpecNodeKind::Statement { signature: items_view(s.signature@) },
    }
}

/// The ghost values of a sequence of [`Node`]s.
pub open spec fn nodes_view(s: Seq<Node>) -> Seq<SpecNode>
    decreases s,
{
    if s.len() == 0 {
        Seq::empty()
    } else {
        nodes_view(s.drop_last()).push(node_view(s.last()))
    }
}

/// Item views match up index by index.
pub proof fn lemma_items_view_len(s: Seq<Item>)
    ensures
        items_view(s).len() == s.len(),
    decreases s,
{
    if s.len() > 0 {
        lemma_items_view_len(s.drop_last());
    }
}

/// The view of an element is the element of the view.
pub proof fn lemma_items_view_index(s: Seq<Item>, i: int)
    requires
        0 <= i < s.len(),
    ensures
        items_view(s).len() == s.len(),
        items_view(s)[i] == item_view(s[i]),
    decreases s,
{
    lemma_items_view_len(s);
    if i < s.len() - 1 {
        lemma_items_view_index(s.drop_last(), i);
    } else {
        lemma_items_view_len(s.drop_last());
    }
}

/// Node views match up index by index.
pub proof fn lemma_nodes_view_len(s: Seq<Node>)
    ensures
        nodes_view(s).len() == s.len(),
    decreases s,
{
    if s.len() > 0 {
        lemma_nodes_view_len(s.drop_last());
    }
}

/// The view of an element is the element of the view.
pub proof fn lemma_nodes_view_index(s: Seq<Node>, i: int)
    requires
        0 <= i < s.len(),
    ensures
        nodes_view(s).len() == s.len(),
        nodes_view(s)[i] == node_view(s[i]),
    decreases s,
{
    lemma_nodes_view_len(s);
    if i < s.len() - 1 {
        lemma_nodes_view_index(s.drop_last(), i);
    } else {
        lemma_nodes_view_len(s.drop_last());
    }
}

/// Appending an item appends its view.
pub proof fn lemma_items_view_push(s: Seq<Item>, x: Item)
    ensures
        items_view(s.push(x)) == items_view(s).push(item_view(x)),
{
    assert(s.push(x).drop_last() =~= s);
    assert(s.push(x).last() == x);
}

/// Prepending an item prepends its view.
pub proof fn lemma_items_view_prepend(x: Item, s: Seq<Item>)
    ensures
        items_view(seq![x] + s) == seq![item_view(x)] + items_view(s),
    decreases s.len(),
{
    if s.len() == 0 {
        assert(seq![x] + s =~= seq![x]);
        assert(seq![x].drop_last() =~= Seq::<Item>::empty());
        assert(seq![x].last() == x);
        assert(items_view(Seq::<Item>::empty()) =~= Seq::<SpecItem>::empty());
        assert(items_view(seq![x]) == items_view(seq![x].drop_last()).push(item_view(x)));
        assert(items_view(seq![x]) =~= seq![item_view(x)]);
        assert(seq![item_view(x)] + items_view(s) =~= seq![item_view(x)]);
    } else {
        let t = seq![x] + s;
        assert(t.drop_last() =~= seq![x] + s.drop_last());
        assert(t.last() == s.last());
        lemma_items_view_prepend(x, s.drop_last());
        assert(items_view(t) == (seq![item_view(x)] + items_view(s.drop_last())).push(
            item_view(s.last()),
        ));
        assert((seq![item_view(x)] + items_view(s.drop_last())).push(item_view(s.last())) =~= seq![
            item_view(x),
        ] + items_view(s.drop_last()).push(item_view(s.last())));
        assert(items_view(s) == items_view(s.drop_last()).push(item_view(s.last())));
    }
}

/// Appending a node appends its view.
pub proof fn lemma_nodes_view_push(s: Seq<Node>, x: Node)
    ensures
        nodes_view(s.push(x)) == nodes_view(s).push(node_view(x)),
{
    assert(s.push(x).drop_last() =~= s);
    assert(s.push(x).last() == x);
}

/// The position just past an item that starts at `p` in the region `[p, e)`
/// of `s`: tokens end at their token run's end, groups just past their
/// closing delimiter.
pub open spec fn item_end(s: Seq<char>, e: int, p: int, item: SpecItem) -> int
    decreases item, 0int,
{
    match item.kind {
        SpecItemKind::Word(_) => token_end(s, p, e),
        SpecItemKind::Int(_) => token_end(s, p, e),
        SpecItemKind::Float(_) => token_end(s, p, e),
        SpecItemKind::Parentheses(items) => run_end(s, e, p + 1, items) + 1,
        SpecItemKind::Brackets(items) => run_end(s, e, p + 1, items) + 1,
        SpecItemKind::Braces(items) => run_end(s, e, p + 1, items) + 1,
    }
}

/// The position where a run of items that starts at `p` checks for its
/// terminator: whitespace is skipped before each item and after the last.
pub open spec fn run_end(s: Seq<char>, e: int, p: int, items: Seq<SpecItem>) -> int
    decreases items, 0int,
{
    if items.len() == 0 {
        spec_skip_ws(s, p, e)
    } else {
        run_end(s, e, item_end(s, e, spec_skip_ws(s, p, e), items[0]), items.drop_first())
    }
}

/// The region `[p, e)` of `s` parses to exactly the item `item` at `p`.
///
/// A token item covers the maximal run of token characters at `p`, is
/// classified by its first character (a digit or minus sign means numeric,
/// with a point meaning float), and its span covers exactly the token.  A
/// group item starts with its opening delimiter, its span covers exactly
/// that delimiter, and its sub-items tile the region up to the matching
/// closing delimiter.
pub open spec fn item_ok(s: Seq<char>, e: int, p: int, item: SpecItem) -> bool
    decreases item, 1int,
{
    match item.kind {
        SpecItemKind::Word(w) => {
            let t = token_end(s, p, e);
            &&& p < t
            &&& !(is_digit(s[p]) || s[p] == '-')
            &&& w == s.subrange(p, t)
            &&& item.location == span_at(s, p, t)
        },
        SpecItemKind::Int(v) => {
            let t = token_end(s, p, e);
            let txt = s.subrange(p, t);
            &&& p < t
            &&& is_digit(s[p]) || s[p] == '-'
            &&& !txt.contains('.')
            &&& is_int_literal(txt)
            &&& v == int_literal_value(txt)
            &&& item.location == span_at(s, p, t)
        },
        SpecItemKind::Float(txt) => {
            let t = token_end(s, p, e);
            &&& p < t
            &&& is_digit(s[p]) || s[p] == '-'
            &&& s.subrange(p, t).contains('.')
            &&& is_float_literal(s.subrange(p, t))
            &&& txt == s.subrange(p, t)
            &&& item.location == span_at(s, p, t)
        },
        SpecItemKind::Parentheses(items) => group_ok(s, e, p, '(', ')', items, item.location),
        SpecItemKind::Brackets(items) => group_ok(s, e, p, '[', ']', items, item.location),
        SpecItemKind::Braces(items) => group_ok(s, e, p, '{', '}', items, item.location),
    }
}

/// The region `[p, e)` of `s` parses to a group: the opening delimiter at
/// `p`, the sub-items tiling up to the closing delimiter, and the span
/// covering exactly the opening delimiter.
pub open spec fn group_ok(
    s: Seq<char>,
    e: int,
    p: int,
    open_c: char,
    close_c: char,
    items: Seq<SpecItem>,
    loc: Span,
) -> bool
    decreases items, 3int,
{
    &&& p < e
    &&& s[p] == open_c
    &&& loc == span_at(s, p, p + 1)
    &&& run_ok(s, e, p + 1, Some(close_c), items)
}

/// The items `items` tile the region from `p` up to the terminator:
/// whitespace and comments are skipped before each item and after the last,
/// and then the terminator is found: the character `c` for `stop ==
/// Some(c)`, the region's end for `stop == None`.
pub open spec fn run_ok(
    s: Seq<char>,
    e: int,
    p: int,
    stop: Option<char>,
    items: Seq<SpecItem>,
) -> bool
    decreases items, 2int,
{
    let w = spec_skip_ws(s, p, e);
    if items.len() == 0 {
        match stop {
            Some(c) => w < e && s[w] == c,
            None => w == e,
        }
    } else {
        &&& w < e
        &&& (stop matches Some(c) ==> s[w] != c)
        &&& item_ok(s, e, w, items[0])
        &&& run_ok(s, e, item_end(s, e, w, items[0]), stop, items.drop_first())
    }
}

/// True for the characters that open a group.
pub open spec fn is_open_delim(c: char) -> bool {
    c == '(' || c == '[' || c == '{'
}

/// The closing delimiter that matches an opening one.
pub open spec fn close_of(c: char) -> char {
    if c == '(' {
        ')'
    } else if c == '[' {
        ']'
    } else {
        '}'
    }
}

/// Parsing one item at `p` in the region `[p, e)` fails with exactly the
/// error `err`: a structural character where a token should start, a
/// numeric-looking token that is not a valid literal, or a failure inside a
/// group.
pub open spec fn item_fails(s: Seq<char>, e: int, p: int, err: SpecErr) -> bool
    decreases e - p, 0int,
{
    if p < e && is_open_delim(s[p]) {
        run_fails(s, e, p + 1, close_of(s[p]), offset_at(s, p), err)
    } else {
        let t = token_end(s, p, e);
        if t == p {
            &&& p < e
            &&& err == (SpecErr {
                kind: SpecErrKind::UnexpectedChar(s[p]),
                offset: offset_at(s, p),
                context: None,
            })
        } else {
            let txt = s.subrange(p, t);
            if is_digit(s[p]) || s[p] == '-' {
                if txt.contains('.') {
                    &&& !is_float_literal(txt)
                    &&& err == (SpecErr {
                        kind: SpecErrKind::InvalidFloat(txt),
                        offset: offset_at(s, p),
                        context: None,
                    })
                } else {
                    &&& !is_int_literal(txt)
                    &&& err == (SpecErr {
                        kind: SpecErrKind::InvalidInt(txt),
                        offset: offset_at(s, p),
                        context: None,
                    })
                }
            } else {
                false
            }
        }
    }
}

/// Parsing the items of a group whose content starts at `p` fails with
/// exactly the error `err`: the end of the region without the closing
/// delimiter (reported at the opening delimiter's offset), or some item
/// fails after zero or more items parse.
pub open spec fn run_fails(
    s: Seq<char>,
    e: int,
    p: int,
    close_c: char,
    open_off: Offset,
    err: SpecErr,
) -> bool
    decreases e - p, 1int,
{
    let w = spec_skip_ws(s, p, e);
    if w < p || e < w {
        false
    } else if w == e {
        err == (SpecErr {
            kind: SpecErrKind::UnclosedGroup(close_c),
            offset: open_off,
            context: None,
        })
    } else if s[w] == close_c {
        false
    } else {
        ||| item_fails(s, e, w, err)
        ||| exists|item: SpecItem|
            #![trigger item_ok(s, e, w, item)]
            {
                &&& w < item_end(s, e, w, item) <= e
                &&& item_ok(s, e, w, item)
                &&& run_fails(s, e, item_end(s, e, w, item), close_c, open_off, err)
            }
    }
}

/// Parsing a run of items up to the end of the region (a directive's
/// arguments) fails with exactly the error `err`.
pub open spec fn args_fails(s: Seq<char>, e: int, p: int, err: SpecErr) -> bool
    decreases e - p, 1int,
{
    let w = spec_skip_ws(s, p, e);
    if w < p || e <= w {
        false
    } else {
        ||| item_fails(s, e, w, err)
        ||| exists|item: SpecItem|
            #![trigger item_ok(s, e, w, item)]
            {
                &&& w < item_end(s, e, w, item) <= e
                &&& item_ok(s, e, w, item)
                &&& args_fails(s, e, item_end(s, e, w, item), err)
            }
    }
}

/// Parsing the rest of a line that already holds at least one signature
/// item fails with exactly the error `err`: a failing signature item, or a
/// failure among the arguments after a `:`.
pub open spec fn sig_fails_from(s: Seq<char>, e: int, p: int, err: SpecErr) -> bool
    decreases e - p, 2int,
{
    let w = spec_skip_ws(s, p, e);
    if w < p || e <= w {
        false
    } else if s[w] == ':' {
        args_fails(s, e, w + 1, err)
    } else {
        ||| item_fails(s, e, w, err)
        ||| exists|item: SpecItem|
            #![trigger item_ok(s, e, w, item)]
            {
                &&& w < item_end(s, e, w, item) <= e
                &&& item_ok(s, e, w, item)
                &&& sig_fails_from(s, e, item_end(s, e, w, item), err)
            }
    }
}

/// Parsing the line region `[p, e)` as a node fails with exactly the error
/// `err`: a `:` before any signature item (an empty directive signature,
/// reported at the line's start), or a failure in the signature or the
/// arguments.
pub open spec fn node_fails(s: Seq<char>, e: int, p: int, err: SpecErr) -> bool {
    let w = spec_skip_ws(s, p, e);
    if w < p || e <= w {
        false
    } else if s[w] == ':' {
        err == (SpecErr {
            kind: SpecErrKind::EmptyDirectiveSignature,
            offset: offset_at(s, p),
            context: None,
        })
    } else {
        ||| item_fails(s, e, w, err)
        ||| exists|item: SpecItem|
            #![trigger item_ok(s, e, w, item)]
            {
                &&& w < item_end(s, e, w, item) <= e
                &&& item_ok(s, e, w, item)
                &&& sig_fails_from(s, e, item_end(s, e, w, item), err)
            }
    }
}

/// The line region `[p, e)` of `s` parses to exactly the node `node`, whose
/// location is the region's start (the first character after the
/// indentation).
///
/// A statement's signature items tile the whole region.  A directive's
/// signature items tile the region up to a `:`, the signature is not empty,
/// the arguments tile the rest of the region, and the children are empty:
/// children only come from later, deeper-indented lines.
pub open spec fn node_ok(s: Seq<char>, e: int, p: int, node: SpecNode) -> bool {
    &&& node.location == offset_at(s, p)
    &&& match node.kind {
        SpecNodeKind::Statement { signature } => run_ok(s, e, p, None, signature),
        SpecNodeKind::Directive { signature, arguments, children } => {
            &&& children == Seq::<SpecNode>::empty()
            &&& signature.len() > 0
            &&& run_ok(s, e, p, Some(':'), signature)
            &&& run_ok(s, e, run_end(s, e, p, signature) + 1, None, arguments)
        },
    }
}

/// One structural line of the source: its indentation depth and its parsed
/// node.
pub ghost struct SpecLine {
    pub depth: nat,
    pub node: SpecNode,
}

/// The tree builder's state: the finished root nodes, and the stack of
/// currently open ancestors, indexed by depth.
pub ghost struct BuildState {
    pub roots: Seq<SpecNode>,
    pub levels: Seq<SpecNode>,
}

/// The builder's starting state.
pub open spec fn empty_state() -> BuildState {
    BuildState { roots: Seq::empty(), levels: Seq::empty() }
}

/// The directive `parent` with `child` appended to its children.
pub open spec fn attach_child(parent: SpecNode, child: SpecNode) -> SpecNode
    recommends
        parent.kind is Directive,
{
    match parent.kind {
        SpecNodeKind::Directive { signature, arguments, children } => SpecNode {
            location: parent.location,
            kind: SpecNodeKind::Directive {
                signature,
                arguments,
                children: children.push(child),
            },
        },
        SpecNodeKind::Statement { .. } => parent,
    }
}

/// Closes every open level deeper than `depth`: each popped node is
/// appended to the children of the directive beneath it, or to the roots
/// when nothing remains beneath; a statement beneath a popped node is the
/// structural error `StatementWithChild`.
pub open spec fn spec_vacate(st: BuildState, depth: nat) -> Result<BuildState, SpecErr>
    decreases st.levels.len(),
{
    if st.levels.len() <= depth {
        Ok(st)
    } else {
        let node = st.levels.last();
        let rest = st.levels.drop_last();
        if rest.len() > 0 {
            let parent = rest.last();
            match parent.kind {
                SpecNodeKind::Directive { .. } => spec_vacate(
                    BuildState {
                        roots: st.roots,
                        levels: rest.drop_last().push(attach_child(parent, node)),
                    },
                    depth,
                ),
                SpecNodeKind::Statement { .. } => Err(
                    SpecErr {
                        kind: SpecErrKind::StatementWithChild,
                        offset: node.location,
                        context: Some(parent.location),
                    },
                ),
            }
        } else {
            spec_vacate(BuildState { roots: st.roots.push(node), levels: rest }, depth)
        }
    }
}

/// Inserts a node at `depth`: deeper levels are closed first, and the depth
/// must then equal the number of open levels, never skipping a level.
pub open spec fn spec_insert(st: BuildState, depth: nat, node: SpecNode) -> Result<
    BuildState,
    SpecErr,
> {
    match spec_vacate(st, depth) {
        Ok(st2) => {
            if depth == st2.levels.len() {
                Ok(BuildState { roots: st2.roots, levels: st2.levels.push(node) })
            } else {
                Err(
                    SpecErr {
                        kind: SpecErrKind::IndentDepth,
                        offset: node.location,
                        context: if st2.levels.len() > 0 {
                            Some(st2.levels.last().location)
                        } else {
                            None
                        },
                    },
                )
            }
        },
        Err(e) => Err(e),
    }
}

/// Inserts each line's node in order.
pub open spec fn build_lines(st: BuildState, lines: Seq<SpecLine>) -> Result<BuildState, SpecErr>
    decreases lines.len(),
{
    if lines.len() == 0 {
        Ok(st)
    } else {
        match spec_insert(st, lines[0].depth, lines[0].node) {
            Ok(st2) => build_lines(st2, lines.drop_first()),
            Err(e) => Err(e),
        }
    }
}

/// The source from position `p` on decomposes into exactly the structural
/// lines `lines`: blank and comment-only lines are skipped, and each
/// structural line strips cleanly to a depth and parses to its node.
pub open spec fn lines_ok(s: Seq<char>, ind: Indent, p: int, lines: Seq<SpecLine>) -> bool
    decreases s.len() - p,
{
    let le = find_nl(s, p, s.len() as int);
    if p < 0 || le < p || s.len() < le {
        false
    } else {
        let blank = spec_skip_ws(s, p, le) == le;
        let more = le < s.len();
        if blank {
            if more {
                lines_ok(s, ind, le + 1, lines)
            } else {
                lines.len() == 0
            }
        } else {
            let d = strip_indent(s, p, le, ind).0;
            let q = strip_indent(s, p, le, ind).1;
            &&& lines.len() > 0
            &&& lines[0].depth as int == d
            &&& !(q < le && is_ws_char(s[q]))
            &&& node_ok(s, le, q, lines[0].node)
            &&& if more {
                lines_ok(s, ind, le + 1, lines.drop_first())
            } else {
                lines.len() == 1
            }
        }
    }
}

/// Reading the source from position `p` on, with the builder in state `st`,
/// fails with exactly the error `err`: the first structural line that has
/// stray indentation, fails to parse, or cannot be inserted at its depth.
pub open spec fn lines_fail(s: Seq<char>, ind: Indent, p: int, st: BuildState, err: SpecErr) -> bool
    decreases s.len() - p,
{
    let le = find_nl(s, p, s.len() as int);
    if p < 0 || le < p || s.len() < le {
        false
    } else {
        let blank = spec_skip_ws(s, p, le) == le;
        let more = le < s.len();
        if blank {
            more && lines_fail(s, ind, le + 1, st, err)
        } else {
            let d = strip_indent(s, p, le, ind).0;
            let q = strip_indent(s, p, le, ind).1;
            if q < le && is_ws_char(s[q]) {
                err == (SpecErr {
                    kind: SpecErrKind::IndentChars,
                    offset: offset_at(s, q),
                    context: None,
                })
            } else {
                ||| node_fails(s, le, q, err)
                ||| exists|node: SpecNode|
                    #![trigger node_ok(s, le, q, node)]
                    {
                        &&& node_ok(s, le, q, node)
                        &&& match spec_insert(st, d as nat, node) {
                            Ok(st2) => more && lines_fail(s, ind, le + 1, st2, err),
                            Err(e2) => err == e2,
                        }
                    }
            }
        }
    }
}

/// The whole source parses, with the given indentation, to exactly the
/// roots `roots`: its structural lines build them with no level left open.
pub open spec fn parse_result_ok(s: Seq<char>, ind: Indent, roots: Seq<SpecNode>) -> bool {
    exists|lines: Seq<SpecLine>|
        #![trigger lines_ok(s, ind, 0, lines)]
        {
            &&& lines_ok(s, ind, 0, lines)
            &&& match build_lines(empty_state(), lines) {
                Ok(st) => match spec_vacate(st, 0) {
                    Ok(fin) => roots == fin.roots,
                    Err(_) => false,
                },
                Err(_) => false,
            }
        }
}

/// Parsing the whole source fails with exactly the error `err`: some line
/// fails, or closing the levels still open at the end of input does.
pub open spec fn parse_result_fails(s: Seq<char>, ind: Indent, err: SpecErr) -> bool {
    ||| lines_fail(s, ind, 0, empty_state(), err)
    ||| exists|lines: Seq<SpecLine>|
        #![trigger lines_ok(s, ind, 0, lines)]
        {
            &&& lines_ok(s, ind, 0, lines)
            &&& match build_lines(empty_state(), lines) {
                Ok(st) => spec_vacate(st, 0) == Err::<BuildState, SpecErr>(err),
                Err(_) => false,
            }
        }
}


} // verus!
