//! Laws of the parser: statements that relate the library's contracts to
//! each other, proved once over the model in [`crate::model`].
use crate::chars::byte_of;
use crate::chars::is_structure;
use crate::chars::is_ws_char;
use crate::chars::lemma_byte_of_full;
use crate::chars::lemma_byte_of_mono;
use crate::literal::int_literal_value;
use crate::literal::is_int_literal;
use crate::model::attach_child;
use crate::model::build_lines;
use crate::model::close_of;
use crate::model::args_fails;
use crate::model::empty_state;
use crate::model::is_open_delim;
use crate::model::item_end;
use crate::model::item_fails;
use crate::model::item_ok;
use crate::model::lines_fail;
use crate::model::lines_ok;
use crate::model::node_fails;
use crate::model::node_ok;
use crate::model::parse_result_fails;
use crate::model::parse_result_ok;
use crate::model::run_end;
use crate::model::run_fails;
use crate::model::run_ok;
use crate::model::sig_fails_from;
use crate::model::spec_insert;
use crate::model::spec_vacate;
use crate::model::BuildState;
use crate::model::SpecErr;
use crate::model::SpecItem;
use crate::model::SpecItemKind;
use crate::model::SpecLine;
use crate::model::SpecNode;
use crate::model::SpecNodeKind;
use crate::parse::input::find_nl;
use crate::parse::input::lemma_find_nl_bounds;
use crate::parse::input::lemma_skip_ws_bounds;
use crate::parse::input::lemma_token_end_bounds;
use crate::parse::input::spec_skip_ws;
use crate::parse::input::token_end;
use crate::parse::lemma_strip_indent_bounds;
use crate::parse::strip_indent;
use crate::parse::Indent;
use crate::source::char_pos_at;
use crate::source::offset_at;
use crate::source::Offset;
use crate::source::lemma_char_pos_unique;
use crate::source::span_at;
use crate::source::span_wf;
use crate::source::spec_span_str;
use vstd::prelude::*;
use vstd::utf8::encode_utf8;

verus! {

/// A span built over the character range `[i, j)` covers exactly those
/// characters: reading it back through [`spec_span_str`] reproduces them.
pub proof fn lemma_span_at_str(s: Seq<char>, i: int, j: int)
    requires
        0 <= i <= j <= s.len(),
        encode_utf8(s).len() <= usize::MAX,
    ensures
        span_wf(s, span_at(s, i, j)),
        spec_span_str(s, span_at(s, i, j)) == s.subrange(i, j),
{
    lemma_byte_of_mono(s, i, j);
    lemma_byte_of_mono(s, j, s.len() as int);
    lemma_byte_of_full(s);
    lemma_char_pos_unique(s, i);
    lemma_char_pos_unique(s, j);
    assert(span_at(s, i, j).offset.byte + span_at(s, i, j).len == byte_of(s, j));
}

/// Law: re-reading an item's span from the original source reproduces
/// exactly the token text the item was parsed from: the stored characters
/// for a word or a float literal, an integer literal denoting the stored
/// value for an integer, and the opening delimiter for a group.
pub proof fn lemma_item_span_round_trip(s: Seq<char>, e: int, p: int, item: SpecItem)
    requires
        item_ok(s, e, p, item),
        0 <= p <= e <= s.len(),
        encode_utf8(s).len() <= usize::MAX,
    ensures
        span_wf(s, item.location),
        match item.kind {
            SpecItemKind::Word(w) => spec_span_str(s, item.location) == w,
            SpecItemKind::Int(v) => is_int_literal(spec_span_str(s, item.location))
                && int_literal_value(spec_span_str(s, item.location)) == v,
            SpecItemKind::Float(t) => spec_span_str(s, item.location) == t,
            SpecItemKind::Parentheses(_) => spec_span_str(s, item.location) == seq!['('],
            SpecItemKind::Brackets(_) => spec_span_str(s, item.location) == seq!['['],
            SpecItemKind::Braces(_) => spec_span_str(s, item.location) == seq!['{'],
        },
{
    lemma_token_end_bounds(s, p, e);
    let t = token_end(s, p, e);
    match item.kind {
        SpecItemKind::Word(_) => {
            lemma_span_at_str(s, p, t);
        },
        SpecItemKind::Int(_) => {
            lemma_span_at_str(s, p, t);
        },
        SpecItemKind::Float(_) => {
            lemma_span_at_str(s, p, t);
        },
        SpecItemKind::Parentheses(_) => {
            lemma_span_at_str(s, p, p + 1);
            assert(s.subrange(p, p + 1) =~= seq![s[p]]);
        },
        SpecItemKind::Brackets(_) => {
            lemma_span_at_str(s, p, p + 1);
            assert(s.subrange(p, p + 1) =~= seq![s[p]]);
        },
        SpecItemKind::Braces(_) => {
            lemma_span_at_str(s, p, p + 1);
            assert(s.subrange(p, p + 1) =~= seq![s[p]]);
        },
    }
}

/// An item reaches past its first character and never past the region.
pub proof fn lemma_item_end_bounds(s: Seq<char>, e: int, p: int, item: SpecItem)
    requires
        item_ok(s, e, p, item),
        0 <= p <= e <= s.len(),
    ensures
        p < item_end(s, e, p, item) <= e,
    decreases item, 0int,
{
    lemma_token_end_bounds(s, p, e);
    match item.kind {
        SpecItemKind::Word(_) => {},
        SpecItemKind::Int(_) => {},
        SpecItemKind::Float(_) => {},
        SpecItemKind::Parentheses(items) => {
            lemma_run_end_bounds(s, e, p + 1, Some(')'), items);
        },
        SpecItemKind::Brackets(items) => {
            lemma_run_end_bounds(s, e, p + 1, Some(']'), items);
        },
        SpecItemKind::Braces(items) => {
            lemma_run_end_bounds(s, e, p + 1, Some('}'), items);
        },
    }
}

/// The terminator of a run of items lies within the region, and strictly
/// inside it when the run ends at a closing delimiter.
pub proof fn lemma_run_end_bounds(
    s: Seq<char>,
    e: int,
    p: int,
    stop: Option<char>,
    items: Seq<SpecItem>,
)
    requires
        run_ok(s, e, p, stop, items),
        0 <= p <= e <= s.len(),
    ensures
        p <= run_end(s, e, p, items) <= e,
        stop is Some ==> run_end(s, e, p, items) < e,
    decreases items, 1int,
{
    lemma_skip_ws_bounds(s, p, e);
    let w = spec_skip_ws(s, p, e);
    if items.len() > 0 {
        lemma_item_end_bounds(s, e, w, items[0]);
        lemma_run_end_bounds(s, e, item_end(s, e, w, items[0]), stop, items.drop_first());
    }
}

/// The item parses at some position of the region at or after `lo`.
pub open spec fn item_somewhere(s: Seq<char>, e: int, lo: int, item: SpecItem) -> bool {
    exists|q: int| #![trigger item_ok(s, e, q, item)] lo <= q <= e && item_ok(s, e, q, item)
}

/// A position at or after a later bound is also at or after an earlier one.
proof fn lemma_item_somewhere_widen(s: Seq<char>, e: int, lo1: int, lo2: int, item: SpecItem)
    requires
        item_somewhere(s, e, lo1, item),
        lo2 <= lo1,
    ensures
        item_somewhere(s, e, lo2, item),
{
    let q = choose|q: int|
        #![trigger item_ok(s, e, q, item)]
        lo1 <= q <= e && item_ok(s, e, q, item);
    assert(lo2 <= q <= e && item_ok(s, e, q, item));
}

/// Every item of a run parses somewhere in the region, so the span
/// round-trip law applies to each of them, and to their sub-items in turn.
pub proof fn lemma_run_items_positions(
    s: Seq<char>,
    e: int,
    p: int,
    stop: Option<char>,
    items: Seq<SpecItem>,
)
    requires
        run_ok(s, e, p, stop, items),
        0 <= p <= e <= s.len(),
    ensures
        forall|i: int| 0 <= i < items.len() ==> item_somewhere(s, e, p, #[trigger] items[i]),
    decreases items,
{
    lemma_skip_ws_bounds(s, p, e);
    let w = spec_skip_ws(s, p, e);
    if items.len() > 0 {
        assert(item_ok(s, e, w, items[0]));
        lemma_item_end_bounds(s, e, w, items[0]);
        let q0 = item_end(s, e, w, items[0]);
        lemma_run_items_positions(s, e, q0, stop, items.drop_first());
        assert forall|i: int|
            0 <= i < items.len() implies item_somewhere(s, e, p, #[trigger] items[i]) by {
            if i == 0 {
                assert(item_ok(s, e, w, items[0]));
            } else {
                assert(items[i] == items.drop_first()[i - 1]);
                assert(item_somewhere(s, e, q0, items.drop_first()[i - 1]));
                lemma_item_somewhere_widen(s, e, q0, p, items[i]);
            }
        }
    }
}

/// Law: depth is computed identically whether or not blank or comment-only
/// lines are interleaved: such a line contributes nothing, so the
/// structural lines from its start are exactly those from the next line on.
pub proof fn lemma_blank_line_skipped(
    s: Seq<char>,
    ind: Indent,
    p: int,
    st: BuildState,
    lines: Seq<SpecLine>,
    err: SpecErr,
)
    requires
        0 <= p <= s.len(),
        spec_skip_ws(s, p, find_nl(s, p, s.len() as int)) == find_nl(s, p, s.len() as int),
        find_nl(s, p, s.len() as int) < s.len(),
    ensures
        lines_ok(s, ind, p, lines) == lines_ok(s, ind, find_nl(s, p, s.len() as int) + 1, lines),
        lines_fail(s, ind, p, st, err) == lines_fail(
            s,
            ind,
            find_nl(s, p, s.len() as int) + 1,
            st,
            err,
        ),
{
    lemma_find_nl_bounds(s, p, s.len() as int);
}

/// Law: a line exactly one level deeper than the open levels opens a new
/// level and changes nothing else: the roots and every open level stay as
/// they were.
pub proof fn lemma_insert_one_deeper(st: BuildState, node: SpecNode)
    ensures
        spec_insert(st, st.levels.len(), node) == Ok::<BuildState, SpecErr>(
            BuildState { roots: st.roots, levels: st.levels.push(node) },
        ),
{
}

/// Law: closing one level under an open directive appends the closed node
/// at the end of that directive's children, keeping insertion order, and
/// touches neither the roots nor the shallower levels.
pub proof fn lemma_vacate_attaches(st: BuildState, depth: nat)
    requires
        st.levels.len() > depth,
        st.levels.len() >= 2,
        st.levels[st.levels.len() - 2].kind is Directive,
    ensures
        spec_vacate(st, depth) == spec_vacate(
            BuildState {
                roots: st.roots,
                levels: st.levels.drop_last().drop_last().push(
                    attach_child(st.levels[st.levels.len() - 2], st.levels.last()),
                ),
            },
            depth,
        ),
{
    assert(st.levels.drop_last().last() == st.levels[st.levels.len() - 2]);
}

/// A region cannot both parse to an item and fail: success and failure of
/// the item parser exclude each other.
pub proof fn lemma_item_conflict(s: Seq<char>, e: int, p: int, item: SpecItem, err: SpecErr)
    requires
        0 <= p <= e <= s.len(),
    ensures
        !(item_ok(s, e, p, item) && item_fails(s, e, p, err)),
    decreases item, 1int,
{
    if item_ok(s, e, p, item) && item_fails(s, e, p, err) {
        lemma_token_end_bounds(s, p, e);
        let t = token_end(s, p, e);
        if p < e && is_open_delim(s[p]) {
            assert(t == p);
            match item.kind {
                SpecItemKind::Parentheses(items) => {
                    lemma_run_conflict(s, e, p + 1, ')', offset_at(s, p), items, err);
                },
                SpecItemKind::Brackets(items) => {
                    lemma_run_conflict(s, e, p + 1, ']', offset_at(s, p), items, err);
                },
                SpecItemKind::Braces(items) => {
                    lemma_run_conflict(s, e, p + 1, '}', offset_at(s, p), items, err);
                },
                _ => {},
            }
        }
        assert(false);
    }
}

/// A group's contents cannot both parse as a run and fail.
pub proof fn lemma_run_conflict(
    s: Seq<char>,
    e: int,
    p: int,
    close_c: char,
    open_off: Offset,
    items: Seq<SpecItem>,
    err: SpecErr,
)
    requires
        0 <= p <= e <= s.len(),
    ensures
        !(run_ok(s, e, p, Some(close_c), items) && run_fails(s, e, p, close_c, open_off, err)),
    decreases items, 2int,
{
    if run_ok(s, e, p, Some(close_c), items) && run_fails(s, e, p, close_c, open_off, err) {
        lemma_skip_ws_bounds(s, p, e);
        let w = spec_skip_ws(s, p, e);
        if items.len() == 0 {
            assert(s[w] == close_c);
        } else {
            assert(item_ok(s, e, w, items[0]));
            lemma_item_end_bounds(s, e, w, items[0]);
            if item_fails(s, e, w, err) {
                lemma_item_conflict(s, e, w, items[0], err);
            } else {
                let witness = choose|item2: SpecItem|
                    #![trigger item_ok(s, e, w, item2)]
                    {
                        &&& w < item_end(s, e, w, item2) <= e
                        &&& item_ok(s, e, w, item2)
                        &&& run_fails(s, e, item_end(s, e, w, item2), close_c, open_off, err)
                    };
                lemma_item_ok_unique(s, e, w, items[0], witness);
                lemma_run_conflict(
                    s,
                    e,
                    item_end(s, e, w, items[0]),
                    close_c,
                    open_off,
                    items.drop_first(),
                    err,
                );
            }
        }
        assert(false);
    }
}

/// A run up to the end of the region cannot both parse and fail.
pub proof fn lemma_args_conflict(s: Seq<char>, e: int, p: int, items: Seq<SpecItem>, err: SpecErr)
    requires
        0 <= p <= e <= s.len(),
    ensures
        !(run_ok(s, e, p, None, items) && args_fails(s, e, p, err)),
    decreases items,
{
    if run_ok(s, e, p, None, items) && args_fails(s, e, p, err) {
        lemma_skip_ws_bounds(s, p, e);
        let w = spec_skip_ws(s, p, e);
        assert(items.len() > 0);
        assert(item_ok(s, e, w, items[0]));
        lemma_item_end_bounds(s, e, w, items[0]);
        if item_fails(s, e, w, err) {
            lemma_item_conflict(s, e, w, items[0], err);
        } else {
            let witness = choose|item2: SpecItem|
                #![trigger item_ok(s, e, w, item2)]
                {
                    &&& w < item_end(s, e, w, item2) <= e
                    &&& item_ok(s, e, w, item2)
                    &&& args_fails(s, e, item_end(s, e, w, item2), err)
                };
            lemma_item_ok_unique(s, e, w, items[0], witness);
            lemma_args_conflict(s, e, item_end(s, e, w, items[0]), items.drop_first(), err);
        }
        assert(false);
    }
}

/// After at least one signature item, the rest of the line cannot both
/// parse, as a statement tail or as a directive tail, and fail.
pub proof fn lemma_sig_conflict(
    s: Seq<char>,
    e: int,
    p: int,
    tail: Seq<SpecItem>,
    args: Seq<SpecItem>,
    directive: bool,
    err: SpecErr,
)
    requires
        0 <= p <= e <= s.len(),
    ensures
        !directive ==> !(run_ok(s, e, p, None, tail) && sig_fails_from(s, e, p, err)),
        directive ==> !(run_ok(s, e, p, Some(':'), tail) && run_ok(
            s,
            e,
            run_end(s, e, p, tail) + 1,
            None,
            args,
        ) && sig_fails_from(s, e, p, err)),
    decreases tail,
{
    lemma_skip_ws_bounds(s, p, e);
    let w = spec_skip_ws(s, p, e);
    if !directive && run_ok(s, e, p, None, tail) && sig_fails_from(s, e, p, err) {
        assert(tail.len() > 0);
        assert(item_ok(s, e, w, tail[0]));
        lemma_token_end_bounds(s, w, e);
        assert(s[w] != ':');
        lemma_item_end_bounds(s, e, w, tail[0]);
        if item_fails(s, e, w, err) {
            lemma_item_conflict(s, e, w, tail[0], err);
        } else {
            let witness = choose|item2: SpecItem|
                #![trigger item_ok(s, e, w, item2)]
                {
                    &&& w < item_end(s, e, w, item2) <= e
                    &&& item_ok(s, e, w, item2)
                    &&& sig_fails_from(s, e, item_end(s, e, w, item2), err)
                };
            lemma_item_ok_unique(s, e, w, tail[0], witness);
            lemma_sig_conflict(
                s,
                e,
                item_end(s, e, w, tail[0]),
                tail.drop_first(),
                args,
                false,
                err,
            );
        }
        assert(false);
    }
    if directive && run_ok(s, e, p, Some(':'), tail) && run_ok(
        s,
        e,
        run_end(s, e, p, tail) + 1,
        None,
        args,
    ) && sig_fails_from(s, e, p, err) {
        if tail.len() == 0 {
            assert(s[w] == ':');
            assert(run_end(s, e, p, tail) == w);
            lemma_args_conflict(s, e, w + 1, args, err);
        } else {
            assert(item_ok(s, e, w, tail[0]));
            lemma_token_end_bounds(s, w, e);
            assert(s[w] != ':');
            lemma_item_end_bounds(s, e, w, tail[0]);
            if item_fails(s, e, w, err) {
                lemma_item_conflict(s, e, w, tail[0], err);
            } else {
                let witness = choose|item2: SpecItem|
                    #![trigger item_ok(s, e, w, item2)]
                    {
                        &&& w < item_end(s, e, w, item2) <= e
                        &&& item_ok(s, e, w, item2)
                        &&& sig_fails_from(s, e, item_end(s, e, w, item2), err)
                    };
                lemma_item_ok_unique(s, e, w, tail[0], witness);
                lemma_sig_conflict(
                    s,
                    e,
                    item_end(s, e, w, tail[0]),
                    tail.drop_first(),
                    args,
                    true,
                    err,
                );
            }
        }
        assert(false);
    }
}

/// A line cannot both parse to a node and fail.
pub proof fn lemma_node_conflict(s: Seq<char>, e: int, p: int, node: SpecNode, err: SpecErr)
    requires
        0 <= p <= e <= s.len(),
    ensures
        !(node_ok(s, e, p, node) && node_fails(s, e, p, err)),
{
    if node_ok(s, e, p, node) && node_fails(s, e, p, err) {
        lemma_skip_ws_bounds(s, p, e);
        let w = spec_skip_ws(s, p, e);
        assert(w < e);
        match node.kind {
            SpecNodeKind::Statement { signature } => {
                assert(signature.len() > 0);
                if s[w] == ':' {
                    lemma_token_end_bounds(s, w, e);
                    assert(!(item_ok(s, e, w, signature[0])));
                } else {
                    assert(item_ok(s, e, w, signature[0]));
                    lemma_item_end_bounds(s, e, w, signature[0]);
                    if item_fails(s, e, w, err) {
                        lemma_item_conflict(s, e, w, signature[0], err);
                    } else {
                        let witness = choose|item2: SpecItem|
                            #![trigger item_ok(s, e, w, item2)]
                            {
                                &&& w < item_end(s, e, w, item2) <= e
                                &&& item_ok(s, e, w, item2)
                                &&& sig_fails_from(s, e, item_end(s, e, w, item2), err)
                            };
                        lemma_item_ok_unique(s, e, w, signature[0], witness);
                        lemma_sig_conflict(
                            s,
                            e,
                            item_end(s, e, w, signature[0]),
                            signature.drop_first(),
                            Seq::empty(),
                            false,
                            err,
                        );
                    }
                }
            },
            SpecNodeKind::Directive { signature, arguments, .. } => {
                assert(signature.len() > 0);
                if s[w] == ':' {
                    lemma_token_end_bounds(s, w, e);
                    assert(!(item_ok(s, e, w, signature[0])));
                } else {
                    assert(item_ok(s, e, w, signature[0]));
                    lemma_item_end_bounds(s, e, w, signature[0]);
                    if item_fails(s, e, w, err) {
                        lemma_item_conflict(s, e, w, signature[0], err);
                    } else {
                        let witness = choose|item2: SpecItem|
                            #![trigger item_ok(s, e, w, item2)]
                            {
                                &&& w < item_end(s, e, w, item2) <= e
                                &&& item_ok(s, e, w, item2)
                                &&& sig_fails_from(s, e, item_end(s, e, w, item2), err)
                            };
                        lemma_item_ok_unique(s, e, w, signature[0], witness);
                        assert(run_end(s, e, p, signature) == run_end(
                            s,
                            e,
                            item_end(s, e, w, signature[0]),
                            signature.drop_first(),
                        ));
                        lemma_sig_conflict(
                            s,
                            e,
                            item_end(s, e, w, signature[0]),
                            signature.drop_first(),
                            arguments,
                            true,
                            err,
                        );
                    }
                }
            },
        }
        assert(false);
    }
}

/// Two items parsed at the same position are the same item.
pub proof fn lemma_item_ok_unique(s: Seq<char>, e: int, p: int, a: SpecItem, b: SpecItem)
    requires
        0 <= p <= e <= s.len(),
        item_ok(s, e, p, a),
        item_ok(s, e, p, b),
    ensures
        a == b,
    decreases a, 1int,
{
    let t = token_end(s, p, e);
    if p < e && is_structure(s[p]) {
        assert(t == p);
    }
    match a.kind {
        SpecItemKind::Word(wa) => {
            match b.kind {
                SpecItemKind::Word(wb) => {
                    assert(a.kind == b.kind);
                },
                _ => {
                    assert(false);
                },
            }
        },
        SpecItemKind::Int(va) => {
            match b.kind {
                SpecItemKind::Int(vb) => {
                    assert(a.kind == b.kind);
                },
                _ => {
                    assert(false);
                },
            }
        },
        SpecItemKind::Float(ta) => {
            match b.kind {
                SpecItemKind::Float(tb) => {
                    assert(a.kind == b.kind);
                },
                _ => {
                    assert(false);
                },
            }
        },
        SpecItemKind::Parentheses(la) => {
            match b.kind {
                SpecItemKind::Parentheses(lb) => {
                    lemma_run_ok_unique(s, e, p + 1, Some(')'), la, lb);
                    assert(a.kind == b.kind);
                },
                _ => {
                    assert(false);
                },
            }
        },
        SpecItemKind::Brackets(la) => {
            match b.kind {
                SpecItemKind::Brackets(lb) => {
                    lemma_run_ok_unique(s, e, p + 1, Some(']'), la, lb);
                    assert(a.kind == b.kind);
                },
                _ => {
                    assert(false);
                },
            }
        },
        SpecItemKind::Braces(la) => {
            match b.kind {
                SpecItemKind::Braces(lb) => {
                    lemma_run_ok_unique(s, e, p + 1, Some('}'), la, lb);
                    assert(a.kind == b.kind);
                },
                _ => {
                    assert(false);
                },
            }
        },
    }
}

/// Two runs of items parsed over the same region with the same terminator
/// are the same run.
pub proof fn lemma_run_ok_unique(
    s: Seq<char>,
    e: int,
    p: int,
    stop: Option<char>,
    la: Seq<SpecItem>,
    lb: Seq<SpecItem>,
)
    requires
        0 <= p <= e <= s.len(),
        run_ok(s, e, p, stop, la),
        run_ok(s, e, p, stop, lb),
    ensures
        la == lb,
    decreases la, 2int,
{
    lemma_skip_ws_bounds(s, p, e);
    let w = spec_skip_ws(s, p, e);
    if la.len() == 0 && lb.len() == 0 {
        assert(la =~= lb);
    } else if la.len() == 0 {
        assert(false);
    } else if lb.len() == 0 {
        assert(false);
    } else {
        lemma_item_ok_unique(s, e, w, la[0], lb[0]);
        lemma_item_end_bounds(s, e, w, la[0]);
        lemma_run_ok_unique(s, e, item_end(s, e, w, la[0]), stop, la.drop_first(), lb.drop_first());
        assert forall|i: int| 0 <= i < la.len() implies la[i] == lb[i] by {
            if i > 0 {
                assert(la[i] == la.drop_first()[i - 1]);
                assert(lb[i] == lb.drop_first()[i - 1]);
            }
        }
        assert(la =~= lb);
    }
}

/// A run cannot both reach the region's end and stop at a `:`: the same
/// region never reads as both a statement line and a directive line.
pub proof fn lemma_run_stop_conflict(
    s: Seq<char>,
    e: int,
    p: int,
    la: Seq<SpecItem>,
    lb: Seq<SpecItem>,
)
    requires
        0 <= p <= e <= s.len(),
    ensures
        !(run_ok(s, e, p, None, la) && run_ok(s, e, p, Some(':'), lb)),
    decreases la,
{
    if run_ok(s, e, p, None, la) && run_ok(s, e, p, Some(':'), lb) {
        lemma_skip_ws_bounds(s, p, e);
        let w = spec_skip_ws(s, p, e);
        if la.len() == 0 {
            assert(w == e);
            assert(w < e);
            assert(false);
        } else if lb.len() == 0 {
            lemma_token_end_bounds(s, w, e);
            assert(s[w] == ':');
            assert(token_end(s, w, e) == w);
            assert(item_ok(s, e, w, la[0]));
            assert(!(la[0].kind is Parentheses)) by {
                if la[0].kind is Parentheses {
                    assert(crate::model::group_ok(
                        s,
                        e,
                        w,
                        '(',
                        ')',
                        la[0].kind->Parentheses_0,
                        la[0].location,
                    ));
                }
            }
            assert(false);
        } else {
            lemma_item_ok_unique(s, e, w, la[0], lb[0]);
            lemma_item_end_bounds(s, e, w, la[0]);
            lemma_run_stop_conflict(
                s,
                e,
                item_end(s, e, w, la[0]),
                la.drop_first(),
                lb.drop_first(),
            );
            assert(false);
        }
        assert(false);
    }
}

/// Two nodes parsed from the same line region are the same node.
pub proof fn lemma_node_ok_unique(s: Seq<char>, e: int, p: int, a: SpecNode, b: SpecNode)
    requires
        0 <= p <= e <= s.len(),
        node_ok(s, e, p, a),
        node_ok(s, e, p, b),
    ensures
        a == b,
{
    match a.kind {
        SpecNodeKind::Statement { signature: sa } => {
            match b.kind {
                SpecNodeKind::Statement { signature: sb } => {
                    lemma_run_ok_unique(s, e, p, None, sa, sb);
                    assert(a.kind == b.kind);
                },
                SpecNodeKind::Directive { signature: sb, .. } => {
                    lemma_run_stop_conflict(s, e, p, sa, sb);
                    assert(false);
                },
            }
        },
        SpecNodeKind::Directive { signature: sa, arguments: aa, children: ca } => {
            match b.kind {
                SpecNodeKind::Statement { signature: sb } => {
                    lemma_run_stop_conflict(s, e, p, sb, sa);
                    assert(false);
                },
                SpecNodeKind::Directive { signature: sb, arguments: ab, children: cb } => {
                    lemma_run_ok_unique(s, e, p, Some(':'), sa, sb);
                    lemma_run_end_bounds(s, e, p, Some(':'), sa);
                    lemma_run_ok_unique(s, e, run_end(s, e, p, sa) + 1, None, aa, ab);
                    assert(a.kind == b.kind);
                },
            }
        },
    }
}

/// Two structural-line decompositions of the same source are the same.
pub proof fn lemma_lines_ok_unique(
    s: Seq<char>,
    ind: Indent,
    p: int,
    la: Seq<SpecLine>,
    lb: Seq<SpecLine>,
)
    requires
        0 <= p <= s.len(),
        lines_ok(s, ind, p, la),
        lines_ok(s, ind, p, lb),
    ensures
        la == lb,
    decreases s.len() - p,
{
    let le = find_nl(s, p, s.len() as int);
    lemma_find_nl_bounds(s, p, s.len() as int);
    let blank = spec_skip_ws(s, p, le) == le;
    let more = le < s.len();
    if blank {
        if more {
            lemma_lines_ok_unique(s, ind, le + 1, la, lb);
        } else {
            assert(la =~= lb);
        }
    } else {
        let q = strip_indent(s, p, le, ind).1;
        lemma_strip_indent_bounds(s, p, le, ind);
        lemma_node_ok_unique(s, le, q, la[0].node, lb[0].node);
        assert(la[0] == lb[0]);
        if more {
            lemma_lines_ok_unique(s, ind, le + 1, la.drop_first(), lb.drop_first());
            assert(la.drop_first().len() == lb.drop_first().len());
            assert(la.len() == lb.len());
            assert forall|i: int| 0 <= i < la.len() implies la[i] == lb[i] by {
                if i > 0 {
                    assert(la[i] == la.drop_first()[i - 1]);
                    assert(lb[i] == lb.drop_first()[i - 1]);
                }
            }
            assert(la =~= lb);
        } else {
            assert(la =~= lb);
        }
    }
}

/// Law: parsing is deterministic, so re-parsing the same text yields a
/// structurally equal tree: any two root sequences the source parses to
/// are equal.
pub proof fn lemma_parse_deterministic(
    s: Seq<char>,
    ind: Indent,
    r1: Seq<SpecNode>,
    r2: Seq<SpecNode>,
)
    requires
        parse_result_ok(s, ind, r1),
        parse_result_ok(s, ind, r2),
    ensures
        r1 == r2,
{
    let l1 = choose|lines: Seq<SpecLine>|
        #![trigger lines_ok(s, ind, 0, lines)]
        {
            &&& lines_ok(s, ind, 0, lines)
            &&& match build_lines(empty_state(), lines) {
                Ok(st) => match spec_vacate(st, 0) {
                    Ok(fin) => r1 == fin.roots,
                    Err(_) => false,
                },
                Err(_) => false,
            }
        };
    let l2 = choose|lines: Seq<SpecLine>|
        #![trigger lines_ok(s, ind, 0, lines)]
        {
            &&& lines_ok(s, ind, 0, lines)
            &&& match build_lines(empty_state(), lines) {
                Ok(st) => match spec_vacate(st, 0) {
                    Ok(fin) => r2 == fin.roots,
                    Err(_) => false,
                },
                Err(_) => false,
            }
        };
    lemma_lines_ok_unique(s, ind, 0, l1, l2);
}

/// A source whose structural lines parse and build cannot also fail line
/// by line from the same builder state.
pub proof fn lemma_lines_exclusive(
    s: Seq<char>,
    ind: Indent,
    p: int,
    st: BuildState,
    lines: Seq<SpecLine>,
    err: SpecErr,
)
    requires
        0 <= p <= s.len(),
    ensures
        !(lines_ok(s, ind, p, lines) && build_lines(st, lines) is Ok && lines_fail(
            s,
            ind,
            p,
            st,
            err,
        )),
    decreases s.len() - p,
{
    if lines_ok(s, ind, p, lines) && build_lines(st, lines) is Ok && lines_fail(s, ind, p, st, err) {
        let le = find_nl(s, p, s.len() as int);
        lemma_find_nl_bounds(s, p, s.len() as int);
        let blank = spec_skip_ws(s, p, le) == le;
        let more = le < s.len();
        if blank {
            lemma_lines_exclusive(s, ind, le + 1, st, lines, err);
        } else {
            let q = strip_indent(s, p, le, ind).1;
            let d = strip_indent(s, p, le, ind).0;
            lemma_strip_indent_bounds(s, p, le, ind);
            assert(lines.len() > 0);
            assert(node_ok(s, le, q, lines[0].node));
            if node_fails(s, le, q, err) {
                lemma_node_conflict(s, le, q, lines[0].node, err);
            } else {
                let witness = choose|node: SpecNode|
                    #![trigger node_ok(s, le, q, node)]
                    {
                        &&& node_ok(s, le, q, node)
                        &&& match spec_insert(st, d as nat, node) {
                            Ok(st2) => le < s.len() && lines_fail(s, ind, le + 1, st2, err),
                            Err(e2) => err == e2,
                        }
                    };
                lemma_node_ok_unique(s, le, q, lines[0].node, witness);
                match spec_insert(st, d as nat, lines[0].node) {
                    Ok(st2) => {
                        assert(more);
                        assert(build_lines(st2, lines.drop_first()) is Ok);
                        lemma_lines_exclusive(s, ind, le + 1, st2, lines.drop_first(), err);
                    },
                    Err(_) => {
                        assert(build_lines(st, lines) is Err);
                    },
                }
            }
        }
        assert(false);
    }
}

/// Law: success is owed exactly when the source parses: the same source
/// cannot both parse to a tree and fail with an error, so an error from
/// [`crate::Tree::parse`] means no tree exists for the source, and a tree
/// means no error does.
pub proof fn lemma_parse_exclusive(s: Seq<char>, ind: Indent, roots: Seq<SpecNode>, err: SpecErr)
    ensures
        !(parse_result_ok(s, ind, roots) && parse_result_fails(s, ind, err)),
{
    if parse_result_ok(s, ind, roots) && parse_result_fails(s, ind, err) {
        let l1 = choose|lines: Seq<SpecLine>|
            #![trigger lines_ok(s, ind, 0, lines)]
            {
                &&& lines_ok(s, ind, 0, lines)
                &&& match build_lines(empty_state(), lines) {
                    Ok(st) => match spec_vacate(st, 0) {
                        Ok(fin) => roots == fin.roots,
                        Err(_) => false,
                    },
                    Err(_) => false,
                }
            };
        if lines_fail(s, ind, 0, empty_state(), err) {
            lemma_lines_exclusive(s, ind, 0, empty_state(), l1, err);
        } else {
            let l2 = choose|lines: Seq<SpecLine>|
                #![trigger lines_ok(s, ind, 0, lines)]
                {
                    &&& lines_ok(s, ind, 0, lines)
                    &&& match build_lines(empty_state(), lines) {
                        Ok(st) => spec_vacate(st, 0) == Err::<BuildState, SpecErr>(err),
                        Err(_) => false,
                    }
                };
            lemma_lines_ok_unique(s, ind, 0, l1, l2);
        }
        assert(false);
    }
}

/// A failing item parse fails with exactly one error.
pub proof fn lemma_item_fails_unique(s: Seq<char>, e: int, p: int, e1: SpecErr, e2: SpecErr)
    requires
        0 <= p <= e <= s.len(),
        item_fails(s, e, p, e1),
        item_fails(s, e, p, e2),
    ensures
        e1 == e2,
    decreases e - p, 0int,
{
    if p < e && is_open_delim(s[p]) {
        lemma_run_fails_unique(s, e, p + 1, close_of(s[p]), offset_at(s, p), e1, e2);
    }
}

/// A failing group run fails with exactly one error.
pub proof fn lemma_run_fails_unique(
    s: Seq<char>,
    e: int,
    p: int,
    close_c: char,
    open_off: Offset,
    e1: SpecErr,
    e2: SpecErr,
)
    requires
        0 <= p <= e <= s.len(),
        run_fails(s, e, p, close_c, open_off, e1),
        run_fails(s, e, p, close_c, open_off, e2),
    ensures
        e1 == e2,
    decreases e - p, 1int,
{
    lemma_skip_ws_bounds(s, p, e);
    let w = spec_skip_ws(s, p, e);
    if w < e && s[w] != close_c {
        if item_fails(s, e, w, e1) {
            if item_fails(s, e, w, e2) {
                lemma_item_fails_unique(s, e, w, e1, e2);
            } else {
                let witness = choose|item2: SpecItem|
                    #![trigger item_ok(s, e, w, item2)]
                    {
                        &&& w < item_end(s, e, w, item2) <= e
                        &&& item_ok(s, e, w, item2)
                        &&& run_fails(s, e, item_end(s, e, w, item2), close_c, open_off, e2)
                    };
                lemma_item_conflict(s, e, w, witness, e1);
            }
        } else {
            let w1 = choose|item2: SpecItem|
                #![trigger item_ok(s, e, w, item2)]
                {
                    &&& w < item_end(s, e, w, item2) <= e
                    &&& item_ok(s, e, w, item2)
                    &&& run_fails(s, e, item_end(s, e, w, item2), close_c, open_off, e1)
                };
            if item_fails(s, e, w, e2) {
                lemma_item_conflict(s, e, w, w1, e2);
            } else {
                let w2 = choose|item2: SpecItem|
                    #![trigger item_ok(s, e, w, item2)]
                    {
                        &&& w < item_end(s, e, w, item2) <= e
                        &&& item_ok(s, e, w, item2)
                        &&& run_fails(s, e, item_end(s, e, w, item2), close_c, open_off, e2)
                    };
                lemma_item_ok_unique(s, e, w, w1, w2);
                lemma_run_fails_unique(
                    s,
                    e,
                    item_end(s, e, w, w1),
                    close_c,
                    open_off,
                    e1,
                    e2,
                );
            }
        }
    }
}

/// A failing argument run fails with exactly one error.
pub proof fn lemma_args_fails_unique(s: Seq<char>, e: int, p: int, e1: SpecErr, e2: SpecErr)
    requires
        0 <= p <= e <= s.len(),
        args_fails(s, e, p, e1),
        args_fails(s, e, p, e2),
    ensures
        e1 == e2,
    decreases e - p, 1int,
{
    lemma_skip_ws_bounds(s, p, e);
    let w = spec_skip_ws(s, p, e);
    if item_fails(s, e, w, e1) {
        if item_fails(s, e, w, e2) {
            lemma_item_fails_unique(s, e, w, e1, e2);
        } else {
            let witness = choose|item2: SpecItem|
                #![trigger item_ok(s, e, w, item2)]
                {
                    &&& w < item_end(s, e, w, item2) <= e
                    &&& item_ok(s, e, w, item2)
                    &&& args_fails(s, e, item_end(s, e, w, item2), e2)
                };
            lemma_item_conflict(s, e, w, witness, e1);
        }
    } else {
        let w1 = choose|item2: SpecItem|
            #![trigger item_ok(s, e, w, item2)]
            {
                &&& w < item_end(s, e, w, item2) <= e
                &&& item_ok(s, e, w, item2)
                &&& args_fails(s, e, item_end(s, e, w, item2), e1)
            };
        if item_fails(s, e, w, e2) {
            lemma_item_conflict(s, e, w, w1, e2);
        } else {
            let w2 = choose|item2: SpecItem|
                #![trigger item_ok(s, e, w, item2)]
                {
                    &&& w < item_end(s, e, w, item2) <= e
                    &&& item_ok(s, e, w, item2)
                    &&& args_fails(s, e, item_end(s, e, w, item2), e2)
                };
            lemma_item_ok_unique(s, e, w, w1, w2);
            lemma_args_fails_unique(s, e, item_end(s, e, w, w1), e1, e2);
        }
    }
}

/// A failing signature tail fails with exactly one error.
pub proof fn lemma_sig_fails_unique(s: Seq<char>, e: int, p: int, e1: SpecErr, e2: SpecErr)
    requires
        0 <= p <= e <= s.len(),
        sig_fails_from(s, e, p, e1),
        sig_fails_from(s, e, p, e2),
    ensures
        e1 == e2,
    decreases e - p, 2int,
{
    lemma_skip_ws_bounds(s, p, e);
    let w = spec_skip_ws(s, p, e);
    if s[w] == ':' {
        lemma_args_fails_unique(s, e, w + 1, e1, e2);
    } else {
        if item_fails(s, e, w, e1) {
            if item_fails(s, e, w, e2) {
                lemma_item_fails_unique(s, e, w, e1, e2);
            } else {
                let witness = choose|item2: SpecItem|
                    #![trigger item_ok(s, e, w, item2)]
                    {
                        &&& w < item_end(s, e, w, item2) <= e
                        &&& item_ok(s, e, w, item2)
                        &&& sig_fails_from(s, e, item_end(s, e, w, item2), e2)
                    };
                lemma_item_conflict(s, e, w, witness, e1);
            }
        } else {
            let w1 = choose|item2: SpecItem|
                #![trigger item_ok(s, e, w, item2)]
                {
                    &&& w < item_end(s, e, w, item2) <= e
                    &&& item_ok(s, e, w, item2)
                    &&& sig_fails_from(s, e, item_end(s, e, w, item2), e1)
                };
            if item_fails(s, e, w, e2) {
                lemma_item_conflict(s, e, w, w1, e2);
            } else {
                let w2 = choose|item2: SpecItem|
                    #![trigger item_ok(s, e, w, item2)]
                    {
                        &&& w < item_end(s, e, w, item2) <= e
                        &&& item_ok(s, e, w, item2)
                        &&& sig_fails_from(s, e, item_end(s, e, w, item2), e2)
                    };
                lemma_item_ok_unique(s, e, w, w1, w2);
                lemma_sig_fails_unique(s, e, item_end(s, e, w, w1), e1, e2);
            }
        }
    }
}

/// A failing line fails with exactly one error.
pub proof fn lemma_node_fails_unique(s: Seq<char>, e: int, p: int, e1: SpecErr, e2: SpecErr)
    requires
        0 <= p <= e <= s.len(),
        node_fails(s, e, p, e1),
        node_fails(s, e, p, e2),
    ensures
        e1 == e2,
{
    lemma_skip_ws_bounds(s, p, e);
    let w = spec_skip_ws(s, p, e);
    if s[w] == ':' {
    } else {
        if item_fails(s, e, w, e1) {
            if item_fails(s, e, w, e2) {
                lemma_item_fails_unique(s, e, w, e1, e2);
            } else {
                let witness = choose|item2: SpecItem|
                    #![trigger item_ok(s, e, w, item2)]
                    {
                        &&& w < item_end(s, e, w, item2) <= e
                        &&& item_ok(s, e, w, item2)
                        &&& sig_fails_from(s, e, item_end(s, e, w, item2), e2)
                    };
                lemma_item_conflict(s, e, w, witness, e1);
            }
        } else {
            let w1 = choose|item2: SpecItem|
                #![trigger item_ok(s, e, w, item2)]
                {
                    &&& w < item_end(s, e, w, item2) <= e
                    &&& item_ok(s, e, w, item2)
                    &&& sig_fails_from(s, e, item_end(s, e, w, item2), e1)
                };
            if item_fails(s, e, w, e2) {
                lemma_item_conflict(s, e, w, w1, e2);
            } else {
                let w2 = choose|item2: SpecItem|
                    #![trigger item_ok(s, e, w, item2)]
                    {
                        &&& w < item_end(s, e, w, item2) <= e
                        &&& item_ok(s, e, w, item2)
                        &&& sig_fails_from(s, e, item_end(s, e, w, item2), e2)
                    };
                lemma_item_ok_unique(s, e, w, w1, w2);
                lemma_sig_fails_unique(s, e, item_end(s, e, w, w1), e1, e2);
            }
        }
    }
}

/// A failing source fails with exactly one error from any builder state.
pub proof fn lemma_lines_fail_unique(
    s: Seq<char>,
    ind: Indent,
    p: int,
    st: BuildState,
    e1: SpecErr,
    e2: SpecErr,
)
    requires
        0 <= p <= s.len(),
        lines_fail(s, ind, p, st, e1),
        lines_fail(s, ind, p, st, e2),
    ensures
        e1 == e2,
    decreases s.len() - p,
{
    let le = find_nl(s, p, s.len() as int);
    lemma_find_nl_bounds(s, p, s.len() as int);
    let blank = spec_skip_ws(s, p, le) == le;
    if blank {
        lemma_lines_fail_unique(s, ind, le + 1, st, e1, e2);
    } else {
        let q = strip_indent(s, p, le, ind).1;
        let d = strip_indent(s, p, le, ind).0;
        lemma_strip_indent_bounds(s, p, le, ind);
        if q < le && is_ws_char(s[q]) {
        } else {
            if node_fails(s, le, q, e1) {
                if node_fails(s, le, q, e2) {
                    lemma_node_fails_unique(s, le, q, e1, e2);
                } else {
                    let witness = choose|node: SpecNode|
                        #![trigger node_ok(s, le, q, node)]
                        {
                            &&& node_ok(s, le, q, node)
                            &&& match spec_insert(st, d as nat, node) {
                                Ok(st2) => le < s.len() && lines_fail(s, ind, le + 1, st2, e2),
                                Err(err2) => e2 == err2,
                            }
                        };
                    lemma_node_conflict(s, le, q, witness, e1);
                }
            } else {
                let w1 = choose|node: SpecNode|
                    #![trigger node_ok(s, le, q, node)]
                    {
                        &&& node_ok(s, le, q, node)
                        &&& match spec_insert(st, d as nat, node) {
                            Ok(st2) => le < s.len() && lines_fail(s, ind, le + 1, st2, e1),
                            Err(err1) => e1 == err1,
                        }
                    };
                if node_fails(s, le, q, e2) {
                    lemma_node_conflict(s, le, q, w1, e2);
                } else {
                    let w2 = choose|node: SpecNode|
                        #![trigger node_ok(s, le, q, node)]
                        {
                            &&& node_ok(s, le, q, node)
                            &&& match spec_insert(st, d as nat, node) {
                                Ok(st2) => le < s.len() && lines_fail(s, ind, le + 1, st2, e2),
                                Err(err2) => e2 == err2,
                            }
                        };
                    lemma_node_ok_unique(s, le, q, w1, w2);
                    match spec_insert(st, d as nat, w1) {
                        Ok(st2) => {
                            lemma_lines_fail_unique(s, ind, le + 1, st2, e1, e2);
                        },
                        Err(_) => {},
                    }
                }
            }
        }
    }
}

/// Law: the error is determined: a source that fails parses to exactly one
/// error, with its kind, offset and related offset all pinned down.
pub proof fn lemma_parse_error_unique(s: Seq<char>, ind: Indent, e1: SpecErr, e2: SpecErr)
    requires
        parse_result_fails(s, ind, e1),
        parse_result_fails(s, ind, e2),
    ensures
        e1 == e2,
{
    if lines_fail(s, ind, 0, empty_state(), e1) && lines_fail(s, ind, 0, empty_state(), e2) {
        lemma_lines_fail_unique(s, ind, 0, empty_state(), e1, e2);
    } else if !lines_fail(s, ind, 0, empty_state(), e1) && !lines_fail(
        s,
        ind,
        0,
        empty_state(),
        e2,
    ) {
        let l1 = choose|lines: Seq<SpecLine>|
            #![trigger lines_ok(s, ind, 0, lines)]
            {
                &&& lines_ok(s, ind, 0, lines)
                &&& match build_lines(empty_state(), lines) {
                    Ok(st) => spec_vacate(st, 0) == Err::<BuildState, SpecErr>(e1),
                    Err(_) => false,
                }
            };
        let l2 = choose|lines: Seq<SpecLine>|
            #![trigger lines_ok(s, ind, 0, lines)]
            {
                &&& lines_ok(s, ind, 0, lines)
                &&& match build_lines(empty_state(), lines) {
                    Ok(st) => spec_vacate(st, 0) == Err::<BuildState, SpecErr>(e2),
                    Err(_) => false,
                }
            };
        lemma_lines_ok_unique(s, ind, 0, l1, l2);
    } else {
        let with_fail = if lines_fail(s, ind, 0, empty_state(), e1) {
            e1
        } else {
            e2
        };
        let without = if lines_fail(s, ind, 0, empty_state(), e1) {
            e2
        } else {
            e1
        };
        let l = choose|lines: Seq<SpecLine>|
            #![trigger lines_ok(s, ind, 0, lines)]
            {
                &&& lines_ok(s, ind, 0, lines)
                &&& match build_lines(empty_state(), lines) {
                    Ok(st) => spec_vacate(st, 0) == Err::<BuildState, SpecErr>(without),
                    Err(_) => false,
                }
            };
        lemma_lines_exclusive(s, ind, 0, empty_state(), l, with_fail);
        assert(false);
    }
}

/// The length of the maximal prefix of `lines` whose depths all exceed `d`.
pub open spec fn deeper_run(lines: Seq<SpecLine>, d: nat) -> int
    decreases lines.len(),
{
    if lines.len() == 0 || lines[0].depth <= d {
        0
    } else {
        1 + deeper_run(lines.drop_first(), d)
    }
}

/// The node with extra children appended after its own; statements are
/// left alone.
pub open spec fn with_children(n: SpecNode, extra: Seq<SpecNode>) -> SpecNode {
    match n.kind {
        SpecNodeKind::Directive { signature, arguments, children } => SpecNode {
            location: n.location,
            kind: SpecNodeKind::Directive { signature, arguments, children: children + extra },
        },
        SpecNodeKind::Statement { .. } => n,
    }
}

/// The trees of the records at depth `d`, read by recursive descent: each
/// record takes as children the trees of the maximal following run of
/// strictly deeper records, until a record at its own or a shallower depth
/// appears.
pub open spec fn build_rec(lines: Seq<SpecLine>, d: nat) -> Seq<SpecNode>
    decreases lines.len(),
{
    if lines.len() == 0 {
        Seq::empty()
    } else {
        let k0 = deeper_run(lines.drop_first(), d);
        let k = if 0 <= k0 <= lines.len() - 1 {
            k0
        } else {
            0
        };
        let children = build_rec(lines.drop_first().take(k), (d + 1) as nat);
        seq![with_children(lines[0].node, children)] + build_rec(lines.drop_first().skip(k), d)
    }
}

/// The maximal deeper prefix lies within the records, is deeper
/// throughout, and ends before a record at depth `d` or shallower.
pub proof fn lemma_deeper_run_props(lines: Seq<SpecLine>, d: nat)
    ensures
        0 <= deeper_run(lines, d) <= lines.len(),
        forall|i: int| 0 <= i < deeper_run(lines, d) ==> #[trigger] lines[i].depth > d,
        deeper_run(lines, d) < lines.len() ==> lines[deeper_run(lines, d) as int].depth <= d,
    decreases lines.len(),
{
    if lines.len() > 0 && lines[0].depth > d {
        lemma_deeper_run_props(lines.drop_first(), d);
        let k = deeper_run(lines, d);
        assert forall|i: int| 0 <= i < k implies #[trigger] lines[i].depth > d by {
            if i > 0 {
                assert(lines[i] == lines.drop_first()[i - 1]);
            }
        }
        if k < lines.len() {
            assert(lines[k as int] == lines.drop_first()[k - 1]);
        }
    }
}

/// Appending no children changes nothing.
pub proof fn lemma_with_children_empty(n: SpecNode)
    ensures
        with_children(n, Seq::empty()) == n,
{
    match n.kind {
        SpecNodeKind::Directive { signature, arguments, children } => {
            assert(children + Seq::<SpecNode>::empty() =~= children);
        },
        SpecNodeKind::Statement { .. } => {},
    }
}

/// Appending children twice appends their concatenation.
pub proof fn lemma_with_children_concat(n: SpecNode, a: Seq<SpecNode>, b: Seq<SpecNode>)
    ensures
        with_children(with_children(n, a), b) == with_children(n, a + b),
{
    match n.kind {
        SpecNodeKind::Directive { signature, arguments, children } => {
            assert((children + a) + b =~= children + (a + b));
        },
        SpecNodeKind::Statement { .. } => {},
    }
}

/// Attaching one child appends it.
pub proof fn lemma_attach_is_with_children(n: SpecNode, c: SpecNode)
    requires
        n.kind is Directive,
    ensures
        attach_child(n, c) == with_children(n, seq![c]),
{
    match n.kind {
        SpecNodeKind::Directive { signature, arguments, children } => {
            assert(children.push(c) =~= children + seq![c]);
        },
        SpecNodeKind::Statement { .. } => {},
    }
}

/// Building a concatenation of records builds the first part and goes on
/// from its state.
pub proof fn lemma_build_lines_concat(st: BuildState, a: Seq<SpecLine>, b: Seq<SpecLine>)
    ensures
        build_lines(st, a + b) == (match build_lines(st, a) {
            Ok(m) => build_lines(m, b),
            Err(e) => Err::<BuildState, SpecErr>(e),
        }),
    decreases a.len(),
{
    if a.len() == 0 {
        assert(a + b =~= b);
    } else {
        assert((a + b)[0] == a[0]);
        assert((a + b).drop_first() =~= a.drop_first() + b);
        match spec_insert(st, a[0].depth, a[0].node) {
            Ok(st2) => {
                lemma_build_lines_concat(st2, a.drop_first(), b);
            },
            Err(_) => {},
        }
    }
}

/// Closing to a shallower depth factors through closing to a deeper one.
pub proof fn lemma_vacate_compose(st: BuildState, d1: nat, d2: nat)
    requires
        d2 <= d1,
        spec_vacate(st, d1) is Ok,
    ensures
        spec_vacate(st, d2) == spec_vacate(spec_vacate(st, d1)->Ok_0, d2),
    decreases st.levels.len(),
{
    if st.levels.len() > d1 {
        let node = st.levels.last();
        let rest = st.levels.drop_last();
        if rest.len() > 0 {
            match rest.last().kind {
                SpecNodeKind::Directive { .. } => {
                    lemma_vacate_compose(
                        BuildState {
                            roots: st.roots,
                            levels: rest.drop_last().push(attach_child(rest.last(), node)),
                        },
                        d1,
                        d2,
                    );
                },
                SpecNodeKind::Statement { .. } => {},
            }
        } else {
            lemma_vacate_compose(BuildState { roots: st.roots.push(node), levels: rest }, d1, d2);
        }
    }
}

/// Closing to a deeper target succeeds whenever closing to a shallower
/// one does: it performs a prefix of the same steps.
pub proof fn lemma_vacate_mono(st: BuildState, d1: nat, d2: nat)
    requires
        d2 <= d1,
        spec_vacate(st, d2) is Ok,
    ensures
        spec_vacate(st, d1) is Ok,
    decreases st.levels.len(),
{
    if st.levels.len() > d1 {
        let node = st.levels.last();
        let rest = st.levels.drop_last();
        if rest.len() > 0 {
            match rest.last().kind {
                SpecNodeKind::Directive { .. } => {
                    lemma_vacate_mono(
                        BuildState {
                            roots: st.roots,
                            levels: rest.drop_last().push(attach_child(rest.last(), node)),
                        },
                        d1,
                        d2,
                    );
                },
                SpecNodeKind::Statement { .. } => {},
            }
        } else {
            lemma_vacate_mono(BuildState { roots: st.roots.push(node), levels: rest }, d1, d2);
        }
    }
}

/// Processing records that all lie strictly deeper than `d`, from a state
/// whose levels are open exactly down to depth `d`, never touches the
/// roots or the levels above the deepest open one; when the deeper levels
/// are then closed again, the level-`d` directive has gained as children
/// exactly the recursively-descended trees of the records at depth
/// `d + 1` ([`build_rec`]).
pub proof fn lemma_build_deeper(st: BuildState, lines: Seq<SpecLine>, d: nat, stp: BuildState)
    requires
        st.levels.len() == d + 1,
        forall|i: int| 0 <= i < lines.len() ==> #[trigger] lines[i].depth > d,
        build_lines(st, lines) == Ok::<BuildState, SpecErr>(stp),
        spec_vacate(stp, (d + 1) as nat) is Ok,
    ensures
        stp.levels.len() >= d + 1,
        spec_vacate(stp, (d + 1) as nat) == Ok::<BuildState, SpecErr>(
            BuildState {
                roots: st.roots,
                levels: st.levels.drop_last().push(
                    with_children(st.levels.last(), build_rec(lines, (d + 1) as nat)),
                ),
            },
        ),
    decreases lines.len(),
{
    if lines.len() == 0 {
        assert(stp == st);
        lemma_with_children_empty(st.levels.last());
        assert(st.levels.drop_last().push(st.levels.last()) =~= st.levels);
        assert(BuildState {
            roots: st.roots,
            levels: st.levels.drop_last().push(
                with_children(st.levels.last(), build_rec(lines, (d + 1) as nat)),
            ),
        } == st);
    } else {
        let l0 = lines[0];
        let rest = lines.drop_first();
        assert(spec_vacate(st, l0.depth) == Ok::<BuildState, SpecErr>(st));
        assert(l0.depth == d + 1);
        let st1 = BuildState { roots: st.roots, levels: st.levels.push(l0.node) };
        assert(spec_insert(st, l0.depth, l0.node) == Ok::<BuildState, SpecErr>(st1));
        assert(build_lines(st1, rest) == Ok::<BuildState, SpecErr>(stp));

        lemma_deeper_run_props(rest, (d + 1) as nat);
        let k = deeper_run(rest, (d + 1) as nat);
        let inner = rest.take(k);
        let after = rest.skip(k);
        assert(rest =~= inner + after);
        lemma_build_lines_concat(st1, inner, after);
        let sta = build_lines(st1, inner)->Ok_0;
        assert(build_lines(st1, inner) == Ok::<BuildState, SpecErr>(sta));
        assert(build_lines(sta, after) == Ok::<BuildState, SpecErr>(stp));

        assert forall|i: int| 0 <= i < inner.len() implies #[trigger] inner[i].depth > d + 1 by {
            assert(inner[i] == rest[i]);
        }
        assert(st1.levels.last() == l0.node);
        assert(st1.levels.len() == d + 2);
        // closing to d + 2 succeeds: either the final close gives it, or
        // the next record's insert already closed that far
        assert(spec_vacate(sta, (d + 2) as nat) is Ok) by {
            if after.len() == 0 {
                assert(stp == sta);
                lemma_vacate_mono(sta, (d + 2) as nat, (d + 1) as nat);
            } else {
                assert(spec_insert(sta, after[0].depth, after[0].node) is Ok);
                assert(spec_vacate(sta, after[0].depth) is Ok);
                assert(after[0] == rest[k as int]);
                lemma_vacate_mono(sta, (d + 2) as nat, after[0].depth);
            }
        }
        lemma_build_deeper(st1, inner, (d + 1) as nat, sta);
        let n0p = with_children(l0.node, build_rec(inner, (d + 2) as nat));
        let st_mid = BuildState {
            roots: st1.roots,
            levels: st1.levels.drop_last().push(n0p),
        };
        assert(spec_vacate(sta, (d + 2) as nat) == Ok::<BuildState, SpecErr>(st_mid));
        assert(st1.levels.drop_last() =~= st.levels);
        assert(st_mid.levels =~= st.levels.push(n0p));
        lemma_vacate_compose(sta, (d + 2) as nat, (d + 1) as nat);
        assert(spec_vacate(sta, (d + 1) as nat) == spec_vacate(st_mid, (d + 1) as nat));

        // one step of closing st_mid: n0p attaches to the level-d node,
        // which must be a directive, since closing it succeeds
        assert(st_mid.levels.len() == d + 2);
        assert(st_mid.levels.last() == n0p);
        assert(st_mid.levels.drop_last() =~= st.levels);
        assert(st.levels.len() > 0);
        assert(st.levels.last().kind is Directive) by {
            if !(st.levels.last().kind is Directive) {
                assert(spec_vacate(st_mid, (d + 1) as nat) is Err);
                if after.len() == 0 {
                    assert(stp == sta);
                    assert(spec_vacate(stp, (d + 1) as nat) is Err);
                } else {
                    assert(spec_insert(sta, after[0].depth, after[0].node) is Ok);
                    assert(after[0] == rest[k as int]);
                    assert(after[0].depth == d + 1) by {
                        assert(after[0].depth <= d + 1);
                        assert(after[0].depth > d);
                    }
                    assert(spec_vacate(sta, (d + 1) as nat) is Err);
                }
                assert(false);
            }
        }
        let st_closed = BuildState {
            roots: st.roots,
            levels: st.levels.drop_last().push(attach_child(st.levels.last(), n0p)),
        };
        assert(spec_vacate(st_mid, (d + 1) as nat) == spec_vacate(st_closed, (d + 1) as nat));
        assert(st_closed.levels.len() == d + 1);
        assert(spec_vacate(st_closed, (d + 1) as nat) == Ok::<BuildState, SpecErr>(st_closed));
        lemma_attach_is_with_children(st.levels.last(), n0p);

        // build_rec over the whole record run
        let k_used = if 0 <= k <= lines.len() - 1 {
            k
        } else {
            0
        };
        assert(k_used == k);
        assert(build_rec(lines, (d + 1) as nat) == seq![n0p] + build_rec(after, (d + 1) as nat));

        if after.len() == 0 {
            assert(stp == sta);
            assert(build_rec(after, (d + 1) as nat) =~= Seq::<SpecNode>::empty());
            assert(seq![n0p] + build_rec(after, (d + 1) as nat) =~= seq![n0p]);
            lemma_with_children_concat(st.levels.last(), seq![n0p], Seq::empty());
            assert(seq![n0p] + Seq::<SpecNode>::empty() =~= seq![n0p]);
            assert(spec_vacate(stp, (d + 1) as nat) == Ok::<BuildState, SpecErr>(st_closed));
            assert(attach_child(st.levels.last(), n0p) == with_children(
                st.levels.last(),
                build_rec(lines, (d + 1) as nat),
            ));
        } else {
            assert(after[0] == rest[k as int]);
            assert(after[0].depth <= d + 1);
            assert(after[0].depth > d);
            assert(after[0].depth == d + 1);
            // the first insert of `after` closes the deeper levels itself
            assert(spec_insert(sta, after[0].depth, after[0].node) == spec_insert(
                st_closed,
                after[0].depth,
                after[0].node,
            )) by {
                assert(spec_vacate(sta, (d + 1) as nat) == Ok::<BuildState, SpecErr>(st_closed));
                assert(spec_vacate(st_closed, (d + 1) as nat) == Ok::<BuildState, SpecErr>(
                    st_closed,
                ));
            }
            assert(build_lines(st_closed, after) == Ok::<BuildState, SpecErr>(stp)) by {
                assert(build_lines(sta, after) == Ok::<BuildState, SpecErr>(stp));
            }
            assert(st_closed.levels.last() == attach_child(st.levels.last(), n0p));
            lemma_build_deeper(st_closed, after, d, stp);
            assert(spec_vacate(stp, (d + 1) as nat) == Ok::<BuildState, SpecErr>(
                BuildState {
                    roots: st_closed.roots,
                    levels: st_closed.levels.drop_last().push(
                        with_children(st_closed.levels.last(), build_rec(after, (d + 1) as nat)),
                    ),
                },
            ));
            assert(st_closed.levels.drop_last() =~= st.levels.drop_last());
            lemma_with_children_concat(
                st.levels.last(),
                seq![n0p],
                build_rec(after, (d + 1) as nat),
            );
            assert(with_children(
                with_children(st.levels.last(), seq![n0p]),
                build_rec(after, (d + 1) as nat),
            ) == with_children(st.levels.last(), build_rec(lines, (d + 1) as nat)));
        }
    }
}

/// Processing all records from an empty level stack accumulates exactly
/// the recursively-descended trees of the depth-0 records into the roots.
pub proof fn lemma_build_roots(st: BuildState, lines: Seq<SpecLine>, stp: BuildState)
    requires
        st.levels.len() == 0,
        build_lines(st, lines) == Ok::<BuildState, SpecErr>(stp),
        spec_vacate(stp, 0) is Ok,
    ensures
        spec_vacate(stp, 0) == Ok::<BuildState, SpecErr>(
            BuildState { roots: st.roots + build_rec(lines, 0), levels: Seq::empty() },
        ),
    decreases lines.len(),
{
    if lines.len() == 0 {
        assert(stp == st);
        assert(st.roots + build_rec(lines, 0) =~= st.roots);
        assert(st.levels =~= Seq::<SpecNode>::empty());
        assert(BuildState { roots: st.roots + build_rec(lines, 0), levels: Seq::empty() } == st);
    } else {
        let l0 = lines[0];
        let rest = lines.drop_first();
        assert(spec_vacate(st, l0.depth) == Ok::<BuildState, SpecErr>(st));
        assert(l0.depth == 0);
        let st1 = BuildState { roots: st.roots, levels: st.levels.push(l0.node) };
        assert(spec_insert(st, l0.depth, l0.node) == Ok::<BuildState, SpecErr>(st1));
        assert(build_lines(st1, rest) == Ok::<BuildState, SpecErr>(stp));

        lemma_deeper_run_props(rest, 0);
        let k = deeper_run(rest, 0);
        let inner = rest.take(k);
        let after = rest.skip(k);
        assert(rest =~= inner + after);
        lemma_build_lines_concat(st1, inner, after);
        let sta = build_lines(st1, inner)->Ok_0;
        assert(build_lines(st1, inner) == Ok::<BuildState, SpecErr>(sta));
        assert(build_lines(sta, after) == Ok::<BuildState, SpecErr>(stp));
        assert forall|i: int| 0 <= i < inner.len() implies #[trigger] inner[i].depth > 0 by {
            assert(inner[i] == rest[i]);
        }
        assert(spec_vacate(sta, 1) is Ok) by {
            if after.len() == 0 {
                assert(stp == sta);
                lemma_vacate_mono(sta, 1, 0);
            } else {
                assert(spec_insert(sta, after[0].depth, after[0].node) is Ok);
                assert(after[0] == rest[k as int]);
                assert(after[0].depth == 0);
                lemma_vacate_mono(sta, 1, 0);
            }
        }
        assert(st1.levels.len() == 1);
        lemma_build_deeper(st1, inner, 0, sta);
        let n0p = with_children(l0.node, build_rec(inner, 1));
        let st_mid = BuildState { roots: st.roots, levels: st1.levels.drop_last().push(n0p) };
        assert(spec_vacate(sta, 1) == Ok::<BuildState, SpecErr>(st_mid));
        lemma_vacate_compose(sta, 1, 0);
        assert(spec_vacate(sta, 0) == spec_vacate(st_mid, 0));

        assert(st_mid.levels.len() == 1);
        assert(st_mid.levels.last() == n0p);
        assert(st_mid.levels.drop_last() =~= Seq::<SpecNode>::empty());
        let st_closed = BuildState {
            roots: st.roots.push(n0p),
            levels: Seq::empty(),
        };
        assert(spec_vacate(st_mid, 0) == spec_vacate(
            BuildState { roots: st.roots.push(n0p), levels: st_mid.levels.drop_last() },
            0,
        ));
        assert(BuildState { roots: st.roots.push(n0p), levels: st_mid.levels.drop_last() }
            == st_closed);
        assert(spec_vacate(st_closed, 0) == Ok::<BuildState, SpecErr>(st_closed));

        let k_used = if 0 <= k <= lines.len() - 1 {
            k
        } else {
            0
        };
        assert(k_used == k);
        assert(build_rec(lines, 0) == seq![n0p] + build_rec(after, 0));

        if after.len() == 0 {
            assert(stp == sta);
            assert(build_rec(after, 0) =~= Seq::<SpecNode>::empty());
            assert(st.roots + build_rec(lines, 0) =~= st.roots.push(n0p));
            assert(spec_vacate(stp, 0) == Ok::<BuildState, SpecErr>(st_closed));
        } else {
            assert(spec_insert(sta, after[0].depth, after[0].node) == spec_insert(
                st_closed,
                after[0].depth,
                after[0].node,
            )) by {
                assert(spec_vacate(sta, 0) == Ok::<BuildState, SpecErr>(st_closed));
                assert(spec_vacate(st_closed, 0) == Ok::<BuildState, SpecErr>(st_closed));
            }
            assert(build_lines(st_closed, after) == Ok::<BuildState, SpecErr>(stp)) by {
                assert(build_lines(sta, after) == Ok::<BuildState, SpecErr>(stp));
            }
            lemma_build_roots(st_closed, after, stp);
            assert(st_closed.roots + build_rec(after, 0) =~= st.roots + build_rec(lines, 0));
        }
    }
}

/// Law: the tree's nesting exactly mirrors indentation: the parsed roots
/// are the recursive-descent reading of the structural lines
/// ([`build_rec`]), in which each record's children are precisely the
/// maximal run of subsequent records that lie strictly deeper, until a
/// record at the same or a shallower depth appears; each child record is
/// exactly one unit deeper than its parent, as any other depth refuses to
/// build.
pub proof fn lemma_nesting_mirrors_indentation(
    s: Seq<char>,
    ind: Indent,
    lines: Seq<SpecLine>,
    roots: Seq<SpecNode>,
)
    requires
        lines_ok(s, ind, 0, lines),
        parse_result_ok(s, ind, roots),
    ensures
        roots == build_rec(lines, 0),
{
    let l1 = choose|l: Seq<SpecLine>|
        #![trigger lines_ok(s, ind, 0, l)]
        {
            &&& lines_ok(s, ind, 0, l)
            &&& match build_lines(empty_state(), l) {
                Ok(st) => match spec_vacate(st, 0) {
                    Ok(fin) => roots == fin.roots,
                    Err(_) => false,
                },
                Err(_) => false,
            }
        };
    lemma_lines_ok_unique(s, ind, 0, lines, l1);
    let st = build_lines(empty_state(), lines)->Ok_0;
    assert(build_lines(empty_state(), lines) == Ok::<BuildState, SpecErr>(st));
    lemma_build_roots(empty_state(), lines, st);
    assert(Seq::<SpecNode>::empty() + build_rec(lines, 0) =~= build_rec(lines, 0));
}

} // verus!
