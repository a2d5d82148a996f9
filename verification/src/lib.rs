//! Parser for a small indentation-structured markup language.
//!
//! Lines are either leaf statements or directives that introduce indented
//! children; each line's content is a sequence of items (words, integers,
//! float literals, or bracketed groups of items). Every node and item
//! carries an exact source position, so that consumers can render
//! compiler-quality diagnostics.
use smol_str::SmolStr;
use vstd::prelude::*;

pub mod chars;
pub mod laws;
pub mod literal;
pub mod model;
pub mod parse;
pub mod source;
pub mod word;

pub use parse::Indent;
pub use parse::IndentWidth;
pub use parse::ParseError;
pub use parse::ParseResult;
pub use parse::SourceError;
pub use source::Offset;
pub use source::Span;
pub use word::smol_as_str;
pub use word::smol_chars;

verus! {

/// A collection of [`Node`] roots.
#[derive(Debug, PartialEq, Default)]
pub struct Tree {
    pub roots: Vec<Node>,
}

impl Tree {
    /// Try to parse a tree from a `&str` assuming the given [`Indent`].
    ///
    /// On success the returned roots are exactly what the source's
    /// structural lines describe ([`crate::model::parse_result_ok`]); on
    /// failure the error is exactly the first one the source contains
    /// ([`crate::model::parse_result_fails`]).
    pub fn parse(source: &str, indent: Indent) -> (r: ParseResult<Tree>)
        requires
            indent.valid(),
        ensures
            match r {
                Ok(tree) => crate::model::parse_result_ok(
                    source@,
                    indent,
                    crate::model::nodes_view(tree.roots@),
                ),
                Err(e) => crate::model::parse_result_fails(
                    source@,
                    indent,
                    parse::err_view(e),
                ),
            },
    {
        parse::parse_input(source, indent)
    }
}

/// A parsed node in a [`Tree`] with a specific [`NodeKind`].
#[derive(Debug, PartialEq)]
pub struct Node {
    pub kind: NodeKind,
    pub location: Offset,
}

impl Node {
    /// Get a slice of children independent of the [`NodeKind`].
    ///
    /// Statements produce an empty slice.
    pub fn children(&self) -> (r: &[Self])
        ensures
            r@ == match self.kind {
                NodeKind::Directive(directive) => directive.children@,
                NodeKind::Statement(_) => Seq::<Node>::empty(),
            },
    {
        match &self.kind {
            NodeKind::Directive(directive) => directive.children.as_slice(),
            NodeKind::Statement(_) => &[],
        }
    }
}

/// Data for a [`NodeKind::Directive`] in a [`Tree`].
#[derive(Debug, PartialEq)]
pub struct Directive {
    pub signature: Vec<Item>,
    pub arguments: Vec<Item>,
    pub children: Vec<Node>,
}

/// Data for a [`NodeKind::Statement`] in a [`Tree`].
#[derive(Debug, PartialEq)]
pub struct Statement {
    pub signature: Vec<Item>,
}

/// The different kinds of [`Node`].
#[derive(Debug, PartialEq)]
pub enum NodeKind {
    Directive(Directive),
    Statement(Statement),
}

impl NodeKind {
    /// True for a directive node.
    pub fn is_directive(&self) -> (r: bool)
        ensures
            r == (self matches NodeKind::Directive(_)),
    {
        matches!(self, NodeKind::Directive(_))
    }

    /// True for a statement node.
    pub fn is_statement(&self) -> (r: bool)
        ensures
            r == (self matches NodeKind::Statement(_)),
    {
        matches!(self, NodeKind::Statement(_))
    }

    /// The directive data, or the kind itself when it is a statement.
    pub fn try_into_directive(self) -> (r: Result<Directive, Self>)
        ensures
            match self {
                NodeKind::Directive(d) => r matches Ok(v) && v == d,
                NodeKind::Statement(_) => r matches Err(e) && e == self,
            },
    {
        if let NodeKind::Directive(value) = self {
            Ok(value)
        } else {
            Err(self)
        }
    }

    /// The statement data, or the kind itself when it is a directive.
    pub fn try_into_statement(self) -> (r: Result<Statement, Self>)
        ensures
            match self {
                NodeKind::Statement(s) => r matches Ok(v) && v == s,
                NodeKind::Directive(_) => r matches Err(e) && e == self,
            },
    {
        if let NodeKind::Statement(value) = self {
            Ok(value)
        } else {
            Err(self)
        }
    }

    /// The directive data, if this is a directive.
    pub fn directive(&self) -> (r: Option<&Directive>)
        ensures
            match self {
                NodeKind::Directive(d) => r matches Some(v) && *v == d,
                NodeKind::Statement(_) => r is None,
            },
    {
        if let NodeKind::Directive(directive) = self {
            Some(directive)
        } else {
            None
        }
    }

    /// The statement data, if this is a statement.
    pub fn statement(&self) -> (r: Option<&Statement>)
        ensures
            match self {
                NodeKind::Statement(s) => r matches Some(v) && *v == s,
                NodeKind::Directive(_) => r is None,
            },
    {
        if let NodeKind::Statement(statement) = self {
            Some(statement)
        } else {
            None
        }
    }
}

/// An item of [`ItemKind`] found in a [`Statement`] or [`Directive`].
#[derive(Debug, PartialEq)]
pub struct Item {
    pub kind: ItemKind,
    pub location: Span,
}

impl Clone for Tree {
    fn clone(&self) -> Self {
        Tree { roots: clone_nodes(&self.roots) }
    }
}

impl Clone for Node {
    fn clone(&self) -> Self
        decreases *self,
    {
        Node { kind: self.kind.clone(), location: self.location }
    }
}

impl Clone for NodeKind {
    fn clone(&self) -> Self
        decreases *self,
    {
        match self {
            NodeKind::Directive(directive) => NodeKind::Directive(directive.clone()),
            NodeKind::Statement(statement) => NodeKind::Statement(statement.clone()),
        }
    }
}

impl Clone for Directive {
    fn clone(&self) -> Self
        decreases *self,
    {
        Directive {
            signature: clone_items(&self.signature),
            arguments: clone_items(&self.arguments),
            children: clone_nodes(&self.children),
        }
    }
}

impl Clone for Statement {
    fn clone(&self) -> Self
        decreases *self,
    {
        Statement { signature: clone_items(&self.signature) }
    }
}

impl Clone for Item {
    fn clone(&self) -> Self
        decreases *self,
    {
        Item { kind: self.kind.clone(), location: self.location }
    }
}

impl Clone for ItemKind {
    fn clone(&self) -> Self
        decreases *self,
    {
        match self {
            ItemKind::Word(word) => ItemKind::Word(word.clone()),
            ItemKind::Int(value) => ItemKind::Int(*value),
            ItemKind::Float(text) => ItemKind::Float(text.clone()),
            ItemKind::Parentheses(items) => ItemKind::Parentheses(clone_items(items)),
            ItemKind::Brackets(items) => ItemKind::Brackets(clone_items(items)),
            ItemKind::Braces(items) => ItemKind::Braces(clone_items(items)),
        }
    }
}

/// Clones each item of a sequence in order.
fn clone_items(v: &Vec<Item>) -> Vec<Item>
    decreases v@,
{
    let mut out: Vec<Item> = Vec::new();
    let mut i: usize = 0;
    while i < v.len()
        invariant
            i <= v.len(),
        decreases v.len() - i,
    {
        proof {
            assert(decreases_to!(v@ => v@[i as int]));
        }
        out.push(v[i].clone());
        i = i + 1;
    }
    out
}

/// Clones each node of a sequence in order.
fn clone_nodes(v: &Vec<Node>) -> Vec<Node>
    decreases v@,
{
    let mut out: Vec<Node> = Vec::new();
    let mut i: usize = 0;
    while i < v.len()
        invariant
            i <= v.len(),
        decreases v.len() - i,
    {
        proof {
            assert(decreases_to!(v@ => v@[i as int]));
        }
        out.push(v[i].clone());
        i = i + 1;
    }
    out
}

/// The different kinds of [`Item`].
///
/// A float item keeps its literal text verbatim; the text is guaranteed to
/// be a floating point literal (see [`crate::literal::is_float_literal`]),
/// and callers convert it when they need the value.
#[derive(Debug, PartialEq)]
pub enum ItemKind {
    Word(SmolStr),
    Int(i32),
    Float(SmolStr),
    Parentheses(Vec<Item>),
    Brackets(Vec<Item>),
    Braces(Vec<Item>),
}

impl ItemKind {
    /// True for a word item.
    pub fn is_word(&self) -> (r: bool)
        ensures
            r == (self matches ItemKind::Word(_)),
    {
        matches!(self, ItemKind::Word(_))
    }

    /// True for an integer item.
    pub fn is_int(&self) -> (r: bool)
        ensures
            r == (self matches ItemKind::Int(_)),
    {
        matches!(self, ItemKind::Int(_))
    }

    /// True for a float item.
    pub fn is_float(&self) -> (r: bool)
        ensures
            r == (self matches ItemKind::Float(_)),
    {
        matches!(self, ItemKind::Float(_))
    }

    /// True for a parenthesized group.
    pub fn is_parenthesized(&self) -> (r: bool)
        ensures
            r == (self matches ItemKind::Parentheses(_)),
    {
        matches!(self, ItemKind::Parentheses(_))
    }

    /// True for a bracketed group.
    pub fn is_bracketed(&self) -> (r: bool)
        ensures
            r == (self matches ItemKind::Brackets(_)),
    {
        matches!(self, ItemKind::Brackets(_))
    }

    /// True for a braced group.
    pub fn is_braced(&self) -> (r: bool)
        ensures
            r == (self matches ItemKind::Braces(_)),
    {
        matches!(self, ItemKind::Braces(_))
    }

    /// The word, if this is a word item.
    pub fn word(&self) -> (r: Option<&SmolStr>)
        ensures
            match self {
                ItemKind::Word(w) => r matches Some(v) && *v == w,
                _ => r is None,
            },
    {
        if let ItemKind::Word(word) = self {
            Some(word)
        } else {
            None
        }
    }

    /// The word's text, if this is a word item.
    pub fn word_str(&self) -> (r: Option<&str>)
        ensures
            match self {
                ItemKind::Word(w) => r matches Some(v) && v@ == smol_chars(*w),
                _ => r is None,
            },
    {
        if let ItemKind::Word(word) = self {
            Some(smol_as_str(word))
        } else {
            None
        }
    }

    /// The value, if this is an integer item.
    pub fn int_value(&self) -> (r: Option<i32>)
        ensures
            match self {
                ItemKind::Int(v) => r == Some(*v),
                _ => r is None,
            },
    {
        if let ItemKind::Int(value) = self {
            Some(*value)
        } else {
            None
        }
    }

    /// The literal text, if this is a float item.
    pub fn float_text(&self) -> (r: Option<&SmolStr>)
        ensures
            match self {
                ItemKind::Float(t) => r matches Some(v) && *v == t,
                _ => r is None,
            },
    {
        if let ItemKind::Float(text) = self {
            Some(text)
        } else {
            None
        }
    }

    /// The grouped items, if this is a parenthesized group.
    pub fn parenthesized(&self) -> (r: Option<&[Item]>)
        ensures
            match self {
                ItemKind::Parentheses(items) => r matches Some(v) && v@ == items@,
                _ => r is None,
            },
    {
        if let ItemKind::Parentheses(items) = self {
            Some(items.as_slice())
        } else {
            None
        }
    }

    /// The grouped items, if this is a bracketed group.
    pub fn bracketed(&self) -> (r: Option<&[Item]>)
        ensures
            match self {
                ItemKind::Brackets(items) => r matches Some(v) && v@ == items@,
                _ => r is None,
            },
    {
        if let ItemKind::Brackets(items) = self {
            Some(items.as_slice())
        } else {
            None
        }
    }

    /// The grouped items, if this is a braced group.
    pub fn braced(&self) -> (r: Option<&[Item]>)
        ensures
            match self {
                ItemKind::Braces(items) => r matches Some(v) && v@ == items@,
                _ => r is None,
            },
    {
        if let ItemKind::Braces(items) = self {
            Some(items.as_slice())
        } else {
            None
        }
    }

    /// The word, or the kind itself when it is something else.
    pub fn try_into_word(self) -> (r: Result<SmolStr, Self>)
        ensures
            match self {
                ItemKind::Word(w) => r matches Ok(v) && v == w,
                _ => r matches Err(e) && e == self,
            },
    {
        if let ItemKind::Word(value) = self {
            Ok(value)
        } else {
            Err(self)
        }
    }

    /// The integer, or the kind itself when it is something else.
    pub fn try_into_int(self) -> (r: Result<i32, Self>)
        ensures
            match self {
                ItemKind::Int(v) => r matches Ok(w) && w == v,
                _ => r matches Err(e) && e == self,
            },
    {
        if let ItemKind::Int(value) = self {
            Ok(value)
        } else {
            Err(self)
        }
    }

    /// The float's literal text, or the kind itself when it is something
    /// else.
    pub fn try_into_float(self) -> (r: Result<SmolStr, Self>)
        ensures
            match self {
                ItemKind::Float(t) => r matches Ok(v) && v == t,
                _ => r matches Err(e) && e == self,
            },
    {
        if let ItemKind::Float(value) = self {
            Ok(value)
        } else {
            Err(self)
        }
    }

    /// The grouped items, or the kind itself when it is not a parenthesized
    /// group.
    pub fn try_into_parenthesized(self) -> (r: Result<Vec<Item>, Self>)
        ensures
            match self {
                ItemKind::Parentheses(items) => r matches Ok(v) && v == items,
                _ => r matches Err(e) && e == self,
            },
    {
        if let ItemKind::Parentheses(value) = self {
            Ok(value)
        } else {
            Err(self)
        }
    }

    /// The grouped items, or the kind itself when it is not a bracketed
    /// group.
    pub fn try_into_bracketed(self) -> (r: Result<Vec<Item>, Self>)
        ensures
            match self {
                ItemKind::Brackets(items) => r matches Ok(v) && v == items,
                _ => r matches Err(e) && e == self,
            },
    {
        if let ItemKind::Brackets(value) = self {
            Ok(value)
        } else {
            Err(self)
        }
    }

    /// The grouped items, or the kind itself when it is not a braced group.
    pub fn try_into_braced(self) -> (r: Result<Vec<Item>, Self>)
        ensures
            match self {
                ItemKind::Braces(items) => r matches Ok(v) && v == items,
                _ => r matches Err(e) && e == self,
            },
    {
        if let ItemKind::Braces(value) = self {
            Ok(value)
        } else {
            Err(self)
        }
    }
}

} // verus!
