//! The left-hand side of a macro rule.
use crate::error::{ErrorView, ExpandError};
use crate::tt::{
    delimiter_kind, Delimiter, DelimiterKind, Ident, Leaf, LeafView, Literal, Punct, WordView,
};
use vstd::prelude::*;

verus! {

#[derive(Debug, Clone, Copy, PartialEq, Eq, Structural)]
pub enum RepeatKind {
    ZeroOrMore,
    OneOrMore,
    ZeroOrOne,
}

/// What stands between two rounds of a repetition.
#[derive(Debug)]
pub enum Separator {
    Literal(Literal),
    Ident(Ident),
    Puncts(Vec<Punct>),
}

/// One element of a template.
#[derive(Debug)]
pub enum Op {
    /// `$name:kind`
    Var { name: String, kind: Option<String> },
    /// `$( subtree ) separator kind`
    Repeat { subtree: MetaTemplate, kind: RepeatKind, separator: Option<Separator> },
    /// A token that stands for itself.
    Leaf(Leaf),
    /// A delimited group.
    Subtree(MetaTemplate),
}

/// A run of elements; an element that could not be parsed is an error.
#[derive(Debug)]
pub struct MetaTemplate {
    pub delimiter: Option<Delimiter>,
    pub tokens: Vec<Result<Op, ExpandError>>,
}

/// The model of a [`Separator`].
pub enum SeparatorView {
    Literal(WordView),
    Ident(WordView),
    Puncts(Seq<Punct>),
}

/// The model of an [`Op`].
pub enum OpView {
    Var { name: Seq<char>, kind: Option<Seq<char>> },
    Repeat { subtree: TemplateView, kind: RepeatKind, separator: Option<SeparatorView> },
    Leaf(LeafView),
    Subtree(TemplateView),
}

/// The model of a [`MetaTemplate`].
pub struct TemplateView {
    pub delimiter: Option<Delimiter>,
    pub tokens: Seq<Result<OpView, ErrorView>>,
}

impl View for Separator {
    type V = SeparatorView;

    open spec fn view(&self) -> SeparatorView {
        match self {
            Separator::Literal(it) => SeparatorView::Literal(it@),
            Separator::Ident(it) => SeparatorView::Ident(it@),
            Separator::Puncts(it) => SeparatorView::Puncts(it@),
        }
    }
}

/// The model of an optional separator.
pub open spec fn separator_view(separator: Option<Separator>) -> Option<SeparatorView> {
    match separator {
        Some(it) => Some(it@),
        None => None,
    }
}

impl Op {
    pub open spec fn model(self) -> OpView
        decreases self,
    {
        match self {
            Op::Var { name, kind } => OpView::Var {
                name: name@,
                kind: match kind {
                    Some(it) => Some(it@),
                    None => None,
                },
            },
            Op::Repeat { subtree, kind, separator } => OpView::Repeat {
                subtree: subtree.model(),
                kind,
                separator: separator_view(separator),
            },
            Op::Leaf(it) => OpView::Leaf(it@),
            Op::Subtree(it) => OpView::Subtree(it.model()),
        }
    }
}

impl MetaTemplate {
    pub open spec fn model(self) -> TemplateView
        decreases self,
    {
        TemplateView {
            delimiter: self.delimiter,
            tokens: Seq::new(
                self.tokens@.len(),
                |i: int|
                    if 0 <= i < self.tokens@.len() {
                        match self.tokens@[i] {
                            Ok(op) => Ok(op.model()),
                            Err(e) => Err(e@),
                        }
                    } else {
                        arbitrary()
                    },
            ),
        }
    }
}

impl View for Op {
    type V = OpView;

    open spec fn view(&self) -> OpView {
        self.model()
    }
}

impl View for MetaTemplate {
    type V = TemplateView;

    open spec fn view(&self) -> TemplateView {
        self.model()
    }
}

impl MetaTemplate {
    pub fn delimiter_kind(&self) -> (r: Option<DelimiterKind>)
        ensures
            r == delimiter_kind(self@.delimiter),
    {
        match &self.delimiter {
            Some(it) => Some(it.kind),
            None => None,
        }
    }
}

} // verus!
