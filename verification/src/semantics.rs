//! What it means to match a template: the model that the matcher is held to.
//!
//! Matching runs through the whole template. An element that does not fit the
//! input adds an error to the match and the run goes on with the next element;
//! only an element that could not be parsed stops the run.
use crate::bindings::{bind, bind_round, empty_fragment, BindingView, FragmentView, Slots};
use crate::error::ErrorView;
use crate::fragment::{take_fragment, take_vis, FragmentKind, Grammar};
use crate::template::{OpView, RepeatKind, SeparatorView, TemplateView};
use crate::tt::{delimiter_kind, LeafView, TreeView};
use crate::tt_iter::{
    bundle, ident_at, leaf_at, literal_at, punct_at, rest, subtree_at, take_lifetime,
    take_separator, take_tt,
};
use vstd::prelude::*;

verus! {

/// A repetition has fewer rounds than this.
pub const REPEAT_LIMIT: usize = 65536;

/// The model of a match.
pub struct MatchView {
    pub bindings: Slots,
    pub err: Option<ErrorView>,
    pub err_count: nat,
    pub unmatched_tts: nat,
}

impl MatchView {
    /// The match that nothing has gone into.
    pub open spec fn empty() -> MatchView {
        MatchView { bindings: Seq::empty(), err: None, err_count: 0, unmatched_tts: 0 }
    }

    /// The first error is kept; all are counted.
    pub open spec fn add_err(self, err: ErrorView) -> MatchView {
        MatchView {
            err: if self.err is Some {
                self.err
            } else {
                Some(err)
            },
            err_count: self.err_count + 1,
            ..self
        }
    }

    /// As [`MatchView::add_err`], if there is an error.
    pub open spec fn add_errs(self, err: Option<ErrorView>) -> MatchView {
        match err {
            Some(e) => self.add_err(e),
            None => self,
        }
    }

    pub open spec fn bind(self, name: Seq<char>, binding: BindingView) -> MatchView {
        MatchView { bindings: bind(self.bindings, name, binding), ..self }
    }

    /// Adds what a round of a repetition bound.
    pub open spec fn bind_round(self, idx: nat, nested: Slots) -> MatchView {
        let (bindings, err) = bind_round(self.bindings, idx, nested);
        MatchView { bindings, ..self }.add_errs(err)
    }

    /// Binds each name as a variable of a repetition that matched no round.
    pub open spec fn bind_empty(self, names: Seq<Seq<char>>) -> MatchView
        decreases names.len(),
    {
        if names.len() == 0 {
            self
        } else {
            self.bind(names[0], BindingView::Empty).bind_empty(names.drop_first())
        }
    }
}

/// Where a run has come to: the match, the input that is left, and the error in
/// the template that stopped it.
pub struct Run {
    pub res: MatchView,
    pub src: Seq<TreeView>,
    pub stop: Option<ErrorView>,
}

pub open spec fn message(text: Seq<char>) -> ErrorView {
    ErrorView::BindingError(text)
}

/// How a token is shown in a message.
pub open spec fn leaf_text(leaf: LeafView) -> Seq<char> {
    match leaf {
        LeafView::Literal(it) => it.text,
        LeafView::Punct(it) => seq![it.char],
        LeafView::Ident(it) => it.text,
    }
}

/// Two tokens are the same if they read the same.
pub open spec fn same_token(lhs: LeafView, rhs: LeafView) -> bool {
    match (lhs, rhs) {
        (LeafView::Punct(lhs), LeafView::Punct(rhs)) => lhs.char == rhs.char,
        (LeafView::Ident(lhs), LeafView::Ident(rhs)) => lhs.text == rhs.text,
        (LeafView::Literal(lhs), LeafView::Literal(rhs)) => lhs.text == rhs.text,
        _ => false,
    }
}

/// The kinds of variables that the grammar decides on.
pub open spec fn syntactic(kind: Seq<char>) -> Option<FragmentKind> {
    if kind == "path"@ {
        Some(FragmentKind::Path)
    } else if kind == "expr"@ {
        Some(FragmentKind::Expr)
    } else if kind == "ty"@ {
        Some(FragmentKind::Type)
    } else if kind == "pat"@ {
        Some(FragmentKind::Pattern)
    } else if kind == "stmt"@ {
        Some(FragmentKind::Statement)
    } else if kind == "block"@ {
        Some(FragmentKind::Block)
    } else if kind == "meta"@ {
        Some(FragmentKind::MetaItem)
    } else if kind == "item"@ {
        Some(FragmentKind::Item)
    } else {
        None
    }
}

/// What a variable takes: what is left of the input, the fragment, and the
/// error.
pub struct Taken {
    pub src: Seq<TreeView>,
    pub value: Option<FragmentView>,
    pub err: Option<ErrorView>,
}

/// A tree that is bound as it came.
pub open spec fn tokens(tree: Option<TreeView>) -> Option<FragmentView> {
    match tree {
        Some(it) => Some(FragmentView::Tokens(it)),
        None => None,
    }
}

/// A tree that has to be there.
pub open spec fn needed(src: Seq<TreeView>, tree: Option<TreeView>, text: Seq<char>) -> Taken {
    Taken {
        src,
        value: tokens(tree),
        err: if tree is Some {
            None
        } else {
            Some(message(text))
        },
    }
}

/// A literal, with a minus sign or without: what is left, and the literal.
pub open spec fn take_literal(src: Seq<TreeView>) -> (Seq<TreeView>, Option<TreeView>) {
    if punct_at(src, 0) matches Some(minus) && minus.char == '-' {
        (
            rest(rest(src)),
            if literal_at(src, 1) is Some {
                Some(bundle(src.take(2)))
            } else {
                None
            },
        )
    } else {
        (
            rest(src),
            if literal_at(src, 0) is Some {
                Some(src[0])
            } else {
                None
            },
        )
    }
}

/// What a variable of a kind takes.
pub open spec fn take_var(grammar: Grammar, src: Seq<TreeView>, kind: Seq<char>) -> Taken {
    if let Some(fragment) = syntactic(kind) {
        let (left, value, err) = take_fragment(grammar, src, fragment);
        Taken {
            src: left,
            value: match value {
                Some(it) if fragment is Expr => Some(FragmentView::Ast(it)),
                _ => tokens(value),
            },
            err,
        }
    } else if kind == "ident"@ {
        needed(
            rest(src),
            if ident_at(src, 0) is Some {
                Some(src[0])
            } else {
                None
            },
            "expected ident"@,
        )
    } else if kind == "tt"@ {
        needed(take_tt(src).0, take_tt(src).1, ""@)
    } else if kind == "lifetime"@ {
        needed(take_lifetime(src).0, take_lifetime(src).1, "expected lifetime"@)
    } else if kind == "literal"@ {
        needed(take_literal(src).0, take_literal(src).1, ""@)
    } else if kind == "vis"@ {
        let (left, value) = take_vis(grammar, src);
        Taken { src: left, value: tokens(value), err: None }
    } else {
        Taken { src, value: None, err: Some(ErrorView::UnexpectedToken) }
    }
}

/// The kinds of variables for which the grammar is consulted.
pub open spec fn consults(kind: Seq<char>) -> bool {
    syntactic(kind) is Some || kind == "vis"@
}

/// Whether the grammar may be consulted in matching an element.
pub open spec fn op_consults(op: OpView) -> bool
    decreases op, 0nat,
{
    match op {
        OpView::Leaf(_) => false,
        OpView::Var { kind: Some(kind), .. } => consults(kind),
        OpView::Var { kind: None, .. } => false,
        OpView::Subtree(subtree) => template_consults(subtree, 0),
        OpView::Repeat { subtree, .. } => template_consults(subtree, 0),
    }
}

/// Whether the grammar may be consulted in matching the elements of a template
/// from the one at `i` on.
pub open spec fn template_consults(pattern: TemplateView, i: nat) -> bool
    decreases pattern, pattern.tokens.len() - i,
{
    i < pattern.tokens.len() && ((pattern.tokens[i as int] matches Ok(op) && op_consults(op))
        || template_consults(pattern, i + 1))
}

/// Matching a token of the template.
pub open spec fn match_leaf(lhs: LeafView, res: MatchView, src: Seq<TreeView>) -> MatchView {
    match leaf_at(src, 0) {
        None => res.add_err(message("expected leaf: `"@ + leaf_text(lhs) + "`"@)),
        Some(rhs) => if same_token(lhs, rhs) {
            res
        } else {
            res.add_err(ErrorView::UnexpectedToken)
        },
    }
}

/// Matching a variable of a known kind.
pub open spec fn match_var(name: Seq<char>, taken: Taken, res: MatchView) -> MatchView {
    let bound = match taken.value {
        Some(fragment) => res.bind(name, BindingView::Fragment(fragment)),
        None => if taken.err is None {
            res.bind(name, empty_fragment())
        } else {
            res
        },
    };
    bound.add_errs(taken.err)
}

/// Matching one element.
pub open spec fn run_op(grammar: Grammar, op: OpView, res: MatchView, src: Seq<TreeView>) -> Run
    decreases op, 3nat, 0nat,
{
    match op {
        OpView::Leaf(lhs) => Run { res: match_leaf(lhs, res, src), src: rest(src), stop: None },
        OpView::Subtree(lhs) => match subtree_at(src, 0) {
            None => Run {
                res: res.add_err(message("expected subtree"@)),
                src: rest(src),
                stop: None,
            },
            Some(rhs) => if delimiter_kind(lhs.delimiter) != delimiter_kind(rhs.delimiter) {
                Run {
                    res: res.add_err(message("mismatched delimiter"@)),
                    src: rest(src),
                    stop: None,
                }
            } else {
                let inner = run(grammar, lhs, 0, res, rhs.token_trees);
                Run {
                    res: if inner.stop is None && inner.src.len() > 0 {
                        inner.res.add_err(message("leftover tokens"@))
                    } else {
                        inner.res
                    },
                    src: rest(src),
                    stop: inner.stop,
                }
            },
        },
        OpView::Var { name, kind } => match kind {
            None => Run { res: res.add_err(ErrorView::UnexpectedToken), src, stop: None },
            Some(kind) => {
                let taken = take_var(grammar, src, kind);
                Run { res: match_var(name, taken, res), src: taken.src, stop: None }
            },
        },
        OpView::Repeat { subtree, kind, separator } => run_repeat(
            grammar,
            subtree,
            kind,
            separator,
            res,
            src,
        ),
    }
}

/// Matching the elements of a template from the one at `i` on.
pub open spec fn run(
    grammar: Grammar,
    pattern: TemplateView,
    i: nat,
    res: MatchView,
    src: Seq<TreeView>,
) -> Run
    decreases pattern, 0nat, pattern.tokens.len() - i,
{
    if i >= pattern.tokens.len() {
        Run { res, src, stop: None }
    } else {
        match pattern.tokens[i as int] {
            Err(e) => Run { res, src, stop: Some(e) },
            Ok(op) => {
                let step = run_op(grammar, op, res, src);
                if step.stop is Some {
                    step
                } else {
                    run(grammar, pattern, i + 1, step.res, step.src)
                }
            },
        }
    }
}

/// What is left to match a round of a repetition against: all rounds but the
/// first come behind a separator. `None` if the separator is not there.
pub open spec fn round_src(
    round: nat,
    separator: Option<SeparatorView>,
    src: Seq<TreeView>,
) -> Option<Seq<TreeView>> {
    match separator {
        Some(it) if round > 0 => take_separator(src, it),
        _ => Some(src),
    }
}

/// The rounds of a repetition from number `round` on, and how many rounds
/// matched in all.
///
/// A round that does not match leaves no trace: what it took goes back.
pub open spec fn run_rounds(
    grammar: Grammar,
    pattern: TemplateView,
    kind: RepeatKind,
    separator: Option<SeparatorView>,
    round: nat,
    res: MatchView,
    src: Seq<TreeView>,
) -> (Run, nat)
    decreases pattern, 1nat, REPEAT_LIMIT - round,
{
    let here = Run { res, src, stop: None };
    match round_src(round, separator, src) {
        None => (here, round),
        Some(fork) => {
            let nested = run(grammar, pattern, 0, MatchView::empty(), fork);
            if nested.stop is Some {
                (Run { stop: nested.stop, ..here }, round)
            } else if nested.res.err is Some || round + 1 >= REPEAT_LIMIT {
                (here, round)
            } else {
                let more = res.bind_round(round, nested.res.bindings);
                if round == 0 && kind is ZeroOrOne {
                    (Run { res: more, src: nested.src, stop: None }, 1)
                } else {
                    run_rounds(grammar, pattern, kind, separator, round + 1, more, nested.src)
                }
            }
        },
    }
}

/// Matching a repetition.
pub open spec fn run_repeat(
    grammar: Grammar,
    pattern: TemplateView,
    kind: RepeatKind,
    separator: Option<SeparatorView>,
    res: MatchView,
    src: Seq<TreeView>,
) -> Run
    decreases pattern, 2nat, 0nat,
{
    let (rounds, count) = run_rounds(grammar, pattern, kind, separator, 0, res, src);
    if rounds.stop is Some || count > 0 {
        rounds
    } else if kind is OneOrMore {
        Run { res: rounds.res.add_err(ErrorView::UnexpectedToken), ..rounds }
    } else {
        let (names, stop) = variables(pattern, 0);
        if stop is Some {
            Run { stop, ..rounds }
        } else {
            Run { res: rounds.res.bind_empty(names), ..rounds }
        }
    }
}

/// The names of the variables of a template, those in its groups and
/// repetitions included, from the element at `i` on. It stops at an element
/// that could not be parsed.
pub open spec fn variables(pattern: TemplateView, i: nat) -> (Seq<Seq<char>>, Option<ErrorView>)
    decreases pattern, pattern.tokens.len() - i,
{
    if i >= pattern.tokens.len() {
        (Seq::empty(), None)
    } else {
        match pattern.tokens[i as int] {
            Err(e) => (Seq::empty(), Some(e)),
            Ok(op) => {
                let (here, stop) = match op {
                    OpView::Var { name, .. } => (seq![name], None),
                    OpView::Leaf(_) => (Seq::empty(), None),
                    OpView::Subtree(subtree) => variables(subtree, 0),
                    OpView::Repeat { subtree, .. } => variables(subtree, 0),
                };
                if stop is Some {
                    (here, stop)
                } else {
                    let (later, stop) = variables(pattern, i + 1);
                    (here + later, stop)
                }
            },
        }
    }
}

/// `e` stands for an element that could not be parsed, in a group or a
/// repetition.
pub open spec fn op_has_error(op: OpView, e: ErrorView) -> bool
    decreases op, 0nat,
{
    match op {
        OpView::Subtree(subtree) => has_error(subtree, 0, e),
        OpView::Repeat { subtree, .. } => has_error(subtree, 0, e),
        _ => false,
    }
}

/// `e` stands for an element that could not be parsed, in the template itself
/// or in one of its groups and repetitions, at or behind element `i`.
pub open spec fn has_error(pattern: TemplateView, i: nat, e: ErrorView) -> bool
    decreases pattern, pattern.tokens.len() - i,
{
    i < pattern.tokens.len() && ((match pattern.tokens[i as int] {
        Err(here) => here == e,
        Ok(op) => op_has_error(op, e),
    }) || has_error(pattern, i + 1, e))
}

/// Where an error of the template can be.
pub proof fn lemma_has_error(pattern: TemplateView, i: nat, e: ErrorView)
    requires
        i < pattern.tokens.len(),
    ensures
        has_error(pattern, i, e) <==> ((match pattern.tokens[i as int] {
            Err(here) => here == e,
            Ok(op) => op_has_error(op, e),
        }) || has_error(pattern, i + 1, e)),
{
}

/// Matching the input of a macro call.
pub open spec fn matched(grammar: Grammar, pattern: TemplateView, src: Seq<TreeView>) -> Result<
    MatchView,
    ErrorView,
> {
    let all = run(grammar, pattern, 0, MatchView::empty(), src);
    match all.stop {
        Some(e) => Err(e),
        None => Ok(
            if all.src.len() > 0 {
                MatchView {
                    unmatched_tts: all.res.unmatched_tts + all.src.len(),
                    ..all.res
                }.add_err(message("leftover tokens"@))
            } else {
                all.res
            },
        ),
    }
}

} // verus!
