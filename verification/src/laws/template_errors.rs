//! Errors in the template.
use crate::bindings::bind_round;
use crate::error::ErrorView;
use crate::fragment::Grammar;
use crate::semantics::{
    has_error, lemma_has_error, matched, round_src, run, run_op, run_rounds, variables, MatchView,
    REPEAT_LIMIT,
};
use crate::template::{OpView, RepeatKind, SeparatorView, TemplateView};
use crate::tt::TreeView;
use crate::tt_iter::subtree_at;
use vstd::prelude::*;

verus! {

pub(crate) proof fn lemma_variables_stop(pattern: TemplateView, i: nat)
    ensures
        variables(pattern, i).1 matches Some(e) ==> has_error(pattern, i, e),
    decreases pattern, pattern.tokens.len() - i,
{
    if i < pattern.tokens.len() {
        if let Ok(op) = pattern.tokens[i as int] {
            lemma_variables_stop(pattern, i + 1);
            match op {
                OpView::Subtree(subtree) => lemma_variables_stop(subtree, 0),
                OpView::Repeat { subtree, .. } => lemma_variables_stop(subtree, 0),
                _ => {},
            }
        }
        if let Some(e) = variables(pattern, i).1 {
            lemma_has_error(pattern, i, e);
        }
    }
}

proof fn lemma_run_stop(
    grammar: Grammar,
    pattern: TemplateView,
    i: nat,
    res: MatchView,
    src: Seq<TreeView>,
)
    ensures
        run(grammar, pattern, i, res, src).stop matches Some(e) ==> has_error(pattern, i, e),
    decreases pattern, 0nat, pattern.tokens.len() - i,
{
    if i < pattern.tokens.len() {
        if let Ok(op) = pattern.tokens[i as int] {
            let step = run_op(grammar, op, res, src);
            match op {
                OpView::Subtree(lhs) => {
                    if let Some(rhs) = subtree_at(src, 0) {
                        lemma_run_stop(grammar, lhs, 0, res, rhs.token_trees);
                    }
                },
                OpView::Repeat { subtree, kind, separator } => {
                    lemma_rounds_stop(grammar, subtree, kind, separator, 0, res, src);
                    lemma_variables_stop(subtree, 0);
                },
                _ => {},
            }
            if step.stop is None {
                lemma_run_stop(grammar, pattern, i + 1, step.res, step.src);
            }
        }
        if let Some(e) = run(grammar, pattern, i, res, src).stop {
            lemma_has_error(pattern, i, e);
        }
    }
}

proof fn lemma_rounds_stop(
    grammar: Grammar,
    pattern: TemplateView,
    kind: RepeatKind,
    separator: Option<SeparatorView>,
    round: nat,
    res: MatchView,
    src: Seq<TreeView>,
)
    ensures
        run_rounds(grammar, pattern, kind, separator, round, res, src).0.stop matches Some(e)
            ==> has_error(pattern, 0, e),
    decreases pattern, 1nat, REPEAT_LIMIT - round,
{
    if let Some(fork) = round_src(round, separator, src) {
        let nested = run(grammar, pattern, 0, MatchView::empty(), fork);
        lemma_run_stop(grammar, pattern, 0, MatchView::empty(), fork);
        if nested.stop is None && nested.res.err is None && round + 1 < REPEAT_LIMIT && !(round == 0
            && kind is ZeroOrOne) {
            let more = res.bind_round(round, nested.res.bindings);
            lemma_rounds_stop(grammar, pattern, kind, separator, round + 1, more, nested.src);
        }
    }
}

/// Only errors in the template are returned; what does not match is an error in
/// the match. So a template without errors always gives a match.
pub proof fn law_only_template_errors_are_returned(
    grammar: Grammar,
    pattern: TemplateView,
    src: Seq<TreeView>,
)
    ensures
        matched(grammar, pattern, src) matches Err(e) ==> has_error(pattern, 0, e),
        (forall|e: ErrorView| !has_error(pattern, 0, e)) ==> matched(grammar, pattern, src) is Ok,
{
    lemma_run_stop(grammar, pattern, 0, MatchView::empty(), src);
}

proof fn lemma_run_reaches_error(
    grammar: Grammar,
    pattern: TemplateView,
    i: nat,
    k: nat,
    res: MatchView,
    src: Seq<TreeView>,
)
    requires
        i <= k < pattern.tokens.len(),
        pattern.tokens[k as int] is Err,
    ensures
        run(grammar, pattern, i, res, src).stop is Some,
    decreases k - i,
{
    if let Ok(op) = pattern.tokens[i as int] {
        let step = run_op(grammar, op, res, src);
        if step.stop is None {
            lemma_run_reaches_error(grammar, pattern, i + 1, k, step.res, step.src);
        }
    }
}

/// A rule with an element that could not be parsed is not used, whatever the
/// input.
pub proof fn law_broken_template_is_refused(
    grammar: Grammar,
    pattern: TemplateView,
    k: int,
    src: Seq<TreeView>,
)
    requires
        0 <= k < pattern.tokens.len(),
        pattern.tokens[k] is Err,
    ensures
        matched(grammar, pattern, src) is Err,
{
    lemma_run_reaches_error(grammar, pattern, 0, k as nat, MatchView::empty(), src);
}

} // verus!
