//! What stays as it is while a match grows.
use crate::bindings::{
    align, bind, bind_round, distinct, empty_fragment, lookup, BindingView, Slots,
};
use crate::fragment::Grammar;
use crate::laws::binding::{
    law_binding_keeps_names_distinct, law_binding_leaves_others_alone, law_bound_name_is_found,
};
use crate::laws::input::{
    is_left_of, law_variable_is_what_it_took, lemma_left_refl, lemma_left_rest, lemma_left_trans,
    lemma_separator_left,
};
use crate::semantics::{
    matched, round_src, run, run_op, run_repeat, run_rounds, take_var, variables, MatchView,
    REPEAT_LIMIT,
};
use crate::template::{OpView, RepeatKind, SeparatorView, TemplateView};
use crate::tt::TreeView;
use crate::tt_iter::subtree_at;
use vstd::prelude::*;

verus! {

/// How a match can change, whatever is matched: the first error stays and the
/// rest are counted, what is bound stays bound, and no name gets a second slot.
pub open spec fn grows(before: MatchView, after: MatchView) -> bool {
    &&& after.unmatched_tts == before.unmatched_tts
    &&& after.err_count >= before.err_count
    &&& before.err is Some ==> after.err == before.err
    &&& before.err is None ==> (after.err is Some <==> after.err_count > before.err_count)
    &&& distinct(before.bindings) ==> distinct(after.bindings)
    &&& forall|name: Seq<char>|
        lookup(before.bindings, name) is Some ==> #[trigger] lookup(after.bindings, name) is Some
}

proof fn lemma_grows_trans(a: MatchView, b: MatchView, c: MatchView)
    requires
        grows(a, b),
        grows(b, c),
    ensures
        grows(a, c),
{
    assert forall|name: Seq<char>| lookup(a.bindings, name) is Some implies #[trigger] lookup(
        c.bindings,
        name,
    ) is Some by {
        assert(lookup(b.bindings, name) is Some);
    }
}

proof fn lemma_grows_bind(res: MatchView, name: Seq<char>, binding: BindingView)
    ensures
        grows(res, res.bind(name, binding)),
{
    if distinct(res.bindings) {
        law_binding_keeps_names_distinct(res.bindings, name, binding);
    }
    assert forall|other: Seq<char>| lookup(res.bindings, other) is Some implies #[trigger] lookup(
        res.bind(name, binding).bindings,
        other,
    ) is Some by {
        if other == name {
            law_bound_name_is_found(res.bindings, name, binding);
        } else {
            law_binding_leaves_others_alone(res.bindings, name, binding, other);
        }
    }
}

pub(crate) proof fn lemma_grows_bind_round(res: MatchView, idx: nat, nested: Slots)
    ensures
        grows(res, MatchView { bindings: bind_round(res.bindings, idx, nested).0, ..res }),
        grows(res, res.bind_round(idx, nested)),
    decreases nested.len(),
{
    if nested.len() > 0 {
        let (name, value) = nested[0];
        match lookup(res.bindings, name) {
            None => {
                let b = BindingView::Nested(align(Seq::empty(), idx, value));
                lemma_grows_bind(res, name, b);
                lemma_grows_bind_round(res.bind(name, b), idx, nested.drop_first());
                lemma_grows_trans(
                    res,
                    res.bind(name, b),
                    res.bind(name, b).bind_round(idx, nested.drop_first()),
                );
            },
            Some(BindingView::Nested(run)) => {
                let b = BindingView::Nested(align(run, idx, value));
                lemma_grows_bind(res, name, b);
                lemma_grows_bind_round(res.bind(name, b), idx, nested.drop_first());
                lemma_grows_trans(
                    res,
                    res.bind(name, b),
                    res.bind(name, b).bind_round(idx, nested.drop_first()),
                );
            },
            Some(_) => {},
        }
    }
}

/// Adding a round keeps names distinct.
pub proof fn law_round_keeps_names_distinct(slots: Slots, idx: nat, nested: Slots)
    requires
        distinct(slots),
    ensures
        distinct(bind_round(slots, idx, nested).0),
{
    lemma_grows_bind_round(MatchView { bindings: slots, ..MatchView::empty() }, idx, nested);
}

proof fn lemma_grows_bind_empty(res: MatchView, names: Seq<Seq<char>>)
    ensures
        grows(res, res.bind_empty(names)),
    decreases names.len(),
{
    if names.len() > 0 {
        let next = res.bind(names[0], BindingView::Empty);
        lemma_grows_bind(res, names[0], BindingView::Empty);
        lemma_grows_bind_empty(next, names.drop_first());
        lemma_grows_trans(res, next, next.bind_empty(names.drop_first()));
    }
}

proof fn lemma_op_grows(grammar: Grammar, op: OpView, res: MatchView, src: Seq<TreeView>)
    ensures
        ({
            let all = run_op(grammar, op, res, src);
            grows(res, all.res) && is_left_of(all.src, src)
        }),
    decreases op, 3nat, 0nat,
{
    lemma_left_rest(src);
    lemma_left_refl(src);
    match op {
        OpView::Leaf(_) => {},
        OpView::Subtree(lhs) => {
            if let Some(rhs) = subtree_at(src, 0) {
                law_matching_only_adds(grammar, lhs, 0, res, rhs.token_trees);
            }
        },
        OpView::Var { name, kind } => {
            if let Some(kind) = kind {
                let taken = take_var(grammar, src, kind);
                law_variable_is_what_it_took(grammar, src, kind);
                if let Some(fragment) = taken.value {
                    lemma_grows_bind(res, name, BindingView::Fragment(fragment));
                } else {
                    lemma_grows_bind(res, name, empty_fragment());
                }
            }
        },
        OpView::Repeat { subtree, kind, separator } => {
            lemma_repeat_grows(grammar, subtree, kind, separator, res, src);
        },
    }
}

/// Matching only ever adds to a match, and takes the input from the front. This
/// holds also of a run that the template stops.
pub proof fn law_matching_only_adds(
    grammar: Grammar,
    pattern: TemplateView,
    i: nat,
    res: MatchView,
    src: Seq<TreeView>,
)
    ensures
        ({
            let all = run(grammar, pattern, i, res, src);
            grows(res, all.res) && is_left_of(all.src, src)
        }),
    decreases pattern, 0nat, pattern.tokens.len() - i,
{
    lemma_left_refl(src);
    if i < pattern.tokens.len() {
        if let Ok(op) = pattern.tokens[i as int] {
            let step = run_op(grammar, op, res, src);
            lemma_op_grows(grammar, op, res, src);
            if step.stop is None {
                let all = run(grammar, pattern, i + 1, step.res, step.src);
                law_matching_only_adds(grammar, pattern, i + 1, step.res, step.src);
                lemma_grows_trans(res, step.res, all.res);
                lemma_left_trans(all.src, step.src, src);
            }
        }
    }
}

pub(crate) proof fn lemma_rounds_grow(
    grammar: Grammar,
    pattern: TemplateView,
    kind: RepeatKind,
    separator: Option<SeparatorView>,
    round: nat,
    res: MatchView,
    src: Seq<TreeView>,
)
    ensures
        ({
            let (all, count) = run_rounds(grammar, pattern, kind, separator, round, res, src);
            grows(res, all.res) && is_left_of(all.src, src) && count >= round
        }),
    decreases pattern, 1nat, REPEAT_LIMIT - round,
{
    lemma_left_refl(src);
    if let Some(fork) = round_src(round, separator, src) {
        if let Some(it) = separator {
            lemma_separator_left(src, it);
        }
        let nested = run(grammar, pattern, 0, MatchView::empty(), fork);
        law_matching_only_adds(grammar, pattern, 0, MatchView::empty(), fork);
        lemma_left_trans(nested.src, fork, src);
        let more = res.bind_round(round, nested.res.bindings);
        lemma_grows_bind_round(res, round, nested.res.bindings);
        if nested.stop is None && nested.res.err is None && round + 1 < REPEAT_LIMIT && !(round == 0
            && kind is ZeroOrOne) {
            let (all, count) = run_rounds(
                grammar,
                pattern,
                kind,
                separator,
                round + 1,
                more,
                nested.src,
            );
            lemma_rounds_grow(grammar, pattern, kind, separator, round + 1, more, nested.src);
            lemma_grows_trans(res, more, all.res);
            lemma_left_trans(all.src, nested.src, src);
        }
    }
}

proof fn lemma_repeat_grows(
    grammar: Grammar,
    pattern: TemplateView,
    kind: RepeatKind,
    separator: Option<SeparatorView>,
    res: MatchView,
    src: Seq<TreeView>,
)
    ensures
        ({
            let all = run_repeat(grammar, pattern, kind, separator, res, src);
            grows(res, all.res) && is_left_of(all.src, src)
        }),
    decreases pattern, 2nat, 0nat,
{
    let (rounds, count) = run_rounds(grammar, pattern, kind, separator, 0, res, src);
    lemma_rounds_grow(grammar, pattern, kind, separator, 0, res, src);
    lemma_grows_bind_empty(rounds.res, variables(pattern, 0).0);
    lemma_grows_trans(res, rounds.res, rounds.res.bind_empty(variables(pattern, 0).0));
}

/// A match has an error if and only if it counts one. One that left trees
/// unmatched has an error, so that one without error took all of the input.
pub proof fn law_errors_are_counted(grammar: Grammar, pattern: TemplateView, src: Seq<TreeView>)
    ensures
        matched(grammar, pattern, src) matches Ok(m) ==> {
            &&& m.err is Some <==> m.err_count > 0
            &&& m.unmatched_tts > 0 ==> m.err is Some
            &&& m.unmatched_tts == run(grammar, pattern, 0, MatchView::empty(), src).src.len()
            &&& m.unmatched_tts <= src.len()
        },
{
    law_matching_only_adds(grammar, pattern, 0, MatchView::empty(), src);
}

/// No variable is bound twice.
pub proof fn law_names_are_distinct(grammar: Grammar, pattern: TemplateView, src: Seq<TreeView>)
    ensures
        matched(grammar, pattern, src) matches Ok(m) ==> distinct(m.bindings),
{
    law_matching_only_adds(grammar, pattern, 0, MatchView::empty(), src);
}

} // verus!
