//! How the elements of a template follow one another, and what comes of the
//! input that they leave.
use crate::bindings::{bind, lemma_position_is_first, lookup, position, BindingView, Slots};
use crate::error::ErrorView;
use crate::fragment::Grammar;
use crate::laws::growth::law_matching_only_adds;
use crate::semantics::{matched, run, run_op, variables, MatchView, Run};
use crate::template::{OpView, TemplateView};
use crate::tt::TreeView;
use vstd::prelude::*;

verus! {

/// The template of one element.
pub open spec fn one(op: OpView) -> TemplateView {
    TemplateView { delimiter: None, tokens: seq![Ok(op)] }
}

/// The match that a rule starts with.
pub open spec fn blank() -> MatchView {
    MatchView { bindings: Seq::empty(), err: None, err_count: 0, unmatched_tts: 0 }
}

/// No error came up between `before` and `after`.
pub open spec fn went_well(before: MatchView, after: MatchView) -> bool {
    &&& after.err == before.err
    &&& after.err_count == before.err_count
    &&& after.unmatched_tts == before.unmatched_tts
}

/// The one error that came up between `before` and `after` is `e`. An earlier
/// error is kept in its place.
pub open spec fn went_wrong(before: MatchView, after: MatchView, e: ErrorView) -> bool {
    &&& after.err == match before.err {
        Some(first) => Some(first),
        None => Some(e),
    }
    &&& after.err_count == before.err_count + 1
    &&& after.unmatched_tts == before.unmatched_tts
}

/// `after` is `before` but for the value of `name`, which stands in the first
/// slot of that name, or in a new one at the end.
pub open spec fn holds(before: Slots, after: Slots, name: Seq<char>, value: BindingView) -> bool {
    ||| exists|p: int|
        0 <= p < before.len() && (#[trigger] before[p]).0 == name && (forall|j: int|
            0 <= j < p ==> (#[trigger] before[j]).0 != name) && after == before.update(
            p,
            (name, value),
        )
    ||| (forall|j: int| 0 <= j < before.len() ==> (#[trigger] before[j]).0 != name) && after
        == before.push((name, value))
}

pub(crate) proof fn lemma_bind_holds(slots: Slots, name: Seq<char>, value: BindingView)
    ensures
        holds(slots, bind(slots, name, value), name, value),
{
    lemma_position_is_first(slots, name);
    let p = position(slots, name);
    if p < slots.len() {
        assert(slots[p as int].0 == name);
    }
}

pub(crate) proof fn lemma_one(grammar: Grammar, op: OpView, res: MatchView, src: Seq<TreeView>)
    ensures
        run(grammar, one(op), 0, res, src) == run_op(grammar, op, res, src),
{
    let pattern = one(op);
    let step = run_op(grammar, op, res, src);
    assert(pattern.tokens[0] == Ok::<OpView, ErrorView>(op));
    assert(run(grammar, pattern, 1, step.res, step.src) == (Run {
        res: step.res,
        src: step.src,
        stop: None,
    }));
}

/// The elements of a template are matched one after the other, each on what the
/// ones before it left, and each as it is matched on its own. An element that
/// could not be parsed ends the run with its error.
pub proof fn law_elements_follow_one_another(
    grammar: Grammar,
    pattern: TemplateView,
    i: nat,
    res: MatchView,
    src: Seq<TreeView>,
)
    ensures
        i >= pattern.tokens.len() ==> run(grammar, pattern, i, res, src) == (Run {
            res,
            src,
            stop: None,
        }),
        i < pattern.tokens.len() ==> run(grammar, pattern, i, res, src)
            == match pattern.tokens[i as int] {
            Err(e) => Run { res, src, stop: Some(e) },
            Ok(op) => {
                let first = run(grammar, one(op), 0, res, src);
                if first.stop is Some {
                    first
                } else {
                    run(grammar, pattern, i + 1, first.res, first.src)
                }
            },
        },
{
    if i < pattern.tokens.len() {
        if let Ok(op) = pattern.tokens[i as int] {
            lemma_one(grammar, op, res, src);
        }
    }
}

/// A rule is matched from nothing, against all of the input. Trees that are left
/// are counted, and are one more error.
pub proof fn law_leftover_trees_are_an_error(
    grammar: Grammar,
    pattern: TemplateView,
    src: Seq<TreeView>,
)
    ensures
        ({
            let all = run(grammar, pattern, 0, blank(), src);
            match matched(grammar, pattern, src) {
                Err(e) => all.stop == Some(e),
                Ok(m) => {
                    &&& all.stop is None
                    &&& m.bindings == all.res.bindings
                    &&& m.unmatched_tts == all.src.len()
                    &&& all.src.len() == 0 ==> m.err == all.res.err && m.err_count
                        == all.res.err_count
                    &&& all.src.len() > 0 ==> m.err_count == all.res.err_count + 1
                    &&& all.src.len() > 0 ==> m.err == match all.res.err {
                        Some(first) => Some(first),
                        None => Some(ErrorView::BindingError("leftover tokens"@)),
                    }
                },
            }
        }),
{
    law_matching_only_adds(grammar, pattern, 0, blank(), src);
    assert(MatchView::empty() == blank());
}

/// The value of a name is that in the first slot of the name. A name without a
/// slot has none.
pub proof fn law_value_is_in_the_first_slot(slots: Slots, name: Seq<char>)
    ensures
        lookup(slots, name) is None <==> forall|j: int|
            0 <= j < slots.len() ==> (#[trigger] slots[j]).0 != name,
        forall|p: int|
            0 <= p < slots.len() && (#[trigger] slots[p]).0 == name && (forall|j: int|
                0 <= j < p ==> (#[trigger] slots[j]).0 != name) ==> lookup(slots, name) == Some(
                slots[p].1,
            ),
{
    lemma_position_is_first(slots, name);
    let q = position(slots, name);
    if q < slots.len() {
        assert(slots[q as int].0 == name);
    }
    assert forall|p: int|
        0 <= p < slots.len() && (#[trigger] slots[p]).0 == name && (forall|j: int|
            0 <= j < p ==> (#[trigger] slots[j]).0 != name) implies lookup(slots, name) == Some(
        slots[p].1,
    ) by {
        assert(slots[p].0 == name);
        if q < p {
            assert(slots[q as int].0 != name);
        }
    }
}

/// Binding a name changes the first slot of the name, or adds one at the end,
/// and nothing else.
pub proof fn law_binding_changes_one_slot(slots: Slots, name: Seq<char>, value: BindingView)
    ensures
        holds(slots, bind(slots, name, value), name, value),
{
    lemma_bind_holds(slots, name, value);
}

/// The variables of a template are those of its elements, in order: a variable
/// itself, and those within a group or a repetition. The first element that
/// could not be parsed ends the list.
pub proof fn law_variables_come_in_order(pattern: TemplateView, i: nat)
    ensures
        i >= pattern.tokens.len() ==> variables(pattern, i) == (
            Seq::<Seq<char>>::empty(),
            None::<ErrorView>,
        ),
        i < pattern.tokens.len() ==> match pattern.tokens[i as int] {
            Err(e) => variables(pattern, i) == (Seq::<Seq<char>>::empty(), Some(e)),
            Ok(OpView::Leaf(_)) => variables(pattern, i) == variables(pattern, i + 1),
            Ok(OpView::Var { name, .. }) => {
                &&& variables(pattern, i).0 == seq![name] + variables(pattern, i + 1).0
                &&& variables(pattern, i).1 == variables(pattern, i + 1).1
            },
            Ok(OpView::Subtree(inner)) | Ok(OpView::Repeat { subtree: inner, .. }) => {
                let within = variables(inner, 0);
                if within.1 is Some {
                    variables(pattern, i) == within
                } else {
                    &&& variables(pattern, i).0 == within.0 + variables(pattern, i + 1).0
                    &&& variables(pattern, i).1 == variables(pattern, i + 1).1
                }
            },
        },
{
    if i < pattern.tokens.len() {
        let later = variables(pattern, i + 1);
        if let Ok(OpView::Leaf(_)) = pattern.tokens[i as int] {
            assert(Seq::<Seq<char>>::empty() + later.0 =~= later.0);
            assert(variables(pattern, i).0 == Seq::<Seq<char>>::empty() + later.0);
        }
    }
}

} // verus!
