//! What a parser's report makes of the input.
use crate::bindings::{BindingView, FragmentView};
use crate::buffer::{
    landing, lemma_landing, lemma_landing_past_end, lemma_steps_take, steps, tree_steps,
};
use crate::error::ErrorView;
use crate::fragment::{
    clamped, covered, event_steps, take_covered, take_fragment, FragmentKind, Grammar, SyntaxKind,
    TreeEvent,
};
use crate::laws::elements::{blank, law_leftover_trees_are_an_error, one};
use crate::laws::kinds::{law_variable_of_a_syntactic_kind, var};
use crate::laws::trees::loose;
use crate::semantics::{matched, run};
use crate::tt::TreeView;
use vstd::prelude::*;

verus! {

/// How many tokens a parser sees in a tree: a group has one more on either side
/// of its content, also where it has no delimiter.
pub open spec fn width(tree: TreeView) -> nat
    decreases tree,
{
    match tree {
        TreeView::Subtree(group) => widths(group.token_trees) + 2,
        TreeView::Leaf(_) => 1,
    }
}

/// How many tokens a parser sees in a run of trees.
pub open spec fn widths(trees: Seq<TreeView>) -> nat
    decreases trees,
{
    if trees.len() == 0 {
        0
    } else {
        widths(trees.drop_last()) + width(trees[trees.len() - 1])
    }
}

/// How many tokens of the input a parser has accepted. A lifetime is two of
/// them, whatever the parser says.
pub open spec fn accepted(events: Seq<TreeEvent>) -> nat
    decreases events.len(),
{
    if events.len() == 0 {
        0
    } else {
        accepted(events.drop_first()) + match events[0] {
            TreeEvent::Token { kind, n_tokens } => if kind == SyntaxKind::LifetimeIdent {
                2
            } else {
                n_tokens as nat
            },
            _ => 0,
        }
    }
}

proof fn lemma_width(tree: TreeView)
    ensures
        width(tree) == tree_steps(tree),
    decreases tree,
{
    if let TreeView::Subtree(group) = tree {
        law_walk_has_a_step_for_each_token(group.token_trees);
    }
}

/// A walk over a run of trees has as many steps as a parser sees tokens.
pub proof fn law_walk_has_a_step_for_each_token(trees: Seq<TreeView>)
    ensures
        steps(trees) == widths(trees),
    decreases trees,
{
    if trees.len() > 0 {
        let n = trees.len() - 1;
        law_walk_has_a_step_for_each_token(trees.drop_last());
        lemma_width(trees[n]);
        lemma_steps_take(trees, n);
        assert(trees.take(n) =~= trees.drop_last());
        assert(trees.take(n + 1) =~= trees);
    }
}

/// A walk of as many steps as the first trees have tokens ends behind these
/// trees; one that is longer, but not by a whole tree, ends inside the next. A
/// walk goes no further than the end.
pub proof fn law_walk_ends_behind_whole_trees_or_inside_one(trees: Seq<TreeView>, n: int, len: nat)
    requires
        0 <= n <= trees.len(),
        n < trees.len() ==> widths(trees.take(n)) <= len < widths(trees.take(n + 1)),
        n == trees.len() ==> widths(trees) <= len,
    ensures
        landing(trees, len) == if n == trees.len() || len == widths(trees.take(n)) {
            Some(n as nat)
        } else {
            None
        },
{
    law_walk_has_a_step_for_each_token(trees.take(n));
    if n < trees.len() {
        law_walk_has_a_step_for_each_token(trees.take(n + 1));
        lemma_steps_take(trees, n);
        lemma_landing(trees, n, (len - steps(trees.take(n))) as nat);
    } else {
        assert(trees.take(n) =~= trees);
        lemma_landing_past_end(trees, len);
    }
}

proof fn lemma_covered_parts(events: Seq<TreeEvent>)
    requires
        events.len() > 0,
    ensures
        covered(events) == event_steps(events[0]) + covered(events.drop_first()),
    decreases events.len(),
{
    if events.len() > 1 {
        let front = events.drop_last();
        lemma_covered_parts(front);
        assert(front.drop_first() =~= events.drop_first().drop_last());
        assert(front[0] == events[0]);
    } else {
        assert(covered(events.drop_last()) == 0);
        assert(covered(events.drop_first()) == 0);
    }
}

/// A report covers as many tokens of the input as the parser has accepted.
pub proof fn law_report_covers_what_is_accepted(events: Seq<TreeEvent>)
    ensures
        covered(events) == accepted(events),
    decreases events.len(),
{
    if events.len() > 0 {
        law_report_covers_what_is_accepted(events.drop_first());
        lemma_covered_parts(events);
    }
}

/// A token takes a walk on by as many steps as it has tokens of the input, two
/// for a lifetime, but not past the end. Nodes and errors take it nowhere.
pub proof fn law_token_is_a_step_for_each_of_its_parts(
    trees: Seq<TreeView>,
    n: nat,
    n_tokens: u8,
)
    ensures
        event_steps(TreeEvent::Token { kind: SyntaxKind::LifetimeIdent, n_tokens }) == 2,
        event_steps(TreeEvent::Token { kind: SyntaxKind::Other, n_tokens }) == n_tokens,
        event_steps(TreeEvent::StartNode) == 0,
        event_steps(TreeEvent::FinishNode) == 0,
        event_steps(TreeEvent::Error) == 0,
        n <= widths(trees) ==> clamped(trees, n) == n,
        n >= widths(trees) ==> clamped(trees, n) == widths(trees),
{
    law_walk_has_a_step_for_each_token(trees);
}

/// The message for a fragment that is not there names the kind.
pub open spec fn expected(kind: FragmentKind) -> ErrorView {
    ErrorView::BindingError(
        "expected "@ + (match kind {
            FragmentKind::Block => "Block"@,
            FragmentKind::Expr => "Expr"@,
            FragmentKind::Item => "Item"@,
            FragmentKind::MetaItem => "MetaItem"@,
            FragmentKind::Path => "Path"@,
            FragmentKind::Pattern => "Pattern"@,
            FragmentKind::Statement => "Statement"@,
            FragmentKind::Type => "Type"@,
            FragmentKind::Visibility => "Visibility"@,
        }),
    )
}

/// Where a parser has accepted the tokens of the first `n` trees, or has gone
/// past the end, these trees are the fragment: one tree as it is, several in a
/// group without delimiter. They are taken also where the parser met an error.
/// To accept nothing is an error.
pub proof fn law_fragment_is_what_the_parser_accepted(
    src: Seq<TreeView>,
    kind: FragmentKind,
    events: Seq<TreeEvent>,
    n: int,
)
    requires
        0 <= n <= src.len(),
        n < src.len() ==> accepted(events) == widths(src.take(n)),
        n == src.len() ==> accepted(events) >= widths(src),
    ensures
        take_covered(src, kind, events) == (
            src.skip(n),
            if n == 0 {
                None
            } else if n == 1 {
                Some(src[0])
            } else {
                Some(loose(src.take(n)))
            },
            if exists|i: int| 0 <= i < events.len() && events[i] == TreeEvent::Error {
                Some(expected(kind))
            } else if n == 0 {
                Some(ErrorView::BindingError("no tokens consumed"@))
            } else {
                None
            },
        ),
{
    law_report_covers_what_is_accepted(events);
    if n < src.len() {
        law_walk_has_a_step_for_each_token(src.take(n));
        assert(tree_steps(src[n]) > 0);
        lemma_landing(src, n, 0);
    } else {
        law_walk_has_a_step_for_each_token(src);
        lemma_landing_past_end(src, accepted(events));
    }
    assert(events.contains(TreeEvent::Error) <==> exists|i: int|
        0 <= i < events.len() && events[i] == TreeEvent::Error);
}

/// Where a parser stopped inside a tree, nothing is taken, and the fragment is
/// missing.
pub proof fn law_no_fragment_ends_inside_a_tree(
    src: Seq<TreeView>,
    kind: FragmentKind,
    events: Seq<TreeEvent>,
    n: int,
)
    requires
        0 <= n < src.len(),
        widths(src.take(n)) < accepted(events) < widths(src.take(n + 1)),
    ensures
        take_covered(src, kind, events) == (src, None::<TreeView>, Some(expected(kind))),
{
    law_report_covers_what_is_accepted(events);
    law_walk_ends_behind_whole_trees_or_inside_one(src, n, accepted(events));
    assert(src.skip(0) =~= src);
}

/// The parser is asked about all of the input that is left, and for the kind of
/// fragment that is looked for.
pub proof fn law_parser_is_asked_for_the_kind(
    grammar: Grammar,
    src: Seq<TreeView>,
    kind: FragmentKind,
)
    ensures
        take_fragment(grammar, src, kind) == take_covered(src, kind, grammar(src, kind)),
{
}

/// A rule of one expression matches an input that a parser accepts as one
/// without an error, and binds the variable to all of it, marked as an
/// expression.
pub proof fn law_rule_of_one_expression(grammar: Grammar, name: Seq<char>, src: Seq<TreeView>)
    requires
        src.len() > 0,
        accepted(grammar(src, FragmentKind::Expr)) >= widths(src),
        forall|i: int|
            0 <= i < grammar(src, FragmentKind::Expr).len() ==> #[trigger] grammar(
                src,
                FragmentKind::Expr,
            )[i] != TreeEvent::Error,
    ensures
        matched(grammar, one(var(name, Some("expr"@))), src) matches Ok(m) && {
            &&& m.err is None
            &&& m.unmatched_tts == 0
            &&& m.bindings == seq![
                (
                    name,
                    BindingView::Fragment(
                        FragmentView::Ast(
                            if src.len() == 1 {
                                src[0]
                            } else {
                                loose(src)
                            },
                        ),
                    ),
                ),
            ]
        },
{
    let pattern = one(var(name, Some("expr"@)));
    let events = grammar(src, FragmentKind::Expr);
    let n = src.len() as int;
    law_fragment_is_what_the_parser_accepted(src, FragmentKind::Expr, events, n);
    law_variable_of_a_syntactic_kind(
        grammar,
        name,
        "expr"@,
        FragmentKind::Expr,
        blank(),
        src,
    );
    law_leftover_trees_are_an_error(grammar, pattern, src);
    assert(src.take(n) =~= src);
    let bindings = run(grammar, pattern, 0, blank(), src).res.bindings;
    assert(bindings.len() == 1);
    assert(bindings =~= seq![bindings[0]]);
}

} // verus!
