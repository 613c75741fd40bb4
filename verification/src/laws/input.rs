//! What a variable takes from the input.
use crate::bindings::FragmentView;
use crate::buffer::{landing, lemma_landing, lemma_landing_bound, steps, tree_steps};
use crate::error::ErrorView;
use crate::fragment::{covered, kind_name, take_covered, FragmentKind, Grammar, TreeEvent};
use crate::semantics::{syntactic, take_literal, take_var};
use crate::template::SeparatorView;
use crate::tt::TreeView;
use crate::tt_iter::{bundle, operator_len, punct_at, rest, take_lifetime, take_separator, take_tt};
use vstd::prelude::*;

verus! {

/// What is left of `src` once trees have been taken from its front.
pub open spec fn is_left_of(left: Seq<TreeView>, src: Seq<TreeView>) -> bool {
    exists|n: int| 0 <= n <= src.len() && left == #[trigger] src.skip(n)
}

proof fn lemma_left(left: Seq<TreeView>, src: Seq<TreeView>, n: int)
    requires
        0 <= n <= src.len(),
        left =~= src.skip(n),
    ensures
        is_left_of(left, src),
{
}

pub(crate) proof fn lemma_left_refl(src: Seq<TreeView>)
    ensures
        is_left_of(src, src),
{
    lemma_left(src, src, 0);
}

pub(crate) proof fn lemma_left_trans(a: Seq<TreeView>, b: Seq<TreeView>, c: Seq<TreeView>)
    requires
        is_left_of(a, b),
        is_left_of(b, c),
    ensures
        is_left_of(a, c),
{
    let n = choose|n: int| 0 <= n <= b.len() && a == #[trigger] b.skip(n);
    let m = choose|m: int| 0 <= m <= c.len() && b == #[trigger] c.skip(m);
    lemma_left(a, c, m + n);
}

pub(crate) proof fn lemma_left_rest(src: Seq<TreeView>)
    ensures
        is_left_of(rest(src), src),
        is_left_of(rest(rest(src)), src),
{
    if src.len() == 0 {
        lemma_left_refl(src);
    } else {
        lemma_left(rest(src), src, 1);
        if src.len() > 1 {
            lemma_left(rest(rest(src)), src, 2);
        }
    }
}

pub(crate) proof fn lemma_separator_left(src: Seq<TreeView>, separator: SeparatorView)
    ensures
        take_separator(src, separator) matches Some(left) ==> is_left_of(left, src),
{
    lemma_left_rest(src);
    if let Some(left) = take_separator(src, separator) {
        if let SeparatorView::Puncts(lhss) = separator {
            if lhss.len() > 0 {
                assert(lhss[lhss.len() - 1].char == punct_at(src, lhss.len() - 1)->0.char);
            }
            lemma_left(left, src, lhss.len() as int);
        }
    }
}

/// `tree` is the first trees of `src`, a single one as it is and several as a
/// group without delimiter, and `left` is the rest.
pub open spec fn takes(src: Seq<TreeView>, left: Seq<TreeView>, tree: TreeView) -> bool {
    exists|n: int|
        1 <= n <= src.len() && left == #[trigger] src.skip(n) && tree == bundle(src.take(n))
}

proof fn lemma_takes(src: Seq<TreeView>, left: Seq<TreeView>, tree: TreeView, n: int)
    requires
        1 <= n <= src.len(),
        left =~= src.skip(n),
        tree == bundle(src.take(n)),
    ensures
        takes(src, left, tree),
        is_left_of(left, src),
{
}

proof fn lemma_covered(src: Seq<TreeView>, kind: FragmentKind, events: Seq<TreeEvent>)
    ensures
        ({
            let (left, value, err) = take_covered(src, kind, events);
            &&& is_left_of(left, src)
            &&& value matches Some(tree) ==> takes(src, left, tree)
            &&& value is None ==> err is Some && left == src
        }),
{
    lemma_landing_bound(src, covered(events));
    lemma_left_refl(src);
    let (left, value, err) = take_covered(src, kind, events);
    match landing(src, covered(events)) {
        Some(n) if n > 0 => {
            lemma_takes(src, left, value->0, n as int);
        },
        _ => {
            assert(left =~= src);
        },
    }
}

proof fn lemma_lifetime(src: Seq<TreeView>)
    ensures
        is_left_of(take_lifetime(src).0, src),
        take_lifetime(src).1 matches Some(tree) ==> takes(src, take_lifetime(src).0, tree),
{
    lemma_left_rest(src);
    if let Some(tree) = take_lifetime(src).1 {
        lemma_takes(src, rest(rest(src)), tree, 2);
    }
}

proof fn lemma_tt(src: Seq<TreeView>)
    ensures
        is_left_of(take_tt(src).0, src),
        take_tt(src).1 matches Some(tree) ==> takes(src, take_tt(src).0, tree),
{
    lemma_lifetime(src);
    lemma_left_refl(src);
    if src.len() > 0 && !(punct_at(src, 0) matches Some(p) && p.char == '\'') {
        lemma_takes(src, take_tt(src).0, take_tt(src).1->0, operator_len(src) as int);
    }
}

/// A variable is bound to the very trees that it took from the front of the
/// input. Expressions, and nothing else, are marked as such.
pub proof fn law_variable_is_what_it_took(grammar: Grammar, src: Seq<TreeView>, kind: Seq<char>)
    ensures
        ({
            let taken = take_var(grammar, src, kind);
            &&& is_left_of(taken.src, src)
            &&& taken.value matches Some(FragmentView::Tokens(tree)) ==> kind != "expr"@ && takes(
                src,
                taken.src,
                tree,
            )
            &&& taken.value matches Some(FragmentView::Ast(tree)) ==> kind == "expr"@ && takes(
                src,
                taken.src,
                tree,
            )
        }),
{
    reveal_strlit("expr");
    reveal_strlit("path");
    let taken = take_var(grammar, src, kind);
    lemma_left_refl(src);
    lemma_left_rest(src);
    if let Some(fragment) = syntactic(kind) {
        lemma_covered(src, fragment, grammar(src, fragment));
        assert("expr"@[0] != "path"@[0]);
    } else if kind == "tt"@ {
        lemma_tt(src);
    } else if kind == "lifetime"@ {
        lemma_lifetime(src);
    } else if kind == "ident"@ {
        if taken.value is Some {
            lemma_takes(src, taken.src, src[0], 1);
        }
    } else if kind == "literal"@ {
        if let Some(tree) = take_literal(src).1 {
            let n: int = if punct_at(src, 0) matches Some(minus) && minus.char == '-' {
                2
            } else {
                1
            };
            lemma_takes(src, taken.src, tree, n);
        }
    } else if kind == "vis"@ {
        lemma_covered(src, FragmentKind::Visibility, grammar(src, FragmentKind::Visibility));
    }
}

/// A visibility is optional: looking for one is never an error, and takes
/// nothing where there is none.
pub proof fn law_visibility_is_optional(grammar: Grammar, src: Seq<TreeView>)
    ensures
        ({
            let taken = take_var(grammar, src, "vis"@);
            &&& taken.err is None
            &&& taken.value is None ==> taken.src == src
        }),
{
    reveal_strlit("vis");
    reveal_strlit("path");
    reveal_strlit("expr");
    reveal_strlit("ty");
    reveal_strlit("pat");
    reveal_strlit("stmt");
    reveal_strlit("block");
    reveal_strlit("meta");
    reveal_strlit("item");
    reveal_strlit("ident");
    reveal_strlit("tt");
    reveal_strlit("lifetime");
    reveal_strlit("literal");
    assert("vis"@.len() == 3 && "pat"@[0] != "vis"@[0]);
    lemma_covered(src, FragmentKind::Visibility, grammar(src, FragmentKind::Visibility));
}

/// A variable of kind `tt` takes whatever tree comes first, unless that is a
/// quote.
pub proof fn law_tt_takes_any_tree(src: Seq<TreeView>)
    requires
        src.len() > 0,
        !(punct_at(src, 0) matches Some(it) && it.char == '\''),
    ensures
        take_tt(src).1 is Some,
{
}

/// Where the events of a parser cover whole trees, without an error, these trees
/// are the fragment.
pub proof fn law_whole_trees_are_the_fragment(
    src: Seq<TreeView>,
    kind: FragmentKind,
    events: Seq<TreeEvent>,
    n: int,
)
    requires
        1 <= n <= src.len(),
        covered(events) == steps(src.take(n)),
        !events.contains(TreeEvent::Error),
    ensures
        take_covered(src, kind, events) == (
            src.skip(n),
            Some(bundle(src.take(n))),
            None::<ErrorView>,
        ),
{
    if n < src.len() {
        assert(tree_steps(src[n]) > 0);
    }
    lemma_landing(src, n, 0);
}

/// Where the events of a parser end inside a tree, nothing is taken.
pub proof fn law_part_of_a_tree_is_no_fragment(
    src: Seq<TreeView>,
    kind: FragmentKind,
    events: Seq<TreeEvent>,
    n: int,
)
    requires
        0 <= n < src.len(),
        steps(src.take(n)) < covered(events) < steps(src.take(n)) + tree_steps(src[n]),
    ensures
        take_covered(src, kind, events) == (
            src,
            None::<TreeView>,
            Some(ErrorView::BindingError("expected "@ + kind_name(kind))),
        ),
{
    lemma_landing(src, n, (covered(events) - steps(src.take(n))) as nat);
    assert(src.skip(0) =~= src);
}

/// Whether an event opens or closes a node of the tree that a parser builds.
pub open spec fn is_node(event: TreeEvent) -> bool {
    event is StartNode || event is FinishNode
}

proof fn lemma_nodes(events: Seq<TreeEvent>)
    ensures
        ({
            let flat = events.filter(|e: TreeEvent| !is_node(e));
            &&& covered(flat) == covered(events)
            &&& flat.contains(TreeEvent::Error) == events.contains(TreeEvent::Error)
        }),
    decreases events.len(),
{
    let keep = |e: TreeEvent| !is_node(e);
    reveal(Seq::filter);
    if events.len() > 0 {
        let before = events.drop_last();
        let last = events.last();
        lemma_nodes(before);
        let flat = before.filter(keep);
        if keep(last) {
            assert(events.filter(keep) == flat.push(last));
            assert(flat.push(last).drop_last() =~= flat);
            lemma_contains_push(flat, last);
        }
        lemma_contains_push(before, last);
        assert(before.push(last) =~= events);
    }
}

proof fn lemma_contains_push(events: Seq<TreeEvent>, last: TreeEvent)
    ensures
        events.push(last).contains(TreeEvent::Error) == (events.contains(TreeEvent::Error) || last
            == TreeEvent::Error),
{
    let all = events.push(last);
    if events.contains(TreeEvent::Error) {
        let j = choose|j: int| 0 <= j < events.len() && events[j] == TreeEvent::Error;
        assert(all[j] == TreeEvent::Error);
    }
    if all.contains(TreeEvent::Error) && last != TreeEvent::Error {
        let j = choose|j: int| 0 <= j < all.len() && all[j] == TreeEvent::Error;
        assert(events[j] == TreeEvent::Error);
    }
    assert(all[events.len() as int] == last);
}

/// What a fragment takes depends on the tokens and errors that the parser
/// reports, not on the nodes that it puts them into.
pub proof fn law_nodes_do_not_matter(
    src: Seq<TreeView>,
    kind: FragmentKind,
    events: Seq<TreeEvent>,
)
    ensures
        take_covered(src, kind, events.filter(|e: TreeEvent| !is_node(e))) == take_covered(
            src,
            kind,
            events,
        ),
{
    lemma_nodes(events);
}

} // verus!
