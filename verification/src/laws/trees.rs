//! Which trees count as one: operators of several characters, lifetimes, and
//! literals with a sign.
use crate::semantics::take_literal;
use crate::tt::{LeafView, Punct, Spacing, SubtreeView, TreeView};
use crate::tt_iter::{bundle, take_lifetime, take_tt};
use vstd::prelude::*;

verus! {

/// `src` without its first `n` trees, or as many as there are.
pub open spec fn without(src: Seq<TreeView>, n: int) -> Seq<TreeView> {
    if src.len() < n {
        Seq::empty()
    } else {
        src.skip(n)
    }
}

/// A group without delimiter.
pub open spec fn loose(token_trees: Seq<TreeView>) -> TreeView {
    TreeView::Subtree(SubtreeView { delimiter: None, token_trees })
}

/// A single tree stands for itself; any other number of trees is put into a
/// group without delimiter, in order.
pub proof fn law_single_tree_stays_as_it_is(run: Seq<TreeView>)
    ensures
        run.len() == 1 ==> bundle(run) == run[0],
        run.len() != 1 ==> bundle(run) == loose(run),
{
}

/// Three punctuation characters that are joint are taken together if they are
/// `...`, `..=`, `<<=` or `>>=`.
pub proof fn law_operator_of_three(src: Seq<TreeView>, a: Punct, b: Punct, c: Punct)
    requires
        src.len() >= 3,
        src[0] == TreeView::Leaf(LeafView::Punct(a)),
        src[1] == TreeView::Leaf(LeafView::Punct(b)),
        src[2] == TreeView::Leaf(LeafView::Punct(c)),
        a.spacing == Spacing::Joint,
        b.spacing == Spacing::Joint,
        a.char == b.char,
        (a.char == '.' && (c.char == '.' || c.char == '=')) || ((a.char == '<' || a.char == '>')
            && c.char == '='),
    ensures
        take_tt(src) == (src.skip(3), Some(loose(src.take(3)))),
{
}

/// A punctuation character that is joint to a second one, where the two do not
/// begin an operator of three characters, is taken together with the second if
/// they are a comparison or an assignment, which ends in `=`, a doubled
/// character or an arrow. Else it is taken alone.
pub proof fn law_operator_of_two(src: Seq<TreeView>, a: Punct, b: Punct)
    requires
        src.len() >= 2,
        src[0] == TreeView::Leaf(LeafView::Punct(a)),
        src[1] == TreeView::Leaf(LeafView::Punct(b)),
        a.spacing == Spacing::Joint,
        a.char != '\'',
        !(b.spacing == Spacing::Joint && a.char == b.char && src.len() > 2 && (
        src[2] matches TreeView::Leaf(LeafView::Punct(c)) && ((a.char == '.' && (c.char == '.'
            || c.char == '=')) || ((a.char == '<' || a.char == '>') && c.char == '=')))),
    ensures
        ({
            let before_equals = {
                ||| a.char == '-'
                ||| a.char == '!'
                ||| a.char == '*'
                ||| a.char == '/'
                ||| a.char == '&'
                ||| a.char == '%'
                ||| a.char == '^'
                ||| a.char == '+'
                ||| a.char == '<'
                ||| a.char == '='
                ||| a.char == '>'
                ||| a.char == '|'
            };
            let can_double = {
                ||| a.char == ':'
                ||| a.char == '.'
                ||| a.char == '&'
                ||| a.char == '<'
                ||| a.char == '>'
                ||| a.char == '|'
            };
            let operator = {
                ||| b.char == '=' && before_equals
                ||| b.char == a.char && can_double
                ||| b.char == '>' && (a.char == '-' || a.char == '=')
            };
            &&& operator ==> take_tt(src) == (src.skip(2), Some(loose(seq![src[0], src[1]])))
            &&& !operator ==> take_tt(src) == (src.skip(1), Some(src[0]))
        }),
{
    assert(src.take(2) =~= seq![src[0], src[1]]);
    assert(src.take(1)[0] == src[0]);
}

/// A tree that is no punctuation character, or one that is not joint to another,
/// is taken alone.
pub proof fn law_tree_alone(src: Seq<TreeView>)
    requires
        src.len() > 0,
        src[0] matches TreeView::Leaf(LeafView::Punct(a)) ==> a.char != '\'' && (a.spacing
            == Spacing::Alone || src.len() == 1 || !(src[1] matches TreeView::Leaf(
            LeafView::Punct(_),
        ))),
    ensures
        take_tt(src) == (src.skip(1), Some(src[0])),
{
    assert(src.take(1)[0] == src[0]);
}

/// Where nothing comes there is no tree to take.
pub proof fn law_no_tree(src: Seq<TreeView>)
    requires
        src.len() == 0,
    ensures
        take_tt(src) == (src, None::<TreeView>),
{
}

/// A quote and an identifier behind it are one lifetime. A quote without one is
/// taken with the tree behind it, in vain.
pub proof fn law_lifetime_is_a_quote_and_an_identifier(src: Seq<TreeView>)
    ensures
        ({
            let quote = src.len() > 0 && (src[0] matches TreeView::Leaf(LeafView::Punct(a))
                && a.char == '\'');
            let named = src.len() > 1 && (src[1] matches TreeView::Leaf(LeafView::Ident(_)));
            &&& quote && named ==> take_lifetime(src) == (
                src.skip(2),
                Some(loose(seq![src[0], src[1]])),
            )
            &&& quote && !named ==> take_lifetime(src) == (without(src, 2), None::<TreeView>)
            &&& !quote ==> take_lifetime(src) == (without(src, 1), None::<TreeView>)
            &&& quote ==> take_tt(src) == take_lifetime(src)
        }),
{
    if src.len() > 0 {
        assert(src.skip(1) =~= src.drop_first());
        if src.len() > 1 {
            assert(src.skip(2) =~= src.drop_first().drop_first());
            assert(src.take(2) =~= seq![src[0], src[1]]);
        } else {
            assert(src.drop_first() =~= Seq::empty());
        }
    } else {
        assert(src =~= Seq::empty());
    }
}

/// The tree is a literal: one of the sort, or `true` or `false`.
pub open spec fn is_value(tree: TreeView) -> bool {
    ||| tree matches TreeView::Leaf(LeafView::Literal(_))
    ||| tree matches TreeView::Leaf(LeafView::Ident(it)) && it.text == "true"@
    ||| tree matches TreeView::Leaf(LeafView::Ident(it)) && it.text == "false"@
}

/// A literal is a tree of its own, or with the minus sign before it one group
/// without delimiter. What is looked at is taken, a literal or not.
pub proof fn law_literal_may_have_a_sign(src: Seq<TreeView>)
    ensures
        ({
            let minus = src.len() > 0 && (src[0] matches TreeView::Leaf(LeafView::Punct(a))
                && a.char == '-');
            &&& minus ==> take_literal(src) == (
                without(src, 2),
                if src.len() > 1 && is_value(src[1]) {
                    Some(loose(seq![src[0], src[1]]))
                } else {
                    None
                },
            )
            &&& !minus ==> take_literal(src) == (
                without(src, 1),
                if src.len() > 0 && is_value(src[0]) {
                    Some(src[0])
                } else {
                    None
                },
            )
        }),
{
    if src.len() > 0 {
        assert(src.skip(1) =~= src.drop_first());
        if src.len() > 1 {
            assert(src.skip(2) =~= src.drop_first().drop_first());
            assert(src.take(2) =~= seq![src[0], src[1]]);
        } else {
            assert(src.drop_first() =~= Seq::empty());
        }
    } else {
        assert(src =~= Seq::empty());
    }
}

} // verus!
