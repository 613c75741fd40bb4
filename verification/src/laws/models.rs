//! What the models keep of the values that they stand for.
use crate::bindings::{Binding, BindingView, Bindings, Fragment, FragmentView};
use crate::error::{error_view, ErrorView, ExpandError, ExpandResult};
use crate::fragment::{follows, total, tree_view, FragmentKind, Grammar, TreeEvent};
use crate::matcher::{
    came_to, fragment_view, match_came_to, name_views, rounds_came_to, took, Match,
};
use crate::semantics::{MatchView, Run, Taken};
use crate::template::{
    separator_view, MetaTemplate, Op, OpView, RepeatKind, Separator, SeparatorView,
};
use crate::tt::{
    lemma_models, models, Ident, Leaf, LeafView, Literal, Punct, Subtree, TokenTree, TreeView,
};
use crate::tt_iter::TtIter;
use vstd::prelude::*;

verus! {

/// The model of a leaf tells its sort, its text or character, its spacing and
/// its place.
pub proof fn law_model_of_a_leaf(ident: Ident, literal: Literal, punct: Punct)
    ensures
        TokenTree::Leaf(Leaf::Ident(ident))@ matches TreeView::Leaf(LeafView::Ident(it)) && it.text
            == ident.text@ && it.id == ident.id,
        TokenTree::Leaf(Leaf::Literal(literal))@ matches TreeView::Leaf(LeafView::Literal(it))
            && it.text == literal.text@ && it.id == literal.id,
        TokenTree::Leaf(Leaf::Punct(punct))@ == TreeView::Leaf(LeafView::Punct(punct)),
{
}

/// The model of a group tells its delimiter, and each of its trees, in order.
pub proof fn law_model_of_a_group(group: Subtree)
    ensures
        TokenTree::Subtree(group)@ == TreeView::Subtree(group@),
        group@.delimiter == group.delimiter,
        group@.token_trees.len() == group.token_trees@.len(),
        forall|i: int|
            0 <= i < group.token_trees@.len() ==> #[trigger] group@.token_trees[i]
                == group.token_trees@[i]@,
{
    broadcast use lemma_models;

}

/// The model of an input tells each of the trees that are left, in order.
pub proof fn law_model_of_an_input(input: TtIter)
    ensures
        input@.len() == input.inner@.len(),
        forall|i: int| 0 <= i < input.inner@.len() ==> #[trigger] input@[i] == input.inner@[i]@,
{
    broadcast use lemma_models;

}

/// The model of a fragment tells an expression from other trees.
pub proof fn law_model_of_a_fragment(tree: TokenTree)
    ensures
        Fragment::Tokens(tree)@ == FragmentView::Tokens(tree@),
        Fragment::Ast(tree)@ == FragmentView::Ast(tree@),
        fragment_view(Some(Fragment::Tokens(tree))) == Some(FragmentView::Tokens(tree@)),
        fragment_view(Some(Fragment::Ast(tree))) == Some(FragmentView::Ast(tree@)),
        fragment_view(None) is None,
        tree_view(Some(tree)) == Some(tree@),
        tree_view(None) is None,
{
}

/// The model of a binding tells which of the three it is, and each of the values
/// of a list, in order.
pub proof fn law_model_of_a_binding(fragment: Fragment, list: Vec<Binding>)
    ensures
        Binding::Fragment(fragment)@ == BindingView::Fragment(fragment@),
        Binding::Empty@ == BindingView::Empty,
        Binding::Nested(list)@ matches BindingView::Nested(values) && {
            &&& values.len() == list@.len()
            &&& forall|i: int| 0 <= i < list@.len() ==> #[trigger] values[i] == list@[i]@
        },
{
}

/// The model of bindings tells the name and the value in each slot, in order.
pub proof fn law_model_of_bindings(bindings: Bindings)
    ensures
        bindings@.len() == bindings.slots@.len(),
        forall|i: int|
            0 <= i < bindings.slots@.len() ==> #[trigger] bindings@[i] == (
                bindings.slots@[i].0@,
                bindings.slots@[i].1@,
            ),
{
}

/// The model of an error tells which one it is, and its text.
pub proof fn law_model_of_an_error(err: ExpandError, text: String)
    ensures
        ExpandError::UnexpectedToken@ == ErrorView::UnexpectedToken,
        ExpandError::ConversionError@ == ErrorView::ConversionError,
        ExpandError::BindingError(text)@ == ErrorView::BindingError(text@),
        error_view(Some(err)) == Some(err@),
        error_view(None) is None,
{
}

/// The model of a match tells all four parts of it.
pub proof fn law_model_of_a_match(m: Match)
    ensures
        m@.bindings == m.bindings@,
        m@.err == error_view(m.err),
        m@.err_count == m.err_count,
        m@.unmatched_tts == m.unmatched_tts,
{
}

/// The model of an element tells which one it is, and all of its parts.
pub proof fn law_model_of_an_element(
    name: String,
    var_kind: String,
    leaf: Leaf,
    group: MetaTemplate,
    kind: RepeatKind,
    separator: Option<Separator>,
)
    ensures
        Op::Leaf(leaf)@ == OpView::Leaf(leaf@),
        Op::Subtree(group)@ == OpView::Subtree(group@),
        (Op::Var { name, kind: None })@ == (OpView::Var { name: name@, kind: None }),
        (Op::Var { name, kind: Some(var_kind) })@ == (OpView::Var {
            name: name@,
            kind: Some(var_kind@),
        }),
        (Op::Repeat { subtree: group, kind, separator })@ == (OpView::Repeat {
            subtree: group@,
            kind,
            separator: separator_view(separator),
        }),
{
}

/// The model of a separator tells which one it is, and what it reads.
pub proof fn law_model_of_a_separator(ident: Ident, literal: Literal, puncts: Vec<Punct>)
    ensures
        separator_view(None) is None,
        separator_view(Some(Separator::Ident(ident))) == Some(SeparatorView::Ident(ident@)),
        separator_view(Some(Separator::Literal(literal))) == Some(SeparatorView::Literal(literal@)),
        separator_view(Some(Separator::Puncts(puncts))) == Some(SeparatorView::Puncts(puncts@)),
        ident@.text == ident.text@,
        literal@.text == literal.text@,
{
}

/// The model of a template tells its delimiter and each of its elements, in
/// order, those that could not be parsed by their errors.
pub proof fn law_model_of_a_template(template: MetaTemplate)
    ensures
        template@.delimiter == template.delimiter,
        template@.tokens.len() == template.tokens@.len(),
        forall|i: int|
            0 <= i < template.tokens@.len() ==> #[trigger] template@.tokens[i]
                == match template.tokens@[i] {
                Ok(op) => Ok::<OpView, ErrorView>(op@),
                Err(e) => Err::<OpView, ErrorView>(e@),
            },
{
}

/// The model of a run of names tells each of them, in order.
pub proof fn law_model_of_names(names: Seq<String>)
    ensures
        name_views(names).len() == names.len(),
        forall|i: int| 0 <= i < names.len() ==> #[trigger] name_views(names)[i] == names[i]@,
{
}

/// A match comes to a result of the model if it is that result: the same match,
/// or the same error.
pub proof fn law_result_of_a_match(all: Result<MatchView, ErrorView>, m: Match, e: ExpandError)
    ensures
        match_came_to(all, Ok(m)) <==> all == Ok::<MatchView, ErrorView>(m@),
        match_came_to(all, Err(e)) <==> all == Err::<MatchView, ErrorView>(e@),
{
}

/// A run comes to what the model says if the match, the input that is left, and
/// the error that stopped it, if any, are the same.
pub proof fn law_result_of_a_run(
    all: Run,
    count: nat,
    res: MatchView,
    src: Seq<TreeView>,
    rounds: usize,
    e: ExpandError,
)
    ensures
        came_to(all, res, src, Ok(())) <==> all == (Run { res, src, stop: None }),
        came_to(all, res, src, Err(e)) <==> all == (Run { res, src, stop: Some(e@) }),
        rounds_came_to((all, count), res, src, Ok(rounds)) <==> all == (Run {
            res,
            src,
            stop: None,
        }) && rounds == count,
        rounds_came_to((all, count), res, src, Err(e)) <==> all == (Run {
            res,
            src,
            stop: Some(e@),
        }),
{
}

/// A variable takes what the model says if the input that is left, the fragment
/// and the error are the same.
pub proof fn law_result_of_a_variable(
    taken: Taken,
    src: Seq<TreeView>,
    r: ExpandResult<Option<Fragment>>,
)
    ensures
        took(taken, src, r) <==> taken == (Taken {
            src,
            value: fragment_view(r.value),
            err: error_view(r.err),
        }),
{
}

/// A parser follows a grammar if and only if whatever it reports is what the
/// grammar says of the trees and the kind that it was asked about. It can be
/// asked about any trees and any kind.
pub proof fn law_parser_follows_a_grammar<F: Fn(&[TokenTree], FragmentKind) -> Vec<TreeEvent>>(
    parse: F,
    grammar: Grammar,
)
    ensures
        follows(parse, grammar) <==> forall|
            trees: &[TokenTree],
            kind: FragmentKind,
            r: Vec<TreeEvent>,
        | #[trigger]
            call_ensures(parse, (trees, kind), r) ==> r@ == grammar(models(trees@), kind),
        total(parse) <==> forall|trees: &[TokenTree], kind: FragmentKind| #[trigger]
            call_requires(parse, (trees, kind)),
{
}

} // verus!
