//! Following a parser through the input.
use mbe::buffer::Cursor;
use mbe::error::ExpandError;
use mbe::fragment::{FragmentKind, OffsetTokenSink, SyntaxKind, TreeEvent};
use mbe::tt::{
    Delimiter, DelimiterKind, Ident, Leaf, Punct, Spacing, Subtree, TokenId, TokenTree,
};
use mbe::tt_iter::TtIter;

fn ident(text: &str) -> TokenTree {
    TokenTree::Leaf(Leaf::Ident(Ident { text: text.to_string(), id: TokenId(0) }))
}

fn punct(char: char) -> TokenTree {
    TokenTree::Leaf(Leaf::Punct(Punct { char, spacing: Spacing::Alone, id: TokenId(0) }))
}

fn parens(token_trees: Vec<TokenTree>) -> TokenTree {
    let delimiter = Delimiter { id: TokenId(0), kind: DelimiterKind::Parenthesis };
    TokenTree::Subtree(Subtree { delimiter: Some(delimiter), token_trees })
}

fn undelimited(token_trees: Vec<TokenTree>) -> TokenTree {
    TokenTree::Subtree(Subtree { delimiter: None, token_trees })
}

fn tokens(n_tokens: u8) -> TreeEvent {
    TreeEvent::Token { kind: SyntaxKind::Other, n_tokens }
}

fn binding_error(text: &str) -> Option<ExpandError> {
    Some(ExpandError::BindingError(text.to_string()))
}

/// `f ( a ) b`
fn call() -> Subtree {
    Subtree { delimiter: None, token_trees: vec![ident("f"), parens(vec![ident("a")]), ident("b")] }
}

#[test]
fn the_cursor_walks_in_and_out() {
    let trees = call().token_trees;
    let mut cursor = Cursor::begin(&trees);
    let mut seen = Vec::new();
    for _ in 0..7 {
        seen.push(if cursor.is_root() { Some(cursor.index()) } else { None });
        cursor.bump_subtree();
    }
    // f, in, a, out, b, and then the end for good.
    assert_eq!(seen, vec![Some(0), Some(1), None, None, Some(2), Some(3), Some(3)]);
}

#[test]
fn the_cursor_walks_nested_and_empty_groups() {
    let trees = vec![parens(vec![parens(vec![]), ident("x")]), ident("y")];
    let mut cursor = Cursor::begin(&trees);
    let mut inside = 0;
    cursor.bump_subtree();
    while !cursor.is_root() {
        cursor.bump_subtree();
        inside += 1;
    }
    // In, out of the inner group, past x, out.
    assert_eq!(inside, 4);
    assert_eq!(cursor.index(), 1);
}

#[test]
fn the_sink_counts_a_lifetime_as_two() {
    let trees = vec![punct('\''), ident("a"), ident("b")];
    let mut sink = OffsetTokenSink { cursor: Cursor::begin(&trees), error: false };
    sink.event(TreeEvent::Token { kind: SyntaxKind::LifetimeIdent, n_tokens: 1 });
    assert!(sink.cursor.is_root());
    assert_eq!(sink.cursor.index(), 2);
    sink.event(TreeEvent::StartNode);
    sink.event(TreeEvent::FinishNode);
    assert_eq!(sink.cursor.index(), 2);
    assert!(!sink.error);
    sink.event(TreeEvent::Error);
    assert!(sink.error);
    sink.token(SyntaxKind::Other, 9);
    assert_eq!(sink.cursor.index(), 3);
}

#[test]
fn a_fragment_of_one_tree_stays_as_it_is() {
    let src = call();
    let mut iter = TtIter::new(&src);
    let found = iter.expect_fragment(FragmentKind::Path, &|_: &[TokenTree], _| vec![tokens(1)]);
    assert_eq!(found.value, Some(ident("f")));
    assert_eq!(found.err, None);
    assert_eq!(iter.len(), 2);
}

#[test]
fn a_fragment_of_several_trees_is_put_into_a_group() {
    let src = call();
    let mut iter = TtIter::new(&src);
    let events = vec![
        TreeEvent::StartNode,
        tokens(1),
        TreeEvent::StartNode,
        tokens(1),
        tokens(1),
        tokens(1),
        TreeEvent::FinishNode,
        TreeEvent::FinishNode,
    ];
    let found = iter.expect_fragment(FragmentKind::Expr, &|_: &[TokenTree], _| events.clone());
    assert_eq!(found.value, Some(undelimited(vec![ident("f"), parens(vec![ident("a")])])));
    assert_eq!(found.err, None);
    assert_eq!(iter.inner, &[ident("b")][..]);
}

#[test]
fn the_parser_sees_what_is_left() {
    let src = call();
    let mut iter = TtIter::new(&src);
    iter.next();
    let found = iter.expect_fragment(FragmentKind::Block, &|trees: &[TokenTree], kind| {
        assert_eq!(kind, FragmentKind::Block);
        assert_eq!(trees, &[parens(vec![ident("a")]), ident("b")][..]);
        vec![tokens(3)]
    });
    assert_eq!(found.value, Some(parens(vec![ident("a")])));
    assert_eq!(iter.len(), 1);
}

#[test]
fn a_fragment_that_ends_inside_a_group_takes_nothing() {
    let src = call();
    let mut iter = TtIter::new(&src);
    let found = iter.expect_fragment(FragmentKind::Type, &|_: &[TokenTree], _| vec![tokens(2)]);
    assert_eq!(found.value, None);
    assert_eq!(found.err, binding_error("expected Type"));
    assert_eq!(iter.len(), 3);
}

#[test]
fn a_fragment_with_an_error_is_still_taken() {
    let src = call();
    let mut iter = TtIter::new(&src);
    let events = vec![tokens(1), TreeEvent::Error];
    let found = iter.expect_covered(FragmentKind::Pattern, &events);
    assert_eq!(found.value, Some(ident("f")));
    assert_eq!(found.err, binding_error("expected Pattern"));
    assert_eq!(iter.len(), 2);
}

#[test]
fn an_empty_fragment_is_an_error() {
    let src = call();
    let mut iter = TtIter::new(&src);
    let found = iter.expect_covered(FragmentKind::Item, &vec![TreeEvent::StartNode]);
    assert_eq!(found.value, None);
    assert_eq!(found.err, binding_error("no tokens consumed"));
    let found = iter.expect_covered(FragmentKind::Item, &vec![TreeEvent::Error]);
    assert_eq!(found.value, None);
    assert_eq!(found.err, binding_error("expected Item"));
    assert_eq!(iter.len(), 3);
}

#[test]
fn every_kind_has_its_name() {
    let kinds = [
        (FragmentKind::Path, "expected Path"),
        (FragmentKind::Expr, "expected Expr"),
        (FragmentKind::Statement, "expected Statement"),
        (FragmentKind::Type, "expected Type"),
        (FragmentKind::Pattern, "expected Pattern"),
        (FragmentKind::Item, "expected Item"),
        (FragmentKind::Block, "expected Block"),
        (FragmentKind::Visibility, "expected Visibility"),
        (FragmentKind::MetaItem, "expected MetaItem"),
    ];
    for (kind, text) in kinds {
        let src = call();
        let mut iter = TtIter::new(&src);
        assert_eq!(iter.expect_covered(kind, &vec![TreeEvent::Error]).err, binding_error(text));
    }
}

#[test]
fn nodes_make_no_difference() {
    let src = call();
    let mut with = TtIter::new(&src);
    let mut without = TtIter::new(&src);
    let nodes = vec![TreeEvent::StartNode, tokens(4), TreeEvent::FinishNode];
    assert_eq!(
        with.expect_covered(FragmentKind::Expr, &nodes),
        without.expect_covered(FragmentKind::Expr, &vec![tokens(4)])
    );
    assert_eq!(with.inner, without.inner);
}

#[test]
fn eat_vis_takes_a_visibility_or_nothing() {
    let src = call();
    let mut iter = TtIter::new(&src);
    assert_eq!(iter.eat_vis(&|_: &[TokenTree], _| vec![]), None);
    assert_eq!(iter.eat_vis(&|_: &[TokenTree], _| vec![tokens(1), TreeEvent::Error]), None);
    assert_eq!(iter.len(), 3);
    assert_eq!(iter.eat_vis(&|_: &[TokenTree], _| vec![tokens(1)]), Some(ident("f")));
    assert_eq!(iter.len(), 2);
}
