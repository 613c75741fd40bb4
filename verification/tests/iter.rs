//! Taking constructs from the front of the input.
use mbe::template::Separator;
use mbe::tt::{
    Delimiter, DelimiterKind, Ident, Leaf, Literal, Punct, Spacing, Subtree, TokenId, TokenTree,
};
use mbe::tt_iter::TtIter;

fn ident(text: &str) -> TokenTree {
    TokenTree::Leaf(Leaf::Ident(Ident { text: text.to_string(), id: TokenId(0) }))
}

fn literal(text: &str) -> TokenTree {
    TokenTree::Leaf(Leaf::Literal(Literal { text: text.to_string(), id: TokenId(0) }))
}

fn punct(char: char, spacing: Spacing) -> Punct {
    Punct { char, spacing, id: TokenId(0) }
}

/// Punctuation; all characters but the last are joined to the next.
fn puncts(text: &str) -> Vec<TokenTree> {
    let n = text.chars().count();
    text.chars()
        .enumerate()
        .map(|(i, c)| {
            let spacing = if i + 1 < n { Spacing::Joint } else { Spacing::Alone };
            TokenTree::Leaf(Leaf::Punct(punct(c, spacing)))
        })
        .collect()
}

fn alone(c: char) -> TokenTree {
    TokenTree::Leaf(Leaf::Punct(punct(c, Spacing::Alone)))
}

fn undelimited(token_trees: Vec<TokenTree>) -> TokenTree {
    TokenTree::Subtree(Subtree { delimiter: None, token_trees })
}

fn parens(token_trees: Vec<TokenTree>) -> Subtree {
    let delimiter = Delimiter { id: TokenId(0), kind: DelimiterKind::Parenthesis };
    Subtree { delimiter: Some(delimiter), token_trees }
}

fn first_tt(trees: Vec<TokenTree>) -> (Result<TokenTree, ()>, Vec<TokenTree>) {
    let subtree = Subtree { delimiter: None, token_trees: trees };
    let mut iter = TtIter::new(&subtree);
    let tree = iter.expect_tt();
    (tree, iter.inner.to_vec())
}

#[test]
fn expect_tt_takes_a_leaf_or_a_group() {
    assert_eq!(first_tt(vec![ident("a"), ident("b")]), (Ok(ident("a")), vec![ident("b")]));
    let group = TokenTree::Subtree(parens(vec![ident("x")]));
    assert_eq!(first_tt(vec![group.clone(), ident("b")]), (Ok(group), vec![ident("b")]));
    assert_eq!(first_tt(vec![]), (Err(()), vec![]));
}

#[test]
fn expect_tt_takes_operators_of_two_characters_as_one() {
    for op in [
        "-=", "->", "::", "!=", "..", "*=", "/=", "&&", "&=", "%=", "^=", "+=", "<<", "<=", "==",
        "=>", ">=", ">>", "|=", "||",
    ] {
        let mut trees = puncts(op);
        trees.push(ident("rest"));
        assert_eq!(first_tt(trees), (Ok(undelimited(puncts(op))), vec![ident("rest")]), "{}", op);
    }
}

#[test]
fn expect_tt_takes_operators_of_three_characters_as_one() {
    for op in ["...", "..=", "<<=", ">>="] {
        let mut trees = puncts(op);
        trees.push(ident("rest"));
        assert_eq!(first_tt(trees), (Ok(undelimited(puncts(op))), vec![ident("rest")]), "{}", op);
    }
}

#[test]
fn expect_tt_leaves_other_punctuation_apart() {
    // Not an operator.
    let (tree, left) = first_tt(puncts("+-"));
    assert_eq!(tree, Ok(puncts("+-")[0].clone()));
    assert_eq!(left, vec![alone('-')]);
    // A gap behind the first character.
    assert_eq!(first_tt(vec![alone('='), alone('=')]), (Ok(alone('=')), vec![alone('=')]));
    // A gap behind the second character.
    let mut trees = puncts("..");
    trees.push(alone('.'));
    assert_eq!(first_tt(trees), (Ok(undelimited(puncts(".."))), vec![alone('.')]));
    // The third character makes no operator.
    let (tree, left) = first_tt(puncts("==="));
    assert_eq!(tree, Ok(undelimited(puncts("===")[..2].to_vec())));
    assert_eq!(left, vec![alone('=')]);
    // A joint character at the end of the input.
    let joint = TokenTree::Leaf(Leaf::Punct(punct('=', Spacing::Joint)));
    assert_eq!(first_tt(vec![joint.clone()]), (Ok(joint), vec![]));
}

#[test]
fn expect_tt_takes_a_lifetime_as_one() {
    let mut trees = vec![alone('\''), ident("a"), ident("b")];
    let lifetime = undelimited(vec![alone('\''), ident("a")]);
    assert_eq!(first_tt(trees.clone()), (Ok(lifetime), vec![ident("b")]));
    trees[1] = alone('+');
    assert_eq!(first_tt(trees), (Err(()), vec![ident("b")]));
}

#[test]
fn expect_lifetime_takes_what_it_looks_at() {
    let subtree = Subtree { delimiter: None, token_trees: vec![ident("a"), ident("b")] };
    let mut iter = TtIter::new(&subtree);
    assert_eq!(iter.expect_lifetime(), Err(()));
    assert_eq!(iter.inner, &[ident("b")][..]);
    let subtree = Subtree { delimiter: None, token_trees: vec![alone('\'')] };
    let mut iter = TtIter::new(&subtree);
    assert_eq!(iter.expect_lifetime(), Err(()));
    assert_eq!(iter.len(), 0);
}

#[test]
fn expect_methods_give_what_they_find_and_take_it_anyway() {
    let group = parens(vec![]);
    let subtree = Subtree {
        delimiter: None,
        token_trees: vec![
            ident("a"),
            literal("1"),
            alone(';'),
            TokenTree::Subtree(group.clone()),
            ident("true"),
            ident("b"),
        ],
    };
    let mut iter = TtIter::new(&subtree);
    assert_eq!(iter.expect_punct(), Err(()));
    assert_eq!(iter.expect_ident(), Err(()));
    assert_eq!(iter.expect_char(';'), Ok(()));
    assert_eq!(iter.expect_leaf(), Err(()));
    assert!(iter.expect_literal().is_ok());
    assert_eq!(iter.expect_literal(), Err(()));
    assert_eq!(iter.expect_leaf(), Err(()));
    assert_eq!(iter.len(), 0);

    let mut iter = TtIter::new(&subtree);
    assert_eq!(iter.expect_ident().unwrap().text, "a");
    assert!(iter.expect_literal().is_ok());
    assert_eq!(iter.peek_n(1), Some(&TokenTree::Subtree(group.clone())));
    assert_eq!(iter.peek_n(4), None);
    assert_eq!(iter.expect_char(','), Err(()));
    assert_eq!(iter.expect_subtree(), Ok(&group));
    assert_eq!(iter.len(), 2);
}

#[test]
fn eat_char_takes_only_that_character() {
    let subtree = Subtree { delimiter: None, token_trees: vec![alone('-'), literal("1")] };
    let mut iter = TtIter::new(&subtree);
    assert_eq!(iter.eat_char('+'), None);
    assert_eq!(iter.len(), 2);
    assert_eq!(iter.eat_char('-'), Some(alone('-')));
    assert_eq!(iter.eat_char('-'), None);
    assert_eq!(iter.inner, &[literal("1")][..]);
}

#[test]
fn eat_separator_takes_only_the_separator() {
    let word = Ident { text: "and".to_string(), id: TokenId(7) };
    let subtree = Subtree { delimiter: None, token_trees: vec![ident("and"), ident("or")] };
    let mut iter = TtIter::new(&subtree);
    assert!(iter.eat_separator(&Separator::Ident(word.clone())));
    assert!(!iter.eat_separator(&Separator::Ident(word)));
    assert_eq!(iter.inner, &[ident("or")][..]);

    // A literal separator stands also for the identifiers `true` and `false`.
    let one = Literal { text: "1".to_string(), id: TokenId(0) };
    let truth = Literal { text: "true".to_string(), id: TokenId(0) };
    let subtree = Subtree { delimiter: None, token_trees: vec![literal("1"), ident("true")] };
    let mut iter = TtIter::new(&subtree);
    assert!(!iter.eat_separator(&Separator::Literal(truth.clone())));
    assert!(iter.eat_separator(&Separator::Literal(one)));
    assert!(iter.eat_separator(&Separator::Literal(truth)));
    assert_eq!(iter.len(), 0);

    // Spacing does not matter.
    let arrow = vec![punct('=', Spacing::Joint), punct('>', Spacing::Alone)];
    let subtree = Subtree { delimiter: None, token_trees: vec![alone('='), alone('>'), alone('=')] };
    let mut iter = TtIter::new(&subtree);
    assert!(iter.eat_separator(&Separator::Puncts(arrow.clone())));
    assert!(!iter.eat_separator(&Separator::Puncts(arrow)));
    assert_eq!(iter.inner, &[alone('=')][..]);
    assert!(iter.eat_separator(&Separator::Puncts(vec![])));
    assert_eq!(iter.len(), 1);
}

#[test]
fn a_clone_is_equal() {
    let tree = TokenTree::Subtree(parens(vec![ident("a"), undelimited(vec![literal("1")])]));
    assert_eq!(tree.clone(), tree);
    assert_eq!(Subtree::default(), Subtree { delimiter: None, token_trees: vec![] });
    assert_eq!(parens(vec![]).delimiter_kind(), Some(DelimiterKind::Parenthesis));
    assert_eq!(Subtree::default().delimiter_kind(), None);
}
