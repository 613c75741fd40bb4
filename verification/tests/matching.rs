//! Matching whole inputs.
use mbe::bindings::{Binding, Fragment};
use mbe::error::ExpandError;
use mbe::fragment::{FragmentKind, SyntaxKind, TreeEvent};
use mbe::matcher::{collect_vars, match_, match_meta_var, Match};
use mbe::template::{MetaTemplate, Op, RepeatKind, Separator};
use mbe::tt::{
    Delimiter, DelimiterKind, Ident, Leaf, Literal, Punct, Spacing, Subtree, TokenId, TokenTree,
};
use mbe::tt_iter::TtIter;

type Element = Result<Op, ExpandError>;

fn ident_leaf(text: &str) -> Leaf {
    Leaf::Ident(Ident { text: text.to_string(), id: TokenId(0) })
}

fn punct_leaf(char: char) -> Leaf {
    Leaf::Punct(Punct { char, spacing: Spacing::Alone, id: TokenId(0) })
}

fn literal_leaf(text: &str) -> Leaf {
    Leaf::Literal(Literal { text: text.to_string(), id: TokenId(0) })
}

fn ident(text: &str) -> TokenTree {
    TokenTree::Leaf(ident_leaf(text))
}

fn punct(char: char) -> TokenTree {
    TokenTree::Leaf(punct_leaf(char))
}

fn literal(text: &str) -> TokenTree {
    TokenTree::Leaf(literal_leaf(text))
}

fn delimiter(kind: DelimiterKind) -> Option<Delimiter> {
    Some(Delimiter { id: TokenId(0), kind })
}

fn parens(token_trees: Vec<TokenTree>) -> TokenTree {
    TokenTree::Subtree(Subtree { delimiter: delimiter(DelimiterKind::Parenthesis), token_trees })
}

fn undelimited(token_trees: Vec<TokenTree>) -> TokenTree {
    TokenTree::Subtree(Subtree { delimiter: None, token_trees })
}

fn template(tokens: Vec<Element>) -> MetaTemplate {
    MetaTemplate { delimiter: None, tokens }
}

fn var(name: &str, kind: &str) -> Element {
    Ok(Op::Var { name: name.to_string(), kind: Some(kind.to_string()) })
}

fn token(leaf: Leaf) -> Element {
    Ok(Op::Leaf(leaf))
}

fn group(kind: DelimiterKind, tokens: Vec<Element>) -> Element {
    Ok(Op::Subtree(MetaTemplate { delimiter: delimiter(kind), tokens }))
}

fn repeat(tokens: Vec<Element>, separator: Option<char>, kind: RepeatKind) -> Element {
    let separator = separator.map(|char| {
        Separator::Puncts(vec![Punct { char, spacing: Spacing::Alone, id: TokenId(0) }])
    });
    Ok(Op::Repeat { subtree: template(tokens), kind, separator })
}

fn bound(tree: TokenTree) -> Binding {
    Binding::Fragment(Fragment::Tokens(tree))
}

fn binding_error(text: &str) -> ExpandError {
    ExpandError::BindingError(text.to_string())
}

/// A toy language. An expression is leaves with `+` in between, a visibility is
/// `pub` with or without a group, and no other fragment is known.
fn parse(trees: &[TokenTree], kind: FragmentKind) -> Vec<TreeEvent> {
    let one = TreeEvent::Token { kind: SyntaxKind::Other, n_tokens: 1 };
    let is_word = |i: usize| match trees.get(i) {
        Some(TokenTree::Leaf(Leaf::Ident(_))) | Some(TokenTree::Leaf(Leaf::Literal(_))) => true,
        _ => false,
    };
    match kind {
        FragmentKind::Expr => {
            if !is_word(0) {
                return vec![TreeEvent::Error];
            }
            let mut events = vec![TreeEvent::StartNode, one];
            let mut i = 1;
            while trees.get(i) == Some(&punct('+')) && is_word(i + 1) {
                events.push(one);
                events.push(one);
                i += 2;
            }
            events.push(TreeEvent::FinishNode);
            events
        }
        FragmentKind::Visibility if trees.first() == Some(&ident("pub")) => match trees.get(1) {
            Some(TokenTree::Subtree(group)) => vec![one; group.token_trees.len() + 3],
            _ => vec![one],
        },
        FragmentKind::Visibility => vec![],
        _ => vec![TreeEvent::Error],
    }
}

fn attempt(pattern: Vec<Element>, src: Vec<TokenTree>) -> Result<Match, ExpandError> {
    match_(&template(pattern), &Subtree { delimiter: None, token_trees: src }, &parse)
}

/// Matches without error, and gives the bindings.
fn bindings(pattern: Vec<Element>, src: Vec<TokenTree>) -> Vec<(String, Binding)> {
    let m = attempt(pattern, src).unwrap();
    assert_eq!(m.err, None);
    assert_eq!(m.err_count, 0);
    assert_eq!(m.unmatched_tts, 0);
    m.bindings.slots
}

fn slots(slots: Vec<(&str, Binding)>) -> Vec<(String, Binding)> {
    slots.into_iter().map(|(n, b)| (n.to_string(), b)).collect()
}

/// Matches with errors, and gives the first and their number.
fn errors(pattern: Vec<Element>, src: Vec<TokenTree>) -> (ExpandError, usize) {
    let m = attempt(pattern, src).unwrap();
    (m.err.unwrap(), m.err_count)
}

#[test]
fn an_empty_rule_matches_an_empty_call() {
    assert_eq!(bindings(vec![], vec![]), vec![]);
    assert_eq!(attempt(vec![], vec![]), Ok(Match::default()));
}

#[test]
fn an_identifier_is_bound() {
    let tree = TokenTree::Leaf(Leaf::Ident(Ident { text: "a".to_string(), id: TokenId(3) }));
    assert_eq!(
        bindings(vec![var("id", "ident")], vec![tree.clone()]),
        slots(vec![("id", bound(tree))])
    );
}

#[test]
fn plain_tokens_match_themselves() {
    let pattern =
        || vec![token(ident_leaf("fn")), token(punct_leaf(';')), token(literal_leaf("1"))];
    assert_eq!(bindings(pattern(), vec![ident("fn"), punct(';'), literal("1")]), vec![]);
    // Neither spacing nor origin matters.
    let joint = Punct { char: ';', spacing: Spacing::Joint, id: TokenId(9) };
    let joint = TokenTree::Leaf(Leaf::Punct(joint));
    assert_eq!(bindings(pattern(), vec![ident("fn"), joint, literal("1")]), vec![]);
    // What does not read the same is unexpected, and matching goes on.
    assert_eq!(
        errors(pattern(), vec![ident("f"), punct(','), ident("1")]),
        (ExpandError::UnexpectedToken, 3)
    );
}

#[test]
fn a_missing_token_is_named() {
    assert_eq!(
        errors(vec![token(punct_leaf(';'))], vec![]),
        (binding_error("expected leaf: `;`"), 1)
    );
    assert_eq!(
        errors(vec![token(ident_leaf("fn"))], vec![parens(vec![])]),
        (binding_error("expected leaf: `fn`"), 1)
    );
    assert_eq!(
        errors(vec![token(literal_leaf("\"x\""))], vec![]),
        (binding_error("expected leaf: `\"x\"`"), 1)
    );
}

#[test]
fn leftover_trees_are_counted() {
    let m = attempt(vec![token(ident_leaf("a"))], vec![ident("a"), parens(vec![]), ident("b")]);
    let m = m.unwrap();
    assert_eq!(m.unmatched_tts, 2);
    assert_eq!(m.err, Some(binding_error("leftover tokens")));
    assert_eq!(m.err_count, 1);
}

#[test]
fn the_first_error_is_kept_and_all_are_counted() {
    let pattern = vec![token(ident_leaf("a")), group(DelimiterKind::Brace, vec![])];
    let m = attempt(pattern, vec![ident("b"), ident("c"), ident("d")]).unwrap();
    assert_eq!(m.err, Some(ExpandError::UnexpectedToken));
    assert_eq!(m.err_count, 3);
    assert_eq!(m.unmatched_tts, 1);
}

#[test]
fn groups_match_by_delimiter_and_content() {
    let pattern = || vec![group(DelimiterKind::Parenthesis, vec![var("x", "ident")])];
    assert_eq!(
        bindings(pattern(), vec![parens(vec![ident("a")])]),
        slots(vec![("x", bound(ident("a")))])
    );
    assert_eq!(errors(pattern(), vec![ident("a")]), (binding_error("expected subtree"), 1));
    assert_eq!(
        errors(pattern(), vec![undelimited(vec![ident("a")])]),
        (binding_error("mismatched delimiter"), 1)
    );
    let m = attempt(pattern(), vec![parens(vec![ident("a"), ident("b")])]).unwrap();
    assert_eq!(m.err, Some(binding_error("leftover tokens")));
    assert_eq!(m.unmatched_tts, 0);
}

#[test]
fn a_variable_without_kind_is_an_error() {
    let pattern = vec![Ok(Op::Var { name: "x".to_string(), kind: None })];
    let m = attempt(pattern, vec![ident("a")]).unwrap();
    assert_eq!(m.err, Some(ExpandError::UnexpectedToken));
    assert_eq!(m.err_count, 2);
    assert_eq!(m.unmatched_tts, 1);
    assert_eq!(m.bindings.slots, vec![]);
}

#[test]
fn a_variable_of_an_unknown_kind_takes_nothing() {
    let m = attempt(vec![var("x", "nonsense")], vec![ident("a")]).unwrap();
    assert_eq!(m.err, Some(ExpandError::UnexpectedToken));
    assert_eq!(m.unmatched_tts, 1);
}

#[test]
fn kinds_that_need_no_grammar() {
    let mut joint = punct('=');
    if let TokenTree::Leaf(Leaf::Punct(it)) = &mut joint {
        it.spacing = Spacing::Joint;
    }
    assert_eq!(
        bindings(vec![var("x", "tt")], vec![joint.clone(), punct('>')]),
        slots(vec![("x", bound(undelimited(vec![joint, punct('>')])))])
    );
    assert_eq!(
        bindings(vec![var("x", "lifetime")], vec![punct('\''), ident("a")]),
        slots(vec![("x", bound(undelimited(vec![punct('\''), ident("a")])))])
    );
    assert_eq!(
        bindings(vec![var("x", "literal")], vec![literal("1")]),
        slots(vec![("x", bound(literal("1")))])
    );
    assert_eq!(
        bindings(vec![var("x", "literal")], vec![ident("true")]),
        slots(vec![("x", bound(ident("true")))])
    );
    assert_eq!(
        bindings(vec![var("x", "literal")], vec![punct('-'), literal("1")]),
        slots(vec![("x", bound(undelimited(vec![punct('-'), literal("1")])))])
    );
}

#[test]
fn kinds_that_need_no_grammar_fail_with_their_message() {
    assert_eq!(
        errors(vec![var("x", "ident")], vec![punct(';')]),
        (binding_error("expected ident"), 1)
    );
    assert_eq!(errors(vec![var("x", "tt")], vec![]), (binding_error(""), 1));
    assert_eq!(
        errors(vec![var("x", "lifetime")], vec![ident("a")]),
        (binding_error("expected lifetime"), 1)
    );
    assert_eq!(errors(vec![var("x", "literal")], vec![ident("a")]), (binding_error(""), 1));
    // The sign and what stands behind it are taken.
    assert_eq!(
        errors(vec![var("x", "literal")], vec![punct('-'), ident("a")]),
        (binding_error(""), 1)
    );
}

#[test]
fn expressions_are_marked_as_such() {
    let trees = vec![ident("a"), punct('+'), literal("1")];
    assert_eq!(
        bindings(vec![var("e", "expr")], trees.clone()),
        slots(vec![("e", Binding::Fragment(Fragment::Ast(undelimited(trees))))])
    );
    assert_eq!(errors(vec![var("e", "expr")], vec![]), (binding_error("expected Expr"), 1));
}

#[test]
fn the_other_fragments_go_to_the_grammar() {
    let kinds = [
        ("path", FragmentKind::Path),
        ("ty", FragmentKind::Type),
        ("pat", FragmentKind::Pattern),
        ("stmt", FragmentKind::Statement),
        ("block", FragmentKind::Block),
        ("meta", FragmentKind::MetaItem),
        ("item", FragmentKind::Item),
    ];
    let src = Subtree { delimiter: None, token_trees: vec![ident("a"), ident("b")] };
    for (text, expected) in kinds {
        let mut input = TtIter::new(&src);
        let found = match_meta_var(text, &mut input, &|_: &[TokenTree], kind| {
            assert_eq!(kind, expected);
            vec![TreeEvent::Token { kind: SyntaxKind::Other, n_tokens: 1 }]
        });
        assert_eq!(found.value, Some(Fragment::Tokens(ident("a"))));
        assert_eq!(found.err, None);
        assert_eq!(input.len(), 1);
    }
}

#[test]
fn a_visibility_is_optional() {
    let pattern = || vec![var("v", "vis"), var("x", "ident")];
    let restricted = vec![ident("pub"), parens(vec![ident("crate")])];
    let mut src = restricted.clone();
    src.push(ident("f"));
    assert_eq!(
        bindings(pattern(), src),
        slots(vec![("v", bound(undelimited(restricted))), ("x", bound(ident("f")))])
    );
    assert_eq!(
        bindings(pattern(), vec![ident("pub"), ident("f")]),
        slots(vec![("v", bound(ident("pub"))), ("x", bound(ident("f")))])
    );
    assert_eq!(
        bindings(pattern(), vec![ident("f")]),
        slots(vec![("v", bound(undelimited(vec![]))), ("x", bound(ident("f")))])
    );
}

#[test]
fn a_repetition_binds_lists() {
    let pattern = || vec![repeat(vec![var("x", "ident")], Some(','), RepeatKind::ZeroOrMore)];
    assert_eq!(
        bindings(pattern(), vec![ident("a"), punct(','), ident("b"), punct(','), ident("c")]),
        slots(vec![(
            "x",
            Binding::Nested(vec![bound(ident("a")), bound(ident("b")), bound(ident("c"))])
        )])
    );
    assert_eq!(bindings(pattern(), vec![]), slots(vec![("x", Binding::Empty)]));
}

#[test]
fn a_repetition_gives_back_what_does_not_match() {
    // The trailing separator is not taken.
    let pattern = || vec![repeat(vec![var("x", "ident")], Some(','), RepeatKind::ZeroOrMore)];
    let m = attempt(pattern(), vec![ident("a"), punct(','), literal("1")]).unwrap();
    assert_eq!(m.bindings.slots, slots(vec![("x", Binding::Nested(vec![bound(ident("a"))]))]));
    assert_eq!(m.unmatched_tts, 2);
    assert_eq!(m.err, Some(binding_error("leftover tokens")));
    assert_eq!(m.err_count, 1);
    // Nor is it where the template goes on with it.
    let mut pattern = pattern();
    pattern.push(token(punct_leaf(',')));
    pattern.push(token(literal_leaf("1")));
    assert_eq!(
        bindings(pattern, vec![ident("a"), punct(','), literal("1")]),
        slots(vec![("x", Binding::Nested(vec![bound(ident("a"))]))])
    );
}

#[test]
fn one_or_more_needs_one() {
    let pattern = || vec![repeat(vec![var("x", "ident")], None, RepeatKind::OneOrMore)];
    let m = attempt(pattern(), vec![]).unwrap();
    assert_eq!(m.err, Some(ExpandError::UnexpectedToken));
    assert_eq!(m.err_count, 1);
    assert_eq!(m.bindings.slots, vec![]);
    assert_eq!(
        bindings(pattern(), vec![ident("a"), ident("b")]),
        slots(vec![("x", Binding::Nested(vec![bound(ident("a")), bound(ident("b"))]))])
    );
}

#[test]
fn zero_or_one_takes_one_at_most() {
    let pattern = || vec![repeat(vec![var("x", "ident")], None, RepeatKind::ZeroOrOne)];
    assert_eq!(
        bindings(pattern(), vec![ident("a")]),
        slots(vec![("x", Binding::Nested(vec![bound(ident("a"))]))])
    );
    let m = attempt(pattern(), vec![ident("a"), ident("b")]).unwrap();
    assert_eq!(m.unmatched_tts, 1);
    assert_eq!(bindings(pattern(), vec![]), slots(vec![("x", Binding::Empty)]));
}

#[test]
fn no_round_leaves_every_variable_empty() {
    let body = vec![
        var("a", "ident"),
        group(DelimiterKind::Parenthesis, vec![var("b", "expr")]),
        repeat(vec![var("c", "tt")], None, RepeatKind::OneOrMore),
        token(punct_leaf(';')),
    ];
    assert_eq!(
        bindings(vec![repeat(body, None, RepeatKind::ZeroOrMore)], vec![]),
        slots(vec![("a", Binding::Empty), ("b", Binding::Empty), ("c", Binding::Empty)])
    );
}

#[test]
fn repetitions_nest() {
    // $( $k:ident : $( $v:literal ),* );*
    let inner = repeat(vec![var("v", "literal")], Some(','), RepeatKind::ZeroOrMore);
    let body = vec![var("k", "ident"), token(punct_leaf(':')), inner];
    let pattern = vec![repeat(body, Some(';'), RepeatKind::ZeroOrMore)];
    let src = vec![
        ident("a"),
        punct(':'),
        literal("1"),
        punct(','),
        literal("2"),
        punct(';'),
        ident("b"),
        punct(':'),
        punct(';'),
        ident("c"),
        punct(':'),
        literal("3"),
    ];
    assert_eq!(
        bindings(pattern, src),
        slots(vec![
            ("k", Binding::Nested(vec![bound(ident("a")), bound(ident("b")), bound(ident("c"))])),
            (
                "v",
                Binding::Nested(vec![
                    Binding::Nested(vec![bound(literal("1")), bound(literal("2"))]),
                    Binding::Empty,
                    Binding::Nested(vec![bound(literal("3"))]),
                ])
            ),
        ])
    );
}

#[test]
fn a_name_from_outside_cannot_be_repeated() {
    let pattern = vec![
        var("x", "ident"),
        repeat(vec![var("x", "ident")], None, RepeatKind::ZeroOrMore),
    ];
    let m = attempt(pattern, vec![ident("a"), ident("b"), ident("c")]).unwrap();
    assert_eq!(m.err, Some(binding_error("could not find binding `x`")));
    assert_eq!(m.err_count, 2);
    assert_eq!(m.unmatched_tts, 0);
    assert_eq!(m.bindings.slots, slots(vec![("x", bound(ident("a")))]));
}

#[test]
fn a_repetition_of_nothing_ends() {
    let pattern = vec![repeat(vec![var("v", "vis")], None, RepeatKind::ZeroOrMore)];
    let found = bindings(pattern, vec![]);
    assert_eq!(found.len(), 1);
    match &found[0].1 {
        Binding::Nested(values) => {
            assert_eq!(values.len(), 65535);
            assert_eq!(values[0], bound(undelimited(vec![])));
        }
        _ => panic!("not a list"),
    }
}

#[test]
fn an_error_in_the_template_is_returned() {
    let broken = || Err(ExpandError::ConversionError);
    assert_eq!(attempt(vec![broken()], vec![]), Err(ExpandError::ConversionError));
    // Errors in matching do not hide it.
    assert_eq!(
        attempt(vec![token(ident_leaf("a")), broken()], vec![]),
        Err(ExpandError::ConversionError)
    );
    let in_group = || vec![group(DelimiterKind::Parenthesis, vec![broken()])];
    assert_eq!(attempt(in_group(), vec![parens(vec![])]), Err(ExpandError::ConversionError));
    // A group that is not there is not looked into.
    assert_eq!(attempt(in_group(), vec![]).unwrap().err, Some(binding_error("expected subtree")));
    // In a repetition it comes up when the variables are collected.
    let pattern = vec![repeat(in_group(), None, RepeatKind::ZeroOrMore)];
    assert_eq!(attempt(pattern, vec![]), Err(ExpandError::ConversionError));
    // `+` fails before that.
    let pattern = vec![repeat(in_group(), None, RepeatKind::OneOrMore)];
    assert_eq!(attempt(pattern, vec![]).unwrap().err, Some(ExpandError::UnexpectedToken));
}

#[test]
fn collect_vars_stops_at_an_error() {
    let pattern = template(vec![
        var("a", "ident"),
        repeat(vec![var("b", "tt")], None, RepeatKind::ZeroOrMore),
        Err(ExpandError::UnexpectedToken),
        var("c", "tt"),
    ]);
    let mut names = vec!["z".to_string()];
    assert_eq!(collect_vars(&mut names, &pattern), Err(ExpandError::UnexpectedToken));
    assert_eq!(names, vec!["z", "a", "b"]);
}

#[test]
fn every_variable_of_a_match_is_bound() {
    let body = vec![
        var("a", "ident"),
        group(DelimiterKind::Parenthesis, vec![var("b", "expr"), var("c", "vis")]),
        repeat(vec![var("d", "literal")], Some(','), RepeatKind::ZeroOrOne),
    ];
    let pattern = template(body);
    let mut names = Vec::new();
    collect_vars(&mut names, &pattern).unwrap();
    assert_eq!(names, vec!["a", "b", "c", "d"]);
    let src = Subtree {
        delimiter: None,
        token_trees: vec![ident("x"), parens(vec![literal("1"), punct('+'), ident("y")])],
    };
    let m = match_(&pattern, &src, &parse).unwrap();
    assert_eq!(m.err, None);
    let found: Vec<&String> = m.bindings.slots.iter().map(|slot| &slot.0).collect();
    assert_eq!(found, vec!["a", "b", "c", "d"]);
}

#[test]
fn the_grammar_matters_to_fragments_only() {
    let greedy = |trees: &[TokenTree], _kind: FragmentKind| {
        vec![TreeEvent::Token { kind: SyntaxKind::Other, n_tokens: 1 }; trees.len()]
    };
    let plain = template(vec![
        var("x", "ident"),
        repeat(vec![var("y", "tt")], Some(','), RepeatKind::ZeroOrMore),
    ]);
    let src = Subtree {
        delimiter: None,
        token_trees: vec![ident("a"), ident("b"), punct(','), ident("c"), punct(';')],
    };
    let m = match_(&plain, &src, &parse).unwrap();
    assert_eq!(m.err_count, 1);
    assert_eq!(m.unmatched_tts, 1);
    assert_eq!(m, match_(&plain, &src, &greedy).unwrap());

    let fragment = template(vec![var("x", "expr")]);
    let m = match_(&fragment, &src, &parse).unwrap();
    assert_eq!(m.unmatched_tts, 4);
    let m = match_(&fragment, &src, &greedy).unwrap();
    assert_eq!(m.err, None);
}

#[test]
fn no_name_is_bound_twice() {
    let m = attempt(
        vec![
            var("x", "ident"),
            var("x", "tt"),
            repeat(vec![var("y", "ident")], None, RepeatKind::OneOrMore),
        ],
        vec![ident("a"), ident("b"), ident("c"), ident("d")],
    )
    .unwrap();
    assert_eq!(m.err, None);
    assert_eq!(
        m.bindings.slots,
        slots(vec![
            ("x", bound(ident("b"))),
            ("y", Binding::Nested(vec![bound(ident("c")), bound(ident("d"))])),
        ])
    );
}
