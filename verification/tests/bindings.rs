//! Binding variables.
use mbe::bindings::{Binding, Bindings, Fragment};
use mbe::error::ExpandError;
use mbe::tt::{Ident, Leaf, Subtree, TokenId, TokenTree};

fn name(text: &str) -> String {
    text.to_string()
}

fn fragment(text: &str) -> Binding {
    let ident = Ident { text: text.to_string(), id: TokenId(0) };
    Binding::Fragment(Fragment::Tokens(TokenTree::Leaf(Leaf::Ident(ident))))
}

fn empty_round() -> Binding {
    Binding::Nested(vec![])
}

fn of(slots: Vec<(&str, Binding)>) -> Bindings {
    Bindings { slots: slots.into_iter().map(|(n, b)| (n.to_string(), b)).collect() }
}

#[test]
fn insert_adds_or_replaces() {
    let mut bindings = Bindings::new();
    bindings.insert(&name("x"), fragment("a"));
    bindings.insert(&name("y"), fragment("b"));
    bindings.insert(&name("x"), fragment("c"));
    assert_eq!(bindings, of(vec![("x", fragment("c")), ("y", fragment("b"))]));
    assert_eq!(bindings.slot_mut(&name("x")), Some(&mut fragment("c")));
    assert_eq!(bindings.slot_mut(&name("z")), None);
}

#[test]
fn slot_mut_writes_in_place() {
    let mut bindings = of(vec![("x", fragment("a")), ("y", fragment("b"))]);
    *bindings.slot_mut(&name("y")).unwrap() = Binding::Empty;
    assert_eq!(bindings, of(vec![("x", fragment("a")), ("y", Binding::Empty)]));
}

#[test]
fn optional_and_empty() {
    let mut bindings = Bindings::new();
    bindings.push_optional(&name("v"));
    bindings.push_empty(&name("e"));
    let nothing = TokenTree::Subtree(Subtree { delimiter: None, token_trees: vec![] });
    let nothing = Binding::Fragment(Fragment::Tokens(nothing));
    assert_eq!(bindings, of(vec![("v", nothing), ("e", Binding::Empty)]));
}

#[test]
fn rounds_are_aligned() {
    let mut bindings = Bindings::new();
    assert_eq!(bindings.push_nested(0, of(vec![("x", fragment("a"))])), Ok(()));
    assert_eq!(bindings.push_nested(1, of(vec![("x", fragment("b"))])), Ok(()));
    assert_eq!(
        bindings,
        of(vec![("x", Binding::Nested(vec![fragment("a"), fragment("b")]))])
    );
    // `y` comes up in the third round only, and `x` misses it.
    assert_eq!(bindings.push_nested(2, of(vec![("y", fragment("c"))])), Ok(()));
    assert_eq!(bindings.push_nested(3, of(vec![("x", fragment("d"))])), Ok(()));
    assert_eq!(
        bindings,
        of(vec![
            (
                "x",
                Binding::Nested(vec![fragment("a"), fragment("b"), empty_round(), fragment("d")]),
            ),
            ("y", Binding::Nested(vec![empty_round(), empty_round(), fragment("c")])),
        ])
    );
}

#[test]
fn a_round_stops_at_a_name_from_outside() {
    let mut bindings = of(vec![("x", fragment("a"))]);
    let nested = of(vec![("w", fragment("1")), ("x", fragment("2")), ("y", fragment("3"))]);
    assert_eq!(
        bindings.push_nested(0, nested),
        Err(ExpandError::BindingError("could not find binding `x`".to_string()))
    );
    assert_eq!(
        bindings,
        of(vec![("x", fragment("a")), ("w", Binding::Nested(vec![fragment("1")]))])
    );
}
