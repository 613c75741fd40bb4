//! What a variable of each kind takes, and what it is bound to.
use crate::bindings::{BindingView, FragmentView};
use crate::error::ErrorView;
use crate::fragment::{take_fragment, take_vis, FragmentKind, Grammar};
use crate::laws::elements::{
    blank, holds, law_leftover_trees_are_an_error, lemma_bind_holds, lemma_one, one, went_well,
    went_wrong,
};
use crate::laws::trees::{loose, without};
use crate::semantics::{matched, run, syntactic, take_literal, take_var, MatchView, Run};
use crate::template::OpView;
use crate::tt::{LeafView, TreeView};
use crate::tt_iter::{take_lifetime, take_tt};
use vstd::prelude::*;

verus! {

/// A variable, if it has a kind.
pub open spec fn var(name: Seq<char>, kind: Option<Seq<char>>) -> OpView {
    OpView::Var { name, kind }
}

/// The kinds of variables that a parser decides on, each with the fragment that
/// the parser is asked for.
pub open spec fn asks_for(kind: Seq<char>, fragment: FragmentKind) -> bool {
    match fragment {
        FragmentKind::Path => kind == "path"@,
        FragmentKind::Expr => kind == "expr"@,
        FragmentKind::Statement => kind == "stmt"@,
        FragmentKind::Type => kind == "ty"@,
        FragmentKind::Pattern => kind == "pat"@,
        FragmentKind::Item => kind == "item"@,
        FragmentKind::Block => kind == "block"@,
        FragmentKind::MetaItem => kind == "meta"@,
        FragmentKind::Visibility => false,
    }
}

proof fn lemma_kinds()
    ensures
        forall|kind: Seq<char>, fragment: FragmentKind| #[trigger]
            asks_for(kind, fragment) <==> syntactic(kind) == Some(fragment),
        syntactic("ident"@) is None,
        syntactic("tt"@) is None,
        syntactic("lifetime"@) is None,
        syntactic("literal"@) is None,
        syntactic("vis"@) is None,
        "tt"@ != "ident"@,
        "lifetime"@ != "ident"@,
        "lifetime"@ != "tt"@,
        "literal"@ != "ident"@,
        "literal"@ != "tt"@,
        "literal"@ != "lifetime"@,
        "vis"@ != "ident"@,
        "vis"@ != "tt"@,
        "vis"@ != "lifetime"@,
        "vis"@ != "literal"@,
{
    reveal_strlit("path");
    reveal_strlit("expr");
    reveal_strlit("ty");
    reveal_strlit("pat");
    reveal_strlit("stmt");
    reveal_strlit("block");
    reveal_strlit("meta");
    reveal_strlit("item");
    reveal_strlit("ident");
    reveal_strlit("tt");
    reveal_strlit("lifetime");
    reveal_strlit("literal");
    reveal_strlit("vis");
    assert("path"@.len() == 4 && "expr"@.len() == 4 && "stmt"@.len() == 4);
    assert("meta"@.len() == 4 && "item"@.len() == 4 && "ty"@.len() == 2 && "pat"@.len() == 3);
    assert("block"@.len() == 5 && "ident"@.len() == 5 && "tt"@.len() == 2 && "vis"@.len() == 3);
    assert("lifetime"@.len() == 8 && "literal"@.len() == 7);
    let p = "path"@[0];
    let e = "expr"@[0];
    let s = "stmt"@[0];
    let m = "meta"@[0];
    let i = "item"@[0];
    assert(p == 'p' && e == 'e' && s == 's' && m == 'm' && i == 'i');
    assert("path"@ != "expr"@ && "path"@ != "stmt"@ && "path"@ != "meta"@ && "path"@ != "item"@);
    assert("expr"@ != "stmt"@ && "expr"@ != "meta"@ && "expr"@ != "item"@);
    assert("stmt"@ != "meta"@ && "stmt"@ != "item"@ && "meta"@ != "item"@);
    assert("ident"@ != "block"@) by {
        assert("ident"@[0] != "block"@[0]);
    }
    assert("ty"@ != "tt"@) by {
        assert("ty"@[1] != "tt"@[1]);
    }
    assert("pat"@ != "vis"@) by {
        assert("pat"@[0] != "vis"@[0]);
    }
}

/// What came of a variable: its value, if it took one, or the error.
pub open spec fn came_of(
    before: MatchView,
    after: Run,
    name: Seq<char>,
    value: Option<BindingView>,
    err: Option<ErrorView>,
) -> bool {
    &&& after.stop is None
    &&& match value {
        Some(it) => holds(before.bindings, after.res.bindings, name, it),
        None => after.res.bindings == before.bindings,
    }
    &&& match err {
        Some(e) => went_wrong(before, after.res, e),
        None => went_well(before, after.res),
    }
}

/// A tree as it came.
pub open spec fn plain(tree: TreeView) -> BindingView {
    BindingView::Fragment(FragmentView::Tokens(tree))
}

/// A variable that takes a fragment is bound to that very fragment, and takes
/// from the input what the fragment took. One that takes none is bound to the
/// empty group if that is no error, and is not bound if it is.
pub proof fn law_variable_is_bound_to_what_it_took(
    grammar: Grammar,
    name: Seq<char>,
    kind: Seq<char>,
    res: MatchView,
    src: Seq<TreeView>,
)
    ensures
        ({
            let taken = take_var(grammar, src, kind);
            let all = run(grammar, one(var(name, Some(kind))), 0, res, src);
            let value = match taken.value {
                Some(fragment) => Some(BindingView::Fragment(fragment)),
                None => if taken.err is None {
                    Some(plain(loose(Seq::empty())))
                } else {
                    None
                },
            };
            &&& came_of(res, all, name, value, taken.err)
            &&& all.src == taken.src
        }),
{
    lemma_one(grammar, var(name, Some(kind)), res, src);
    let taken = take_var(grammar, src, kind);
    if let Some(fragment) = taken.value {
        lemma_bind_holds(res.bindings, name, BindingView::Fragment(fragment));
    } else {
        lemma_bind_holds(res.bindings, name, plain(loose(Seq::empty())));
    }
}

/// A variable without a kind, or of a kind that is none of those that there are,
/// is an unexpected token. It takes nothing.
pub proof fn law_variable_of_no_known_kind(
    grammar: Grammar,
    name: Seq<char>,
    kind: Option<Seq<char>>,
    res: MatchView,
    src: Seq<TreeView>,
)
    requires
        kind matches Some(it) ==> {
            &&& forall|fragment: FragmentKind| !#[trigger] asks_for(it, fragment)
            &&& it != "ident"@
            &&& it != "tt"@
            &&& it != "lifetime"@
            &&& it != "literal"@
            &&& it != "vis"@
        },
    ensures
        ({
            let all = run(grammar, one(var(name, kind)), 0, res, src);
            &&& came_of(res, all, name, None, Some(ErrorView::UnexpectedToken))
            &&& all.src == src
        }),
{
    lemma_kinds();
    lemma_one(grammar, var(name, kind), res, src);
    if let Some(it) = kind {
        if let Some(fragment) = syntactic(it) {
            assert(asks_for(it, fragment));
        }
    }
}

/// A variable of kind `ident` takes one tree, and is bound to it if it is an
/// identifier.
pub proof fn law_variable_of_kind_ident(
    grammar: Grammar,
    name: Seq<char>,
    res: MatchView,
    src: Seq<TreeView>,
)
    ensures
        ({
            let all = run(grammar, one(var(name, Some("ident"@))), 0, res, src);
            let found = src.len() > 0 && (src[0] matches TreeView::Leaf(LeafView::Ident(_)));
            &&& found ==> came_of(res, all, name, Some(plain(src[0])), None)
            &&& !found ==> came_of(
                res,
                all,
                name,
                None,
                Some(ErrorView::BindingError("expected ident"@)),
            )
            &&& all.src == without(src, 1)
        }),
{
    lemma_kinds();
    law_variable_is_bound_to_what_it_took(grammar, name, "ident"@, res, src);
    if src.len() > 0 {
        assert(src.skip(1) =~= src.drop_first());
    } else {
        assert(src =~= Seq::empty());
    }
}

/// A variable of kind `tt` is bound to the tree, the lifetime or the operator
/// that comes first.
pub proof fn law_variable_of_kind_tt(
    grammar: Grammar,
    name: Seq<char>,
    res: MatchView,
    src: Seq<TreeView>,
)
    ensures
        ({
            let all = run(grammar, one(var(name, Some("tt"@))), 0, res, src);
            &&& take_tt(src).1 matches Some(tree) ==> came_of(
                res,
                all,
                name,
                Some(plain(tree)),
                None,
            )
            &&& take_tt(src).1 is None ==> came_of(
                res,
                all,
                name,
                None,
                Some(ErrorView::BindingError(Seq::empty())),
            )
            &&& all.src == take_tt(src).0
        }),
{
    lemma_kinds();
    reveal_strlit("");
    assert(""@ =~= Seq::empty());
    law_variable_is_bound_to_what_it_took(grammar, name, "tt"@, res, src);
}

/// A variable of kind `lifetime` is bound to the lifetime that comes first.
pub proof fn law_variable_of_kind_lifetime(
    grammar: Grammar,
    name: Seq<char>,
    res: MatchView,
    src: Seq<TreeView>,
)
    ensures
        ({
            let all = run(grammar, one(var(name, Some("lifetime"@))), 0, res, src);
            &&& take_lifetime(src).1 matches Some(tree) ==> came_of(
                res,
                all,
                name,
                Some(plain(tree)),
                None,
            )
            &&& take_lifetime(src).1 is None ==> came_of(
                res,
                all,
                name,
                None,
                Some(ErrorView::BindingError("expected lifetime"@)),
            )
            &&& all.src == take_lifetime(src).0
        }),
{
    lemma_kinds();
    law_variable_is_bound_to_what_it_took(grammar, name, "lifetime"@, res, src);
}

/// A variable of kind `literal` is bound to the literal that comes first, with
/// its sign.
pub proof fn law_variable_of_kind_literal(
    grammar: Grammar,
    name: Seq<char>,
    res: MatchView,
    src: Seq<TreeView>,
)
    ensures
        ({
            let all = run(grammar, one(var(name, Some("literal"@))), 0, res, src);
            &&& take_literal(src).1 matches Some(tree) ==> came_of(
                res,
                all,
                name,
                Some(plain(tree)),
                None,
            )
            &&& take_literal(src).1 is None ==> came_of(
                res,
                all,
                name,
                None,
                Some(ErrorView::BindingError(Seq::empty())),
            )
            &&& all.src == take_literal(src).0
        }),
{
    lemma_kinds();
    reveal_strlit("");
    assert(""@ =~= Seq::empty());
    law_variable_is_bound_to_what_it_took(grammar, name, "literal"@, res, src);
}

/// A variable of kind `vis` is bound to the visibility that comes first, if the
/// parser finds one without an error, and else to the empty group. It is never
/// an error.
pub proof fn law_variable_of_kind_vis(
    grammar: Grammar,
    name: Seq<char>,
    res: MatchView,
    src: Seq<TreeView>,
)
    ensures
        ({
            let all = run(grammar, one(var(name, Some("vis"@))), 0, res, src);
            let (left, tree, err) = take_fragment(grammar, src, FragmentKind::Visibility);
            &&& err is None ==> {
                &&& tree is Some
                &&& came_of(res, all, name, Some(plain(tree->0)), None)
                &&& all.src == left
            }
            &&& err is Some ==> {
                &&& came_of(res, all, name, Some(plain(loose(Seq::empty()))), None)
                &&& all.src == src
            }
        }),
{
    lemma_kinds();
    law_variable_is_bound_to_what_it_took(grammar, name, "vis"@, res, src);
    assert(take_var(grammar, src, "vis"@).src == take_vis(grammar, src).0);
}

/// A variable of a syntactic kind is bound to the fragment that the parser
/// finds, as it came, but for an expression, which is marked as one. The error,
/// if any, is that of the fragment.
pub proof fn law_variable_of_a_syntactic_kind(
    grammar: Grammar,
    name: Seq<char>,
    kind: Seq<char>,
    fragment: FragmentKind,
    res: MatchView,
    src: Seq<TreeView>,
)
    requires
        asks_for(kind, fragment),
    ensures
        ({
            let all = run(grammar, one(var(name, Some(kind))), 0, res, src);
            let (left, tree, err) = take_fragment(grammar, src, fragment);
            let value = match tree {
                Some(it) if kind == "expr"@ => Some(
                    BindingView::Fragment(FragmentView::Ast(it)),
                ),
                Some(it) => Some(plain(it)),
                None => None,
            };
            &&& came_of(res, all, name, value, err)
            &&& tree is Some || err is Some
            &&& all.src == left
        }),
{
    lemma_kinds();
    assert(asks_for(kind, fragment));
    assert(asks_for("expr"@, FragmentKind::Expr));
    law_variable_is_bound_to_what_it_took(grammar, name, kind, res, src);
}

/// A rule of one variable binds that variable, and nothing else, to what it
/// took, if it took something and left nothing.
pub proof fn law_rule_of_one_variable(
    grammar: Grammar,
    name: Seq<char>,
    kind: Seq<char>,
    src: Seq<TreeView>,
)
    ensures
        ({
            let taken = take_var(grammar, src, kind);
            matched(grammar, one(var(name, Some(kind))), src) matches Ok(m) && {
                &&& taken.value matches Some(fragment) ==> m.bindings == seq![
                    (name, BindingView::Fragment(fragment)),
                ]
                &&& taken.err is Some && taken.value is None ==> m.bindings.len() == 0
                &&& m.err is None <==> taken.err is None && taken.src.len() == 0
                &&& m.unmatched_tts == taken.src.len()
            }
        }),
{
    let pattern = one(var(name, Some(kind)));
    law_variable_is_bound_to_what_it_took(grammar, name, kind, blank(), src);
    law_leftover_trees_are_an_error(grammar, pattern, src);
    let all = run(grammar, pattern, 0, blank(), src);
    if let Some(fragment) = take_var(grammar, src, kind).value {
        assert(all.res.bindings =~= seq![(name, BindingView::Fragment(fragment))]);
    }
}

} // verus!
