//! What the plain tokens and the groups of a template fit.
use crate::error::ErrorView;
use crate::fragment::Grammar;
use crate::laws::elements::{
    blank, law_elements_follow_one_another, law_leftover_trees_are_an_error, lemma_one, one,
    went_well, went_wrong,
};
use crate::laws::growth::law_matching_only_adds;
use crate::semantics::{matched, run, MatchView};
use crate::template::{OpView, TemplateView};
use crate::tt::{delimiter_kind, Delimiter, LeafView, TreeView};
use vstd::prelude::*;

verus! {

/// A token takes one tree and binds nothing. A literal or an identifier fits one
/// of its own sort with the same text, and a punctuation character one that is
/// the same character, whatever its spacing; any other token is an unexpected
/// one. Where no token comes the one that is missing is named.
pub proof fn law_token_fits_its_like(
    grammar: Grammar,
    lhs: LeafView,
    res: MatchView,
    src: Seq<TreeView>,
)
    ensures
        ({
            let all = run(grammar, one(OpView::Leaf(lhs)), 0, res, src);
            &&& all.stop is None
            &&& all.res.bindings == res.bindings
            &&& all.src == if src.len() > 0 {
                src.skip(1)
            } else {
                src
            }
            &&& src.len() > 0 ==> (src[0] matches TreeView::Leaf(rhs) ==> {
                let fits = match lhs {
                    LeafView::Literal(a) => rhs matches LeafView::Literal(b) && a.text == b.text,
                    LeafView::Ident(a) => rhs matches LeafView::Ident(b) && a.text == b.text,
                    LeafView::Punct(a) => rhs matches LeafView::Punct(b) && a.char == b.char,
                };
                &&& fits ==> went_well(res, all.res)
                &&& !fits ==> went_wrong(res, all.res, ErrorView::UnexpectedToken)
            })
            &&& src.len() == 0 || src[0] is Subtree ==> went_wrong(
                res,
                all.res,
                ErrorView::BindingError(
                    "expected leaf: `"@ + (match lhs {
                        LeafView::Literal(a) => a.text,
                        LeafView::Ident(a) => a.text,
                        LeafView::Punct(a) => seq![a.char],
                    }) + "`"@,
                ),
            )
        }),
{
    lemma_one(grammar, OpView::Leaf(lhs), res, src);
    if src.len() > 0 {
        assert(src.skip(1) =~= src.drop_first());
    }
}

/// A rule of one token matches an input of one token if and only if they are of
/// one sort and read the same.
pub proof fn law_rule_of_one_token(grammar: Grammar, lhs: LeafView, rhs: LeafView)
    ensures
        matched(grammar, one(OpView::Leaf(lhs)), seq![TreeView::Leaf(rhs)]) matches Ok(m) && {
            &&& m.bindings.len() == 0
            &&& m.unmatched_tts == 0
            &&& m.err is None <==> {
                ||| lhs is Literal && rhs is Literal && lhs->Literal_0.text == rhs->Literal_0.text
                ||| lhs is Ident && rhs is Ident && lhs->Ident_0.text == rhs->Ident_0.text
                ||| lhs is Punct && rhs is Punct && lhs->Punct_0.char == rhs->Punct_0.char
            }
            &&& m.err is Some ==> m.err == Some(ErrorView::UnexpectedToken) && m.err_count == 1
        },
{
    let src = seq![TreeView::Leaf(rhs)];
    law_token_fits_its_like(grammar, lhs, blank(), src);
    law_leftover_trees_are_an_error(grammar, one(OpView::Leaf(lhs)), src);
}

/// Two groups have the same kind of delimiter, or both have none.
pub open spec fn delimited_alike(a: Option<Delimiter>, b: Option<Delimiter>) -> bool {
    match a {
        Some(a) => b matches Some(b) && a.kind == b.kind,
        None => b is None,
    }
}

/// A group takes one tree, which has to be a group with the same kind of
/// delimiter. What the template has within the group is matched against what
/// the tree has within it, all of it.
pub proof fn law_group_fits_its_like(
    grammar: Grammar,
    lhs: TemplateView,
    res: MatchView,
    src: Seq<TreeView>,
)
    ensures
        ({
            let all = run(grammar, one(OpView::Subtree(lhs)), 0, res, src);
            &&& all.src == if src.len() > 0 {
                src.skip(1)
            } else {
                src
            }
            &&& src.len() == 0 || src[0] is Leaf ==> {
                &&& all.stop is None
                &&& all.res.bindings == res.bindings
                &&& went_wrong(res, all.res, ErrorView::BindingError("expected subtree"@))
            }
            &&& src.len() > 0 ==> (src[0] matches TreeView::Subtree(rhs) ==> {
                let within = run(grammar, lhs, 0, res, rhs.token_trees);
                if !delimited_alike(lhs.delimiter, rhs.delimiter) {
                    &&& all.stop is None
                    &&& all.res.bindings == res.bindings
                    &&& went_wrong(res, all.res, ErrorView::BindingError("mismatched delimiter"@))
                } else {
                    &&& all.stop == within.stop
                    &&& all.res.bindings == within.res.bindings
                    &&& within.stop is Some || within.src.len() == 0 ==> went_well(
                        within.res,
                        all.res,
                    )
                    &&& within.stop is None && within.src.len() > 0 ==> went_wrong(
                        within.res,
                        all.res,
                        ErrorView::BindingError("leftover tokens"@),
                    )
                }
            })
        }),
{
    lemma_one(grammar, OpView::Subtree(lhs), res, src);
    if src.len() > 0 {
        assert(src.skip(1) =~= src.drop_first());
    }
}

/// A rule that begins with a group matches without error only an input that
/// begins with a group with the same kind of delimiter, whose content matches
/// without error and without rest what the rule has within the group.
pub proof fn law_rule_that_begins_with_a_group(
    grammar: Grammar,
    pattern: TemplateView,
    lhs: TemplateView,
    src: Seq<TreeView>,
)
    requires
        pattern.tokens.len() > 0,
        pattern.tokens[0] == Ok::<OpView, ErrorView>(OpView::Subtree(lhs)),
    ensures
        matched(grammar, pattern, src) matches Ok(m) ==> (m.err is None ==> {
            &&& src.len() > 0
            &&& src[0] matches TreeView::Subtree(rhs) && {
                &&& lhs.delimiter is None <==> rhs.delimiter is None
                &&& lhs.delimiter is Some ==> lhs.delimiter->0.kind == rhs.delimiter->0.kind
                &&& matched(grammar, lhs, rhs.token_trees) matches Ok(within) && within.err is None
            }
        }),
{
    let first = run(grammar, one(OpView::Subtree(lhs)), 0, blank(), src);
    law_leftover_trees_are_an_error(grammar, pattern, src);
    law_elements_follow_one_another(grammar, pattern, 0, blank(), src);
    law_group_fits_its_like(grammar, lhs, blank(), src);
    law_matching_only_adds(grammar, pattern, 1, first.res, first.src);
    if src.len() > 0 {
        if let TreeView::Subtree(rhs) = src[0] {
            law_leftover_trees_are_an_error(grammar, lhs, rhs.token_trees);
            law_matching_only_adds(grammar, lhs, 0, blank(), rhs.token_trees);
        }
    }
}

/// A rule that begins with a token matches without error only an input that
/// begins with a token that reads the same.
pub proof fn law_rule_that_begins_with_a_token(
    grammar: Grammar,
    pattern: TemplateView,
    lhs: LeafView,
    src: Seq<TreeView>,
)
    requires
        pattern.tokens.len() > 0,
        pattern.tokens[0] == Ok::<OpView, ErrorView>(OpView::Leaf(lhs)),
    ensures
        matched(grammar, pattern, src) matches Ok(m) ==> (m.err is None ==> {
            &&& src.len() > 0
            &&& src[0] matches TreeView::Leaf(rhs) && match lhs {
                LeafView::Literal(a) => rhs is Literal && rhs->Literal_0.text == a.text,
                LeafView::Ident(a) => rhs is Ident && rhs->Ident_0.text == a.text,
                LeafView::Punct(a) => rhs is Punct && rhs->Punct_0.char == a.char,
            }
        }),
{
    let first = run(grammar, one(OpView::Leaf(lhs)), 0, blank(), src);
    law_leftover_trees_are_an_error(grammar, pattern, src);
    law_elements_follow_one_another(grammar, pattern, 0, blank(), src);
    law_token_fits_its_like(grammar, lhs, blank(), src);
    law_matching_only_adds(grammar, pattern, 1, first.res, first.src);
}

/// The kind of a delimiter is its own.
pub proof fn law_delimiter_has_its_kind(delimiter: Delimiter)
    ensures
        delimiter_kind(Some(delimiter)) == Some(delimiter.kind),
        delimiter_kind(None) is None,
{
}

} // verus!
