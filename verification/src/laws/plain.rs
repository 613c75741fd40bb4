//! Templates of plain tokens, and templates without syntactic fragments.
use crate::bindings::bind_round;
use crate::fragment::Grammar;
use crate::laws::growth::law_matching_only_adds;
use crate::semantics::{
    matched, op_consults, round_src, run, run_op, run_rounds, template_consults, MatchView,
    REPEAT_LIMIT,
};
use crate::template::{OpView, RepeatKind, SeparatorView, TemplateView};
use crate::tt::{LeafView, TreeView};
use crate::tt_iter::{rest, subtree_at};
use vstd::prelude::*;

verus! {

/// The template consists of tokens that stand for themselves.
pub open spec fn literal(pattern: TemplateView) -> bool {
    forall|i: int|
        0 <= i < pattern.tokens.len() ==> (#[trigger] pattern.tokens[i] matches Ok(OpView::Leaf(_)))
}

/// The tree is a token of the same sort with the same text.
pub open spec fn reads(lhs: LeafView, tree: TreeView) -> bool {
    match lhs {
        LeafView::Literal(a) => tree matches TreeView::Leaf(LeafView::Literal(b)) && a.text
            == b.text,
        LeafView::Ident(a) => tree matches TreeView::Leaf(LeafView::Ident(b)) && a.text == b.text,
        LeafView::Punct(a) => tree matches TreeView::Leaf(LeafView::Punct(b)) && a.char == b.char,
    }
}

/// The input reads as the template does.
pub open spec fn reads_as(pattern: TemplateView, i: nat, src: Seq<TreeView>) -> bool {
    &&& src.len() == pattern.tokens.len() - i
    &&& forall|j: int|
        0 <= j < src.len() ==> reads(pattern.tokens[i + j]->Ok_0->Leaf_0, #[trigger] src[j])
}

proof fn lemma_literal_run(
    grammar: Grammar,
    pattern: TemplateView,
    i: nat,
    res: MatchView,
    src: Seq<TreeView>,
)
    requires
        literal(pattern),
        i <= pattern.tokens.len(),
    ensures
        ({
            let all = run(grammar, pattern, i, res, src);
            &&& all.stop is None
            &&& all.res.bindings == res.bindings
            &&& res.err is None ==> (all.res.err is None && all.src.len() == 0 <==> reads_as(
                pattern,
                i,
                src,
            ))
        }),
    decreases pattern.tokens.len() - i,
{
    if i < pattern.tokens.len() {
        assert(pattern.tokens[i as int] matches Ok(OpView::Leaf(_)));
        let op = pattern.tokens[i as int]->Ok_0;
        let lhs = op->Leaf_0;
        let step = run_op(grammar, op, res, src);
        lemma_literal_run(grammar, pattern, i + 1, step.res, step.src);
        law_matching_only_adds(grammar, pattern, i + 1, step.res, step.src);
        let tail = rest(src);
        let fits = src.len() > 0 && reads(lhs, src[0]);
        if reads_as(pattern, i, src) {
            assert(fits);
            assert forall|j: int| 0 <= j < tail.len() implies reads(
                pattern.tokens[i + 1 + j]->Ok_0->Leaf_0,
                #[trigger] tail[j],
            ) by {
                assert(tail[j] == src[j + 1]);
                assert(pattern.tokens[i + (j + 1)] == pattern.tokens[i + 1 + j]);
            }
            assert(reads_as(pattern, i + 1, tail));
        }
        if fits && reads_as(pattern, i + 1, tail) {
            assert forall|j: int| 0 <= j < src.len() implies reads(
                pattern.tokens[i + j]->Ok_0->Leaf_0,
                #[trigger] src[j],
            ) by {
                if j > 0 {
                    assert(tail[j - 1] == src[j]);
                    assert(pattern.tokens[i + 1 + (j - 1)] == pattern.tokens[i + j]);
                }
            }
            assert(reads_as(pattern, i, src));
        }
    }
}

/// A template of plain tokens matches without error exactly the input that
/// reads the same, whatever its spacing, and binds nothing.
pub proof fn law_plain_tokens_match_themselves(
    grammar: Grammar,
    pattern: TemplateView,
    src: Seq<TreeView>,
)
    requires
        literal(pattern),
    ensures
        matched(grammar, pattern, src) matches Ok(m) && m.bindings.len() == 0 && (m.err is None
            <==> reads_as(pattern, 0, src)),
{
    lemma_literal_run(grammar, pattern, 0, MatchView::empty(), src);
    law_matching_only_adds(grammar, pattern, 0, MatchView::empty(), src);
}

proof fn lemma_run_same(
    g: Grammar,
    h: Grammar,
    pattern: TemplateView,
    i: nat,
    res: MatchView,
    src: Seq<TreeView>,
)
    requires
        !template_consults(pattern, i),
    ensures
        run(g, pattern, i, res, src) == run(h, pattern, i, res, src),
    decreases pattern, 0nat, pattern.tokens.len() - i,
{
    if i < pattern.tokens.len() {
        if let Ok(op) = pattern.tokens[i as int] {
            assert(!op_consults(op));
            match op {
                OpView::Subtree(lhs) => {
                    if let Some(rhs) = subtree_at(src, 0) {
                        lemma_run_same(g, h, lhs, 0, res, rhs.token_trees);
                    }
                },
                OpView::Repeat { subtree, kind, separator } => {
                    lemma_rounds_same(g, h, subtree, kind, separator, 0, res, src);
                },
                _ => {},
            }
            let step = run_op(g, op, res, src);
            assert(step == run_op(h, op, res, src));
            if step.stop is None {
                lemma_run_same(g, h, pattern, i + 1, step.res, step.src);
            }
        }
    }
}

proof fn lemma_rounds_same(
    g: Grammar,
    h: Grammar,
    pattern: TemplateView,
    kind: RepeatKind,
    separator: Option<SeparatorView>,
    round: nat,
    res: MatchView,
    src: Seq<TreeView>,
)
    requires
        !template_consults(pattern, 0),
    ensures
        run_rounds(g, pattern, kind, separator, round, res, src) == run_rounds(
            h,
            pattern,
            kind,
            separator,
            round,
            res,
            src,
        ),
    decreases pattern, 1nat, REPEAT_LIMIT - round,
{
    if let Some(fork) = round_src(round, separator, src) {
        lemma_run_same(g, h, pattern, 0, MatchView::empty(), fork);
        let nested = run(g, pattern, 0, MatchView::empty(), fork);
        if nested.stop is None && nested.res.err is None && round + 1 < REPEAT_LIMIT && !(round == 0
            && kind is ZeroOrOne) {
            let more = res.bind_round(round, nested.res.bindings);
            lemma_rounds_same(g, h, pattern, kind, separator, round + 1, more, nested.src);
        }
    }
}

/// A rule without syntactic fragments matches the same whatever the grammar.
pub proof fn law_grammar_matters_to_fragments_only(
    g: Grammar,
    h: Grammar,
    pattern: TemplateView,
    src: Seq<TreeView>,
)
    requires
        !template_consults(pattern, 0),
    ensures
        matched(g, pattern, src) == matched(h, pattern, src),
{
    lemma_run_same(g, h, pattern, 0, MatchView::empty(), src);
}

} // verus!
