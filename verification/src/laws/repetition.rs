//! What repetitions bind and where they end.
use crate::bindings::{align, bind_round, empty_fragment, lookup, BindingView, Slots};
use crate::error::ErrorView;
use crate::fragment::Grammar;
use crate::laws::binding::{
    earlier, law_bound_name_is_found, law_round_is_added, lemma_bind_empty,
    lemma_bind_empty_errs,
};
use crate::laws::growth::{law_matching_only_adds, lemma_grows_bind_round, lemma_rounds_grow};
use crate::semantics::{
    matched, round_src, run, run_op, run_repeat, run_rounds, take_var, variables, MatchView,
    REPEAT_LIMIT,
};
use crate::template::{OpView, RepeatKind, SeparatorView, TemplateView};
use crate::tt::TreeView;
use crate::tt_iter::subtree_at;
use vstd::prelude::*;

verus! {

proof fn lemma_in_sum(a: Seq<Seq<char>>, b: Seq<Seq<char>>, name: Seq<char>)
    requires
        (a + b).contains(name),
    ensures
        a.contains(name) || b.contains(name),
{
    let j = choose|j: int| 0 <= j < (a + b).len() && (a + b)[j] == name;
    if j < a.len() {
        assert(a[j] == name);
    } else {
        assert(b[j - a.len()] == name);
    }
}

/// All variables of the template from element `i` on are bound, and the
/// template has no errors that would hide one.
pub open spec fn binds_all(pattern: TemplateView, i: nat, slots: Slots) -> bool {
    &&& variables(pattern, i).1 is None
    &&& forall|name: Seq<char>| #[trigger]
        variables(pattern, i).0.contains(name) ==> lookup(slots, name) is Some
}

proof fn lemma_run_binds(
    grammar: Grammar,
    pattern: TemplateView,
    i: nat,
    res: MatchView,
    src: Seq<TreeView>,
)
    ensures
        ({
            let all = run(grammar, pattern, i, res, src);
            all.stop is None && all.res.err is None ==> binds_all(pattern, i, all.res.bindings)
        }),
    decreases pattern, 0nat, pattern.tokens.len() - i,
{
    let all = run(grammar, pattern, i, res, src);
    if i < pattern.tokens.len() && all.stop is None && all.res.err is None {
        let op = pattern.tokens[i as int]->Ok_0;
        let step = run_op(grammar, op, res, src);
        law_matching_only_adds(grammar, pattern, i + 1, step.res, step.src);
        lemma_run_binds(grammar, pattern, i + 1, step.res, step.src);
        let later = variables(pattern, i + 1).0;
        match op {
            OpView::Leaf(_) => {
                assert(variables(pattern, i).0 =~= later);
            },
            OpView::Var { name, kind } => {
                assert(step.res.err is None);
                let taken = take_var(grammar, src, kind->0);
                let b = match taken.value {
                    Some(fragment) => BindingView::Fragment(fragment),
                    None => empty_fragment(),
                };
                law_bound_name_is_found(res.bindings, name, b);
                assert(lookup(step.res.bindings, name) is Some);
                assert(variables(pattern, i).0 =~= seq![name] + later);
                assert forall|other: Seq<char>| #[trigger]
                    variables(pattern, i).0.contains(other) implies lookup(
                    all.res.bindings,
                    other,
                ) is Some by {
                    lemma_in_sum(seq![name], later, other);
                }
            },
            OpView::Subtree(lhs) => {
                let rhs = subtree_at(src, 0)->0;
                law_matching_only_adds(grammar, lhs, 0, res, rhs.token_trees);
                lemma_run_binds(grammar, lhs, 0, res, rhs.token_trees);
                let here = variables(lhs, 0).0;
                assert forall|other: Seq<char>| #[trigger]
                    variables(pattern, i).0.contains(other) implies lookup(
                    all.res.bindings,
                    other,
                ) is Some by {
                    lemma_in_sum(here, later, other);
                }
            },
            OpView::Repeat { subtree, kind, separator } => {
                lemma_repeat_binds(grammar, subtree, kind, separator, res, src);
                let here = variables(subtree, 0).0;
                assert forall|other: Seq<char>| #[trigger]
                    variables(pattern, i).0.contains(other) implies lookup(
                    all.res.bindings,
                    other,
                ) is Some by {
                    lemma_in_sum(here, later, other);
                }
            },
        }
    }
}

/// The value of a variable in each of the rounds of a repetition from number
/// `round` on.
pub open spec fn round_values(
    grammar: Grammar,
    pattern: TemplateView,
    kind: RepeatKind,
    separator: Option<SeparatorView>,
    round: nat,
    src: Seq<TreeView>,
    name: Seq<char>,
) -> Seq<BindingView>
    decreases REPEAT_LIMIT - round,
{
    match round_src(round, separator, src) {
        None => Seq::empty(),
        Some(fork) => {
            let nested = run(grammar, pattern, 0, MatchView::empty(), fork);
            if nested.stop is Some || nested.res.err is Some || round + 1 >= REPEAT_LIMIT {
                Seq::empty()
            } else {
                seq![lookup(nested.res.bindings, name)->0] + if round == 0 && kind is ZeroOrOne {
                    Seq::empty()
                } else {
                    round_values(
                        grammar,
                        pattern,
                        kind,
                        separator,
                        round + 1,
                        nested.src,
                        name,
                    )
                }
            }
        },
    }
}

proof fn lemma_rounds_bind(
    grammar: Grammar,
    pattern: TemplateView,
    kind: RepeatKind,
    separator: Option<SeparatorView>,
    round: nat,
    res: MatchView,
    src: Seq<TreeView>,
)
    ensures
        ({
            let (all, count) = run_rounds(grammar, pattern, kind, separator, round, res, src);
            &&& all.stop is None && all.res.err is None && count > round ==> binds_all(
                pattern,
                0,
                all.res.bindings,
            )
            &&& all.stop is None && all.res.err is None ==> forall|name: Seq<char>|
                #![trigger lookup(all.res.bindings, name)]
                {
                    let before = earlier(lookup(res.bindings, name));
                    let values = round_values(
                        grammar,
                        pattern,
                        kind,
                        separator,
                        round,
                        src,
                        name,
                    );
                    count > round && variables(pattern, 0).0.contains(name) && before.len() == round
                        ==> {
                        &&& lookup(all.res.bindings, name) == Some(
                            BindingView::Nested(before + values),
                        )
                        &&& values.len() == count - round
                    }
                }
        }),
    decreases pattern, 1nat, REPEAT_LIMIT - round,
{
    let (all, count) = run_rounds(grammar, pattern, kind, separator, round, res, src);
    if all.stop is None && all.res.err is None && count > round {
        lemma_rounds_grow(grammar, pattern, kind, separator, round, res, src);
        let fork = round_src(round, separator, src)->0;
        let nested = run(grammar, pattern, 0, MatchView::empty(), fork);
        let more = res.bind_round(round, nested.res.bindings);
        lemma_run_binds(grammar, pattern, 0, MatchView::empty(), fork);
        law_matching_only_adds(grammar, pattern, 0, MatchView::empty(), fork);
        lemma_grows_bind_round(res, round, nested.res.bindings);
        let once = round == 0 && kind is ZeroOrOne;
        if !once {
            lemma_rounds_grow(grammar, pattern, kind, separator, round + 1, more, nested.src);
            lemma_rounds_bind(grammar, pattern, kind, separator, round + 1, more, nested.src);
        }
        assert(more.err is None);
        assert(bind_round(res.bindings, round, nested.res.bindings).1 is None);
        assert forall|name: Seq<char>| #[trigger]
            variables(pattern, 0).0.contains(name) implies lookup(all.res.bindings, name) is Some by {
            law_round_is_added(res.bindings, round, nested.res.bindings, name);
            assert(lookup(more.bindings, name) is Some);
        }
        assert forall|name: Seq<char>|
            #![trigger lookup(all.res.bindings, name)]
            variables(pattern, 0).0.contains(name) && earlier(lookup(res.bindings, name)).len()
                == round implies ({
            let before = earlier(lookup(res.bindings, name));
            let values = round_values(grammar, pattern, kind, separator, round, src, name);
            &&& lookup(all.res.bindings, name) == Some(BindingView::Nested(before + values))
            &&& values.len() == count - round
        }) by {
            let before = earlier(lookup(res.bindings, name));
            let value = lookup(nested.res.bindings, name)->0;
            law_round_is_added(res.bindings, round, nested.res.bindings, name);
            assert(align(before, round, value) =~= before.push(value));
            let values = round_values(grammar, pattern, kind, separator, round, src, name);
            if once {
                assert(before + values =~= before.push(value));
            } else {
                let later = round_values(
                    grammar,
                    pattern,
                    kind,
                    separator,
                    round + 1,
                    nested.src,
                    name,
                );
                assert(before + values =~= before.push(value) + later);
                if count == round + 1 {
                    lemma_no_more_values(
                        grammar,
                        pattern,
                        kind,
                        separator,
                        round + 1,
                        more,
                        nested.src,
                        name,
                    );
                    assert(before + values =~= before.push(value));
                } else {
                    assert(lookup(all.res.bindings, name) is Some);
                }
            }
        }
    }
}

proof fn lemma_no_more_values(
    grammar: Grammar,
    pattern: TemplateView,
    kind: RepeatKind,
    separator: Option<SeparatorView>,
    round: nat,
    res: MatchView,
    src: Seq<TreeView>,
    name: Seq<char>,
)
    requires
        run_rounds(grammar, pattern, kind, separator, round, res, src).1 == round,
    ensures
        round_values(grammar, pattern, kind, separator, round, src, name).len() == 0,
        run_rounds(grammar, pattern, kind, separator, round, res, src).0.res == res,
        run_rounds(grammar, pattern, kind, separator, round, res, src).0.src == src,
{
    if let Some(fork) = round_src(round, separator, src) {
        let nested = run(grammar, pattern, 0, MatchView::empty(), fork);
        if nested.stop is None && nested.res.err is None && round + 1 < REPEAT_LIMIT && !(round == 0
            && kind is ZeroOrOne) {
            let more = res.bind_round(round, nested.res.bindings);
            lemma_rounds_grow(grammar, pattern, kind, separator, round + 1, more, nested.src);
        }
    }
}

proof fn lemma_repeat_binds(
    grammar: Grammar,
    pattern: TemplateView,
    kind: RepeatKind,
    separator: Option<SeparatorView>,
    res: MatchView,
    src: Seq<TreeView>,
)
    ensures
        ({
            let all = run_repeat(grammar, pattern, kind, separator, res, src);
            all.stop is None && all.res.err is None ==> binds_all(pattern, 0, all.res.bindings)
        }),
    decreases pattern, 2nat, 0nat,
{
    let all = run_repeat(grammar, pattern, kind, separator, res, src);
    let (rounds, count) = run_rounds(grammar, pattern, kind, separator, 0, res, src);
    lemma_rounds_bind(grammar, pattern, kind, separator, 0, res, src);
    if all.stop is None && all.res.err is None && count == 0 {
        let names = variables(pattern, 0).0;
        assert forall|name: Seq<char>| #[trigger] names.contains(name) implies lookup(
            all.res.bindings,
            name,
        ) is Some by {
            lemma_bind_empty(rounds.res, names, name);
        }
    }
}

/// A match without error binds every variable of the rule, those in its groups
/// and repetitions included.
pub proof fn law_every_variable_is_bound(
    grammar: Grammar,
    pattern: TemplateView,
    src: Seq<TreeView>,
    name: Seq<char>,
)
    requires
        variables(pattern, 0).0.contains(name),
    ensures
        matched(grammar, pattern, src) matches Ok(m) ==> (m.err is None ==> lookup(
            m.bindings,
            name,
        ) is Some),
{
    lemma_run_binds(grammar, pattern, 0, MatchView::empty(), src);
}

/// A variable of a repetition, if it is not bound before, is bound to the list
/// of its values in the rounds, in order; if there were no rounds it is bound
/// as empty.
pub proof fn law_repetition_binds_lists(
    grammar: Grammar,
    pattern: TemplateView,
    kind: RepeatKind,
    separator: Option<SeparatorView>,
    res: MatchView,
    src: Seq<TreeView>,
    name: Seq<char>,
)
    requires
        variables(pattern, 0).0.contains(name),
        lookup(res.bindings, name) is None,
    ensures
        ({
            let all = run_repeat(grammar, pattern, kind, separator, res, src);
            let count = run_rounds(grammar, pattern, kind, separator, 0, res, src).1;
            let values = round_values(grammar, pattern, kind, separator, 0, src, name);
            all.stop is None && all.res.err is None ==> {
                &&& values.len() == count
                &&& lookup(all.res.bindings, name) == if count == 0 {
                    Some(BindingView::Empty)
                } else {
                    Some(BindingView::Nested(values))
                }
            }
        }),
{
    let all = run_repeat(grammar, pattern, kind, separator, res, src);
    let (rounds, count) = run_rounds(grammar, pattern, kind, separator, 0, res, src);
    let values = round_values(grammar, pattern, kind, separator, 0, src, name);
    if all.stop is None && all.res.err is None {
        if count == 0 {
            lemma_no_more_values(grammar, pattern, kind, separator, 0, res, src, name);
            lemma_bind_empty(rounds.res, variables(pattern, 0).0, name);
        } else {
            lemma_rounds_bind(grammar, pattern, kind, separator, 0, res, src);
            assert(lookup(rounds.res.bindings, name) == Some(
                BindingView::Nested(Seq::empty() + values),
            ));
            assert(Seq::<BindingView>::empty() + values =~= values);
        }
    }
}

/// No further round could follow the first `count` rounds of a repetition.
pub open spec fn exhausted(
    grammar: Grammar,
    pattern: TemplateView,
    kind: RepeatKind,
    separator: Option<SeparatorView>,
    count: nat,
    src: Seq<TreeView>,
) -> bool {
    ||| count == 1 && kind is ZeroOrOne
    ||| count + 1 == REPEAT_LIMIT
    ||| match round_src(count, separator, src) {
        None => true,
        Some(fork) => run(grammar, pattern, 0, MatchView::empty(), fork).res.err is Some,
    }
}

proof fn lemma_rounds_exhaust(
    grammar: Grammar,
    pattern: TemplateView,
    kind: RepeatKind,
    separator: Option<SeparatorView>,
    round: nat,
    res: MatchView,
    src: Seq<TreeView>,
)
    requires
        round < REPEAT_LIMIT,
        round > 0 ==> !(kind is ZeroOrOne),
    ensures
        ({
            let (all, count) = run_rounds(grammar, pattern, kind, separator, round, res, src);
            &&& count < REPEAT_LIMIT
            &&& kind is ZeroOrOne ==> count <= 1
            &&& all.stop is None ==> exhausted(grammar, pattern, kind, separator, count, all.src)
        }),
    decreases REPEAT_LIMIT - round,
{
    if let Some(fork) = round_src(round, separator, src) {
        let nested = run(grammar, pattern, 0, MatchView::empty(), fork);
        if nested.stop is None && nested.res.err is None && round + 1 < REPEAT_LIMIT && !(round == 0
            && kind is ZeroOrOne) {
            let more = res.bind_round(round, nested.res.bindings);
            lemma_rounds_exhaust(grammar, pattern, kind, separator, round + 1, more, nested.src);
        }
    }
}

/// A repetition ends. It takes as many rounds as match, `?` at most one, and
/// fewer than the limit in any case.
pub proof fn law_repetition_is_greedy_and_bounded(
    grammar: Grammar,
    pattern: TemplateView,
    kind: RepeatKind,
    separator: Option<SeparatorView>,
    res: MatchView,
    src: Seq<TreeView>,
)
    ensures
        ({
            let (all, count) = run_rounds(grammar, pattern, kind, separator, 0, res, src);
            &&& count < REPEAT_LIMIT
            &&& kind is ZeroOrOne ==> count <= 1
            &&& all.stop is None ==> exhausted(grammar, pattern, kind, separator, count, all.src)
        }),
{
    lemma_rounds_exhaust(grammar, pattern, kind, separator, 0, res, src);
}

/// A repetition without a round takes nothing from the input. It is an error
/// for `+` and for nothing else.
pub proof fn law_repetition_without_rounds(
    grammar: Grammar,
    pattern: TemplateView,
    kind: RepeatKind,
    separator: Option<SeparatorView>,
    res: MatchView,
    src: Seq<TreeView>,
)
    requires
        run_rounds(grammar, pattern, kind, separator, 0, res, src).1 == 0,
        run_repeat(grammar, pattern, kind, separator, res, src).stop is None,
    ensures
        ({
            let all = run_repeat(grammar, pattern, kind, separator, res, src);
            &&& all.src == src
            &&& kind is OneOrMore ==> all.res == res.add_err(ErrorView::UnexpectedToken)
            &&& !(kind is OneOrMore) ==> all.res.err == res.err && all.res.err_count
                == res.err_count
        }),
{
    lemma_no_more_values(grammar, pattern, kind, separator, 0, res, src, Seq::empty());
    lemma_bind_empty_errs(res, variables(pattern, 0).0);
}

} // verus!
