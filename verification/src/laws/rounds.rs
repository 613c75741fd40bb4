//! The rounds of a repetition: what stands between them, where they end, and
//! what they add to a match.
use crate::bindings::{align, bind, bind_round, distinct, lookup, BindingView, Slots};
use crate::error::ErrorView;
use crate::fragment::Grammar;
use crate::laws::binding::{earlier, law_round_is_added};
use crate::laws::elements::{
    blank, law_leftover_trees_are_an_error, lemma_one, one, went_well, went_wrong,
};
use crate::laws::growth::lemma_grows_bind_round;
use crate::laws::kinds::{law_variable_of_kind_ident, plain, var};
use crate::semantics::{
    matched, round_src, run, run_repeat, run_rounds, variables, MatchView, Run, REPEAT_LIMIT,
};
use crate::template::{OpView, RepeatKind, SeparatorView, TemplateView};
use crate::tt::{LeafView, Punct, TreeView};
use crate::tt_iter::{punct_at, starts_with, take_separator};
use vstd::prelude::*;

verus! {

/// The input begins with the separator: an identifier or a literal with the same
/// text, or the same characters in the same order.
pub open spec fn comes_first(src: Seq<TreeView>, separator: SeparatorView) -> bool {
    match separator {
        SeparatorView::Ident(word) => src.len() > 0 && (src[0] matches TreeView::Leaf(
            LeafView::Ident(it),
        ) && it.text == word.text),
        SeparatorView::Literal(word) => src.len() > 0 && match src[0] {
            TreeView::Leaf(LeafView::Literal(it)) => it.text == word.text,
            TreeView::Leaf(LeafView::Ident(it)) => it.text == word.text && (it.text == "true"@
                || it.text == "false"@),
            _ => false,
        },
        SeparatorView::Puncts(puncts) => src.len() >= puncts.len() && forall|i: int|
            0 <= i < puncts.len() ==> ((#[trigger] src[i]) matches TreeView::Leaf(
                LeafView::Punct(it),
            ) && it.char == puncts[i].char),
    }
}

/// How many trees a separator takes up.
pub open spec fn extent(separator: SeparatorView) -> int {
    match separator {
        SeparatorView::Puncts(puncts) => puncts.len() as int,
        _ => 1,
    }
}

/// A separator is taken where the input begins with it, and nowhere else.
pub proof fn law_separator_is_taken_where_it_stands(src: Seq<TreeView>, separator: SeparatorView)
    ensures
        take_separator(src, separator) == if comes_first(src, separator) {
            Some(src.skip(extent(separator)))
        } else {
            None
        },
{
    if src.len() > 0 {
        assert(src.skip(1) =~= src.drop_first());
    }
    if let SeparatorView::Puncts(puncts) = separator {
        if comes_first(src, separator) {
            assert forall|i: int| 0 <= i < puncts.len() implies (punct_at(src, i) matches Some(it)
                && it.char == (#[trigger] puncts[i]).char) by {
                assert(src[i] is Leaf);
            }
            assert(starts_with(src, puncts));
        }
        if starts_with(src, puncts) {
            if puncts.len() > 0 {
                let last = puncts[puncts.len() - 1];
                assert(punct_at(src, puncts.len() - 1)->0.char == last.char);
            }
            assert forall|i: int| 0 <= i < puncts.len() implies ((
            #[trigger] src[i]) matches TreeView::Leaf(LeafView::Punct(it)) && it.char
                == puncts[i].char) by {
                assert(punct_at(src, i)->0.char == puncts[i].char);
            }
        }
    }
}

/// Where a round starts: the first where the repetition does, and each other
/// behind the separator, if there is to be one. `None` if it is not there.
pub open spec fn start(
    round: nat,
    separator: Option<SeparatorView>,
    left: Seq<TreeView>,
) -> Option<Seq<TreeView>> {
    match separator {
        Some(it) => if round == 0 {
            Some(left)
        } else if comes_first(left, it) {
            Some(left.skip(extent(it)))
        } else {
            None
        },
        None => Some(left),
    }
}

/// A round that starts at `fork` matches without error, binds `slots` and leaves
/// `left`.
pub open spec fn round_matches(
    grammar: Grammar,
    pattern: TemplateView,
    fork: Seq<TreeView>,
    slots: Slots,
    left: Seq<TreeView>,
) -> bool {
    let round = run(grammar, pattern, 0, blank(), fork);
    &&& round.stop is None
    &&& round.res.err is None
    &&& round.res.bindings == slots
    &&& round.src == left
}

/// Round number `round`, on what the rounds before it left, matches.
pub open spec fn link(
    grammar: Grammar,
    pattern: TemplateView,
    separator: Option<SeparatorView>,
    round: int,
    before: Seq<TreeView>,
    slots: Slots,
    left: Seq<TreeView>,
) -> bool {
    match start(round as nat, separator, before) {
        Some(fork) => round_matches(grammar, pattern, fork, slots, left),
        None => false,
    }
}

/// The rounds from number `first` on, each on what the one before it left:
/// `gone[k]` is what a round bound, `lefts[k]` what was left before it and
/// `lefts[k + 1]` what was left behind it.
pub open spec fn chain(
    grammar: Grammar,
    pattern: TemplateView,
    separator: Option<SeparatorView>,
    first: nat,
    lefts: Seq<Seq<TreeView>>,
    gone: Seq<Slots>,
) -> bool {
    &&& lefts.len() == gone.len() + 1
    &&& forall|k: int|
        0 <= k < gone.len() ==> link(
            grammar,
            pattern,
            separator,
            first + k,
            lefts[k],
            #[trigger] gone[k],
            lefts[k + 1],
        )
}

/// The error in the template that the next round comes upon.
pub open spec fn breaks(
    grammar: Grammar,
    pattern: TemplateView,
    kind: RepeatKind,
    separator: Option<SeparatorView>,
    n: nat,
    left: Seq<TreeView>,
) -> Option<ErrorView> {
    match start(n, separator, left) {
        Some(fork) if !(n == 1 && kind is ZeroOrOne) => run(
            grammar,
            pattern,
            0,
            blank(),
            fork,
        ).stop,
        _ => None,
    }
}

/// No round can follow the first `n`: `?` has had its one, there are as many as
/// there can be, the separator is missing, or what comes does not match.
pub open spec fn ends(
    grammar: Grammar,
    pattern: TemplateView,
    kind: RepeatKind,
    separator: Option<SeparatorView>,
    n: nat,
    left: Seq<TreeView>,
) -> bool {
    ||| n == 1 && kind is ZeroOrOne
    ||| n == 65535
    ||| match start(n, separator, left) {
        None => true,
        Some(fork) => run(grammar, pattern, 0, blank(), fork).res.err is Some,
    }
}

/// What the rounds from number `first` on add to a match.
pub open spec fn add_rounds(res: MatchView, first: nat, gone: Seq<Slots>) -> MatchView
    decreases gone.len(),
{
    if gone.len() == 0 {
        res
    } else {
        add_rounds(res.bind_round(first, gone[0]), first + 1, gone.drop_first())
    }
}

proof fn lemma_start(round: nat, separator: Option<SeparatorView>, left: Seq<TreeView>)
    ensures
        round_src(round, separator, left) == start(round, separator, left),
{
    if let Some(it) = separator {
        law_separator_is_taken_where_it_stands(left, it);
    }
}

proof fn lemma_chain(
    grammar: Grammar,
    pattern: TemplateView,
    kind: RepeatKind,
    separator: Option<SeparatorView>,
    round: nat,
    res: MatchView,
    src: Seq<TreeView>,
) -> (rounds: (Seq<Seq<TreeView>>, Seq<Slots>))
    requires
        round < 65536,
        round > 0 ==> !(kind is ZeroOrOne),
    ensures
        ({
            let (all, count) = run_rounds(grammar, pattern, kind, separator, round, res, src);
            let (lefts, gone) = rounds;
            let n = gone.len();
            &&& chain(grammar, pattern, separator, round, lefts, gone)
            &&& lefts[0] == src
            &&& count == round + n
            &&& count < 65536
            &&& kind is ZeroOrOne ==> count <= 1
            &&& all.src == lefts[n as int]
            &&& all.res == add_rounds(res, round, gone)
            &&& all.stop == breaks(grammar, pattern, kind, separator, count, lefts[n as int])
            &&& all.stop is None ==> ends(
                grammar,
                pattern,
                kind,
                separator,
                count,
                lefts[n as int],
            )
        }),
    decreases 65536 - round,
{
    lemma_start(round, separator, src);
    let none = (seq![src], Seq::<Slots>::empty());
    match round_src(round, separator, src) {
        None => none,
        Some(fork) => {
            let nested = run(grammar, pattern, 0, blank(), fork);
            assert(MatchView::empty() == blank());
            if nested.stop is Some || nested.res.err is Some || round + 1 >= REPEAT_LIMIT {
                none
            } else {
                let slots = nested.res.bindings;
                let more = res.bind_round(round, slots);
                let (lefts, gone) = if round == 0 && kind is ZeroOrOne {
                    (seq![nested.src], Seq::<Slots>::empty())
                } else {
                    lemma_chain(
                        grammar,
                        pattern,
                        kind,
                        separator,
                        round + 1,
                        more,
                        nested.src,
                    )
                };
                let all_lefts = seq![src] + lefts;
                let all_gone = seq![slots] + gone;
                assert forall|k: int| 0 <= k < all_gone.len() implies link(
                    grammar,
                    pattern,
                    separator,
                    round + k,
                    all_lefts[k],
                    #[trigger] all_gone[k],
                    all_lefts[k + 1],
                ) by {
                    if k > 0 {
                        assert(all_gone[k] == gone[k - 1]);
                        assert(all_lefts[k] == lefts[k - 1] && all_lefts[k + 1] == lefts[k]);
                    } else {
                        assert(all_lefts[1] == lefts[0]);
                    }
                }
                assert(chain(grammar, pattern, separator, round, all_lefts, all_gone));
                assert(all_gone.drop_first() =~= gone);
                assert(all_lefts[all_gone.len() as int] == lefts[gone.len() as int]);
                assert(add_rounds(res, round, all_gone) == add_rounds(more, round + 1, gone));
                (all_lefts, all_gone)
            }
        },
    }
}

/// A repetition takes one round after the other, each but the first behind the
/// separator, as long as they match, and fewer than 65536 of them; `?` takes one
/// at most. What a round does not match goes back, and a broken element in it
/// ends the run. The rounds are added to the match in order. Without a round `+`
/// is an error; else every variable of the repetition is bound as empty.
pub proof fn law_repetition_is_a_chain_of_rounds(
    grammar: Grammar,
    pattern: TemplateView,
    kind: RepeatKind,
    separator: Option<SeparatorView>,
    res: MatchView,
    src: Seq<TreeView>,
) -> (rounds: (Seq<Seq<TreeView>>, Seq<Slots>))
    ensures
        ({
            let op = OpView::Repeat { subtree: pattern, kind, separator };
            let all = run(grammar, one(op), 0, res, src);
            let (lefts, gone) = rounds;
            let n = gone.len();
            &&& chain(grammar, pattern, separator, 0, lefts, gone)
            &&& lefts[0] == src
            &&& n < 65536
            &&& kind is ZeroOrOne ==> n <= 1
            &&& all.src == lefts[n as int]
            &&& match breaks(grammar, pattern, kind, separator, n, lefts[n as int]) {
                Some(e) => all.stop == Some(e) && all.res == add_rounds(res, 0, gone),
                None => {
                    &&& ends(grammar, pattern, kind, separator, n, lefts[n as int])
                    &&& n > 0 ==> all.stop is None && all.res == add_rounds(res, 0, gone)
                    &&& n == 0 && kind is OneOrMore ==> {
                        &&& all.stop is None
                        &&& all.res.bindings == res.bindings
                        &&& went_wrong(res, all.res, ErrorView::UnexpectedToken)
                    }
                    &&& n == 0 && !(kind is OneOrMore) ==> {
                        &&& all.stop == variables(pattern, 0).1
                        &&& all.stop is Some ==> all.res == res
                        &&& all.stop is None ==> all.res == res.bind_empty(variables(pattern, 0).0)
                    }
                },
            }
        }),
{
    let op = OpView::Repeat { subtree: pattern, kind, separator };
    lemma_one(grammar, op, res, src);
    assert(run(grammar, one(op), 0, res, src) == run_repeat(
        grammar,
        pattern,
        kind,
        separator,
        res,
        src,
    ));
    lemma_chain(grammar, pattern, kind, separator, 0, res, src)
}

/// Binding names as empty binds one after the other, and is no error.
pub proof fn law_names_are_bound_as_empty(res: MatchView, names: Seq<Seq<char>>)
    ensures
        names.len() == 0 ==> res.bind_empty(names) == res,
        names.len() > 0 ==> res.bind_empty(names) == (MatchView {
            bindings: bind(res.bindings, names[0], BindingView::Empty),
            ..res
        }).bind_empty(names.drop_first()),
        went_well(res, res.bind_empty(names)),
    decreases names.len(),
{
    if names.len() > 0 {
        law_names_are_bound_as_empty(
            MatchView { bindings: bind(res.bindings, names[0], BindingView::Empty), ..res },
            names.drop_first(),
        );
    }
}

/// A round is added name by name: the value goes behind the values of the rounds
/// before, and a name that came up first in this round gets a list of its own.
/// A name that is bound to anything but a list is an error, which ends the
/// round; what was added before it stays.
pub proof fn law_round_is_added_name_by_name(res: MatchView, idx: nat, nested: Slots)
    ensures
        nested.len() == 0 ==> res.bind_round(idx, nested) == res,
        nested.len() > 0 ==> {
            let (name, value) = nested[0];
            let all = res.bind_round(idx, nested);
            match lookup(res.bindings, name) {
                None => all == (MatchView {
                    bindings: bind(
                        res.bindings,
                        name,
                        BindingView::Nested(align(Seq::empty(), idx, value)),
                    ),
                    ..res
                }).bind_round(idx, nested.drop_first()),
                Some(BindingView::Nested(values)) => all == (MatchView {
                    bindings: bind(
                        res.bindings,
                        name,
                        BindingView::Nested(align(values, idx, value)),
                    ),
                    ..res
                }).bind_round(idx, nested.drop_first()),
                Some(BindingView::Fragment(_)) | Some(BindingView::Empty) => {
                    &&& all.bindings == res.bindings
                    &&& went_wrong(
                        res,
                        all,
                        ErrorView::BindingError("could not find binding `"@ + name + "`"@),
                    )
                },
            }
        },
        res.bind_round(idx, nested).bindings == bind_round(res.bindings, idx, nested).0,
        match bind_round(res.bindings, idx, nested).1 {
            Some(e) => went_wrong(res, res.bind_round(idx, nested), e),
            None => went_well(res, res.bind_round(idx, nested)),
        },
{
}

/// A variable that is bound in every round, and not before, is bound to the list
/// of its values in the rounds, in order.
pub proof fn law_rounds_make_a_list(res: MatchView, gone: Seq<Slots>, name: Seq<char>)
    requires
        gone.len() > 0,
        lookup(res.bindings, name) is None,
        forall|k: int|
            0 <= k < gone.len() ==> distinct(#[trigger] gone[k]) && lookup(gone[k], name) is Some,
        res.err is None,
        add_rounds(res, 0, gone).err is None,
    ensures
        lookup(add_rounds(res, 0, gone).bindings, name) == Some(
            BindingView::Nested(Seq::new(gone.len(), |k: int| lookup(gone[k], name)->0)),
        ),
{
    lemma_rounds_list(res, 0, gone, name);
    let values = Seq::new(gone.len(), |k: int| lookup(gone[k], name)->0);
    assert(Seq::<BindingView>::empty() + values =~= values);
}

proof fn lemma_add_rounds_errs(res: MatchView, first: nat, gone: Seq<Slots>)
    ensures
        add_rounds(res, first, gone).err is None ==> res.err is None,
    decreases gone.len(),
{
    if gone.len() > 0 {
        lemma_grows_bind_round(res, first, gone[0]);
        lemma_add_rounds_errs(res.bind_round(first, gone[0]), first + 1, gone.drop_first());
    }
}

proof fn lemma_rounds_list(res: MatchView, first: nat, gone: Seq<Slots>, name: Seq<char>)
    requires
        gone.len() > 0,
        earlier(lookup(res.bindings, name)).len() == first,
        forall|k: int|
            0 <= k < gone.len() ==> distinct(#[trigger] gone[k]) && lookup(gone[k], name) is Some,
        add_rounds(res, first, gone).err is None,
    ensures
        lookup(add_rounds(res, first, gone).bindings, name) == Some(
            BindingView::Nested(
                earlier(lookup(res.bindings, name)) + Seq::new(
                    gone.len(),
                    |k: int| lookup(gone[k], name)->0,
                ),
            ),
        ),
    decreases gone.len(),
{
    let next = res.bind_round(first, gone[0]);
    let tail = gone.drop_first();
    lemma_add_rounds_errs(res, first, gone);
    lemma_add_rounds_errs(next, first + 1, tail);
    assert(bind_round(res.bindings, first, gone[0]).1 is None);
    law_round_is_added(res.bindings, first, gone[0], name);
    let before = earlier(lookup(res.bindings, name));
    let value = lookup(gone[0], name)->0;
    let values = Seq::new(gone.len(), |k: int| lookup(gone[k], name)->0);
    assert(align(before, first, value) =~= before.push(value));
    if tail.len() > 0 {
        assert forall|k: int| 0 <= k < tail.len() implies distinct(#[trigger] tail[k]) && lookup(
            tail[k],
            name,
        ) is Some by {
            assert(tail[k] == gone[k + 1]);
        }
        lemma_rounds_list(next, first + 1, tail, name);
        let later = Seq::new(tail.len(), |k: int| lookup(tail[k], name)->0);
        assert(before.push(value) + later =~= before + values);
    } else {
        assert(before.push(value) =~= before + values);
    }
}

/// The input begins with `n` identifiers and the character `c` between each two
/// of them.
pub open spec fn lists(src: Seq<TreeView>, c: char, n: int) -> bool {
    &&& 1 <= n
    &&& src.len() >= 2 * n - 1
    &&& forall|k: int|
        0 <= k < n ==> ((#[trigger] src[2 * k]) matches TreeView::Leaf(LeafView::Ident(_)))
    &&& forall|k: int|
        1 <= k < n ==> ((#[trigger] src[2 * k - 1]) matches TreeView::Leaf(LeafView::Punct(it))
            && it.char == c)
}

/// The list of the first `n` identifiers of such an input.
pub open spec fn listed(src: Seq<TreeView>, n: int) -> BindingView {
    BindingView::Nested(Seq::new(n as nat, |k: int| plain(src[2 * k])))
}

proof fn lemma_list_rounds(
    grammar: Grammar,
    name: Seq<char>,
    sep: Punct,
    kind: RepeatKind,
    round: nat,
    src: Seq<TreeView>,
    n: int,
)
    requires
        lists(src, sep.char, n),
        n == 65535 || !lists(src, sep.char, n + 1),
        1 <= round <= n < 65536,
        !(kind is ZeroOrOne),
    ensures
        run_rounds(
            grammar,
            one(var(name, Some("ident"@))),
            kind,
            Some(SeparatorView::Puncts(seq![sep])),
            round,
            (MatchView { bindings: seq![(name, listed(src, round as int))], ..blank() }),
            src.skip(2 * round - 1),
        ) == (
            (Run {
                res: MatchView { bindings: seq![(name, listed(src, n))], ..blank() },
                src: src.skip(2 * n - 1),
                stop: None,
            }),
            n as nat,
        ),
    decreases n - round,
{
    let pattern = one(var(name, Some("ident"@)));
    let separator = Some(SeparatorView::Puncts(seq![sep]));
    let res = MatchView { bindings: seq![(name, listed(src, round as int))], ..blank() };
    let left = src.skip(2 * round - 1);
    lemma_start(round, separator, left);
    assert(left.len() > 0 ==> left[0] == src[2 * round - 1]);
    assert(MatchView::empty() == blank());
    if comes_first(left, separator->0) {
        assert(left[0] is Leaf);
        let fork = left.skip(1);
        assert(fork =~= src.skip(2 * (round as int)));
        assert(start(round, separator, left) == Some(fork));
        law_variable_of_kind_ident(grammar, name, blank(), fork);
        let nested = run(grammar, pattern, 0, blank(), fork);
        if round < n {
            assert(src[2 * (round as int)] is Leaf);
            assert(fork[0] == src[2 * (round as int)]);
            let slots = nested.res.bindings;
            assert(slots =~= seq![(name, plain(fork[0]))]);
            assert(nested.src =~= src.skip(2 * (round + 1) - 1));
            let more = res.bind_round(round, slots);
            law_round_is_added_name_by_name(res, round, slots);
            law_round_is_added_name_by_name(
                MatchView { bindings: more.bindings, ..res },
                round,
                slots.drop_first(),
            );
            let values = Seq::new(round, |k: int| plain(src[2 * k]));
            let longer = Seq::new(round + 1, |k: int| plain(src[2 * k]));
            assert(align(values, round, plain(fork[0])) =~= longer);
            assert(bind_round(Seq::empty(), round, Seq::empty()).1 is None);
            assert(lookup(res.bindings, name) == Some(BindingView::Nested(values)));
            assert(slots.drop_first().len() == 0);
            let wanted = seq![(name, listed(src, round as int + 1))];
            assert(bind(res.bindings, name, BindingView::Nested(longer)) =~= wanted);
            assert(more == (MatchView { bindings: wanted, ..blank() }));
            lemma_list_rounds(grammar, name, sep, kind, round + 1, src, n);
        } else if fork.len() > 0 && (fork[0] matches TreeView::Leaf(LeafView::Ident(_))) {
            assert(fork[0] == src[2 * n]);
            if n < 65535 {
                assert forall|k: int| 0 <= k < n + 1 implies ((
                #[trigger] src[2 * k]) matches TreeView::Leaf(LeafView::Ident(_))) by {}
                assert forall|k: int| 1 <= k < n + 1 implies ((
                #[trigger] src[2 * k - 1]) matches TreeView::Leaf(LeafView::Punct(it)) && it.char
                    == sep.char) by {
                    if k == n {
                        assert(left[0] == src[2 * n - 1]);
                    }
                }
                assert(lists(src, sep.char, n + 1));
            }
        }
    } else if round < n {
        assert(src[2 * (round as int) - 1] == left[0]);
        assert(comes_first(left, separator->0));
    }
}

/// `$($name:ident) c *`, and the same with `+`, against identifiers with `c`
/// between them binds the name to the list of all of them, in order. The list
/// ends where no `c` with an identifier behind it follows: another character is
/// no separator. What follows is left over.
pub proof fn law_separated_identifiers_are_listed(
    grammar: Grammar,
    name: Seq<char>,
    sep: Punct,
    kind: RepeatKind,
    src: Seq<TreeView>,
    n: int,
)
    requires
        lists(src, sep.char, n),
        n == 65535 || !lists(src, sep.char, n + 1),
        n < 65536,
        !(kind is ZeroOrOne),
    ensures
        ({
            let rule = one(
                OpView::Repeat {
                    subtree: one(var(name, Some("ident"@))),
                    kind,
                    separator: Some(SeparatorView::Puncts(seq![sep])),
                },
            );
            matched(grammar, rule, src) matches Ok(m) && {
                &&& m.bindings == seq![(name, listed(src, n))]
                &&& m.unmatched_tts == src.len() - (2 * n - 1)
                &&& src.len() == 2 * n - 1 ==> m.err is None && m.err_count == 0
                &&& src.len() > 2 * n - 1 ==> m.err_count == 1 && m.err == Some(
                    ErrorView::BindingError("leftover tokens"@),
                )
            }
        }),
{
    let pattern = one(var(name, Some("ident"@)));
    let separator = Some(SeparatorView::Puncts(seq![sep]));
    let op = OpView::Repeat { subtree: pattern, kind, separator };
    law_leftover_trees_are_an_error(grammar, one(op), src);
    lemma_one(grammar, op, blank(), src);
    law_variable_of_kind_ident(grammar, name, blank(), src);
    let first = run(grammar, pattern, 0, blank(), src);
    assert(src[2 * 0int] is Leaf);
    let slots = first.res.bindings;
    assert(slots =~= seq![(name, plain(src[0]))]);
    assert(first.src == src.skip(1));
    assert(MatchView::empty() == blank());
    let more = blank().bind_round(0, slots);
    law_round_is_added_name_by_name(blank(), 0, slots);
    law_round_is_added_name_by_name(
        MatchView { bindings: more.bindings, ..blank() },
        0,
        slots.drop_first(),
    );
    let single = Seq::new(1, |k: int| plain(src[2 * k]));
    assert(align(Seq::empty(), 0, plain(src[0])) =~= single);
    assert(slots.drop_first().len() == 0);
    let wanted = seq![(name, listed(src, 1))];
    assert(bind(blank().bindings, name, BindingView::Nested(single)) =~= wanted);
    assert(more == (MatchView { bindings: wanted, ..blank() }));
    lemma_start(0, separator, src);
    lemma_list_rounds(grammar, name, sep, kind, 1, src, n);
    assert(run_rounds(grammar, pattern, kind, separator, 0, blank(), src) == run_rounds(
        grammar,
        pattern,
        kind,
        separator,
        1,
        more,
        src.skip(1),
    ));
    assert(run(grammar, one(op), 0, blank(), src) == run_repeat(
        grammar,
        pattern,
        kind,
        separator,
        blank(),
        src,
    ));
}

/// Where another character than the separator stands between two identifiers,
/// the second is left over with it.
pub proof fn law_other_character_is_no_separator(
    grammar: Grammar,
    name: Seq<char>,
    sep: Punct,
    other: Punct,
    kind: RepeatKind,
    x: TreeView,
    y: TreeView,
)
    requires
        x matches TreeView::Leaf(LeafView::Ident(_)),
        other.char != sep.char,
        !(kind is ZeroOrOne),
    ensures
        ({
            let rule = one(
                OpView::Repeat {
                    subtree: one(var(name, Some("ident"@))),
                    kind,
                    separator: Some(SeparatorView::Puncts(seq![sep])),
                },
            );
            let src = seq![x, TreeView::Leaf(LeafView::Punct(other)), y];
            matched(grammar, rule, src) matches Ok(m) && {
                &&& m.bindings == seq![(name, BindingView::Nested(seq![plain(x)]))]
                &&& m.unmatched_tts == 2
                &&& m.err == Some(ErrorView::BindingError("leftover tokens"@))
            }
        }),
{
    let src = seq![x, TreeView::Leaf(LeafView::Punct(other)), y];
    if lists(src, sep.char, 2) {
        assert(src[2 * 1 - 1] is Leaf);
    }
    assert(lists(src, sep.char, 1));
    law_separated_identifiers_are_listed(grammar, name, sep, kind, src, 1);
    assert(Seq::new(1, |k: int| plain(src[2 * k])) =~= seq![plain(x)]);
}

} // verus!
