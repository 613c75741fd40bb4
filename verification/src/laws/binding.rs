//! Binding names.
use crate::bindings::{
    align, bind, bind_round, distinct, lemma_position_is_first, lookup, position, BindingView,
    Slots,
};
use crate::semantics::{run, MatchView};
use vstd::prelude::*;

verus! {

/// A binding can be looked up under its name.
pub proof fn law_bound_name_is_found(slots: Slots, name: Seq<char>, binding: BindingView)
    ensures
        lookup(bind(slots, name, binding), name) == Some(binding),
{
    let p = position(slots, name);
    let bound = bind(slots, name, binding);
    lemma_position_is_first(slots, name);
    lemma_position_is_first(bound, name);
    let q = position(bound, name);
    assert(bound[p as int] == (name, binding));
    if q < p {
        assert(bound[q as int] == slots[q as int]);
    }
}

/// Binding a name leaves the other names alone.
pub proof fn law_binding_leaves_others_alone(
    slots: Slots,
    name: Seq<char>,
    binding: BindingView,
    other: Seq<char>,
)
    requires
        other != name,
    ensures
        lookup(bind(slots, name, binding), other) == lookup(slots, other),
{
    let bound = bind(slots, name, binding);
    lemma_position_is_first(slots, name);
    lemma_position_is_first(slots, other);
    lemma_position_is_first(bound, other);
    let p = position(slots, other);
    let q = position(bound, other);
    let w = position(slots, name);
    if p < slots.len() {
        assert(p != w);
        assert(bound[p as int] == slots[p as int]);
        assert(q <= p);
        assert(q != w);
        if q < p {
            assert(bound[q as int] == slots[q as int]);
        }
    } else if q < bound.len() {
        assert(q != w);
        assert(bound[q as int] == slots[q as int]);
    }
}

/// Binding keeps names distinct.
pub proof fn law_binding_keeps_names_distinct(slots: Slots, name: Seq<char>, binding: BindingView)
    requires
        distinct(slots),
    ensures
        distinct(bind(slots, name, binding)),
{
    lemma_position_is_first(slots, name);
    let bound = bind(slots, name, binding);
    assert forall|i: int, j: int| 0 <= i < j < bound.len() implies (#[trigger] bound[i]).0 != (
    #[trigger] bound[j]).0 by {
        if j < slots.len() {
            assert(slots[i].0 == bound[i].0 && slots[j].0 == bound[j].0);
        } else {
            assert(bound[j].0 == name);
            assert(slots[i].0 == bound[i].0);
        }
    }
}

proof fn lemma_lookup_slot(slots: Slots, name: Seq<char>)
    ensures
        lookup(slots, name) is Some <==> exists|j: int|
            0 <= j < slots.len() && (#[trigger] slots[j]).0 == name,
{
    lemma_position_is_first(slots, name);
    let p = position(slots, name);
    if p < slots.len() {
        assert(slots[p as int].0 == name);
    }
}

/// The values of earlier rounds.
pub open spec fn earlier(value: Option<BindingView>) -> Seq<BindingView> {
    match value {
        Some(BindingView::Nested(run)) => run,
        _ => Seq::empty(),
    }
}

/// Adding a round puts the value of each name of the round behind the values of
/// the earlier rounds, and leaves the other names alone.
pub proof fn law_round_is_added(slots: Slots, idx: nat, nested: Slots, name: Seq<char>)
    requires
        distinct(nested),
        bind_round(slots, idx, nested).1 is None,
    ensures
        lookup(bind_round(slots, idx, nested).0, name) == match lookup(nested, name) {
            Some(value) => Some(
                BindingView::Nested(align(earlier(lookup(slots, name)), idx, value)),
            ),
            None => lookup(slots, name),
        },
    decreases nested.len(),
{
    if nested.len() > 0 {
        let (key, value) = nested[0];
        let tail = nested.drop_first();
        assert(distinct(tail)) by {
            assert forall|i: int, j: int| 0 <= i < j < tail.len() implies (#[trigger] tail[i]).0 != (
            #[trigger] tail[j]).0 by {
                assert(tail[i] == nested[i + 1] && tail[j] == nested[j + 1]);
            }
        }
        let b = BindingView::Nested(align(earlier(lookup(slots, key)), idx, value));
        let next = bind(slots, key, b);
        assert(bind_round(slots, idx, nested) == bind_round(next, idx, tail));
        law_round_is_added(next, idx, tail, name);
        if name == key {
            law_bound_name_is_found(slots, key, b);
            lemma_lookup_slot(tail, key);
            assert(lookup(tail, key) is None) by {
                assert forall|j: int| 0 <= j < tail.len() implies (#[trigger] tail[j]).0 != key by {
                    assert(tail[j] == nested[j + 1]);
                    assert(nested[0].0 != nested[j + 1].0);
                }
            }
        } else {
            law_binding_leaves_others_alone(slots, key, b, name);
        }
    }
}

/// The values of a name keep their places when a round is added: earlier rounds
/// stay, rounds without a value are filled in as empty ones, and the value of
/// the new round comes last, at the place of its round if earlier rounds left
/// that free.
pub proof fn law_rounds_are_aligned(run: Seq<BindingView>, idx: nat, value: BindingView)
    ensures
        ({
            let more = align(run, idx, value);
            &&& more.last() == value
            &&& run.len() <= idx ==> more.len() == idx + 1
            &&& run.len() > idx ==> more.len() == run.len() + 1
            &&& forall|i: int| 0 <= i < run.len() ==> #[trigger] more[i] == run[i]
            &&& forall|i: int|
                run.len() <= i < more.len() - 1 ==> #[trigger] more[i] == BindingView::Nested(
                    Seq::empty(),
                )
        }),
{
}

pub(crate) proof fn lemma_bind_empty(res: MatchView, names: Seq<Seq<char>>, name: Seq<char>)
    ensures
        lookup(res.bind_empty(names).bindings, name) == if names.contains(name) {
            Some(BindingView::Empty)
        } else {
            lookup(res.bindings, name)
        },
    decreases names.len(),
{
    if names.len() > 0 {
        let next = res.bind(names[0], BindingView::Empty);
        let tail = names.drop_first();
        lemma_bind_empty(next, tail, name);
        if names[0] == name {
            law_bound_name_is_found(res.bindings, name, BindingView::Empty);
            assert(names.contains(name));
        } else {
            law_binding_leaves_others_alone(res.bindings, names[0], BindingView::Empty, name);
            if names.contains(name) {
                let j = choose|j: int| 0 <= j < names.len() && names[j] == name;
                assert(tail[j - 1] == name);
            }
            if tail.contains(name) {
                let j = choose|j: int| 0 <= j < tail.len() && tail[j] == name;
                assert(names[j + 1] == name);
            }
        }
    }
}

pub(crate) proof fn lemma_bind_empty_errs(res: MatchView, names: Seq<Seq<char>>)
    ensures
        res.bind_empty(names).err == res.err,
        res.bind_empty(names).err_count == res.err_count,
    decreases names.len(),
{
    if names.len() > 0 {
        lemma_bind_empty_errs(res.bind(names[0], BindingView::Empty), names.drop_first());
    }
}

} // verus!
