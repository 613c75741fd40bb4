//! What the variables of a rule are bound to.
use crate::error::{quoting_error, ErrorView, ExpandError};
use crate::laws::binding::law_binding_keeps_names_distinct;
use crate::laws::growth::law_round_keeps_names_distinct;
use crate::tt::{Subtree, SubtreeView, TokenTree, TreeView};
use vstd::prelude::*;

verus! {

/// A piece of the input that a variable took.
#[derive(Debug, PartialEq, Eq)]
pub enum Fragment {
    /// Token trees as they came.
    Tokens(TokenTree),
    /// An expression, which later parsing keeps in one piece.
    Ast(TokenTree),
}

/// The value of a variable.
#[derive(Debug, PartialEq, Eq)]
pub enum Binding {
    Fragment(Fragment),
    /// One value for each round of a repetition.
    Nested(Vec<Binding>),
    /// A variable of a repetition that matched no round.
    Empty,
}

/// The variables that are bound so far, in the order in which they came up.
#[derive(Debug, PartialEq, Eq)]
pub struct Bindings {
    pub slots: Vec<(String, Binding)>,
}

/// The model of a [`Fragment`].
pub enum FragmentView {
    Tokens(TreeView),
    Ast(TreeView),
}

/// The model of a [`Binding`].
pub enum BindingView {
    Fragment(FragmentView),
    Nested(Seq<BindingView>),
    Empty,
}

/// The model of [`Bindings`].
pub type Slots = Seq<(Seq<char>, BindingView)>;

impl View for Fragment {
    type V = FragmentView;

    open spec fn view(&self) -> FragmentView {
        match self {
            Fragment::Tokens(it) => FragmentView::Tokens(it@),
            Fragment::Ast(it) => FragmentView::Ast(it@),
        }
    }
}

impl Binding {
    pub open spec fn model(self) -> BindingView
        decreases self,
    {
        match self {
            Binding::Fragment(it) => BindingView::Fragment(it@),
            Binding::Nested(it) => BindingView::Nested(binding_models(it@)),
            Binding::Empty => BindingView::Empty,
        }
    }
}

/// The models of a run of bindings.
pub open spec fn binding_models(run: Seq<Binding>) -> Seq<BindingView>
    decreases run,
{
    Seq::new(
        run.len(),
        |i: int|
            if 0 <= i < run.len() {
                run[i].model()
            } else {
                arbitrary()
            },
    )
}

impl View for Binding {
    type V = BindingView;

    open spec fn view(&self) -> BindingView {
        self.model()
    }
}

impl View for Bindings {
    type V = Slots;

    open spec fn view(&self) -> Slots {
        slot_models(self.slots@)
    }
}

/// The models of a run of slots.
pub open spec fn slot_models(slots: Seq<(String, Binding)>) -> Slots {
    slots.map_values(|slot: (String, Binding)| (slot.0@, slot.1@))
}

proof fn lemma_binding_models_push(run: Seq<Binding>, b: Binding)
    ensures
        binding_models(run.push(b)) == binding_models(run).push(b@),
{
    assert(binding_models(run.push(b)) =~= binding_models(run).push(b@));
}

/// Where the slot of `name` is: the first one of that name, or the number of
/// slots if there is none.
pub open spec fn position(slots: Slots, name: Seq<char>) -> nat
    decreases slots.len(),
{
    if slots.len() == 0 {
        0
    } else if slots[0].0 == name {
        0
    } else {
        1 + position(slots.drop_first(), name)
    }
}

/// The value of `name`.
pub open spec fn lookup(slots: Slots, name: Seq<char>) -> Option<BindingView> {
    let p = position(slots, name);
    if p < slots.len() {
        Some(slots[p as int].1)
    } else {
        None
    }
}

/// No name has two slots.
pub open spec fn distinct(slots: Slots) -> bool {
    forall|i: int, j: int|
        0 <= i < j < slots.len() ==> (#[trigger] slots[i]).0 != (#[trigger] slots[j]).0
}

/// Binding `name`: in its slot if it has one, else in a new slot at the end.
pub open spec fn bind(slots: Slots, name: Seq<char>, binding: BindingView) -> Slots {
    let p = position(slots, name);
    if p < slots.len() {
        slots.update(p as int, (name, binding))
    } else {
        slots.push((name, binding))
    }
}

/// Adding the value of round `idx` behind the values of earlier rounds. A round
/// that gave no value is filled in as an empty one.
pub open spec fn align(run: Seq<BindingView>, idx: nat, value: BindingView) -> Seq<BindingView> {
    let gap = if run.len() < idx {
        (idx - run.len()) as nat
    } else {
        0
    };
    (run + Seq::new(gap, |i: int| BindingView::Nested(Seq::empty()))).push(value)
}

/// The binding error for a name whose value is not one of a repetition.
pub open spec fn not_nested(name: Seq<char>) -> ErrorView {
    ErrorView::BindingError("could not find binding `"@ + name + "`"@)
}

/// Adding what round `idx` of a repetition bound. It stops at the first name
/// that is bound outside of a repetition.
pub open spec fn bind_round(slots: Slots, idx: nat, nested: Slots) -> (Slots, Option<ErrorView>)
    decreases nested.len(),
{
    if nested.len() == 0 {
        (slots, None)
    } else {
        let (name, value) = nested[0];
        match lookup(slots, name) {
            None => bind_round(
                bind(slots, name, BindingView::Nested(align(Seq::empty(), idx, value))),
                idx,
                nested.drop_first(),
            ),
            Some(BindingView::Nested(run)) => bind_round(
                bind(slots, name, BindingView::Nested(align(run, idx, value))),
                idx,
                nested.drop_first(),
            ),
            Some(_) => (slots, Some(not_nested(name))),
        }
    }
}

/// The value of an optional fragment that is not there.
pub open spec fn empty_fragment() -> BindingView {
    BindingView::Fragment(
        FragmentView::Tokens(
            TreeView::Subtree(SubtreeView { delimiter: None, token_trees: Seq::empty() }),
        ),
    )
}

proof fn lemma_position(slots: Slots, name: Seq<char>, i: int)
    requires
        0 <= i <= slots.len(),
        forall|j: int| 0 <= j < i ==> (#[trigger] slots[j]).0 != name,
        i < slots.len() ==> slots[i].0 == name,
    ensures
        position(slots, name) == i,
    decreases slots.len(),
{
    if i > 0 {
        assert(slots[0].0 != name);
        let tail = slots.drop_first();
        assert forall|j: int| 0 <= j < i - 1 implies (#[trigger] tail[j]).0 != name by {
            assert(tail[j] == slots[j + 1]);
        }
        lemma_position(tail, name, i - 1);
    }
}

/// The slot that [`position`] gives is one of that name, and the first.
pub proof fn lemma_position_is_first(slots: Slots, name: Seq<char>)
    ensures
        position(slots, name) <= slots.len(),
        position(slots, name) < slots.len() ==> slots[position(slots, name) as int].0 == name,
        forall|j: int| 0 <= j < position(slots, name) ==> (#[trigger] slots[j]).0 != name,
    decreases slots.len(),
{
    if slots.len() > 0 && slots[0].0 != name {
        let tail = slots.drop_first();
        lemma_position_is_first(tail, name);
        assert forall|j: int| 0 <= j < position(slots, name) implies (#[trigger] slots[j]).0
            != name by {
            if j > 0 {
                assert(slots[j] == tail[j - 1]);
            }
        }
    }
}

/// Whatever a name that has a slot is bound to, names stay distinct.
proof fn lemma_bind_distinct(slots: Slots, name: Seq<char>)
    requires
        distinct(slots),
    ensures
        forall|binding: BindingView| distinct(#[trigger] bind(slots, name, binding)),
{
    assert forall|binding: BindingView| distinct(#[trigger] bind(slots, name, binding)) by {
        law_binding_keeps_names_distinct(slots, name, binding);
    }
}

impl Bindings {
    /// No name has two slots.
    pub open spec fn wf(self) -> bool {
        distinct(self@)
    }

    pub fn new() -> (r: Self)
        ensures
            r.wf(),
            r@ == Seq::<(Seq<char>, BindingView)>::empty(),
    {
        let r = Bindings { slots: Vec::new() };
        proof {
            assert(r@ =~= Seq::empty());
        }
        r
    }

    /// The slot of `name`, to be written to.
    pub fn slot_mut(&mut self, name: &String) -> (r: Option<&mut Binding>)
        ensures
            match r {
                Some(slot) => {
                    &&& lookup(old(self)@, name@) == Some((*slot)@)
                    &&& final(self)@ == bind(old(self)@, name@, (*final(slot))@)
                },
                None => {
                    &&& lookup(old(self)@, name@) is None
                    &&& final(self)@ == old(self)@
                },
            },
            old(self).wf() ==> final(self).wf(),
    {
        let ghost slots = self@;
        let n: usize = self.slots.len();
        let mut i: usize = 0;
        while i < n
            invariant
                n == self.slots@.len(),
                i <= n,
                slots == self@,
                slots == old(self)@,
                self.slots == old(self).slots,
                forall|j: int| 0 <= j < i ==> (#[trigger] slots[j]).0 != name@,
            decreases n - i,
        {
            if self.slots[i].0 == *name {
                proof {
                    lemma_position(slots, name@, i as int);
                    if distinct(slots) {
                        lemma_bind_distinct(slots, name@);
                    }
                }
                return Some(&mut self.slots[i].1);
            }
            i += 1;
        }
        proof {
            lemma_position(slots, name@, n as int);
        }
        None
    }

    /// Binds `name`.
    pub fn insert(&mut self, name: &String, binding: Binding)
        ensures
            final(self)@ == bind(old(self)@, name@, binding@),
            old(self).wf() ==> final(self).wf(),
    {
        proof {
            if self.wf() {
                law_binding_keeps_names_distinct(self@, name@, binding@);
            }
        }
        match self.slot_mut(name) {
            Some(slot) => {
                *slot = binding;
            },
            None => {
                self.slots.push((name.clone(), binding));
            },
        }
    }

    /// Binds `name` to the fragment that is not there.
    pub fn push_optional(&mut self, name: &String)
        ensures
            final(self)@ == bind(old(self)@, name@, empty_fragment()),
            old(self).wf() ==> final(self).wf(),
    {
        let tt: TokenTree = TokenTree::Subtree(Subtree::default());
        self.insert(name, Binding::Fragment(Fragment::Tokens(tt)));
    }

    /// Binds `name` as a variable of a repetition that matched no round.
    pub fn push_empty(&mut self, name: &String)
        ensures
            final(self)@ == bind(old(self)@, name@, BindingView::Empty),
            old(self).wf() ==> final(self).wf(),
    {
        self.insert(name, Binding::Empty);
    }

    /// Adds what round `idx` of a repetition bound.
    pub fn push_nested(&mut self, idx: usize, nested: Bindings) -> (r: Result<(), ExpandError>)
        ensures
            final(self)@ == bind_round(old(self)@, idx as nat, nested@).0,
            match r {
                Ok(_) => bind_round(old(self)@, idx as nat, nested@).1 is None,
                Err(e) => bind_round(old(self)@, idx as nat, nested@).1 == Some(e@),
            },
            old(self).wf() ==> final(self).wf(),
    {
        let ghost before = self@;
        proof {
            assert(nested@.skip(0) =~= nested@);
            if self.wf() {
                law_round_keeps_names_distinct(self@, idx as nat, nested@);
            }
        }
        for slot in it: nested.slots
            invariant
                before == old(self)@,
                it.seq() == nested.slots@,
                distinct(before) ==> distinct(bind_round(before, idx as nat, nested@).0),
                bind_round(before, idx as nat, nested@) == bind_round(
                    self@,
                    idx as nat,
                    nested@.skip(it.index() as int),
                ),
        {
            let (key, value) = slot;
            proof {
                let left = nested@.skip(it.index() as int);
                assert(left.len() > 0);
                assert(left[0] == (key@, value@));
                assert(left.drop_first() =~= nested@.skip(it.index() + 1));
                lemma_position_is_first(self@, key@);
            }
            let ghost slots = self@;
            match self.slot_mut(&key) {
                Some(Binding::Nested(run)) => {
                    push_aligned(run, value, idx);
                },
                None => {
                    let mut run: Vec<Binding> = Vec::new();
                    push_aligned(&mut run, value, idx);
                    self.slots.push((key.clone(), Binding::Nested(run)));
                    proof {
                        assert(self@ =~= bind(slots, key@, Binding::Nested(run)@));
                        assert(binding_models(Seq::empty()) =~= Seq::empty());
                    }
                },
                _ => {
                    proof {
                        assert(self@ =~= slots);
                    }
                    return Err(quoting_error("could not find binding `", key.as_str(), "`"));
                },
            }
        }
        Ok(())
    }
}

fn push_aligned(run: &mut Vec<Binding>, v: Binding, idx: usize)
    ensures
        binding_models(final(run)@) == align(binding_models(old(run)@), idx as nat, v@),
{
    let ghost before = binding_models(run@);
    while run.len() < idx
        invariant
            before == binding_models(old(run)@),
            before.len() <= run@.len(),
            run@.len() <= idx || run@.len() == before.len(),
            binding_models(run@) == before + Seq::new(
                (run@.len() - before.len()) as nat,
                |i: int| BindingView::Nested(Seq::empty()),
            ),
        decreases idx - run.len(),
    {
        let empty: Vec<Binding> = Vec::new();
        proof {
            assert(binding_models(empty@) =~= Seq::empty());
            lemma_binding_models_push(run@, Binding::Nested(empty));
        }
        run.push(Binding::Nested(empty));
    }
    proof {
        lemma_binding_models_push(run@, v);
    }
    run.push(v);
}

} // verus!
