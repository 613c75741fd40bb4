//! Syntactic fragments: pieces of the input that the grammar of the language
//! delimits.
//!
//! The grammar itself is not part of this library. A parser for it is handed in
//! as a function: given token trees and the kind of fragment to look for at
//! their front, it reports the tokens that it accepted and the errors that it
//! met, in the order in which it built the tree.
use crate::buffer::{landing, lemma_landing_past_end, steps, Cursor};
use crate::error::{
    binding_error, error_view, quoting_error, ErrorView, ExpandError, ExpandResult,
};
use crate::tt::{lemma_models, lemma_models_subrange, models, TokenTree, TreeView};
use crate::tt_iter::{bundle, undelimited, TtIter};
use vstd::prelude::*;
use vstd::slice::slice_subrange;

verus! {

#[derive(Debug, Clone, Copy, PartialEq, Eq, Structural)]
pub enum FragmentKind {
    Path,
    Expr,
    Statement,
    Type,
    Pattern,
    Item,
    Block,
    Visibility,
    MetaItem,
}

/// The kind of a token that a parser accepted, as far as it matters here.
#[derive(Debug, Clone, Copy, PartialEq, Eq, Structural)]
pub enum SyntaxKind {
    LifetimeIdent,
    Other,
}

/// What a parser reports while it builds a tree.
#[derive(Debug, Clone, Copy, PartialEq, Eq, Structural)]
pub enum TreeEvent {
    /// A token made of `n_tokens` tokens of the input.
    Token { kind: SyntaxKind, n_tokens: u8 },
    StartNode,
    FinishNode,
    Error,
}

/// What a parser reports for each input and kind of fragment.
pub type Grammar = spec_fn(Seq<TreeView>, FragmentKind) -> Seq<TreeEvent>;

/// `parse` can be called on any input.
pub open spec fn total<F: Fn(&[TokenTree], FragmentKind) -> Vec<TreeEvent>>(parse: F) -> bool {
    forall|trees: &[TokenTree], kind: FragmentKind| call_requires(parse, (trees, kind))
}

/// `parse` answers as `grammar` says.
pub open spec fn follows<F: Fn(&[TokenTree], FragmentKind) -> Vec<TreeEvent>>(
    parse: F,
    grammar: Grammar,
) -> bool {
    forall|trees: &[TokenTree], kind: FragmentKind, r: Vec<TreeEvent>| #[trigger]
        call_ensures(parse, (trees, kind), r) ==> r@ == grammar(models(trees@), kind)
}

/// The grammar that accepts nothing. It stands for any grammar where none is
/// consulted.
pub open spec fn silent() -> Grammar {
    |trees: Seq<TreeView>, kind: FragmentKind| Seq::<TreeEvent>::empty()
}

/// The grammar that answers every question with `events`.
pub open spec fn always(events: Seq<TreeEvent>) -> Grammar {
    |trees: Seq<TreeView>, kind: FragmentKind| events
}

/// How many steps of the input an event covers. A lifetime is two tokens of the
/// input, its quote and its identifier.
pub open spec fn event_steps(event: TreeEvent) -> nat {
    match event {
        TreeEvent::Token { kind: SyntaxKind::LifetimeIdent, .. } => 2,
        TreeEvent::Token { kind: SyntaxKind::Other, n_tokens } => n_tokens as nat,
        _ => 0,
    }
}

/// How many steps of the input a run of events covers.
pub open spec fn covered(events: Seq<TreeEvent>) -> nat
    decreases events.len(),
{
    if events.len() == 0 {
        0
    } else {
        covered(events.drop_last()) + event_steps(events.last())
    }
}

pub open spec fn kind_name(kind: FragmentKind) -> Seq<char> {
    match kind {
        FragmentKind::Path => "Path"@,
        FragmentKind::Expr => "Expr"@,
        FragmentKind::Statement => "Statement"@,
        FragmentKind::Type => "Type"@,
        FragmentKind::Pattern => "Pattern"@,
        FragmentKind::Item => "Item"@,
        FragmentKind::Block => "Block"@,
        FragmentKind::Visibility => "Visibility"@,
        FragmentKind::MetaItem => "MetaItem"@,
    }
}

/// What becomes of the input once a parser has reported `events` for it: what
/// is left, the fragment, and the error.
///
/// The fragment is the run of whole trees that the events cover. Where they end
/// inside a subtree nothing is taken.
pub open spec fn take_covered(src: Seq<TreeView>, kind: FragmentKind, events: Seq<TreeEvent>) -> (
    Seq<TreeView>,
    Option<TreeView>,
    Option<ErrorView>,
) {
    let whole = landing(src, covered(events));
    let n = match whole {
        Some(n) => n as int,
        None => 0,
    };
    let value = if n == 0 {
        None
    } else {
        Some(bundle(src.take(n)))
    };
    let err = if whole is None || events.contains(TreeEvent::Error) {
        Some(ErrorView::BindingError("expected "@ + kind_name(kind)))
    } else if n == 0 {
        Some(ErrorView::BindingError("no tokens consumed"@))
    } else {
        None
    };
    (src.skip(n), value, err)
}

/// Taking a fragment of a kind: what is left, the fragment, and the error.
pub open spec fn take_fragment(grammar: Grammar, src: Seq<TreeView>, kind: FragmentKind) -> (
    Seq<TreeView>,
    Option<TreeView>,
    Option<ErrorView>,
) {
    take_covered(src, kind, grammar(src, kind))
}

/// Taking a visibility if there is one: what is left, and the visibility.
pub open spec fn take_vis(grammar: Grammar, src: Seq<TreeView>) -> (
    Seq<TreeView>,
    Option<TreeView>,
) {
    let (left, value, err) = take_fragment(grammar, src, FragmentKind::Visibility);
    if err is None {
        (left, value)
    } else {
        (src, None)
    }
}

/// The model of an optional tree.
pub open spec fn tree_view(tree: Option<TokenTree>) -> Option<TreeView> {
    match tree {
        Some(it) => Some(it@),
        None => None,
    }
}

fn fragment_name(kind: FragmentKind) -> (r: &'static str)
    ensures
        r@ == kind_name(kind),
{
    match kind {
        FragmentKind::Path => "Path",
        FragmentKind::Expr => "Expr",
        FragmentKind::Statement => "Statement",
        FragmentKind::Type => "Type",
        FragmentKind::Pattern => "Pattern",
        FragmentKind::Item => "Item",
        FragmentKind::Block => "Block",
        FragmentKind::Visibility => "Visibility",
        FragmentKind::MetaItem => "MetaItem",
    }
}

/// Follows a parser through the input.
pub struct OffsetTokenSink<'a> {
    pub cursor: Cursor<'a>,
    pub error: bool,
}

/// How far a walk of `n` steps comes.
pub open spec fn clamped(trees: Seq<TreeView>, n: nat) -> nat {
    if n < steps(trees) {
        n
    } else {
        steps(trees)
    }
}

impl<'a> OffsetTokenSink<'a> {
    /// The sink has been told of `events`.
    pub open spec fn after(self, trees: Seq<TreeView>, events: Seq<TreeEvent>) -> bool {
        &&& self.cursor.wf()
        &&& self.cursor.trees() == trees
        &&& self.cursor.offset() == clamped(trees, covered(events))
        &&& self.error == events.contains(TreeEvent::Error)
    }

    pub fn token(&mut self, kind: SyntaxKind, n_tokens: u8)
        requires
            old(self).cursor.wf(),
            old(self).cursor.offset() <= steps(old(self).cursor.trees()),
        ensures
            final(self).cursor.wf(),
            final(self).cursor.trees() == old(self).cursor.trees(),
            final(self).cursor.offset() == clamped(
                old(self).cursor.trees(),
                old(self).cursor.offset() + event_steps(TreeEvent::Token { kind, n_tokens }),
            ),
            final(self).error == old(self).error,
    {
        let n: u8 = match kind {
            SyntaxKind::LifetimeIdent => 2,
            SyntaxKind::Other => n_tokens,
        };
        let ghost before = self.cursor.offset();
        let ghost trees = self.cursor.trees();
        let mut i: u8 = 0;
        while i < n
            invariant
                trees == old(self).cursor.trees(),
                before == old(self).cursor.offset(),
                i <= n,
                self.cursor.wf(),
                self.cursor.trees() == trees,
                before <= steps(trees),
                self.cursor.offset() == clamped(trees, before + i as nat),
                self.error == old(self).error,
            decreases n - i,
        {
            self.cursor.bump_subtree();
            i += 1;
        }
    }

    pub fn error(&mut self)
        ensures
            final(self).cursor == old(self).cursor,
            final(self).error,
    {
        self.error = true;
    }

    /// Tells the sink of one event.
    pub fn event(&mut self, event: TreeEvent)
        requires
            old(self).cursor.wf(),
            old(self).cursor.offset() <= steps(old(self).cursor.trees()),
        ensures
            final(self).cursor.wf(),
            final(self).cursor.trees() == old(self).cursor.trees(),
            final(self).cursor.offset() == clamped(
                old(self).cursor.trees(),
                old(self).cursor.offset() + event_steps(event),
            ),
            final(self).error == (old(self).error || event == TreeEvent::Error),
    {
        match event {
            TreeEvent::Token { kind, n_tokens } => {
                self.token(kind, n_tokens);
            },
            TreeEvent::Error => {
                self.error();
            },
            TreeEvent::StartNode => {},
            TreeEvent::FinishNode => {},
        }
    }
}

proof fn lemma_event(events: Seq<TreeEvent>, i: int)
    requires
        0 <= i < events.len(),
    ensures
        covered(events.take(i + 1)) == covered(events.take(i)) + event_steps(events[i]),
        events.take(i + 1).contains(TreeEvent::Error) == (events.take(i).contains(TreeEvent::Error)
            || events[i] == TreeEvent::Error),
{
    let before = events.take(i);
    let all = events.take(i + 1);
    assert(all.drop_last() =~= before);
    if before.contains(TreeEvent::Error) {
        let j = choose|j: int| 0 <= j < before.len() && before[j] == TreeEvent::Error;
        assert(all[j] == TreeEvent::Error);
    }
    if all.contains(TreeEvent::Error) && events[i] != TreeEvent::Error {
        let j = choose|j: int| 0 <= j < all.len() && all[j] == TreeEvent::Error;
        assert(before[j] == TreeEvent::Error);
    }
    assert(all[i] == events[i]);
}

impl<'a> TtIter<'a> {
    /// Takes what a parser has reported of the input.
    pub fn expect_covered(&mut self, kind: FragmentKind, events: &Vec<TreeEvent>) -> (r:
        ExpandResult<Option<TokenTree>>)
        ensures
            ({
                let (left, value, err) = take_covered(old(self)@, kind, events@);
                &&& final(self)@ == left
                &&& tree_view(r.value) == value
                &&& error_view(r.err) == err
            }),
    {
        broadcast use {lemma_models, lemma_models_subrange};

        let ghost src = self@;
        let mut sink: OffsetTokenSink<'a> = OffsetTokenSink {
            cursor: Cursor::begin(self.inner),
            error: false,
        };
        let n: usize = events.len();
        let mut i: usize = 0;
        while i < n
            invariant
                n == events@.len(),
                i <= n,
                sink.after(src, events@.take(i as int)),
            decreases n - i,
        {
            proof {
                lemma_event(events@, i as int);
            }
            sink.event(events[i]);
            i += 1;
        }
        proof {
            assert(events@.take(n as int) =~= events@);
            if covered(events@) >= steps(src) {
                lemma_landing_past_end(src, covered(events@));
                lemma_landing_past_end(src, steps(src));
            }
        }
        let root: bool = sink.cursor.is_root();
        let mut err: Option<ExpandError> = None;
        if !root || sink.error {
            err = Some(quoting_error("expected ", fragment_name(kind), ""));
            proof {
                reveal_strlit("");
                assert("expected "@ + kind_name(kind) + ""@ =~= "expected "@ + kind_name(kind));
            }
        }
        let taken: usize = if root {
            sink.cursor.index()
        } else {
            0
        };
        let whole: &'a [TokenTree] = self.inner;
        self.inner = slice_subrange(whole, taken, whole.len());
        if taken == 0 && err.is_none() {
            err = Some(binding_error("no tokens consumed"));
        }
        let value: Option<TokenTree> = if taken == 0 {
            None
        } else if taken == 1 {
            Some(whole[0].clone())
        } else {
            Some(undelimited(whole, taken))
        };
        ExpandResult { value, err }
    }

    /// Takes a fragment of a kind, as far as the parser finds one.
    pub fn expect_fragment<F: Fn(&[TokenTree], FragmentKind) -> Vec<TreeEvent>>(
        &mut self,
        kind: FragmentKind,
        parse: &F,
    ) -> (r: ExpandResult<Option<TokenTree>>)
        requires
            total(*parse),
        ensures
            exists|events: Seq<TreeEvent>|
                take_fragment(#[trigger] always(events), old(self)@, kind) == (
                    final(self)@,
                    tree_view(r.value),
                    error_view(r.err),
                ),
            forall|grammar: Grammar| #[trigger]
                follows(*parse, grammar) ==> ({
                    let (left, value, err) = take_fragment(grammar, old(self)@, kind);
                    &&& final(self)@ == left
                    &&& tree_view(r.value) == value
                    &&& error_view(r.err) == err
                }),
    {
        let events: Vec<TreeEvent> = parse(self.inner, kind);
        let r = self.expect_covered(kind, &events);
        proof {
            assert(take_fragment(always(events@), old(self)@, kind) == take_covered(
                old(self)@,
                kind,
                events@,
            ));
        }
        r
    }

    /// Takes a visibility if there is one.
    pub fn eat_vis<F: Fn(&[TokenTree], FragmentKind) -> Vec<TreeEvent>>(&mut self, parse: &F) -> (r:
        Option<TokenTree>)
        requires
            total(*parse),
        ensures
            r is None ==> final(self)@ == old(self)@,
            exists|events: Seq<TreeEvent>|
                take_vis(#[trigger] always(events), old(self)@) == (final(self)@, tree_view(r)),
            forall|grammar: Grammar| #[trigger]
                follows(*parse, grammar) ==> {
                    &&& final(self)@ == take_vis(grammar, old(self)@).0
                    &&& tree_view(r) == take_vis(grammar, old(self)@).1
                },
    {
        let mut fork: TtIter<'a> = *self;
        let found = fork.expect_fragment(FragmentKind::Visibility, parse);
        proof {
            let events = choose|events: Seq<TreeEvent>|
                take_fragment(#[trigger] always(events), old(self)@, FragmentKind::Visibility) == (
                    fork@,
                    tree_view(found.value),
                    error_view(found.err),
                );
            let vis = take_vis(always(events), old(self)@);
        }
        match found.err {
            None => {
                *self = fork;
                found.value
            },
            Some(_) => None,
        }
    }
}

} // verus!
