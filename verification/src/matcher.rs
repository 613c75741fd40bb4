//! Matching the token trees of a macro call against a template.
//!
//! Errors come through two channels. An error in the template is returned: it
//! makes no sense to use a rule that could not be parsed. An error in matching
//! is added to the [`Match`].
use crate::bindings::{Binding, Bindings, Fragment, FragmentView};
use crate::error::{binding_error, error_view, quoting_error, ErrorView, ExpandError, ExpandResult};
use crate::fragment::{always, follows, silent, total, FragmentKind, Grammar, TreeEvent};
use crate::laws::template_errors::lemma_variables_stop;
use crate::semantics::{
    consults, has_error, leaf_text, lemma_has_error, matched, op_consults, op_has_error, run,
    run_op, run_repeat, run_rounds, same_token, syntactic, take_literal, take_var,
    template_consults, variables, MatchView, Run, Taken, REPEAT_LIMIT,
};
use crate::template::{
    separator_view, MetaTemplate, Op, OpView, RepeatKind, Separator, TemplateView,
};
use crate::tt::{Leaf, Subtree, TokenTree, TreeView};
use crate::tt_iter::{same_text, undelimited, TtIter};
use vstd::prelude::*;

verus! {

/// [`String::push`] of the standard library adds the character behind those that
/// are there, and changes nothing else. Trusted, not proved.
pub assume_specification[ String::push ](s: &mut String, ch: char)
    ensures
        final(s)@ == old(s)@.push(ch),
;

/// What came of matching.
#[derive(Debug, PartialEq, Eq)]
pub struct Match {
    pub bindings: Bindings,
    /// The first error. The rest are only counted, to tell which of two
    /// matches is the better one.
    pub err: Option<ExpandError>,
    pub err_count: usize,
    /// How many top-level token trees were left to match.
    pub unmatched_tts: usize,
}

impl View for Match {
    type V = MatchView;

    open spec fn view(&self) -> MatchView {
        MatchView {
            bindings: self.bindings@,
            err: error_view(self.err),
            err_count: self.err_count as nat,
            unmatched_tts: self.unmatched_tts as nat,
        }
    }
}

impl Default for Match {
    fn default() -> (r: Self)
        ensures
            r.wf(),
            r@ == MatchView::empty(),
    {
        Match { bindings: Bindings::new(), err: None, err_count: 0, unmatched_tts: 0 }
    }
}

impl Match {
    /// No name has two slots, and there is an error if one is counted.
    pub open spec fn wf(self) -> bool {
        &&& self.bindings.wf()
        &&& self.err is Some <==> self.err_count > 0
    }

    pub fn add_err(&mut self, err: ExpandError)
        requires
            old(self).err_count < usize::MAX,
        ensures
            final(self)@ == old(self)@.add_err(err@),
            old(self).wf() ==> final(self).wf(),
    {
        let prev_err: Option<ExpandError> = self.err.take();
        self.err = match prev_err {
            Some(prev) => Some(prev),
            None => Some(err),
        };
        self.err_count += 1;
    }
}

/// How many errors an element can add to a match.
pub open spec fn op_error_limit(op: OpView) -> nat
    decreases op, 0nat,
{
    match op {
        OpView::Leaf(_) => 1,
        OpView::Var { .. } => 1,
        OpView::Subtree(subtree) => 1 + error_limit(subtree, 0),
        OpView::Repeat { subtree, .. } => REPEAT_LIMIT as nat + error_limit(subtree, 0),
    }
}

/// How many errors the elements of a template from the one at `i` on can add to
/// a match.
pub open spec fn error_limit(pattern: TemplateView, i: nat) -> nat
    decreases pattern, pattern.tokens.len() - i,
{
    if i >= pattern.tokens.len() {
        0
    } else {
        (match pattern.tokens[i as int] {
            Ok(op) => op_error_limit(op),
            Err(_) => 0,
        }) + error_limit(pattern, i + 1)
    }
}

/// The model of an optional fragment.
pub open spec fn fragment_view(fragment: Option<Fragment>) -> Option<FragmentView> {
    match fragment {
        Some(it) => Some(it@),
        None => None,
    }
}

fn show_leaf(leaf: &Leaf) -> (r: String)
    ensures
        r@ == leaf_text(leaf@),
{
    match leaf {
        Leaf::Literal(it) => it.text.clone(),
        Leaf::Punct(it) => {
            let mut text: String = String::new();
            text.push(it.char);
            proof {
                assert(text@ =~= seq![it.char]);
            }
            text
        },
        Leaf::Ident(it) => it.text.clone(),
    }
}

fn reads_the_same(lhs: &Leaf, rhs: &Leaf) -> (r: bool)
    ensures
        r == same_token(lhs@, rhs@),
{
    match (lhs, rhs) {
        (Leaf::Punct(lhs), Leaf::Punct(rhs)) => lhs.char == rhs.char,
        (Leaf::Ident(lhs), Leaf::Ident(rhs)) => lhs.text == rhs.text,
        (Leaf::Literal(lhs), Leaf::Literal(rhs)) => lhs.text == rhs.text,
        _ => false,
    }
}

fn syntactic_kind(kind: &str) -> (r: Option<FragmentKind>)
    ensures
        r == syntactic(kind@),
{
    if same_text(kind, "path") {
        Some(FragmentKind::Path)
    } else if same_text(kind, "expr") {
        Some(FragmentKind::Expr)
    } else if same_text(kind, "ty") {
        Some(FragmentKind::Type)
    } else if same_text(kind, "pat") {
        Some(FragmentKind::Pattern)
    } else if same_text(kind, "stmt") {
        Some(FragmentKind::Statement)
    } else if same_text(kind, "block") {
        Some(FragmentKind::Block)
    } else if same_text(kind, "meta") {
        Some(FragmentKind::MetaItem)
    } else if same_text(kind, "item") {
        Some(FragmentKind::Item)
    } else {
        None
    }
}

/// Takes a literal, with a minus sign or without.
fn expect_signed_literal(input: &mut TtIter) -> (r: Result<TokenTree, ()>)
    ensures
        final(input)@ == take_literal(old(input)@).0,
        match r {
            Ok(tree) => take_literal(old(input)@).1 == Some(tree@),
            Err(_) => take_literal(old(input)@).1 is None,
        },
{
    let whole: TtIter = *input;
    let neg: Option<TokenTree> = input.eat_char('-');
    let literal: &Leaf = input.expect_literal()?;
    match neg {
        None => Ok(TokenTree::Leaf(literal.clone())),
        Some(_) => Ok(undelimited(whole.inner, 2)),
    }
}

/// A tree that has to be there.
fn need(tree: Result<TokenTree, ()>, text: &str) -> (r: ExpandResult<Option<Fragment>>)
    ensures
        match tree {
            Ok(it) => fragment_view(r.value) == Some(FragmentView::Tokens(it@)) && r.err is None,
            Err(_) => r.value is None && error_view(r.err) == Some(ErrorView::BindingError(text@)),
        },
{
    match tree {
        Ok(it) => ExpandResult { value: Some(Fragment::Tokens(it)), err: None },
        Err(_) => ExpandResult { value: None, err: Some(binding_error(text)) },
    }
}

/// Takes what a variable of a kind stands for. A parser is asked at most once.
pub fn match_meta_var<F: Fn(&[TokenTree], FragmentKind) -> Vec<TreeEvent>>(
    kind: &str,
    input: &mut TtIter,
    parse: &F,
) -> (r: ExpandResult<Option<Fragment>>)
    requires
        total(*parse),
    ensures
        exists|events: Seq<TreeEvent>|
            took(take_var(#[trigger] always(events), old(input)@, kind@), final(input)@, r),
        forall|grammar: Grammar| #[trigger]
            follows(*parse, grammar) ==> took(
                take_var(grammar, old(input)@, kind@),
                final(input)@,
                r,
            ),
        !consults(kind@) ==> took(take_var(silent(), old(input)@, kind@), final(input)@, r),
{
    if let Some(fragment) = syntactic_kind(kind) {
        let found = input.expect_fragment(fragment, parse);
        let value: Option<Fragment> = match found.value {
            Some(it) => if fragment == FragmentKind::Expr {
                Some(Fragment::Ast(it))
            } else {
                Some(Fragment::Tokens(it))
            },
            None => None,
        };
        return ExpandResult { value, err: found.err };
    }
    let ghost unasked = always(Seq::<TreeEvent>::empty());
    if same_text(kind, "ident") {
        let ident: Result<TokenTree, ()> = match input.expect_ident() {
            Ok(it) => Ok(TokenTree::Leaf(Leaf::Ident(it.clone()))),
            Err(_) => Err(()),
        };
        need(ident, "expected ident")
    } else if same_text(kind, "tt") {
        need(input.expect_tt(), "")
    } else if same_text(kind, "lifetime") {
        need(input.expect_lifetime(), "expected lifetime")
    } else if same_text(kind, "literal") {
        need(expect_signed_literal(input), "")
    } else if same_text(kind, "vis") {
        // `vis` is optional
        let value: Option<Fragment> = match input.eat_vis(parse) {
            Some(vis) => Some(Fragment::Tokens(vis)),
            None => None,
        };
        ExpandResult { value, err: None }
    } else {
        ExpandResult { value: None, err: Some(ExpandError::UnexpectedToken) }
    }
}

/// A variable took this.
pub open spec fn took(
    taken: Taken,
    src: Seq<TreeView>,
    r: ExpandResult<Option<Fragment>>,
) -> bool {
    &&& src == taken.src
    &&& fragment_view(r.value) == taken.value
    &&& error_view(r.err) == taken.err
}

/// A run came to this.
pub open spec fn came_to(
    all: Run,
    res: MatchView,
    src: Seq<TreeView>,
    r: Result<(), ExpandError>,
) -> bool {
    &&& res == all.res
    &&& src == all.src
    &&& match r {
        Ok(_) => all.stop is None,
        Err(e) => all.stop == Some(e@),
    }
}

/// The rounds of a repetition came to this.
pub open spec fn rounds_came_to(
    all: (Run, nat),
    res: MatchView,
    src: Seq<TreeView>,
    r: Result<usize, ExpandError>,
) -> bool {
    &&& res == all.0.res
    &&& src == all.0.src
    &&& match r {
        Ok(count) => all.0.stop is None && count == all.1,
        Err(e) => all.0.stop == Some(e@),
    }
}

/// A whole match came to this.
pub open spec fn match_came_to(
    all: Result<MatchView, ErrorView>,
    r: Result<Match, ExpandError>,
) -> bool {
    match r {
        Ok(m) => all == Ok::<MatchView, ErrorView>(m@),
        Err(e) => all == Err::<MatchView, ErrorView>(e@),
    }
}

/// The models of a run of names.
pub open spec fn name_views(names: Seq<String>) -> Seq<Seq<char>> {
    names.map_values(|name: String| name@)
}

proof fn lemma_error_limit(pattern: TemplateView, i: nat)
    requires
        i < pattern.tokens.len(),
        pattern.tokens[i as int] is Ok,
    ensures
        op_error_limit(pattern.tokens[i as int]->Ok_0) + error_limit(pattern, i + 1) == error_limit(
            pattern,
            i,
        ),
{
}

/// Adds the names of the variables of a template to `buf`.
pub fn collect_vars(buf: &mut Vec<String>, pattern: &MetaTemplate) -> (r: Result<(), ExpandError>)
    ensures
        name_views(final(buf)@) == name_views(old(buf)@) + variables(pattern@, 0).0,
        match r {
            Ok(_) => variables(pattern@, 0).1 is None,
            Err(e) => variables(pattern@, 0).1 == Some(e@),
        },
    decreases pattern@,
{
    let n: usize = pattern.tokens.len();
    let mut i: usize = 0;
    let ghost before = name_views(buf@);
    let ghost all = variables(pattern@, 0);
    while i < n
        invariant
            before == name_views(old(buf)@),
            n == pattern.tokens@.len(),
            n == pattern@.tokens.len(),
            i <= n,
            all == variables(pattern@, 0),
            before + all.0 == name_views(buf@) + variables(pattern@, i as nat).0,
            all.1 == variables(pattern@, i as nat).1,
        decreases n - i,
    {
        let ghost sofar = name_views(buf@);
        let ghost later = variables(pattern@, i as nat + 1);
        match &pattern.tokens[i] {
            Err(e) => {
                proof {
                    assert(name_views(buf@) =~= before + all.0);
                }
                return Err(e.clone());
            },
            Ok(Op::Var { name, .. }) => {
                buf.push(name.clone());
                proof {
                    assert(name_views(buf@) =~= sofar.push(name@));
                    assert(sofar + (seq![name@] + later.0) =~= sofar.push(name@) + later.0);
                }
            },
            Ok(Op::Leaf(_)) => {
                proof {
                    assert(sofar + (Seq::empty() + later.0) =~= sofar + later.0);
                }
            },
            Ok(Op::Subtree(subtree)) => {
                collect_vars(buf, subtree)?;
                proof {
                    let here = variables(subtree@, 0).0;
                    assert(sofar + (here + later.0) =~= sofar + here + later.0);
                }
            },
            Ok(Op::Repeat { subtree, .. }) => {
                collect_vars(buf, subtree)?;
                proof {
                    let here = variables(subtree@, 0).0;
                    assert(sofar + (here + later.0) =~= sofar + here + later.0);
                }
            },
        }
        i += 1;
    }
    proof {
        assert(name_views(buf@) + Seq::empty() =~= name_views(buf@));
    }
    Ok(())
}

/// Matches the elements of a template, in order.
pub fn match_subtree<F: Fn(&[TokenTree], FragmentKind) -> Vec<TreeEvent>>(
    res: &mut Match,
    pattern: &MetaTemplate,
    src: &mut TtIter,
    parse: &F,
) -> (r: Result<(), ExpandError>)
    requires
        total(*parse),
        old(res).err_count + error_limit(pattern@, 0) <= usize::MAX,
    ensures
        final(res).err_count <= old(res).err_count + error_limit(pattern@, 0),
        final(res).unmatched_tts == old(res).unmatched_tts,
        old(res).wf() ==> final(res).wf(),
        r matches Err(e) ==> has_error(pattern@, 0, e@),
        r is Ok ==> forall|k: int|
            0 <= k < pattern@.tokens.len() ==> #[trigger] pattern@.tokens[k] is Ok,
        forall|grammar: Grammar| #[trigger]
            follows(*parse, grammar) ==> came_to(
                run(grammar, pattern@, 0, old(res)@, old(src)@),
                final(res)@,
                final(src)@,
                r,
            ),
        !template_consults(pattern@, 0) ==> came_to(
            run(silent(), pattern@, 0, old(res)@, old(src)@),
            final(res)@,
            final(src)@,
            r,
        ),
    decreases pattern@, 0nat,
{
    let n: usize = pattern.tokens.len();
    let mut i: usize = 0;
    while i < n
        invariant
            total(*parse),
            n == pattern.tokens@.len(),
            n == pattern@.tokens.len(),
            i <= n,
            old(res).err_count + error_limit(pattern@, 0) <= usize::MAX,
            res.unmatched_tts == old(res).unmatched_tts,
            old(res).wf() ==> res.wf(),
            res.err_count + error_limit(pattern@, i as nat) <= old(res).err_count + error_limit(
                pattern@,
                0,
            ),
            forall|grammar: Grammar| #[trigger]
                follows(*parse, grammar) ==> run(grammar, pattern@, 0, old(res)@, old(src)@) == run(
                    grammar,
                    pattern@,
                    i as nat,
                    res@,
                    src@,
                ),
            template_consults(pattern@, i as nat) ==> template_consults(pattern@, 0),
            forall|e: ErrorView| #[trigger]
                has_error(pattern@, i as nat, e) ==> has_error(pattern@, 0, e),
            forall|k: int| 0 <= k < i ==> #[trigger] pattern@.tokens[k] is Ok,
            !template_consults(pattern@, 0) ==> run(
                silent(),
                pattern@,
                0,
                old(res)@,
                old(src)@,
            ) == run(silent(), pattern@, i as nat, res@, src@),
        decreases n - i,
    {
        proof {
            assert forall|e: ErrorView| #[trigger]
                has_error(pattern@, i as nat + 1, e) implies has_error(pattern@, 0, e) by {
                lemma_has_error(pattern@, i as nat, e);
            }
        }
        match &pattern.tokens[i] {
            Err(e) => {
                proof {
                    lemma_has_error(pattern@, i as nat, e@);
                }
                return Err(e.clone());
            },
            Ok(op) => {
                proof {
                    assert forall|e: ErrorView| #[trigger] op_has_error(op@, e) implies has_error(
                        pattern@,
                        0,
                        e,
                    ) by {
                        lemma_has_error(pattern@, i as nat, e);
                    }
                    assert(pattern@.tokens[i as int] == Ok::<OpView, ErrorView>(op@));
                    lemma_error_limit(pattern@, i as nat);
                }
                match_op(res, op, src, parse)?;
            },
        }
        i += 1;
    }
    Ok(())
}

/// Matches one element.
fn match_op<F: Fn(&[TokenTree], FragmentKind) -> Vec<TreeEvent>>(
    res: &mut Match,
    op: &Op,
    src: &mut TtIter,
    parse: &F,
) -> (r: Result<(), ExpandError>)
    requires
        total(*parse),
        old(res).err_count + op_error_limit(op@) <= usize::MAX,
    ensures
        final(res).err_count <= old(res).err_count + op_error_limit(op@),
        final(res).unmatched_tts == old(res).unmatched_tts,
        old(res).wf() ==> final(res).wf(),
        r matches Err(e) ==> op_has_error(op@, e@),
        forall|grammar: Grammar| #[trigger]
            follows(*parse, grammar) ==> came_to(
                run_op(grammar, op@, old(res)@, old(src)@),
                final(res)@,
                final(src)@,
                r,
            ),
        !op_consults(op@) ==> came_to(
            run_op(silent(), op@, old(res)@, old(src)@),
            final(res)@,
            final(src)@,
            r,
        ),
    decreases op@, 3nat,
{
    match op {
        Op::Leaf(lhs) => match src.expect_leaf() {
            Ok(rhs) => {
                if !reads_the_same(lhs, rhs) {
                    res.add_err(ExpandError::UnexpectedToken);
                }
            },
            Err(_) => {
                res.add_err(quoting_error("expected leaf: `", show_leaf(lhs).as_str(), "`"));
            },
        },
        Op::Subtree(lhs) => {
            let rhs: &Subtree = match src.expect_subtree() {
                Ok(s) => s,
                Err(_) => {
                    res.add_err(binding_error("expected subtree"));
                    return Ok(());
                },
            };
            if lhs.delimiter_kind() != rhs.delimiter_kind() {
                res.add_err(binding_error("mismatched delimiter"));
                return Ok(());
            }
            let mut inner: TtIter = TtIter::new(rhs);
            match_subtree(res, lhs, &mut inner, parse)?;
            if inner.len() > 0 {
                res.add_err(binding_error("leftover tokens"));
            }
        },
        Op::Var { name, kind } => {
            let kind: &String = match kind {
                Some(k) => k,
                None => {
                    res.add_err(ExpandError::UnexpectedToken);
                    return Ok(());
                },
            };
            let taken = match_meta_var(kind.as_str(), src, parse);
            match taken.value {
                Some(fragment) => {
                    res.bindings.insert(name, Binding::Fragment(fragment));
                },
                None => {
                    if taken.err.is_none() {
                        res.bindings.push_optional(name);
                    }
                },
            }
            if let Some(err) = taken.err {
                res.add_err(err);
            }
        },
        Op::Repeat { subtree, kind, separator } => {
            match_repeat(res, subtree, *kind, separator, src, parse)?;
        },
    }
    Ok(())
}

/// Matches the rounds of a repetition, and gives their number.
fn match_rounds<F: Fn(&[TokenTree], FragmentKind) -> Vec<TreeEvent>>(
    res: &mut Match,
    pattern: &MetaTemplate,
    kind: RepeatKind,
    separator: &Option<Separator>,
    src: &mut TtIter,
    parse: &F,
) -> (r: Result<usize, ExpandError>)
    requires
        total(*parse),
        old(res).err_count + REPEAT_LIMIT <= usize::MAX,
        error_limit(pattern@, 0) <= usize::MAX,
    ensures
        final(res).err_count < old(res).err_count + REPEAT_LIMIT,
        final(res).unmatched_tts == old(res).unmatched_tts,
        old(res).wf() ==> final(res).wf(),
        r matches Err(e) ==> has_error(pattern@, 0, e@),
        r matches Ok(count) ==> final(res).err_count <= old(res).err_count + count,
        forall|grammar: Grammar| #[trigger]
            follows(*parse, grammar) ==> rounds_came_to(
                run_rounds(
                    grammar,
                    pattern@,
                    kind,
                    separator_view(*separator),
                    0,
                    old(res)@,
                    old(src)@,
                ),
                final(res)@,
                final(src)@,
                r,
            ),
        !template_consults(pattern@, 0) ==> rounds_came_to(
            run_rounds(
                silent(),
                pattern@,
                kind,
                separator_view(*separator),
                0,
                old(res)@,
                old(src)@,
            ),
            final(res)@,
            final(src)@,
            r,
        ),
    decreases pattern@, 1nat,
{
    let mut counter: usize = 0;
    loop
        invariant
            total(*parse),
            old(res).err_count + REPEAT_LIMIT <= usize::MAX,
            error_limit(pattern@, 0) <= usize::MAX,
            counter < REPEAT_LIMIT,
            res.err_count <= old(res).err_count + counter,
            res.unmatched_tts == old(res).unmatched_tts,
            old(res).wf() ==> res.wf(),
            forall|grammar: Grammar| #[trigger]
                follows(*parse, grammar) ==> run_rounds(
                    grammar,
                    pattern@,
                    kind,
                    separator_view(*separator),
                    0,
                    old(res)@,
                    old(src)@,
                ) == run_rounds(
                    grammar,
                    pattern@,
                    kind,
                    separator_view(*separator),
                    counter as nat,
                    res@,
                    src@,
                ),
            !template_consults(pattern@, 0) ==> run_rounds(
                silent(),
                pattern@,
                kind,
                separator_view(*separator),
                0,
                old(res)@,
                old(src)@,
            ) == run_rounds(
                silent(),
                pattern@,
                kind,
                separator_view(*separator),
                counter as nat,
                res@,
                src@,
            ),
        decreases REPEAT_LIMIT - counter,
    {
        let mut fork: TtIter = *src;
        if let Some(separator) = separator {
            if counter != 0 && !fork.eat_separator(separator) {
                return Ok(counter);
            }
        }
        let mut nested: Match = Match::default();
        match_subtree(&mut nested, pattern, &mut fork, parse)?;
        if nested.err.is_some() || counter + 1 == REPEAT_LIMIT {
            return Ok(counter);
        }
        *src = fork;
        if let Err(err) = res.bindings.push_nested(counter, nested.bindings) {
            res.add_err(err);
        }
        counter += 1;
        if counter == 1 && kind == RepeatKind::ZeroOrOne {
            return Ok(counter);
        }
    }
}

/// Matches a repetition.
pub fn match_repeat<F: Fn(&[TokenTree], FragmentKind) -> Vec<TreeEvent>>(
    res: &mut Match,
    pattern: &MetaTemplate,
    kind: RepeatKind,
    separator: &Option<Separator>,
    src: &mut TtIter,
    parse: &F,
) -> (r: Result<(), ExpandError>)
    requires
        total(*parse),
        old(res).err_count + REPEAT_LIMIT <= usize::MAX,
        error_limit(pattern@, 0) <= usize::MAX,
    ensures
        final(res).err_count < old(res).err_count + REPEAT_LIMIT,
        final(res).unmatched_tts == old(res).unmatched_tts,
        old(res).wf() ==> final(res).wf(),
        r matches Err(e) ==> has_error(pattern@, 0, e@),
        forall|grammar: Grammar| #[trigger]
            follows(*parse, grammar) ==> came_to(
                run_repeat(
                    grammar,
                    pattern@,
                    kind,
                    separator_view(*separator),
                    old(res)@,
                    old(src)@,
                ),
                final(res)@,
                final(src)@,
                r,
            ),
        !template_consults(pattern@, 0) ==> came_to(
            run_repeat(silent(), pattern@, kind, separator_view(*separator), old(res)@, old(src)@),
            final(res)@,
            final(src)@,
            r,
        ),
    decreases pattern@, 2nat,
{
    let counter: usize = match_rounds(res, pattern, kind, separator, src, parse)?;
    if counter == 0 {
        if kind == RepeatKind::OneOrMore {
            res.add_err(ExpandError::UnexpectedToken);
        } else {
            let mut vars: Vec<String> = Vec::new();
            proof {
                lemma_variables_stop(pattern@, 0);
            }
            collect_vars(&mut vars, pattern)?;
            let ghost before = res@;
            let ghost names = name_views(vars@);
            let n: usize = vars.len();
            let mut i: usize = 0;
            proof {
                assert(names.skip(0) =~= names);
                assert(name_views(Seq::empty()) + variables(pattern@, 0).0 =~= variables(
                    pattern@,
                    0,
                ).0);
            }
            while i < n
                invariant
                    n == vars@.len(),
                    names == name_views(vars@),
                    i <= n,
                    res.err_count == before.err_count,
                    res.unmatched_tts == before.unmatched_tts,
                    old(res).wf() ==> res.wf(),
                    before.bind_empty(names) == res@.bind_empty(names.skip(i as int)),
                decreases n - i,
            {
                proof {
                    assert(names.skip(i as int).drop_first() =~= names.skip(i + 1));
                }
                res.bindings.push_empty(&vars[i]);
                i += 1;
            }
        }
    }
    Ok(())
}

/// Matches the input of a macro call against the left-hand side of a rule.
///
/// `parse` recognises syntactic fragments. The template is one that cannot add
/// more errors than a match can count.
pub fn match_<F: Fn(&[TokenTree], FragmentKind) -> Vec<TreeEvent>>(
    pattern: &MetaTemplate,
    src: &Subtree,
    parse: &F,
) -> (r: Result<Match, ExpandError>)
    requires
        pattern.delimiter is None,
        total(*parse),
        error_limit(pattern@, 0) < usize::MAX,
    ensures
        r matches Err(e) ==> has_error(pattern@, 0, e@),
        r is Ok ==> forall|k: int|
            0 <= k < pattern@.tokens.len() ==> #[trigger] pattern@.tokens[k] is Ok,
        r matches Ok(m) ==> m.wf() && m.err_count <= error_limit(pattern@, 0) + 1,
        forall|grammar: Grammar| #[trigger]
            follows(*parse, grammar) ==> match_came_to(
                matched(grammar, pattern@, src@.token_trees),
                r,
            ),
        !template_consults(pattern@, 0) ==> match_came_to(
            matched(silent(), pattern@, src@.token_trees),
            r,
        ),
{
    let mut res: Match = Match::default();
    let mut src: TtIter = TtIter::new(src);
    match_subtree(&mut res, pattern, &mut src, parse)?;
    if src.len() > 0 {
        res.unmatched_tts += src.len();
        res.add_err(binding_error("leftover tokens"));
    }
    Ok(res)
}

} // verus!
