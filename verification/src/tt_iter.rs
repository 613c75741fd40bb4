//! Taking token trees from the front of the input, one construct at a time.
//!
//! The `expect_` methods take what they look at whether or not it is what they
//! expect; the `eat_` methods take nothing unless they find it.
use crate::template::{Separator, SeparatorView};
use crate::tt::{
    lemma_models, lemma_models_push, lemma_models_subrange, models, Ident, Leaf, LeafView, Punct,
    Spacing, Subtree, SubtreeView, TokenTree, TreeView, WordView,
};
use vstd::prelude::*;
use vstd::slice::slice_subrange;

verus! {

/// The token trees that are still to be matched.
#[derive(Debug, Clone, Copy)]
pub struct TtIter<'a> {
    pub inner: &'a [TokenTree],
}

impl<'a> View for TtIter<'a> {
    type V = Seq<TreeView>;

    open spec fn view(&self) -> Seq<TreeView> {
        models(self.inner@)
    }
}

/// What is left once the first tree, if any, is taken.
pub open spec fn rest(src: Seq<TreeView>) -> Seq<TreeView> {
    if src.len() == 0 {
        src
    } else {
        src.drop_first()
    }
}

/// The leaf that is the tree at `i`, if it is one.
pub open spec fn leaf_at(src: Seq<TreeView>, i: int) -> Option<LeafView> {
    if 0 <= i < src.len() {
        match src[i] {
            TreeView::Leaf(it) => Some(it),
            TreeView::Subtree(_) => None,
        }
    } else {
        None
    }
}

/// The subtree that is the tree at `i`, if it is one.
pub open spec fn subtree_at(src: Seq<TreeView>, i: int) -> Option<SubtreeView> {
    if 0 <= i < src.len() {
        match src[i] {
            TreeView::Leaf(_) => None,
            TreeView::Subtree(it) => Some(it),
        }
    } else {
        None
    }
}

/// The identifier that is the tree at `i`, if it is one.
pub open spec fn ident_at(src: Seq<TreeView>, i: int) -> Option<WordView> {
    match leaf_at(src, i) {
        Some(LeafView::Ident(it)) => Some(it),
        _ => None,
    }
}

/// The punctuation character that is the tree at `i`, if it is one.
pub open spec fn punct_at(src: Seq<TreeView>, i: int) -> Option<Punct> {
    match leaf_at(src, i) {
        Some(LeafView::Punct(it)) => Some(it),
        _ => None,
    }
}

/// Literals, and the identifiers `true` and `false`.
pub open spec fn is_literal(leaf: LeafView) -> bool {
    match leaf {
        LeafView::Literal(_) => true,
        LeafView::Ident(it) => it.text == "true"@ || it.text == "false"@,
        LeafView::Punct(_) => false,
    }
}

/// The literal that is the tree at `i`, if it is one.
pub open spec fn literal_at(src: Seq<TreeView>, i: int) -> Option<LeafView> {
    match leaf_at(src, i) {
        Some(it) if is_literal(it) => Some(it),
        _ => None,
    }
}

/// A run of trees as one tree: a single tree stands for itself, several are
/// put into a subtree without delimiter.
pub open spec fn bundle(run: Seq<TreeView>) -> TreeView {
    if run.len() == 1 {
        run[0]
    } else {
        TreeView::Subtree(SubtreeView { delimiter: None, token_trees: run })
    }
}

/// A lifetime is a quote and an identifier. It gives what is left, and the
/// lifetime if there is one.
pub open spec fn take_lifetime(src: Seq<TreeView>) -> (Seq<TreeView>, Option<TreeView>) {
    match punct_at(src, 0) {
        Some(quote) if quote.char == '\'' => (
            rest(rest(src)),
            match ident_at(src, 1) {
                Some(_) => Some(bundle(src.take(2))),
                None => None,
            },
        ),
        _ => (rest(src), None),
    }
}

/// The operators of three characters.
pub open spec fn is_triple(a: char, b: char, c: char) -> bool {
    match (a, b, c) {
        ('.', '.', '.') => true,
        ('.', '.', '=') => true,
        ('<', '<', '=') => true,
        ('>', '>', '=') => true,
        _ => false,
    }
}

/// The operators of two characters.
pub open spec fn is_pair(a: char, b: char) -> bool {
    match (a, b) {
        ('-', '=') => true,
        ('-', '>') => true,
        (':', ':') => true,
        ('!', '=') => true,
        ('.', '.') => true,
        ('*', '=') => true,
        ('/', '=') => true,
        ('&', '&') => true,
        ('&', '=') => true,
        ('%', '=') => true,
        ('^', '=') => true,
        ('+', '=') => true,
        ('<', '<') => true,
        ('<', '=') => true,
        ('=', '=') => true,
        ('=', '>') => true,
        ('>', '=') => true,
        ('>', '>') => true,
        ('|', '=') => true,
        ('|', '|') => true,
        _ => false,
    }
}

/// How many trees the operator at the front is made of; 1 for whatever is not
/// an operator of several characters.
pub open spec fn operator_len(src: Seq<TreeView>) -> nat {
    match (punct_at(src, 0), punct_at(src, 1)) {
        (Some(p1), Some(p2)) if p1.spacing is Joint => {
            let third = if p2.spacing is Joint {
                punct_at(src, 2)
            } else {
                None
            };
            if third is Some && is_triple(p1.char, p2.char, third->0.char) {
                3
            } else if is_pair(p1.char, p2.char) {
                2
            } else {
                1
            }
        },
        _ => 1,
    }
}

/// One token tree, where a lifetime and an operator of several characters
/// count as one. It gives what is left, and the tree if there is one.
pub open spec fn take_tt(src: Seq<TreeView>) -> (Seq<TreeView>, Option<TreeView>) {
    if punct_at(src, 0) matches Some(p) && p.char == '\'' {
        take_lifetime(src)
    } else if src.len() == 0 {
        (src, None)
    } else {
        let n = operator_len(src) as int;
        (src.skip(n), Some(bundle(src.take(n))))
    }
}

/// Whether the characters of `puncts` come first.
pub open spec fn starts_with(src: Seq<TreeView>, puncts: Seq<Punct>) -> bool {
    forall|i: int|
        0 <= i < puncts.len() ==> (punct_at(src, i) matches Some(it) && it.char == (
        #[trigger] puncts[i]).char)
}

/// What is left behind the separator, if it comes first.
pub open spec fn take_separator(src: Seq<TreeView>, separator: SeparatorView) -> Option<
    Seq<TreeView>,
> {
    match separator {
        SeparatorView::Ident(lhs) => match ident_at(src, 0) {
            Some(rhs) if rhs.text == lhs.text => Some(rest(src)),
            _ => None,
        },
        SeparatorView::Literal(lhs) => match literal_at(src, 0) {
            Some(LeafView::Literal(rhs)) if rhs.text == lhs.text => Some(rest(src)),
            Some(LeafView::Ident(rhs)) if rhs.text == lhs.text => Some(rest(src)),
            _ => None,
        },
        SeparatorView::Puncts(lhss) => if starts_with(src, lhss) {
            Some(src.skip(lhss.len() as int))
        } else {
            None
        },
    }
}

/// Whether two texts are the same.
pub(crate) fn same_text(a: &str, b: &str) -> (r: bool)
    ensures
        r == (a@ == b@),
{
    a.to_owned() == b.to_owned()
}

fn operator_of_three(a: char, b: char, c: char) -> (r: bool)
    ensures
        r == is_triple(a, b, c),
{
    match (a, b, c) {
        ('.', '.', '.') | ('.', '.', '=') | ('<', '<', '=') | ('>', '>', '=') => true,
        _ => false,
    }
}

fn operator_of_two(a: char, b: char) -> (r: bool)
    ensures
        r == is_pair(a, b),
{
    match (a, b) {
        ('-', '=')
        | ('-', '>')
        | (':', ':')
        | ('!', '=')
        | ('.', '.')
        | ('*', '=')
        | ('/', '=')
        | ('&', '&')
        | ('&', '=')
        | ('%', '=')
        | ('^', '=')
        | ('+', '=')
        | ('<', '<')
        | ('<', '=')
        | ('=', '=')
        | ('=', '>')
        | ('>', '=')
        | ('>', '>')
        | ('|', '=')
        | ('|', '|') => true,
        _ => false,
    }
}

/// The subtree without delimiter that holds the first `n` trees of `inner`.
pub(crate) fn undelimited(inner: &[TokenTree], n: usize) -> (r: TokenTree)
    requires
        n <= inner@.len(),
    ensures
        r@ == TreeView::Subtree(
            SubtreeView { delimiter: None, token_trees: models(inner@).take(n as int) },
        ),
{
    broadcast use {lemma_models, lemma_models_push};

    let mut token_trees: Vec<TokenTree> = Vec::new();
    let mut i: usize = 0;
    while i < n
        invariant
            i <= n,
            n <= inner@.len(),
            models(token_trees@) == models(inner@).take(i as int),
        decreases n - i,
    {
        token_trees.push(inner[i].clone());
        proof {
            let all = models(inner@);
            assert(all.take(i + 1) =~= all.take(i as int).push(all[i as int]));
        }
        i += 1;
    }
    TokenTree::Subtree(Subtree { delimiter: None, token_trees })
}

impl<'a> TtIter<'a> {
    pub fn new(subtree: &'a Subtree) -> (r: Self)
        ensures
            r@ == subtree@.token_trees,
    {
        TtIter { inner: subtree.token_trees.as_slice() }
    }

    pub fn len(&self) -> (r: usize)
        ensures
            r == self@.len(),
    {
        broadcast use lemma_models;

        self.inner.len()
    }

    /// Takes the first tree.
    pub fn next(&mut self) -> (r: Option<&'a TokenTree>)
        ensures
            final(self)@ == rest(old(self)@),
            match r {
                Some(tree) => old(self)@.len() > 0 && tree@ == old(self)@[0],
                None => old(self)@.len() == 0,
            },
    {
        broadcast use {lemma_models, lemma_models_subrange};

        let n: usize = self.inner.len();
        if n == 0 {
            return None;
        }
        let first: &'a TokenTree = &self.inner[0];
        self.inner = slice_subrange(self.inner, 1, n);
        Some(first)
    }

    /// The tree at `n`, left in place.
    pub fn peek_n(&self, n: usize) -> (r: Option<&'a TokenTree>)
        ensures
            match r {
                Some(tree) => n < self@.len() && tree@ == self@[n as int],
                None => n >= self@.len(),
            },
    {
        broadcast use lemma_models;

        if n < self.inner.len() {
            Some(&self.inner[n])
        } else {
            None
        }
    }

    /// The punctuation character at `n`, left in place.
    fn peek_punct(&self, n: usize) -> (r: Option<Punct>)
        ensures
            r == punct_at(self@, n as int),
    {
        match self.peek_n(n) {
            Some(TokenTree::Leaf(Leaf::Punct(it))) => Some(*it),
            _ => None,
        }
    }

    /// Takes the first tree, and succeeds if it is the punctuation character
    /// `c`.
    pub fn expect_char(&mut self, c: char) -> (r: Result<(), ()>)
        ensures
            final(self)@ == rest(old(self)@),
            r is Ok <==> (punct_at(old(self)@, 0) matches Some(it) && it.char == c),
    {
        match self.next() {
            Some(TokenTree::Leaf(Leaf::Punct(it))) if it.char == c => Ok(()),
            _ => Err(()),
        }
    }

    /// Takes the first tree, and gives it if it is a subtree.
    pub fn expect_subtree(&mut self) -> (r: Result<&'a Subtree, ()>)
        ensures
            final(self)@ == rest(old(self)@),
            match r {
                Ok(it) => subtree_at(old(self)@, 0) == Some(it@),
                Err(_) => subtree_at(old(self)@, 0) is None,
            },
    {
        match self.next() {
            Some(TokenTree::Subtree(it)) => Ok(it),
            _ => Err(()),
        }
    }

    /// Takes the first tree, and gives it if it is a leaf.
    pub fn expect_leaf(&mut self) -> (r: Result<&'a Leaf, ()>)
        ensures
            final(self)@ == rest(old(self)@),
            match r {
                Ok(it) => leaf_at(old(self)@, 0) == Some(it@),
                Err(_) => leaf_at(old(self)@, 0) is None,
            },
    {
        match self.next() {
            Some(TokenTree::Leaf(it)) => Ok(it),
            _ => Err(()),
        }
    }

    /// Takes the first tree, and gives it if it is an identifier.
    pub fn expect_ident(&mut self) -> (r: Result<&'a Ident, ()>)
        ensures
            final(self)@ == rest(old(self)@),
            match r {
                Ok(it) => ident_at(old(self)@, 0) == Some(it@),
                Err(_) => ident_at(old(self)@, 0) is None,
            },
    {
        match self.expect_leaf() {
            Ok(Leaf::Ident(it)) => Ok(it),
            _ => Err(()),
        }
    }

    /// Takes the first tree, and gives it if it is a literal.
    pub fn expect_literal(&mut self) -> (r: Result<&'a Leaf, ()>)
        ensures
            final(self)@ == rest(old(self)@),
            match r {
                Ok(it) => literal_at(old(self)@, 0) == Some(it@),
                Err(_) => literal_at(old(self)@, 0) is None,
            },
    {
        let it: &'a Leaf = match self.expect_leaf() {
            Ok(it) => it,
            Err(_) => {
                return Err(());
            },
        };
        match it {
            Leaf::Literal(_) => Ok(it),
            Leaf::Ident(ident) => {
                if same_text(ident.text.as_str(), "true") || same_text(
                    ident.text.as_str(),
                    "false",
                ) {
                    Ok(it)
                } else {
                    Err(())
                }
            },
            Leaf::Punct(_) => Err(()),
        }
    }

    /// Takes the first tree, and gives it if it is a punctuation character.
    pub fn expect_punct(&mut self) -> (r: Result<&'a Punct, ()>)
        ensures
            final(self)@ == rest(old(self)@),
            match r {
                Ok(it) => punct_at(old(self)@, 0) == Some(*it),
                Err(_) => punct_at(old(self)@, 0) is None,
            },
    {
        match self.expect_leaf() {
            Ok(Leaf::Punct(it)) => Ok(it),
            _ => Err(()),
        }
    }

    /// Takes a lifetime: a quote and an identifier.
    pub fn expect_lifetime(&mut self) -> (r: Result<TokenTree, ()>)
        ensures
            final(self)@ == take_lifetime(old(self)@).0,
            match r {
                Ok(tree) => take_lifetime(old(self)@).1 == Some(tree@),
                Err(_) => take_lifetime(old(self)@).1 is None,
            },
    {
        let whole: TtIter<'a> = *self;
        let punct: &'a Punct = self.expect_punct()?;
        if punct.char != '\'' {
            return Err(());
        }
        let ident: &'a Ident = self.expect_ident()?;
        Ok(undelimited(whole.inner, 2))
    }

    /// Takes one token tree, where a lifetime and an operator of several
    /// characters count as one.
    pub fn expect_tt(&mut self) -> (r: Result<TokenTree, ()>)
        ensures
            final(self)@ == take_tt(old(self)@).0,
            match r {
                Ok(tree) => take_tt(old(self)@).1 == Some(tree@),
                Err(_) => take_tt(old(self)@).1 is None,
            },
    {
        broadcast use {lemma_models, lemma_models_subrange};

        if let Some(punct) = self.peek_punct(0) {
            if punct.char == '\'' {
                return self.expect_lifetime();
            }
        }
        let n: usize = self.inner.len();
        if n == 0 {
            return Err(());
        }
        let mut taken: usize = 1;
        if let (Some(p1), Some(p2)) = (self.peek_punct(0), self.peek_punct(1)) {
            if p1.spacing == Spacing::Joint {
                let third: Option<Punct> = if p2.spacing == Spacing::Joint {
                    self.peek_punct(2)
                } else {
                    None
                };
                if operator_of_two(p1.char, p2.char) {
                    taken = 2;
                }
                if let Some(p3) = third {
                    if operator_of_three(p1.char, p2.char, p3.char) {
                        taken = 3;
                    }
                }
            }
        }
        let tree: TokenTree = if taken == 1 {
            self.inner[0].clone()
        } else {
            undelimited(self.inner, taken)
        };
        self.inner = slice_subrange(self.inner, taken, n);
        Ok(tree)
    }

    /// Takes the separator if it comes first.
    pub fn eat_separator(&mut self, separator: &Separator) -> (r: bool)
        ensures
            r == (take_separator(old(self)@, separator@) is Some),
            final(self)@ == match take_separator(old(self)@, separator@) {
                Some(left) => left,
                None => old(self)@,
            },
    {
        let mut fork: TtIter<'a> = *self;
        let ok: bool = match separator {
            Separator::Ident(lhs) => match fork.expect_ident() {
                Ok(rhs) => rhs.text == lhs.text,
                Err(_) => false,
            },
            Separator::Literal(lhs) => match fork.expect_literal() {
                Ok(Leaf::Literal(rhs)) => rhs.text == lhs.text,
                Ok(Leaf::Ident(rhs)) => rhs.text == lhs.text,
                _ => false,
            },
            Separator::Puncts(lhss) => fork.expect_puncts(lhss.as_slice()),
        };
        if ok {
            *self = fork;
        }
        ok
    }

    /// Takes trees as long as they are the characters of `puncts`, in order,
    /// and succeeds if they all come.
    fn expect_puncts(&mut self, puncts: &[Punct]) -> (r: bool)
        ensures
            r == starts_with(old(self)@, puncts@),
            r ==> final(self)@ == old(self)@.skip(puncts@.len() as int),
    {
        let ghost src = self@;
        let n: usize = puncts.len();
        let mut i: usize = 0;
        while i < n
            invariant
                src == old(self)@,
                n == puncts@.len(),
                i <= n,
                i <= src.len(),
                self@ == src.skip(i as int),
                starts_with(src, puncts@.take(i as int)),
            decreases n - i,
        {
            proof {
                assert(punct_at(src, i as int) == punct_at(self@, 0));
                assert(puncts@.take(i + 1) =~= puncts@.take(i as int).push(puncts@[i as int]));
            }
            let ok: bool = match self.expect_punct() {
                Ok(rhs) => rhs.char == puncts[i].char,
                Err(_) => false,
            };
            if !ok {
                proof {
                    assert(!starts_with(src, puncts@)) by {
                        assert(puncts@[i as int] == puncts[i as int]);
                    }
                }
                return false;
            }
            proof {
                assert(src.skip(i as int).drop_first() =~= src.skip(i + 1));
                let before = puncts@.take(i as int);
                assert forall|j: int| 0 <= j < i + 1 implies (punct_at(src, j) matches Some(it)
                    && it.char == (#[trigger] puncts@.take(i + 1)[j]).char) by {
                    if j < i {
                        assert(before[j] == puncts@.take(i + 1)[j]);
                    }
                }
            }
            i += 1;
        }
        proof {
            assert(puncts@.take(n as int) =~= puncts@);
        }
        true
    }

    /// Takes the punctuation character `c` if it comes first.
    pub fn eat_char(&mut self, c: char) -> (r: Option<TokenTree>)
        ensures
            match r {
                Some(tree) => {
                    &&& punct_at(old(self)@, 0) matches Some(it) && it.char == c
                    &&& tree@ == old(self)@[0]
                    &&& final(self)@ == rest(old(self)@)
                },
                None => {
                    &&& !(punct_at(old(self)@, 0) matches Some(it) && it.char == c)
                    &&& final(self)@ == old(self)@
                },
            },
    {
        let mut fork: TtIter<'a> = *self;
        match fork.expect_char(c) {
            Ok(_) => match self.next() {
                Some(tree) => {
                    let tree: TokenTree = tree.clone();
                    *self = fork;
                    Some(tree)
                },
                None => None,
            },
            Err(_) => None,
        }
    }
}

} // verus!
