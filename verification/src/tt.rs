//! Token trees: the input of the matcher and what its variables are bound to.
use vstd::prelude::*;

verus! {

/// Identifies the place that a token came from.
#[derive(Debug, Clone, Copy, PartialEq, Eq, Structural)]
pub struct TokenId(pub u32);

#[derive(Debug, Clone, Copy, PartialEq, Eq, Structural)]
pub enum DelimiterKind {
    Parenthesis,
    Brace,
    Bracket,
}

#[derive(Debug, Clone, Copy, PartialEq, Eq, Structural)]
pub struct Delimiter {
    pub id: TokenId,
    pub kind: DelimiterKind,
}

/// Whether the next punctuation character follows without a gap.
#[derive(Debug, Clone, Copy, PartialEq, Eq, Structural)]
pub enum Spacing {
    Alone,
    Joint,
}

#[derive(Debug, Clone, Copy, PartialEq, Eq, Structural)]
pub struct Punct {
    pub char: char,
    pub spacing: Spacing,
    pub id: TokenId,
}

#[derive(Debug, PartialEq, Eq)]
pub struct Ident {
    pub text: String,
    pub id: TokenId,
}

#[derive(Debug, PartialEq, Eq)]
pub struct Literal {
    pub text: String,
    pub id: TokenId,
}

#[derive(Debug, PartialEq, Eq)]
pub enum Leaf {
    Literal(Literal),
    Punct(Punct),
    Ident(Ident),
}

#[derive(Debug, PartialEq, Eq)]
pub struct Subtree {
    pub delimiter: Option<Delimiter>,
    pub token_trees: Vec<TokenTree>,
}

#[derive(Debug, PartialEq, Eq)]
pub enum TokenTree {
    Leaf(Leaf),
    Subtree(Subtree),
}

/// The model of an identifier or a literal.
pub struct WordView {
    pub text: Seq<char>,
    pub id: TokenId,
}

/// The model of a [`Leaf`].
pub enum LeafView {
    Literal(WordView),
    Punct(Punct),
    Ident(WordView),
}

/// The model of a [`Subtree`].
pub struct SubtreeView {
    pub delimiter: Option<Delimiter>,
    pub token_trees: Seq<TreeView>,
}

/// The model of a [`TokenTree`].
pub enum TreeView {
    Leaf(LeafView),
    Subtree(SubtreeView),
}

impl View for Ident {
    type V = WordView;

    open spec fn view(&self) -> WordView {
        WordView { text: self.text@, id: self.id }
    }
}

impl View for Literal {
    type V = WordView;

    open spec fn view(&self) -> WordView {
        WordView { text: self.text@, id: self.id }
    }
}

impl View for Leaf {
    type V = LeafView;

    open spec fn view(&self) -> LeafView {
        match self {
            Leaf::Literal(it) => LeafView::Literal(it@),
            Leaf::Punct(it) => LeafView::Punct(*it),
            Leaf::Ident(it) => LeafView::Ident(it@),
        }
    }
}

impl TokenTree {
    pub open spec fn model(self) -> TreeView
        decreases self,
    {
        match self {
            TokenTree::Leaf(it) => TreeView::Leaf(it@),
            TokenTree::Subtree(it) => TreeView::Subtree(it.model()),
        }
    }
}

impl Subtree {
    pub open spec fn model(self) -> SubtreeView
        decreases self,
    {
        SubtreeView { delimiter: self.delimiter, token_trees: models(self.token_trees@) }
    }
}

/// The models of a run of token trees.
pub open spec fn models(trees: Seq<TokenTree>) -> Seq<TreeView>
    decreases trees,
{
    Seq::new(
        trees.len(),
        |i: int|
            if 0 <= i < trees.len() {
                trees[i].model()
            } else {
                arbitrary()
            },
    )
}

/// Modelling works tree by tree.
pub broadcast proof fn lemma_models(trees: Seq<TokenTree>)
    ensures
        (#[trigger] models(trees)).len() == trees.len(),
        forall|i: int| 0 <= i < trees.len() ==> #[trigger] models(trees)[i] == trees[i]@,
{
}

/// Modelling commutes with adding a tree at the end.
pub broadcast proof fn lemma_models_push(trees: Seq<TokenTree>, tree: TokenTree)
    ensures
        #[trigger] models(trees.push(tree)) == models(trees).push(tree@),
{
    broadcast use lemma_models;

    assert(models(trees.push(tree)) =~= models(trees).push(tree@));
}

/// Modelling commutes with cutting out a run of trees.
pub broadcast proof fn lemma_models_subrange(trees: Seq<TokenTree>, i: int, j: int)
    requires
        0 <= i <= j <= trees.len(),
    ensures
        #[trigger] models(trees.subrange(i, j)) == models(trees).subrange(i, j),
{
    broadcast use lemma_models;

    assert(models(trees.subrange(i, j)) =~= models(trees).subrange(i, j));
}

impl View for TokenTree {
    type V = TreeView;

    open spec fn view(&self) -> TreeView {
        self.model()
    }
}

impl View for Subtree {
    type V = SubtreeView;

    open spec fn view(&self) -> SubtreeView {
        self.model()
    }
}

/// The kind of an optional delimiter.
pub open spec fn delimiter_kind(delimiter: Option<Delimiter>) -> Option<DelimiterKind> {
    match delimiter {
        Some(it) => Some(it.kind),
        None => None,
    }
}

impl Subtree {
    pub fn delimiter_kind(&self) -> (r: Option<DelimiterKind>)
        ensures
            r == delimiter_kind(self@.delimiter),
    {
        match &self.delimiter {
            Some(it) => Some(it.kind),
            None => None,
        }
    }
}

impl Default for Subtree {
    /// The empty subtree without delimiter.
    fn default() -> (r: Self)
        ensures
            r@ == (SubtreeView { delimiter: None, token_trees: Seq::empty() }),
    {
        let r = Subtree { delimiter: None, token_trees: Vec::new() };
        proof {
            assert(models(r.token_trees@) =~= Seq::empty());
        }
        r
    }
}

impl Clone for Ident {
    fn clone(&self) -> (r: Self)
        ensures
            r@ == self@,
    {
        Ident { text: self.text.clone(), id: self.id }
    }
}

impl Clone for Literal {
    fn clone(&self) -> (r: Self)
        ensures
            r@ == self@,
    {
        Literal { text: self.text.clone(), id: self.id }
    }
}

impl Clone for Leaf {
    fn clone(&self) -> (r: Self)
        ensures
            r@ == self@,
    {
        match self {
            Leaf::Literal(it) => Leaf::Literal(it.clone()),
            Leaf::Punct(it) => Leaf::Punct(*it),
            Leaf::Ident(it) => Leaf::Ident(it.clone()),
        }
    }
}

impl Clone for TokenTree {
    fn clone(&self) -> (r: Self)
        ensures
            r@ == self@,
        decreases self,
    {
        match self {
            TokenTree::Leaf(it) => TokenTree::Leaf(it.clone()),
            TokenTree::Subtree(it) => TokenTree::Subtree(it.clone()),
        }
    }
}

impl Clone for Subtree {
    fn clone(&self) -> (r: Self)
        ensures
            r@ == self@,
        decreases self,
    {
        broadcast use {lemma_models, lemma_models_push};

        let mut token_trees: Vec<TokenTree> = Vec::new();
        let n: usize = self.token_trees.len();
        let mut i: usize = 0;
        while i < n
            invariant
                n == self.token_trees@.len(),
                i <= n,
                models(token_trees@) == models(self.token_trees@).take(i as int),
            decreases n - i,
        {
            let next = self.token_trees[i].clone();
            token_trees.push(next);
            proof {
                let all = models(self.token_trees@);
                assert(all.take(i + 1) =~= all.take(i as int).push(all[i as int]));
            }
            i += 1;
        }
        proof {
            assert(models(self.token_trees@).take(n as int) =~= models(self.token_trees@));
        }
        Subtree { delimiter: self.delimiter, token_trees }
    }
}

} // verus!
