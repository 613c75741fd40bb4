//! A cursor that walks a run of token trees token by token.
//!
//! A leaf is one step. A subtree is a step in, the steps of what it holds, and
//! a step out.
use crate::tt::{lemma_models, models, TokenTree, TreeView};
use vstd::prelude::*;

verus! {

/// How many steps it takes to walk past a tree.
pub open spec fn tree_steps(tree: TreeView) -> nat
    decreases tree,
{
    match tree {
        TreeView::Leaf(_) => 1,
        TreeView::Subtree(it) => 2 + steps(it.token_trees),
    }
}

/// How many steps it takes to walk past a run of trees.
pub open spec fn steps(trees: Seq<TreeView>) -> nat
    decreases trees,
{
    if trees.len() == 0 {
        0
    } else {
        tree_steps(trees[0]) + steps(trees.drop_first())
    }
}

/// How many whole trees lie behind a walk of `n` steps from the start of
/// `trees`; `None` if the walk stops inside a subtree. A walk does not leave
/// the end of `trees`.
pub open spec fn landing(trees: Seq<TreeView>, n: nat) -> Option<nat>
    decreases trees.len(),
{
    if n == 0 || trees.len() == 0 {
        Some(0)
    } else if n < tree_steps(trees[0]) {
        None
    } else {
        match landing(trees.drop_first(), (n - tree_steps(trees[0])) as nat) {
            Some(i) => Some(i + 1),
            None => None,
        }
    }
}

/// A position in a run of trees.
pub struct FrameView {
    pub trees: Seq<TreeView>,
    pub pos: nat,
}

/// `outer` stands before the subtree that `inner` walks.
pub open spec fn encloses(outer: FrameView, inner: FrameView) -> bool {
    &&& outer.pos < outer.trees.len()
    &&& outer.trees[outer.pos as int] matches TreeView::Subtree(it) && it.token_trees
        == inner.trees
}

/// Each frame but the first walks a subtree of the frame before it.
pub open spec fn frames_wf(frames: Seq<FrameView>) -> bool {
    &&& frames.len() >= 1
    &&& forall|k: int| 0 <= k < frames.len() ==> (#[trigger] frames[k]).pos <= frames[k].trees.len()
    &&& forall|k: int, l: int|
        #![trigger frames[k], frames[l]]
        0 <= k && l == k + 1 && l < frames.len() ==> encloses(frames[k], frames[l])
}

/// How many steps lead from the start to the position.
pub open spec fn offset(frames: Seq<FrameView>) -> nat
    decreases frames.len(),
{
    if frames.len() == 0 {
        0
    } else {
        steps(frames[0].trees.take(frames[0].pos as int)) + if frames.len() > 1 {
            1 + offset(frames.drop_first())
        } else {
            0
        }
    }
}

pub(crate) proof fn lemma_steps_take(trees: Seq<TreeView>, i: int)
    requires
        0 <= i < trees.len(),
    ensures
        steps(trees.take(i + 1)) == steps(trees.take(i)) + tree_steps(trees[i]),
    decreases trees.len(),
{
    if i == 0 {
        assert(trees.take(0) =~= Seq::empty());
        assert(trees.take(1).drop_first() =~= Seq::empty());
        assert(steps(Seq::<TreeView>::empty()) == 0);
    } else {
        lemma_steps_take(trees.drop_first(), i - 1);
        assert(trees.take(i + 1).drop_first() =~= trees.drop_first().take(i));
        assert(trees.take(i).drop_first() =~= trees.drop_first().take(i - 1));
    }
}

proof fn lemma_steps_monotone(trees: Seq<TreeView>, i: int, j: int)
    requires
        0 <= i <= j <= trees.len(),
    ensures
        steps(trees.take(i)) <= steps(trees.take(j)),
    decreases j - i,
{
    if i < j {
        lemma_steps_monotone(trees, i, j - 1);
        lemma_steps_take(trees, j - 1);
    }
}

/// A walk that is `d` steps past the first `i` trees lands behind these, or
/// inside the next tree.
pub proof fn lemma_landing(trees: Seq<TreeView>, i: int, d: nat)
    requires
        0 <= i <= trees.len(),
        i < trees.len() ==> d < tree_steps(trees[i]),
        i == trees.len() ==> d == 0,
    ensures
        landing(trees, steps(trees.take(i)) + d) == if d == 0 {
            Some(i as nat)
        } else {
            None
        },
    decreases trees.len(),
{
    if i > 0 {
        assert(trees.take(i).drop_first() =~= trees.drop_first().take(i - 1));
        lemma_landing(trees.drop_first(), i - 1, d);
    } else {
        assert(trees.take(0) =~= Seq::empty());
    }
}

/// No more trees lie behind a walk than there are.
pub proof fn lemma_landing_bound(trees: Seq<TreeView>, n: nat)
    ensures
        landing(trees, n) matches Some(i) ==> i <= trees.len(),
    decreases trees.len(),
{
    if n > 0 && trees.len() > 0 && n >= tree_steps(trees[0]) {
        lemma_landing_bound(trees.drop_first(), (n - tree_steps(trees[0])) as nat);
    }
}

/// Walking on at the end changes nothing.
pub proof fn lemma_landing_past_end(trees: Seq<TreeView>, n: nat)
    requires
        n >= steps(trees),
    ensures
        landing(trees, n) == Some(trees.len()),
    decreases trees.len(),
{
    if trees.len() > 0 {
        lemma_landing_past_end(trees.drop_first(), (n - tree_steps(trees[0])) as nat);
    }
}

proof fn lemma_offset_push(frames: Seq<FrameView>, last: FrameView)
    requires
        frames.len() >= 1,
    ensures
        offset(frames.push(last)) == offset(frames) + 1 + steps(last.trees.take(last.pos as int)),
    decreases frames.len(),
{
    let pushed = frames.push(last);
    assert(pushed.drop_first() =~= frames.drop_first().push(last));
    if frames.len() > 1 {
        lemma_offset_push(frames.drop_first(), last);
    } else {
        assert(frames.drop_first().push(last) =~= seq![last]);
        assert(offset(seq![last]) == steps(last.trees.take(last.pos as int)));
    }
}

proof fn lemma_offset_bound(frames: Seq<FrameView>)
    requires
        frames_wf(frames),
    ensures
        offset(frames) <= steps(frames[0].trees),
        frames.len() > 1 ==> {
            &&& steps(frames[0].trees.take(frames[0].pos as int)) < offset(frames)
            &&& offset(frames) < steps(frames[0].trees.take(frames[0].pos as int)) + tree_steps(
                frames[0].trees[frames[0].pos as int],
            )
        },
    decreases frames.len(),
{
    let outer = frames[0];
    assert(outer.trees.take(outer.trees.len() as int) =~= outer.trees);
    if frames.len() > 1 {
        let inner = frames.drop_first();
        assert(frames_wf(inner)) by {
            assert forall|k: int| 0 <= k < inner.len() implies (#[trigger] inner[k]).pos
                <= inner[k].trees.len() by {
                assert(inner[k] == frames[k + 1]);
            }
            assert forall|k: int, l: int|
                #![trigger inner[k], inner[l]]
                0 <= k && l == k + 1 && l < inner.len() implies encloses(inner[k], inner[l]) by {
                assert(inner[k] == frames[k + 1] && inner[l] == frames[l + 1]);
            }
        }
        lemma_offset_bound(inner);
        assert(frames[1] == inner[0]);
        lemma_steps_take(outer.trees, outer.pos as int);
        lemma_steps_monotone(outer.trees, outer.pos as int + 1, outer.trees.len() as int);
    } else {
        lemma_steps_monotone(outer.trees, outer.pos as int, outer.trees.len() as int);
    }
}

/// Moving the last frame past a tree adds the steps of that tree.
proof fn lemma_advance(frames: Seq<FrameView>)
    requires
        frames_wf(frames),
        frames.last().pos < frames.last().trees.len(),
    ensures
        ({
            let last = frames.last();
            let next = frames.drop_last().push(
                FrameView { trees: last.trees, pos: last.pos + 1 },
            );
            &&& frames_wf(next)
            &&& next[0].trees == frames[0].trees
            &&& offset(next) == offset(frames) + tree_steps(last.trees[last.pos as int])
            &&& offset(frames) < steps(frames[0].trees)
        }),
{
    let outer = frames.drop_last();
    let last = frames.last();
    let moved = FrameView { trees: last.trees, pos: last.pos + 1 };
    let next = outer.push(moved);
    assert(outer.push(last) =~= frames);
    lemma_steps_take(last.trees, last.pos as int);
    if outer.len() > 0 {
        lemma_offset_push(outer, last);
        lemma_offset_push(outer, moved);
    }
    assert(frames_wf(next)) by {
        assert forall|k: int| 0 <= k < next.len() implies (#[trigger] next[k]).pos
            <= next[k].trees.len() by {
            assert(k < outer.len() ==> next[k] == frames[k]);
        }
        assert forall|k: int, l: int|
            #![trigger next[k], next[l]]
            0 <= k && l == k + 1 && l < next.len() implies encloses(next[k], next[l]) by {
            assert(next[k] == frames[k]);
            assert(next[l].trees == frames[l].trees);
        }
    }
    lemma_offset_bound(next);
}

/// Stepping into the subtree before which the last frame stands.
proof fn lemma_enter(frames: Seq<FrameView>, inner: FrameView)
    requires
        frames_wf(frames),
        encloses(frames.last(), inner),
        inner.pos == 0,
    ensures
        frames_wf(frames.push(inner)),
        offset(frames) < steps(frames[0].trees),
{
    let next = frames.push(inner);
    assert forall|k: int| 0 <= k < next.len() implies (#[trigger] next[k]).pos
        <= next[k].trees.len() by {
        assert(k < frames.len() ==> next[k] == frames[k]);
    }
    assert forall|k: int, l: int|
        #![trigger next[k], next[l]]
        0 <= k && l == k + 1 && l < next.len() implies encloses(next[k], next[l]) by {
        assert(next[k] == frames[k]);
        assert(l < frames.len() ==> next[l] == frames[l]);
    }
    lemma_advance(frames);
}

/// What a walk that is in a subtree can step out to.
proof fn lemma_leave(frames: Seq<FrameView>)
    requires
        frames_wf(frames),
        frames.len() > 1,
    ensures
        ({
            let outer = frames.drop_last();
            &&& frames_wf(outer)
            &&& encloses(outer.last(), frames.last())
        }),
        offset(frames) < steps(frames[0].trees),
{
    let outer = frames.drop_last();
    let n = frames.len() as int;
    assert(frames[n - 2] == outer[n - 2] && frames[n - 1] == frames.last());
    assert forall|k: int| 0 <= k < outer.len() implies (#[trigger] outer[k]).pos
        <= outer[k].trees.len() by {
        assert(outer[k] == frames[k]);
    }
    assert forall|k: int, l: int|
        #![trigger outer[k], outer[l]]
        0 <= k && l == k + 1 && l < outer.len() implies encloses(outer[k], outer[l]) by {
        assert(outer[k] == frames[k] && outer[l] == frames[l]);
    }
    lemma_offset_bound(frames);
    assert(frames[1].pos <= frames[1].trees.len());
    let root = frames[0];
    lemma_steps_take(root.trees, root.pos as int);
    lemma_steps_monotone(root.trees, root.pos as int + 1, root.trees.len() as int);
    assert(root.trees.take(root.trees.len() as int) =~= root.trees);
}

#[derive(Clone, Copy)]
struct Frame<'a> {
    trees: &'a [TokenTree],
    pos: usize,
}

/// A position in a run of token trees: one frame for the run, and one more for
/// each subtree that the walk is in.
pub struct Cursor<'a> {
    frames: Vec<Frame<'a>>,
}

impl<'a> Frame<'a> {
    spec fn model(self) -> FrameView {
        FrameView { trees: models(self.trees@), pos: self.pos as nat }
    }
}

impl<'a> Cursor<'a> {
    /// The frames, outermost first.
    pub closed spec fn frames(self) -> Seq<FrameView> {
        Seq::new(self.frames@.len(), |k: int| self.frames@[k].model())
    }

    pub open spec fn wf(self) -> bool {
        frames_wf(self.frames())
    }

    /// The run of trees that the cursor walks.
    pub open spec fn trees(self) -> Seq<TreeView> {
        self.frames()[0].trees
    }

    /// How many steps the cursor is from the start.
    pub open spec fn offset(self) -> nat {
        offset(self.frames())
    }

    /// A cursor at the start of `trees`.
    pub fn begin(trees: &'a [TokenTree]) -> (r: Self)
        ensures
            r.wf(),
            r.trees() == models(trees@),
            r.offset() == 0,
    {
        let mut frames: Vec<Frame<'a>> = Vec::new();
        frames.push(Frame { trees, pos: 0 });
        let r = Cursor { frames };
        proof {
            assert(r.frames()[0].trees.take(0) =~= Seq::empty());
        }
        r
    }

    /// Whether the cursor is outside of every subtree.
    pub fn is_root(&self) -> (r: bool)
        requires
            self.wf(),
        ensures
            r == (landing(self.trees(), self.offset()) is Some),
    {
        proof {
            self.lemma_landing();
        }
        self.frames.len() == 1
    }

    /// How many whole trees lie behind a cursor that is outside of every
    /// subtree.
    pub fn index(&self) -> (r: usize)
        requires
            self.wf(),
            landing(self.trees(), self.offset()) is Some,
        ensures
            landing(self.trees(), self.offset()) == Some(r as nat),
            r <= self.trees().len(),
    {
        proof {
            self.lemma_landing();
            assert(self.frames()[0] == self.frames@[0].model());
        }
        self.frames[0].pos
    }

    /// One step on: past a leaf, into a subtree, or out of one. At the end the
    /// cursor stays.
    pub fn bump_subtree(&mut self)
        requires
            old(self).wf(),
        ensures
            final(self).wf(),
            final(self).trees() == old(self).trees(),
            final(self).offset() == if old(self).offset() < steps(old(self).trees()) {
                old(self).offset() + 1
            } else {
                old(self).offset()
            },
    {
        broadcast use lemma_models;

        let ghost before = self.frames();
        let n: usize = self.frames.len();
        let top: Frame<'a> = self.frames[n - 1];
        proof {
            assert(before[n - 1] == top.model());
            assert(before.drop_last().push(before.last()) =~= before);
        }
        if top.pos < top.trees.len() {
            match &top.trees[top.pos] {
                TokenTree::Leaf(_) => {
                    let next: Frame<'a> = Frame { trees: top.trees, pos: top.pos + 1 };
                    self.frames.set(n - 1, next);
                    proof {
                        assert(self.frames() =~= before.drop_last().push(next.model()));
                        lemma_advance(before);
                        assert(top.model().trees[top.pos as int] is Leaf);
                    }
                },
                TokenTree::Subtree(it) => {
                    let next: Frame<'a> = Frame { trees: it.token_trees.as_slice(), pos: 0 };
                    self.frames.push(next);
                    proof {
                        assert(self.frames() =~= before.push(next.model()));
                        assert(next.model().trees.take(0) =~= Seq::empty());
                        lemma_offset_push(before, next.model());
                        lemma_enter(before, next.model());
                    }
                },
            }
        } else if n > 1 {
            let parent: Frame<'a> = self.frames[n - 2];
            proof {
                assert(before[n - 2] == parent.model());
                lemma_leave(before);
                assert(before.drop_last().last() == parent.model());
                assert(parent.pos < parent.trees.len());
            }
            self.frames.pop();
            let next: Frame<'a> = Frame { trees: parent.trees, pos: parent.pos + 1 };
            self.frames.set(n - 2, next);
            proof {
                let outer = before.drop_last();
                assert(self.frames() =~= outer.drop_last().push(next.model()));
                lemma_advance(outer);
                lemma_offset_push(outer, before.last());
                assert(top.model().trees.take(top.pos as int) =~= top.model().trees);
            }
        } else {
            proof {
                assert(self.frames() =~= before);
                assert(top.model().trees.take(top.pos as int) =~= top.model().trees);
            }
        }
    }

    proof fn lemma_landing(&self)
        requires
            self.wf(),
        ensures
            landing(self.trees(), self.offset()) == if self.frames().len() == 1 {
                Some(self.frames()[0].pos)
            } else {
                None
            },
    {
        let frames = self.frames();
        lemma_offset_bound(frames);
        if frames.len() > 1 {
            assert(frames[0].pos < frames[0].trees.len()) by {
                assert(frames[1].pos <= frames[1].trees.len());
            }
        }
        let past = steps(frames[0].trees.take(frames[0].pos as int));
        lemma_landing(frames[0].trees, frames[0].pos as int, (offset(frames) - past) as nat);
    }
}

} // verus!
