//! The mathematical model of a green tree, and what follows from it: how
//! lengths and fragments add up, and which child a span of text belongs to.

use vstd::prelude::*;
use crate::kind::SyntaxKind;
use crate::text::utf8_len;

verus! {

/// What a green tree is, as a mathematical value: a leaf with its text, or a
/// node with its children in order. Sharing, reference counts and cached
/// lengths are not part of it.
pub ghost enum Tree {
    Node { kind: SyntaxKind, children: Seq<Tree> },
    Token { kind: SyntaxKind, text: Seq<char> },
}

impl Tree {
    pub open spec fn kind(self) -> SyntaxKind {
        match self {
            Tree::Node { kind, .. } => kind,
            Tree::Token { kind, .. } => kind,
        }
    }

    /// The children of a node; a token has none.
    pub open spec fn children(self) -> Seq<Tree> {
        match self {
            Tree::Node { children, .. } => children,
            Tree::Token { .. } => Seq::empty(),
        }
    }

    /// The bytes of text that the tree covers: for a token the length of its
    /// text in UTF-8, for a node the sum over its children.
    pub open spec fn text_len(self) -> nat
        decreases self,
    {
        match self {
            Tree::Token { text, .. } => utf8_len(text),
            Tree::Node { children, .. } => Tree::forest_len(children),
        }
    }

    /// The sum of the text lengths of `trees`.
    pub open spec fn forest_len(trees: Seq<Tree>) -> nat
        decreases trees,
    {
        if trees.len() == 0 {
            0
        } else {
            Tree::forest_len(trees.drop_last()) + trees.last().text_len()
        }
    }

    /// The offset within a forest's text at which the tree at `index`
    /// begins: the length of the trees before it.
    pub open spec fn start_of(trees: Seq<Tree>, index: int) -> nat {
        Tree::forest_len(trees.take(index))
    }

    /// The offset within a forest's text just behind the tree at `index`.
    pub open spec fn end_of(trees: Seq<Tree>, index: int) -> nat {
        Tree::forest_len(trees.take(index + 1))
    }

    /// Whether the tree at `index` spans the text from `start` to `end`,
    /// its own bounds included.
    pub open spec fn covers(trees: Seq<Tree>, index: int, start: nat, end: nat) -> bool {
        &&& 0 <= index < trees.len()
        &&& Tree::start_of(trees, index) <= start
        &&& end <= Tree::end_of(trees, index)
    }

    /// How many trees at the front of a forest end at or before `offset`:
    /// the longest part from the start whose text is no longer than
    /// `offset`.
    pub open spec fn ending_by(trees: Seq<Tree>, offset: nat) -> nat
        decreases trees.len(),
    {
        if trees.len() == 0 || Tree::forest_len(trees) <= offset {
            trees.len()
        } else {
            Tree::ending_by(trees.drop_last(), offset)
        }
    }

    /// The one tree of a forest that is asked for the text from `start` to
    /// `end`, where `start <= end`.
    ///
    /// It is the first tree that reaches beyond `start`, if that tree
    /// begins before `end` or is the first of all; else the tree before it,
    /// the last that ends at or before `start`. That tree is the answer if
    /// it covers the text asked for; if it does not, there is none.
    pub open spec fn slot_for(trees: Seq<Tree>, start: nat, end: nat) -> Option<int> {
        let before = Tree::ending_by(trees, start) as int;
        let slot = if before == 0 || (before < trees.len() && Tree::start_of(trees, before)
            < end) {
            before
        } else {
            before - 1
        };
        if Tree::covers(trees, slot, start, end) {
            Some(slot)
        } else {
            None
        }
    }

    /// The texts of the tokens of the tree, in the order in which a
    /// depth-first walk from the left meets them.
    pub open spec fn fragments(self) -> Seq<Seq<char>>
        decreases self,
    {
        match self {
            Tree::Token { text, .. } => seq![text],
            Tree::Node { children, .. } => Tree::forest_fragments(children),
        }
    }

    /// The fragments of `trees`, one tree after the other.
    pub open spec fn forest_fragments(trees: Seq<Tree>) -> Seq<Seq<char>>
        decreases trees,
    {
        if trees.len() == 0 {
            Seq::empty()
        } else {
            Tree::forest_fragments(trees.drop_last()) + trees.last().fragments()
        }
    }

    /// The bytes that `fragments` take in UTF-8, added up.
    pub open spec fn fragments_len(fragments: Seq<Seq<char>>) -> nat
        decreases fragments.len(),
    {
        if fragments.len() == 0 {
            0
        } else {
            Tree::fragments_len(fragments.drop_last()) + utf8_len(fragments.last())
        }
    }

    /// The nodes among `trees`, in order, without the tokens.
    pub open spec fn nodes_among(trees: Seq<Tree>) -> Seq<Tree>
        decreases trees.len(),
    {
        if trees.len() == 0 {
            Seq::empty()
        } else if trees.last() is Node {
            Tree::nodes_among(trees.drop_last()).push(trees.last())
        } else {
            Tree::nodes_among(trees.drop_last())
        }
    }

    /// The number of nodes and tokens in the tree.
    pub open spec fn size(self) -> nat
        decreases self,
    {
        match self {
            Tree::Token { .. } => 1,
            Tree::Node { children, .. } => 1 + Tree::forest_size(children),
        }
    }

    /// The sizes of `trees`, added up.
    pub open spec fn forest_size(trees: Seq<Tree>) -> nat
        decreases trees,
    {
        if trees.len() == 0 {
            0
        } else {
            Tree::forest_size(trees.drop_last()) + trees.last().size()
        }
    }
}

/// The length of a forest with one more tree at its end.
pub proof fn lemma_forest_len_push(trees: Seq<Tree>, tree: Tree)
    ensures
        Tree::forest_len(trees.push(tree)) == Tree::forest_len(trees) + tree.text_len(),
{
    assert(trees.push(tree).drop_last() =~= trees);
}

/// The length of the first `n + 1` trees of a forest is that of the first
/// `n` and of the next one.
pub proof fn lemma_forest_len_step(trees: Seq<Tree>, n: int)
    requires
        0 <= n < trees.len(),
    ensures
        Tree::forest_len(trees.take(n + 1)) == Tree::forest_len(trees.take(n))
            + trees[n].text_len(),
{
    assert(trees.take(n + 1) =~= trees.take(n).push(trees[n]));
    lemma_forest_len_push(trees.take(n), trees[n]);
}

/// A part of a forest from its start is no longer than the whole.
pub proof fn lemma_forest_len_prefix(trees: Seq<Tree>, n: int)
    requires
        0 <= n <= trees.len(),
    ensures
        Tree::forest_len(trees.take(n)) <= Tree::forest_len(trees),
    decreases trees.len() - n,
{
    if n == trees.len() {
        assert(trees.take(n) =~= trees);
    } else {
        lemma_forest_len_step(trees, n);
        lemma_forest_len_prefix(trees, n + 1);
    }
}

/// The lengths of the parts of a forest from its start grow with the parts.
pub proof fn lemma_forest_len_monotone(trees: Seq<Tree>, m: int, n: int)
    requires
        0 <= m <= n <= trees.len(),
    ensures
        Tree::forest_len(trees.take(m)) <= Tree::forest_len(trees.take(n)),
{
    assert(trees.take(n).take(m) =~= trees.take(m));
    lemma_forest_len_prefix(trees.take(n), m);
}

/// `ending_by` is the one count `m` for which the first `m` trees fit in
/// `offset` and one more tree does not.
pub proof fn lemma_ending_by(trees: Seq<Tree>, offset: nat, m: int)
    requires
        0 <= m <= trees.len(),
        Tree::forest_len(trees.take(m)) <= offset,
        m < trees.len() ==> Tree::forest_len(trees.take(m + 1)) > offset,
    ensures
        Tree::ending_by(trees, offset) == m,
    decreases trees.len(),
{
    if trees.len() == 0 {
    } else if m == trees.len() {
        assert(trees.take(m) =~= trees);
    } else {
        lemma_forest_len_monotone(trees, m + 1, trees.len() as int);
        assert(trees.take(trees.len() as int) =~= trees);
        assert(trees.drop_last().take(m) =~= trees.take(m));
        if m < trees.len() - 1 {
            assert(trees.drop_last().take(m + 1) =~= trees.take(m + 1));
        }
        lemma_ending_by(trees.drop_last(), offset, m);
    }
}

/// The size of a forest with one more tree at its end.
pub proof fn lemma_forest_size_push(trees: Seq<Tree>, tree: Tree)
    ensures
        Tree::forest_size(trees.push(tree)) == Tree::forest_size(trees) + tree.size(),
{
    assert(trees.push(tree).drop_last() =~= trees);
}

/// The size of two forests, one after the other, is the sum of theirs.
pub proof fn lemma_forest_size_concat(front: Seq<Tree>, back: Seq<Tree>)
    ensures
        Tree::forest_size(front + back) == Tree::forest_size(front) + Tree::forest_size(back),
    decreases back.len(),
{
    if back.len() == 0 {
        assert(front + back =~= front);
    } else {
        assert((front + back).drop_last() =~= front + back.drop_last());
        lemma_forest_size_concat(front, back.drop_last());
    }
}

/// The nodes among the trees of a forest are no larger than the forest.
pub proof fn lemma_nodes_among_size(trees: Seq<Tree>)
    ensures
        Tree::forest_size(Tree::nodes_among(trees)) <= Tree::forest_size(trees),
    decreases trees.len(),
{
    if trees.len() > 0 {
        lemma_nodes_among_size(trees.drop_last());
        lemma_forest_size_push(Tree::nodes_among(trees.drop_last()), trees.last());
    }
}

/// The length of two forests, one after the other, is the sum of theirs.
pub proof fn lemma_forest_len_concat(front: Seq<Tree>, back: Seq<Tree>)
    ensures
        Tree::forest_len(front + back) == Tree::forest_len(front) + Tree::forest_len(back),
    decreases back.len(),
{
    if back.len() == 0 {
        assert(front + back =~= front);
    } else {
        assert((front + back).drop_last() =~= front + back.drop_last());
        lemma_forest_len_concat(front, back.drop_last());
    }
}

/// The fragments of a forest with one more tree at its end.
pub proof fn lemma_forest_fragments_push(trees: Seq<Tree>, tree: Tree)
    ensures
        Tree::forest_fragments(trees.push(tree)) == Tree::forest_fragments(trees)
            + tree.fragments(),
{
    assert(trees.push(tree).drop_last() =~= trees);
}

/// The fragments of two forests, one after the other, are those of the
/// first and then those of the second.
pub proof fn lemma_forest_fragments_concat(front: Seq<Tree>, back: Seq<Tree>)
    ensures
        Tree::forest_fragments(front + back) == Tree::forest_fragments(front)
            + Tree::forest_fragments(back),
    decreases back.len(),
{
    if back.len() == 0 {
        assert(front + back =~= front);
        assert(Tree::forest_fragments(front) + Seq::<Seq<char>>::empty()
            =~= Tree::forest_fragments(front));
    } else {
        assert((front + back).drop_last() =~= front + back.drop_last());
        lemma_forest_fragments_concat(front, back.drop_last());
        assert((Tree::forest_fragments(front) + Tree::forest_fragments(back.drop_last()))
            + back.last().fragments() =~= Tree::forest_fragments(front) + (Tree::forest_fragments(
            back.drop_last(),
        ) + back.last().fragments()));
    }
}

/// `ending_by` names the longest part of a forest from its start that fits
/// in `offset`: that part fits, and no longer part does.
pub proof fn lemma_ending_by_is_longest(trees: Seq<Tree>, offset: nat)
    ensures
        Tree::ending_by(trees, offset) <= trees.len(),
        Tree::forest_len(trees.take(Tree::ending_by(trees, offset) as int)) <= offset,
        forall|m: int|
            Tree::ending_by(trees, offset) < m <= trees.len() ==> Tree::forest_len(
                #[trigger] trees.take(m),
            ) > offset,
    decreases trees.len(),
{
    if trees.len() == 0 || Tree::forest_len(trees) <= offset {
        assert(trees.take(trees.len() as int) =~= trees);
    } else {
        let shorter = trees.drop_last();
        let k = Tree::ending_by(shorter, offset) as int;
        lemma_ending_by_is_longest(shorter, offset);
        assert(shorter.take(k) =~= trees.take(k));
        assert forall|m: int| k < m <= trees.len() implies Tree::forest_len(
            #[trigger] trees.take(m),
        ) > offset by {
            if m == trees.len() {
                assert(trees.take(m) =~= trees);
            } else {
                assert(shorter.take(m) =~= trees.take(m));
            }
        }
    }
}

/// Where some tree of a forest covers the text from `start` to `end`,
/// `slot_for` names a tree, and one that covers it.
pub proof fn lemma_slot_for_finds(trees: Seq<Tree>, start: nat, end: nat, index: int)
    requires
        start <= end,
        Tree::covers(trees, index, start, end),
    ensures
        Tree::slot_for(trees, start, end) matches Some(slot) && Tree::covers(
            trees,
            slot,
            start,
            end,
        ),
{
    let before = Tree::ending_by(trees, start) as int;
    lemma_ending_by_is_longest(trees, start);
    lemma_forest_len_monotone(trees, index, index + 1);
    if Tree::end_of(trees, index) <= start {
        assert(index + 1 <= before);
        if before < trees.len() {
            lemma_forest_len_monotone(trees, before, before + 1);
            assert(Tree::forest_len(trees.take(before + 1)) > start);
        } else {
            lemma_forest_len_monotone(trees, index + 1, before);
        }
        lemma_forest_len_monotone(trees, before - 1, before);
    } else {
        assert(index == before) by {
            if index < before {
                lemma_forest_len_monotone(trees, index + 1, before);
            }
        }
        if before > 0 {
            lemma_forest_len_monotone(trees, before - 1, before);
        }
    }
}

/// Text that is not empty lies within one tree at most: where a tree
/// covers the text from `start` to `end` and `start < end`, `slot_for`
/// names that tree.
pub proof fn lemma_slot_for_unique(trees: Seq<Tree>, start: nat, end: nat, index: int)
    requires
        start < end,
        Tree::covers(trees, index, start, end),
    ensures
        Tree::slot_for(trees, start, end) == Some(index),
{
    let before = Tree::ending_by(trees, start) as int;
    lemma_ending_by_is_longest(trees, start);
    assert(index == before) by {
        if index < before {
            lemma_forest_len_monotone(trees, index + 1, before);
        }
    }
}

/// An empty text at the seam between two trees belongs to the tree
/// before the seam: where the tree at `index` ends at `offset` and the
/// next one, if there is one, reaches beyond it, `slot_for` names the tree
/// at `index` for the empty text at `offset`.
pub proof fn lemma_slot_for_seam(trees: Seq<Tree>, offset: nat, index: int)
    requires
        0 <= index < trees.len(),
        Tree::end_of(trees, index) == offset,
        index + 1 < trees.len() ==> Tree::end_of(trees, index + 1) > offset,
    ensures
        Tree::slot_for(trees, offset, offset) == Some(index),
{
    lemma_ending_by(trees, offset, index + 1);
    lemma_forest_len_monotone(trees, index, index + 1);
}

/// The length of a forest in which one tree was replaced is the length of
/// the first, less the old tree's length, plus the new tree's.
pub proof fn lemma_forest_len_update(trees: Seq<Tree>, index: int, tree: Tree)
    requires
        0 <= index < trees.len(),
    ensures
        Tree::forest_len(trees.update(index, tree)) + trees[index].text_len() == Tree::forest_len(
            trees,
        ) + tree.text_len(),
{
    let front = trees.take(index);
    let back = trees.skip(index + 1);
    assert(trees =~= front.push(trees[index]) + back);
    assert(trees.update(index, tree) =~= front.push(tree) + back);
    lemma_forest_len_concat(front.push(trees[index]), back);
    lemma_forest_len_concat(front.push(tree), back);
    lemma_forest_len_push(front, trees[index]);
    lemma_forest_len_push(front, tree);
}

/// A forest in which one tree was replaced differs from the first at that
/// place alone.
pub proof fn lemma_update_keeps_others(trees: Seq<Tree>, index: int, tree: Tree)
    requires
        0 <= index < trees.len(),
    ensures
        trees.update(index, tree).len() == trees.len(),
        trees.update(index, tree)[index] == tree,
        forall|other: int|
            0 <= other < trees.len() && other != index ==> trees.update(index, tree)[other]
                == trees[other],
{
}

/// The bytes of two runs of fragments, one after the other, are the sum of
/// theirs.
pub proof fn lemma_fragments_len_concat(front: Seq<Seq<char>>, back: Seq<Seq<char>>)
    ensures
        Tree::fragments_len(front + back) == Tree::fragments_len(front) + Tree::fragments_len(
            back,
        ),
    decreases back.len(),
{
    if back.len() == 0 {
        assert(front + back =~= front);
    } else {
        assert((front + back).drop_last() =~= front + back.drop_last());
        lemma_fragments_len_concat(front, back.drop_last());
    }
}

/// The length of a tree is the length of its text: the bytes of the texts
/// of its tokens, added up.
pub proof fn lemma_text_len_is_fragments_len(tree: Tree)
    ensures
        tree.text_len() == Tree::fragments_len(tree.fragments()),
    decreases tree,
{
    match tree {
        Tree::Token { text, .. } => {
            assert(tree.fragments() =~= seq![text]);
            assert(seq![text].drop_last() =~= Seq::<Seq<char>>::empty());
            assert(Tree::fragments_len(seq![text].drop_last()) == 0);
        },
        Tree::Node { children, .. } => {
            lemma_forest_len_is_fragments_len(children);
        },
    }
}

/// The length of a forest is the length of its text.
pub proof fn lemma_forest_len_is_fragments_len(trees: Seq<Tree>)
    ensures
        Tree::forest_len(trees) == Tree::fragments_len(Tree::forest_fragments(trees)),
    decreases trees,
{
    if trees.len() > 0 {
        lemma_forest_len_is_fragments_len(trees.drop_last());
        lemma_text_len_is_fragments_len(trees.last());
        lemma_fragments_len_concat(
            Tree::forest_fragments(trees.drop_last()),
            trees.last().fragments(),
        );
    }
}

} // verus!
