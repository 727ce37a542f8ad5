//! Inner nodes: a kind, the cached length of the text, and the children
//! with their cached offsets, behind a shared handle; and the walk over the
//! children of a node.

use vstd::prelude::*;
use vstd::std_specs::cmp::{PartialEqSpec, PartialEqSpecImpl};
use std::sync::Arc;
use crate::element::{forest_of, GreenElement, GreenElementRef, NodeOrToken};
use crate::kind::SyntaxKind;
use crate::cache::has_other_holder;
use crate::shared::{handles, share};
use crate::text::{TextRange, TextSize};
use crate::token::GreenToken;
use crate::tree::{lemma_ending_by, lemma_forest_len_prefix, lemma_forest_len_step, Tree};

verus! {

/// A child in its parent's array, with the offset at which its text begins
/// within the parent's text.
#[derive(Debug, Hash)]
enum GreenChild {
    Node { offset_in_parent: TextSize, node: GreenNode },
    Token { offset_in_parent: TextSize, token: GreenToken },
}

/// What a node holds: its kind, the length of its text, and its children.
#[derive(Debug, Hash)]
pub struct GreenNodeData {
    kind: SyntaxKind,
    text_len: TextSize,
    children: Vec<GreenChild>,
}

/// An inner node of the tree: a shared handle on a [`GreenNodeData`].
#[derive(Debug, Hash)]
pub struct GreenNode {
    data: Arc<GreenNodeData>,
}

impl GreenChild {
    spec fn tree(self) -> Tree
        decreases self,
    {
        match self {
            GreenChild::Node { node, .. } => node.tree(),
            GreenChild::Token { token, .. } => token@,
        }
    }

    spec fn element(self) -> GreenElementRef<'static> {
        match self {
            GreenChild::Node { node, .. } => NodeOrToken::Node(&node),
            GreenChild::Token { token, .. } => NodeOrToken::Token(&token),
        }
    }

    spec fn offset(self) -> TextSize {
        match self {
            GreenChild::Node { offset_in_parent, .. } => offset_in_parent,
            GreenChild::Token { offset_in_parent, .. } => offset_in_parent,
        }
    }
}

/// The trees that the children in `slots` stand for, in order.
spec fn slot_trees(slots: Seq<GreenChild>) -> Seq<Tree>
    decreases slots,
{
    Seq::new(
        slots.len(),
        |i: int|
            if 0 <= i < slots.len() {
                slots[i].tree()
            } else {
                arbitrary()
            },
    )
}

/// Each offset in `slots` is the length of the text before that child, and
/// `text_len` is the length of the text of all of them.
spec fn offsets_add_up(text_len: TextSize, slots: Seq<GreenChild>) -> bool {
    &&& text_len.raw == Tree::forest_len(slot_trees(slots))
    &&& forall|i: int|
        0 <= i < slots.len() ==> (#[trigger] slots[i]).offset().raw == Tree::forest_len(
            slot_trees(slots).take(i),
        )
}

impl GreenNodeData {
    spec fn tree(self) -> Tree
        decreases self,
    {
        Tree::Node { kind: self.kind, children: slot_trees(self.children@) }
    }

    /// The offsets and the length that the node caches are the sums that
    /// its children give.
    #[verifier::type_invariant]
    pub closed spec fn well_formed(self) -> bool {
        offsets_add_up(self.text_len, self.children@)
    }
}

impl GreenNode {
    spec fn tree(self) -> Tree
        decreases self,
    {
        self.data.tree()
    }
}

impl View for GreenNodeData {
    type V = Tree;

    open spec fn view(&self) -> Tree {
        Tree::Node { kind: self.spec_kind(), children: self.spec_children() }
    }
}

impl View for GreenNode {
    type V = Tree;

    open spec fn view(&self) -> Tree {
        self.spec_data()@
    }
}

impl GreenNodeData {
    /// The kind, as contracts speak of it.
    pub closed spec fn spec_kind(&self) -> SyntaxKind {
        self.kind
    }

    /// The trees of the children, in order.
    pub closed spec fn spec_children(self) -> Seq<Tree> {
        slot_trees(self.children@)
    }

    /// The length of text that the node has cached for itself.
    pub closed spec fn spec_text_len(self) -> nat {
        self.text_len.raw as nat
    }

    /// The offsets that the node has cached for its children, in order.
    pub closed spec fn spec_offsets(self) -> Seq<nat> {
        Seq::new(self.children@.len(), |i: int| self.children@[i].offset().raw as nat)
    }

    /// What a well-formed node has cached is what its children give: the
    /// offset of each child is the length of the text of the children
    /// before it, and the length of the node is the length of the text of
    /// all its children, which is 0 where it has none.
    pub proof fn lemma_offsets(self)
        requires
            self.well_formed(),
        ensures
            self.spec_offsets().len() == self.spec_children().len(),
            forall|i: int|
                0 <= i < self.spec_children().len() ==> #[trigger] self.spec_offsets()[i]
                    == Tree::forest_len(self.spec_children().take(i)),
            self.spec_text_len() == Tree::forest_len(self.spec_children()),
            self.spec_text_len() == self@.text_len(),
            self.spec_children().len() == 0 ==> self.spec_text_len() == 0,
    {
        assert forall|i: int| 0 <= i < self.spec_children().len() implies
            #[trigger] self.spec_offsets()[i] == Tree::forest_len(self.spec_children().take(i)) by {
            assert(self.children@[i].offset().raw == Tree::forest_len(
                slot_trees(self.children@).take(i),
            ));
        }
    }

    /// Kind of this node.
    #[verifier::when_used_as_spec(spec_kind)]
    pub fn kind(&self) -> (kind: SyntaxKind)
        ensures
            kind == self.spec_kind(),
    {
        self.kind
    }

    /// Returns the length of the text covered by this node.
    pub fn text_len(&self) -> (len: TextSize)
        ensures
            len.raw == self@.text_len(),
            len.raw == self.spec_text_len(),
    {
        proof {
            use_type_invariant(self);
        }
        self.text_len
    }
}

impl GreenChild {
    /// The element in this slot, borrowed.
    fn as_ref(&self) -> (element: GreenElementRef<'_>)
        ensures
            element == self.element(),
            element.tree() == self.tree(),
    {
        match self {
            GreenChild::Node { node, .. } => NodeOrToken::Node(node),
            GreenChild::Token { token, .. } => NodeOrToken::Token(token),
        }
    }

    /// The offset of this child's text within its parent's text.
    fn offset_in_parent(&self) -> (offset: TextSize)
        ensures
            offset == self.offset(),
    {
        match self {
            GreenChild::Node { offset_in_parent, .. } => *offset_in_parent,
            GreenChild::Token { offset_in_parent, .. } => *offset_in_parent,
        }
    }

    /// The span of this child's text within its parent's text.
    fn range_in_parent(&self) -> (range: TextRange)
        requires
            self.offset().raw + self.tree().text_len() <= u32::MAX,
        ensures
            range.start() == self.offset(),
            range.end().raw == self.offset().raw + self.tree().text_len(),
    {
        let len = self.as_ref().text_len();
        TextRange::at(self.offset_in_parent(), len)
    }
}

impl GreenNodeData {
    /// What the invariant says of the child at `index`: where it begins and
    /// that it ends within the node's text.
    proof fn lemma_slot(self, index: int)
        requires
            self.well_formed(),
            0 <= index < self.children.len(),
        ensures
            self.spec_children().len() == self.children.len(),
            self.spec_children()[index] == self.children[index].tree(),
            self.children[index].offset().raw == Tree::start_of(self.spec_children(), index),
            self.children[index].offset().raw + self.children[index].tree().text_len()
                == Tree::end_of(self.spec_children(), index),
            Tree::end_of(self.spec_children(), index) <= self.text_len.raw,
    {
        let trees = self.spec_children();
        lemma_forest_len_step(trees, index);
        lemma_forest_len_prefix(trees, index + 1);
    }

    /// Children of this node.
    pub fn children(&self) -> (children: Children<'_>)
        ensures
            children@ == self.spec_children(),
    {
        proof {
            assert(slot_trees(self.children@).subrange(0, self.children.len() as int)
                =~= slot_trees(self.children@));
        }
        Children { slots: &self.children, front: 0, back: self.children.len() }
    }

    /// The child that is asked for the text in `range`, with its index and
    /// the offset at which it begins: the child that [`Tree::slot_for`]
    /// names. There is one if and only if some child covers `range`.
    pub fn child_at_range(&self, range: TextRange) -> (found: Option<
        (usize, TextSize, GreenElementRef<'_>),
    >)
        ensures
            match found {
                Some((index, offset, element)) => {
                    &&& Tree::slot_for(
                        self.spec_children(),
                        range.start().raw as nat,
                        range.end().raw as nat,
                    ) == Some(index as int)
                    &&& offset.raw == Tree::start_of(self.spec_children(), index as int)
                    &&& element.tree() == self.spec_children()[index as int]
                },
                None => Tree::slot_for(
                    self.spec_children(),
                    range.start().raw as nat,
                    range.end().raw as nat,
                ) is None,
            },
    {
        proof {
            use_type_invariant(self);
        }
        let ghost trees = self.spec_children();
        let start = range.start();
        let end = range.end();
        let count = self.children.len();
        let mut low: usize = 0;
        let mut high: usize = count;
        while low < high
            invariant
                self.well_formed(),
                trees == self.spec_children(),
                count == self.children.len(),
                low <= high <= count,
                Tree::forest_len(trees.take(low as int)) <= start.raw,
                high < count ==> Tree::forest_len(trees.take(high + 1)) > start.raw,
            decreases high - low,
        {
            let middle = low + (high - low) / 2;
            proof {
                self.lemma_slot(middle as int);
            }
            let span = self.children[middle].range_in_parent();
            if span.end().raw <= start.raw {
                low = middle + 1;
            } else {
                high = middle;
            }
        }
        proof {
            lemma_ending_by(trees, start.raw as nat, low as int);
        }
        let slot = if low == 0 {
            low
        } else if low < count {
            proof {
                self.lemma_slot(low as int);
            }
            if self.children[low].offset_in_parent().raw < end.raw {
                low
            } else {
                low - 1
            }
        } else {
            low - 1
        };
        if slot < count {
            proof {
                self.lemma_slot(slot as int);
            }
            let child = &self.children[slot];
            if child.range_in_parent().contains_range(range) {
                return Some((slot, child.offset_in_parent(), child.as_ref()));
            }
        }
        None
    }

    /// A new node that has `new_child` where this node has its child at
    /// `index`, and this node's other children, shared with it. Where this
    /// node has no child at `index`, the new node has the same children.
    pub fn replace_child(&self, index: usize, new_child: GreenElement) -> (node: GreenNode)
        requires
            index < self.spec_children().len() ==> Tree::forest_len(
                self.spec_children().update(index as int, new_child.tree()),
            ) <= u32::MAX,
        ensures
            node@ == (Tree::Node {
                kind: self.spec_kind(),
                children: if index < self.spec_children().len() {
                    self.spec_children().update(index as int, new_child.tree())
                } else {
                    self.spec_children()
                },
            }),
    {
        proof {
            use_type_invariant(self);
        }
        let ghost trees = self.spec_children();
        let ghost wanted = if index < trees.len() {
            trees.update(index as int, new_child.tree())
        } else {
            trees
        };
        let count = self.children.len();
        let mut replacement = Some(new_child);
        let mut children: Vec<GreenElement> = Vec::with_capacity(count);
        let mut i: usize = 0;
        while i < count
            invariant
                trees == self.spec_children(),
                count == self.children.len(),
                count == trees.len(),
                wanted.len() == trees.len(),
                i <= count,
                children.len() == i,
                forall|j: int| 0 <= j < i ==> (#[trigger] children[j]).tree() == wanted[j],
                i <= index ==> replacement.is_some(),
                index < count && replacement.is_some() ==> wanted[index as int]
                    == replacement.unwrap().tree(),
                forall|j: int| 0 <= j < count && j != index ==> wanted[j] == trees[j],
            decreases count - i,
        {
            let child = if i == index {
                replacement.take().unwrap()
            } else {
                self.children[i].as_ref().cloned()
            };
            children.push(child);
            i = i + 1;
        }
        proof {
            assert(forest_of(children@) =~= wanted);
        }
        GreenNode::new(self.kind, children)
    }
}

/// Whether `result` can come of folding `elements` into `init` with `f`,
/// from the first element to the last.
pub open spec fn folds<'a, Acc, Fold: Fn(Acc, GreenElementRef<'a>) -> Acc>(
    f: Fold,
    init: Acc,
    elements: Seq<GreenElementRef<'a>>,
    result: Acc,
) -> bool
    decreases elements.len(),
{
    if elements.len() == 0 {
        result == init
    } else {
        exists|next: Acc| #[trigger]
            f.ensures((init, elements.first()), next) && folds(
                f,
                next,
                elements.drop_first(),
                result,
            )
    }
}

/// A walk over the children of a node, from either end.
#[derive(Debug)]
pub struct Children<'a> {
    slots: &'a Vec<GreenChild>,
    front: usize,
    back: usize,
}

impl<'a> Clone for Children<'a> {
    /// A second walk that stands where this one stands.
    fn clone(&self) -> (copy: Children<'a>)
        ensures
            copy == *self,
    {
        proof {
            use_type_invariant(self);
        }
        Children { slots: self.slots, front: self.front, back: self.back }
    }
}

impl<'a> View for Children<'a> {
    type V = Seq<Tree>;

    /// The trees of the children that the walk has not yet met, in order.
    closed spec fn view(&self) -> Seq<Tree> {
        slot_trees(self.slots@).subrange(self.front as int, self.back as int)
    }
}

impl<'a> Children<'a> {
    /// The walk lies within the children of its node.
    #[verifier::type_invariant]
    pub closed spec fn in_bounds(self) -> bool {
        self.front <= self.back <= self.slots.len()
    }

    /// The children that the walk has not yet met, in order, as the walk
    /// hands them out.
    pub closed spec fn spec_elements(self) -> Seq<GreenElementRef<'a>> {
        Seq::new(
            (self.back - self.front) as nat,
            |i: int| self.slots@[self.front + i].element(),
        )
    }

    /// The trees of the elements are the trees of the walk.
    pub proof fn lemma_elements(self)
        requires
            self.in_bounds(),
        ensures
            self.spec_elements().len() == self@.len(),
            forall|i: int|
                0 <= i < self@.len() ==> (#[trigger] self.spec_elements()[i]).tree() == self@[i],
    {
    }

    /// One step of a fold: where `f` can make `next` of `init` and the
    /// first element, what can come of folding the rest into `next` can
    /// come of folding all into `init`.
    pub proof fn lemma_folds_step<Acc, Fold: Fn(Acc, GreenElementRef<'a>) -> Acc>(
        f: Fold,
        init: Acc,
        elements: Seq<GreenElementRef<'a>>,
        next: Acc,
        result: Acc,
    )
        requires
            elements.len() > 0,
            f.ensures((init, elements.first()), next),
            folds(f, next, elements.drop_first(), result),
        ensures
            folds(f, init, elements, result),
    {
    }

    /// Folds the children that are left into `init`, from the front.
    pub fn fold<Acc, Fold: Fn(Acc, GreenElementRef<'a>) -> Acc>(self, init: Acc, f: Fold) -> (result:
        Acc)
        requires
            forall|acc: Acc, i: int|
                0 <= i < self.spec_elements().len() ==> f.requires((acc, self.spec_elements()[i])),
        ensures
            folds(f, init, self.spec_elements(), result),
    {
        let mut rest = self;
        let mut accum = init;
        while rest.len() > 0
            invariant
                forall|acc: Acc, i: int|
                    0 <= i < rest.spec_elements().len() ==> f.requires(
                        (acc, rest.spec_elements()[i]),
                    ),
                forall|result: Acc| #[trigger]
                    folds(f, accum, rest.spec_elements(), result) ==> folds(
                        f,
                        init,
                        self.spec_elements(),
                        result,
                    ),
            decreases rest@.len(),
        {
            let ghost before = rest.spec_elements();
            let ghost earlier = accum;
            proof {
                use_type_invariant(&rest);
                rest.lemma_elements();
                assert(f.requires((accum, before[0])));
            }
            let x = rest.next().unwrap();
            proof {
                assert forall|acc: Acc, i: int|
                    0 <= i < rest.spec_elements().len() implies f.requires(
                    (acc, rest.spec_elements()[i]),
                ) by {
                    assert(rest.spec_elements()[i] == before[i + 1]);
                }
            }
            accum = f(accum, x);
            proof {
                assert(f.ensures((earlier, before.first()), accum));
                assert forall|result: Acc| #[trigger]
                    folds(f, accum, rest.spec_elements(), result) implies folds(
                    f,
                    earlier,
                    before,
                    result,
                ) by {
                    Self::lemma_folds_step(f, earlier, before, accum, result);
                }
            }
        }
        proof {
            use_type_invariant(&rest);
            rest.lemma_elements();
            assert(folds(f, accum, rest.spec_elements(), accum));
        }
        accum
    }

    /// Folds the children that are left into `init`, from the back.
    pub fn rfold<Acc, Fold: Fn(Acc, GreenElementRef<'a>) -> Acc>(self, init: Acc, f: Fold) -> (result:
        Acc)
        requires
            forall|acc: Acc, i: int|
                0 <= i < self.spec_elements().len() ==> f.requires((acc, self.spec_elements()[i])),
        ensures
            folds(f, init, self.spec_elements().reverse(), result),
    {
        let mut rest = self;
        let mut accum = init;
        while rest.len() > 0
            invariant
                forall|acc: Acc, i: int|
                    0 <= i < rest.spec_elements().len() ==> f.requires(
                        (acc, rest.spec_elements()[i]),
                    ),
                forall|result: Acc| #[trigger]
                    folds(f, accum, rest.spec_elements().reverse(), result) ==> folds(
                        f,
                        init,
                        self.spec_elements().reverse(),
                        result,
                    ),
            decreases rest@.len(),
        {
            let ghost before = rest.spec_elements();
            let ghost earlier = accum;
            proof {
                use_type_invariant(&rest);
                rest.lemma_elements();
                assert(f.requires((accum, before[before.len() - 1])));
            }
            let x = rest.next_back().unwrap();
            proof {
                assert forall|acc: Acc, i: int|
                    0 <= i < rest.spec_elements().len() implies f.requires(
                    (acc, rest.spec_elements()[i]),
                ) by {
                    assert(rest.spec_elements()[i] == before[i]);
                }
            }
            accum = f(accum, x);
            proof {
                assert(before.reverse().first() == before.last());
                assert(before.reverse().drop_first() =~= before.drop_last().reverse());
                assert forall|result: Acc| #[trigger]
                    folds(f, accum, rest.spec_elements().reverse(), result) implies folds(
                    f,
                    earlier,
                    before.reverse(),
                    result,
                ) by {
                    Self::lemma_folds_step(f, earlier, before.reverse(), accum, result);
                }
            }
        }
        proof {
            use_type_invariant(&rest);
            rest.lemma_elements();
            assert(folds(f, accum, rest.spec_elements().reverse(), accum));
        }
        accum
    }

    /// The number of children that the walk has not yet met.
    pub fn len(&self) -> (len: usize)
        ensures
            len == self@.len(),
    {
        proof {
            use_type_invariant(self);
        }
        self.back - self.front
    }

    /// The next child from the front.
    pub fn next(&mut self) -> (element: Option<GreenElementRef<'a>>)
        ensures
            match element {
                Some(child) => {
                    &&& old(self)@.len() > 0
                    &&& child.tree() == old(self)@.first()
                    &&& final(self)@ == old(self)@.drop_first()
                    &&& child == old(self).spec_elements().first()
                    &&& final(self).spec_elements() == old(self).spec_elements().drop_first()
                },
                None => old(self)@.len() == 0 && final(self)@ == old(self)@,
            },
    {
        proof {
            use_type_invariant(&*self);
        }
        if self.front < self.back {
            let slots: &'a Vec<GreenChild> = self.slots;
            let child = slots[self.front].as_ref();
            self.front = self.front + 1;
            proof {
                assert(self@ =~= old(self)@.drop_first());
                assert(self.spec_elements() =~= old(self).spec_elements().drop_first());
            }
            Some(child)
        } else {
            None
        }
    }

    /// The next child from the back.
    pub fn next_back(&mut self) -> (element: Option<GreenElementRef<'a>>)
        ensures
            match element {
                Some(child) => {
                    &&& old(self)@.len() > 0
                    &&& child.tree() == old(self)@.last()
                    &&& final(self)@ == old(self)@.drop_last()
                    &&& child == old(self).spec_elements().last()
                    &&& final(self).spec_elements() == old(self).spec_elements().drop_last()
                },
                None => old(self)@.len() == 0 && final(self)@ == old(self)@,
            },
    {
        proof {
            use_type_invariant(&*self);
        }
        if self.front < self.back {
            let slots: &'a Vec<GreenChild> = self.slots;
            self.back = self.back - 1;
            let child = slots[self.back].as_ref();
            proof {
                assert(self@ =~= old(self)@.drop_last());
                assert(self.spec_elements() =~= old(self).spec_elements().drop_last());
            }
            Some(child)
        } else {
            None
        }
    }

    /// The child `n` places from the front; the walk goes on behind it.
    /// Where fewer are left, there is none and the walk is at its end.
    pub fn nth(&mut self, n: usize) -> (element: Option<GreenElementRef<'a>>)
        ensures
            match element {
                Some(child) => {
                    &&& n < old(self)@.len()
                    &&& child.tree() == old(self)@[n as int]
                    &&& final(self)@ == old(self)@.skip(n + 1)
                    &&& child == old(self).spec_elements()[n as int]
                    &&& final(self).spec_elements() == old(self).spec_elements().skip(n + 1)
                },
                None => n >= old(self)@.len() && final(self)@ == Seq::<Tree>::empty(),
            },
    {
        proof {
            use_type_invariant(&*self);
        }
        if n < self.back - self.front {
            let slots: &'a Vec<GreenChild> = self.slots;
            let at = self.front + n;
            let child = slots[at].as_ref();
            self.front = at + 1;
            proof {
                assert(self@ =~= old(self)@.skip(n + 1));
                assert(self.spec_elements() =~= old(self).spec_elements().skip(n + 1));
            }
            Some(child)
        } else {
            self.front = self.back;
            proof {
                assert(self@ =~= Seq::<Tree>::empty());
            }
            None
        }
    }

    /// The child `n` places from the back; the walk goes on before it.
    /// Where fewer are left, there is none and the walk is at its end.
    pub fn nth_back(&mut self, n: usize) -> (element: Option<GreenElementRef<'a>>)
        ensures
            match element {
                Some(child) => {
                    &&& n < old(self)@.len()
                    &&& child.tree() == old(self)@[old(self)@.len() - 1 - n]
                    &&& final(self)@ == old(self)@.take(old(self)@.len() - 1 - n)
                    &&& child == old(self).spec_elements()[old(self)@.len() - 1 - n]
                    &&& final(self).spec_elements() == old(self).spec_elements().take(
                        old(self)@.len() - 1 - n,
                    )
                },
                None => n >= old(self)@.len() && final(self)@ == Seq::<Tree>::empty(),
            },
    {
        proof {
            use_type_invariant(&*self);
        }
        if n < self.back - self.front {
            let slots: &'a Vec<GreenChild> = self.slots;
            let at = self.back - 1 - n;
            let child = slots[at].as_ref();
            self.back = at;
            proof {
                assert(self@ =~= old(self)@.take(old(self)@.len() - 1 - n));
                assert(self.spec_elements() =~= old(self).spec_elements().take(
                    old(self)@.len() - 1 - n,
                ));
            }
            Some(child)
        } else {
            self.back = self.front;
            proof {
                assert(self@ =~= Seq::<Tree>::empty());
            }
            None
        }
    }

    /// The last child that the walk would meet.
    pub fn last(self) -> (element: Option<GreenElementRef<'a>>)
        ensures
            match element {
                Some(child) => {
                    &&& self@.len() > 0
                    &&& child.tree() == self@.last()
                    &&& child == self.spec_elements().last()
                },
                None => self@.len() == 0,
            },
    {
        let mut rest = self;
        rest.next_back()
    }

    /// The number of children that the walk would meet.
    pub fn count(self) -> (count: usize)
        ensures
            count == self@.len(),
    {
        self.len()
    }

    /// The bounds on the number of children left, which are both that
    /// number.
    pub fn size_hint(&self) -> (bounds: (usize, Option<usize>))
        ensures
            bounds.0 == self@.len(),
            bounds.1 == Some(self@.len() as usize),
    {
        let len = self.len();
        (len, Some(len))
    }
}

impl std::ops::Deref for GreenNode {
    type Target = GreenNodeData;

    fn deref(&self) -> (data: &GreenNodeData)
        ensures
            *data == self.spec_data(),
    {
        &*self.data
    }
}

/// Whether two nodes stand for the same tree: the same kind, and children
/// that are pairwise the same.
fn same_tree(left: &GreenNodeData, right: &GreenNodeData) -> (same: bool)
    ensures
        same == (left@ == right@),
    decreases left,
{
    if left.kind != right.kind || left.children.len() != right.children.len() {
        proof {
            if left@ == right@ {
                assert(slot_trees(left.children@).len() == slot_trees(right.children@).len());
            }
        }
        return false;
    }
    let mut i: usize = 0;
    while i < left.children.len()
        invariant
            left.kind == right.kind,
            left.children.len() == right.children.len(),
            i <= left.children.len(),
            forall|j: int| 0 <= j < i ==> left.children[j].tree() == right.children[j].tree(),
        decreases left.children.len() - i,
    {
        let same = match (&left.children[i], &right.children[i]) {
            (GreenChild::Node { node: l, .. }, GreenChild::Node { node: r, .. }) => same_tree(
                &l.data,
                &r.data,
            ),
            (GreenChild::Token { token: l, .. }, GreenChild::Token { token: r, .. }) => l == r,
            _ => false,
        };
        if !same {
            proof {
                let k = i as int;
                assert(slot_trees(left.children@)[k] == left.children[k].tree());
                assert(slot_trees(right.children@)[k] == right.children[k].tree());
            }
            return false;
        }
        i = i + 1;
    }
    proof {
        assert(slot_trees(left.children@) =~= slot_trees(right.children@));
    }
    true
}

/// Nodes that were built alike compare equal: where two nodes have the
/// same kind and children with the same trees, `==` finds them equal.
pub proof fn lemma_equal_builds_compare_equal(
    first: GreenNode,
    second: GreenNode,
    kind: SyntaxKind,
    left: Seq<GreenElement>,
    right: Seq<GreenElement>,
)
    requires
        first@ == (Tree::Node { kind, children: forest_of(left) }),
        second@ == (Tree::Node { kind, children: forest_of(right) }),
        forest_of(left) == forest_of(right),
    ensures
        PartialEqSpec::eq_spec(&first, &second),
{
}

impl PartialEq for GreenNode {
    fn eq(&self, other: &GreenNode) -> (equal: bool) {
        same_tree(&self.data, &other.data)
    }
}

impl PartialEqSpecImpl for GreenNode {
    open spec fn obeys_eq_spec() -> bool {
        true
    }

    open spec fn eq_spec(&self, other: &GreenNode) -> bool {
        self@ == other@
    }
}

impl Eq for GreenNode {}

impl Clone for GreenNode {
    /// A second handle on the same node.
    fn clone(&self) -> (node: GreenNode)
        ensures
            node == *self,
    {
        GreenNode { data: share(&self.data) }
    }
}

impl GreenNode {
    /// What the handle points to.
    pub closed spec fn spec_data(self) -> GreenNodeData {
        *self.data
    }

    /// Creates new Node.
    pub fn new(kind: SyntaxKind, children: Vec<GreenElement>) -> (node: GreenNode)
        requires
            Tree::forest_len(forest_of(children@)) <= u32::MAX,
        ensures
            node@ == (Tree::Node { kind, children: forest_of(children@) }),
            node.spec_data().well_formed(),
    {
        let ghost forest = forest_of(children@);
        let mut text_len: u32 = 0;
        let mut slots: Vec<GreenChild> = Vec::with_capacity(children.len());
        for element in it: children
            invariant
                forest == forest_of(children@),
                Tree::forest_len(forest) <= u32::MAX,
                it.seq() == children@,
                slots.len() == it.index(),
                text_len == Tree::forest_len(forest.take(it.index() as int)),
                forall|j: int|
                    0 <= j < slots.len() ==> (#[trigger] slots[j]).tree() == forest[j],
                forall|j: int|
                    0 <= j < slots.len() ==> (#[trigger] slots[j]).offset().raw
                        == Tree::forest_len(forest.take(j)),
        {
            proof {
                lemma_forest_len_step(forest, it.index() as int);
                lemma_forest_len_prefix(forest, it.index() + 1);
            }
            let offset_in_parent = TextSize { raw: text_len };
            let len = element.text_len();
            text_len = text_len + len.raw;
            let slot = match element {
                NodeOrToken::Node(node) => GreenChild::Node { offset_in_parent, node },
                NodeOrToken::Token(token) => GreenChild::Token { offset_in_parent, token },
            };
            slots.push(slot);
        }
        proof {
            assert(forest.take(forest.len() as int) =~= forest);
            assert(slot_trees(slots@) =~= forest);
        }
        let data = GreenNodeData { kind, text_len: TextSize { raw: text_len }, children: slots };
        GreenNode { data: Arc::new(data) }
    }

    /// The number of handles on this node that are alive, the cache's own
    /// among them.
    pub fn strong_count(&self) -> usize {
        handles(&self.data)
    }

    /// Whether a handle besides the one asked keeps this node alive.
    pub(crate) fn held_elsewhere(&self) -> bool {
        has_other_holder(self.strong_count())
    }
}

} // verus!
