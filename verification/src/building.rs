//! The mathematical model of a build: what is pending, which nodes are
//! open, what each call makes of that, and what holds of every run of
//! calls.

use vstd::prelude::*;
use crate::kind::SyntaxKind;
use crate::text::utf8_len;
use crate::tree::{
    lemma_forest_fragments_concat, lemma_forest_fragments_push, lemma_forest_len_concat,
    lemma_forest_len_push, Tree,
};

verus! {

/// A node that was opened and not yet closed: its kind, and how many
/// elements were pending when it began.
pub ghost struct Frame {
    pub kind: SyntaxKind,
    pub first_child: nat,
}

/// What a builder has been told so far, as a mathematical value: the
/// finished elements that wait for a parent, and the nodes that are open,
/// the innermost last.
pub ghost struct Building {
    pub pending: Seq<Tree>,
    pub open: Seq<Frame>,
}

impl Building {
    /// Nothing pending, nothing open.
    pub open spec fn empty() -> Building {
        Building { pending: Seq::empty(), open: Seq::empty() }
    }

    /// Each open node begins no earlier than the one around it, none
    /// begins behind the end of what is pending, and the text of what is
    /// pending is no longer than a [`TextSize`](crate::TextSize) can count.
    pub open spec fn well_formed(self) -> bool {
        &&& self.text_len() <= u32::MAX
        &&& forall|i: int, j: int|
            0 <= i <= j < self.open.len() ==> self.open[i].first_child
                <= self.open[j].first_child
        &&& forall|i: int|
            0 <= i < self.open.len() ==> (#[trigger] self.open[i]).first_child
                <= self.pending.len()
    }

    /// The length of the text of all that is pending.
    pub open spec fn text_len(self) -> nat {
        Tree::forest_len(self.pending)
    }

    /// The texts of the tokens that were added, in the order in which they
    /// were added.
    pub open spec fn fragments(self) -> Seq<Seq<char>> {
        Tree::forest_fragments(self.pending)
    }

    /// A token is added at the end.
    pub open spec fn token(self, kind: SyntaxKind, text: Seq<char>) -> Building {
        Building { pending: self.pending.push(Tree::Token { kind, text }), open: self.open }
    }

    /// A node is opened that begins behind all that is pending.
    pub open spec fn start_node(self, kind: SyntaxKind) -> Building {
        self.start_node_at(self.checkpoint(), kind)
    }

    /// The mark that stands for "behind all that is pending now".
    pub open spec fn checkpoint(self) -> nat {
        self.pending.len()
    }

    /// Whether a node may still be opened at `checkpoint`: nothing before
    /// the mark has been taken away since, and the mark does not lie
    /// before the start of the innermost open node.
    pub open spec fn accepts(self, checkpoint: nat) -> bool {
        &&& checkpoint <= self.pending.len()
        &&& self.open.len() > 0 ==> self.open.last().first_child <= checkpoint
    }

    /// A node is opened that begins at `checkpoint`, before all that was
    /// added since the mark was taken.
    pub open spec fn start_node_at(self, checkpoint: nat, kind: SyntaxKind) -> Building {
        Building { pending: self.pending, open: self.open.push(Frame { kind, first_child: checkpoint }) }
    }

    /// Whether a node is open.
    pub open spec fn can_finish_node(self) -> bool {
        self.open.len() > 0
    }

    /// The node that closing the innermost open node makes: all that is
    /// pending from the node's start on, in order.
    pub open spec fn closing(self) -> Tree {
        Tree::Node {
            kind: self.open.last().kind,
            children: self.pending.skip(self.open.last().first_child as int),
        }
    }

    /// The innermost open node is closed: what was pending from its start
    /// on becomes its children, and it is pending in their place.
    pub open spec fn finish_node(self) -> Building {
        Building {
            pending: self.pending.take(self.open.last().first_child as int).push(self.closing()),
            open: self.open.drop_last(),
        }
    }

    /// Whether exactly one element is pending, and that one a node.
    pub open spec fn can_finish(self) -> bool {
        self.pending.len() == 1 && self.pending[0] is Node
    }

    /// The root: the one element that is pending.
    pub open spec fn finish(self) -> Tree {
        self.pending[0]
    }

    /// Adding a token whose text still fits keeps the state well formed,
    /// and adds the token's text to the fragments.
    pub proof fn lemma_token(self, kind: SyntaxKind, text: Seq<char>)
        requires
            self.well_formed(),
            self.text_len() + utf8_len(text) <= u32::MAX,
        ensures
            self.token(kind, text).well_formed(),
            self.token(kind, text).text_len() == self.text_len() + utf8_len(text),
            self.token(kind, text).fragments() == self.fragments().push(text),
    {
        let token = Tree::Token { kind, text };
        lemma_forest_len_push(self.pending, token);
        lemma_forest_fragments_push(self.pending, token);
        assert(token.fragments() =~= seq![text]);
        assert(self.fragments() + seq![text] =~= self.fragments().push(text));
    }

    /// Opening a node at a mark that the state accepts keeps the state
    /// well formed, and leaves the text as it is.
    pub proof fn lemma_start_node_at(self, checkpoint: nat, kind: SyntaxKind)
        requires
            self.well_formed(),
            self.accepts(checkpoint),
        ensures
            self.start_node_at(checkpoint, kind).well_formed(),
            self.start_node_at(checkpoint, kind).fragments() == self.fragments(),
    {
    }

    /// Closing the innermost open node keeps the state well formed, and
    /// leaves the text as it is: its length and its fragments.
    pub proof fn lemma_finish_node(self)
        requires
            self.well_formed(),
            self.can_finish_node(),
        ensures
            self.finish_node().well_formed(),
            self.finish_node().text_len() == self.text_len(),
            self.finish_node().fragments() == self.fragments(),
    {
        let first = self.open.last().first_child as int;
        let front = self.pending.take(first);
        let back = self.pending.skip(first);
        assert(self.pending =~= front + back);
        lemma_forest_len_concat(front, back);
        lemma_forest_len_push(front, self.closing());
        lemma_forest_fragments_concat(front, back);
        lemma_forest_fragments_push(front, self.closing());
        assert(self.closing().fragments() == Tree::forest_fragments(back));
        assert forall|i: int| 0 <= i < self.open.len() - 1 implies (
        #[trigger] self.finish_node().open[i]).first_child <= first by {
            assert(self.open[i].first_child <= self.open[self.open.len() - 1].first_child);
        }
    }
}

/// One call on a builder, as a mathematical value.
pub ghost enum Step {
    Token { kind: SyntaxKind, text: Seq<char> },
    StartNode { kind: SyntaxKind },
    StartNodeAt { checkpoint: nat, kind: SyntaxKind },
    FinishNode,
}

impl Building {
    /// Whether `step` may be taken in this state.
    pub open spec fn allows(self, step: Step) -> bool {
        match step {
            Step::Token { text, .. } => self.text_len() + utf8_len(text) <= u32::MAX,
            Step::StartNode { .. } => true,
            Step::StartNodeAt { checkpoint, .. } => self.accepts(checkpoint),
            Step::FinishNode => self.can_finish_node(),
        }
    }

    /// The state after `step`.
    pub open spec fn step(self, step: Step) -> Building {
        match step {
            Step::Token { kind, text } => self.token(kind, text),
            Step::StartNode { kind } => self.start_node(kind),
            Step::StartNodeAt { checkpoint, kind } => self.start_node_at(checkpoint, kind),
            Step::FinishNode => self.finish_node(),
        }
    }

    /// Whether `steps` may be taken one after the other, from this state.
    pub open spec fn allows_all(self, steps: Seq<Step>) -> bool
        decreases steps.len(),
    {
        steps.len() == 0 || (self.allows(steps.first()) && self.step(steps.first()).allows_all(
            steps.drop_first(),
        ))
    }

    /// The state after `steps`, taken one after the other.
    pub open spec fn run(self, steps: Seq<Step>) -> Building
        decreases steps.len(),
    {
        if steps.len() == 0 {
            self
        } else {
            self.step(steps.first()).run(steps.drop_first())
        }
    }

    /// A step that the state allows keeps it well formed, and adds to the
    /// fragments the text of the token, if the step is one.
    pub proof fn lemma_step(self, step: Step)
        requires
            self.well_formed(),
            self.allows(step),
        ensures
            self.step(step).well_formed(),
            self.step(step).fragments() == self.fragments() + texts_of(seq![step]),
    {
        assert(seq![step].drop_first() =~= Seq::<Step>::empty());
        assert(texts_of(seq![step].drop_first()) =~= Seq::<Seq<char>>::empty());
        match step {
            Step::Token { kind, text } => {
                self.lemma_token(kind, text);
                assert(self.fragments().push(text) =~= self.fragments() + seq![text]);
                assert(texts_of(seq![step]) =~= seq![text]);
            },
            Step::StartNode { kind } => {
                self.lemma_start_node_at(self.checkpoint(), kind);
                assert(texts_of(seq![step]) =~= Seq::<Seq<char>>::empty());
                assert(self.fragments() + Seq::<Seq<char>>::empty() =~= self.fragments());
            },
            Step::StartNodeAt { checkpoint, kind } => {
                self.lemma_start_node_at(checkpoint, kind);
                assert(texts_of(seq![step]) =~= Seq::<Seq<char>>::empty());
                assert(self.fragments() + Seq::<Seq<char>>::empty() =~= self.fragments());
            },
            Step::FinishNode => {
                self.lemma_finish_node();
                assert(texts_of(seq![step]) =~= Seq::<Seq<char>>::empty());
                assert(self.fragments() + Seq::<Seq<char>>::empty() =~= self.fragments());
            },
        }
    }

    /// Steps that the state allows keep it well formed, and add to the
    /// fragments the texts of their tokens, in order.
    pub proof fn lemma_run(self, steps: Seq<Step>)
        requires
            self.well_formed(),
            self.allows_all(steps),
        ensures
            self.run(steps).well_formed(),
            self.run(steps).fragments() == self.fragments() + texts_of(steps),
        decreases steps.len(),
    {
        if steps.len() == 0 {
            assert(self.fragments() + texts_of(steps) =~= self.fragments());
        } else {
            let first = steps.first();
            let next = self.step(first);
            self.lemma_step(first);
            next.lemma_run(steps.drop_first());
            assert(seq![first].drop_first() =~= Seq::<Step>::empty());
            assert(texts_of(seq![first].drop_first()) =~= Seq::<Seq<char>>::empty());
            assert(texts_of(seq![first]) + texts_of(steps.drop_first()) =~= texts_of(steps));
            assert((self.fragments() + texts_of(seq![first])) + texts_of(steps.drop_first())
                =~= self.fragments() + (texts_of(seq![first]) + texts_of(steps.drop_first())));
        }
    }

    /// The text comes back as it went in: where steps from the empty
    /// state end in a complete tree, the texts of the tree's tokens, read
    /// from the left, are the texts that the steps gave, in their order.
    pub proof fn lemma_round_trip(steps: Seq<Step>)
        requires
            Building::empty().allows_all(steps),
            Building::empty().run(steps).can_finish(),
        ensures
            Building::empty().run(steps).finish().fragments() == texts_of(steps),
    {
        let start = Building::empty();
        let end = start.run(steps);
        start.lemma_run(steps);
        assert(start.fragments() + texts_of(steps) =~= texts_of(steps));
        assert(end.pending.drop_last() =~= Seq::<Tree>::empty());
        assert(Seq::<Seq<char>>::empty() + end.finish().fragments() =~= end.finish().fragments());
    }

    /// A node opened at a mark wraps what was added since the mark was
    /// taken, all of it and nothing before it: where `added` came behind
    /// what was pending at the mark, and no node that was opened since is
    /// still open, opening a node at the mark and closing it leaves the
    /// elements from before the mark as they were, followed by one node
    /// whose children are `added`.
    pub proof fn lemma_checkpoint_wraps(self, added: Seq<Tree>, kind: SyntaxKind)
        requires
            self.well_formed(),
        ensures
            ({
                let later = Building { pending: self.pending + added, open: self.open };
                let wrapped = later.start_node_at(self.checkpoint(), kind).finish_node();
                &&& later.accepts(self.checkpoint())
                &&& wrapped.pending == self.pending.push(Tree::Node { kind, children: added })
                &&& wrapped.open == self.open
            }),
    {
        let later = Building { pending: self.pending + added, open: self.open };
        let opened = later.start_node_at(self.checkpoint(), kind);
        let first = self.pending.len() as int;
        assert(opened.open.last() == Frame { kind, first_child: self.checkpoint() });
        assert(later.pending.skip(first) =~= added);
        assert(later.pending.take(first) =~= self.pending);
        assert(opened.open.drop_last() =~= self.open);
    }
}

/// The texts of the tokens that `steps` add, in order.
pub open spec fn texts_of(steps: Seq<Step>) -> Seq<Seq<char>>
    decreases steps.len(),
{
    if steps.len() == 0 {
        Seq::empty()
    } else {
        match steps.first() {
            Step::Token { text, .. } => seq![text] + texts_of(steps.drop_first()),
            _ => texts_of(steps.drop_first()),
        }
    }
}

} // verus!
