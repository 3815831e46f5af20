//! The pending vertices of a search, handed out cheapest first.

use vstd::prelude::*;

verus! {

/// A pending vertex with the score it was queued under.
#[derive(Debug, Clone, Copy, PartialEq, Eq, Structural)]
pub struct Node {
    pub id: usize,
    pub cost: usize,
}

/// The index of the entry that leaves `nodes` next: the last one among
/// those of least cost, or -1 if there is none.
pub open spec fn cheapest(nodes: Seq<Node>) -> int
    decreases nodes.len(),
{
    if nodes.len() == 0 {
        -1
    } else {
        let before = cheapest(nodes.drop_last());
        if before >= 0 && nodes[before].cost < nodes.last().cost {
            before
        } else {
            nodes.len() - 1
        }
    }
}

/// No entry costs less than the cheapest one, and every entry behind it
/// costs more.
pub proof fn cheapest_is_least(nodes: Seq<Node>)
    ensures
        nodes.len() == 0 ==> cheapest(nodes) == -1,
        nodes.len() > 0 ==> 0 <= cheapest(nodes) < nodes.len(),
        forall|i: int| 0 <= i < nodes.len() ==> nodes[cheapest(nodes)].cost <= (#[trigger] nodes[i]).cost,
        forall|i: int|
            cheapest(nodes) < i < nodes.len() ==> nodes[cheapest(nodes)].cost < (#[trigger] nodes[i]).cost,
    decreases nodes.len(),
{
    if nodes.len() > 0 {
        let front = nodes.drop_last();
        cheapest_is_least(front);
        let before = cheapest(front);
        assert forall|i: int| 0 <= i < nodes.len() implies nodes[cheapest(nodes)].cost <= (
        #[trigger] nodes[i]).cost by {
            if i < front.len() {
                assert(front[i] == nodes[i]);
                assert(front[before] == nodes[before]);
            }
        }
        assert forall|i: int| cheapest(nodes) < i < nodes.len() implies nodes[cheapest(nodes)].cost < (
        #[trigger] nodes[i]).cost by {
            if i < front.len() {
                assert(front[i] == nodes[i]);
                assert(front[before] == nodes[before]);
            }
        }
    }
}

/// A priority queue of pending vertices, ordered by ascending cost. Among
/// entries of equal cost the one queued last leaves first.
pub struct Frontier {
    nodes: Vec<Node>,
}

impl View for Frontier {
    type V = Seq<Node>;

    closed spec fn view(&self) -> Seq<Node> {
        self.nodes@
    }
}

impl Frontier {
    /// A queue without entries.
    pub fn new() -> (frontier: Frontier)
        ensures
            frontier@ == Seq::<Node>::empty(),
    {
        Frontier { nodes: Vec::new() }
    }

    /// The number of entries.
    pub fn len(&self) -> (len: usize)
        ensures
            len == self@.len(),
    {
        self.nodes.len()
    }

    /// Queues `node` behind the entries already there.
    pub fn push(&mut self, node: Node)
        ensures
            final(self)@ == old(self)@.push(node),
    {
        self.nodes.push(node);
    }

    /// Takes out the cheapest entry, if there is any.
    pub fn pop(&mut self) -> (node: Option<Node>)
        ensures
            node.is_some() == (old(self)@.len() > 0),
            node.is_none() ==> final(self)@ == old(self)@,
            node.is_some() ==> node.unwrap() == old(self)@[cheapest(old(self)@)] && final(self)@ == old(
                self,
            )@.remove(cheapest(old(self)@)),
    {
        if self.nodes.len() == 0 {
            return None;
        }
        let mut best: usize = 0;
        let mut i: usize = 1;
        assert(self.nodes@.subrange(0, 1).drop_last() =~= Seq::<Node>::empty());
        assert(cheapest(Seq::<Node>::empty()) == -1);
        while i < self.nodes.len()
            invariant
                *self == *old(self),
                1 <= i <= self.nodes@.len(),
                best == cheapest(self.nodes@.subrange(0, i as int)),
                0 <= best < i,
            decreases self.nodes@.len() - i,
        {
            assert(self.nodes@.subrange(0, i + 1).drop_last() =~= self.nodes@.subrange(0, i as int));
            if self.nodes[best].cost >= self.nodes[i].cost {
                best = i;
            }
            i += 1;
        }
        assert(self.nodes@.subrange(0, i as int) =~= self.nodes@);
        let node = self.nodes.remove(best);
        Some(node)
    }
}

} // verus!
