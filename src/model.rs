//! The model: the balls and the graph of their neighborhood relation.
use vstd::prelude::*;
use crate::graph::Graph;
use crate::neighborhood::{GetNeighborhood, Neighborhood, NeighborDist, is_neighborhood_of, measured};

verus! {

/// A set of balls, each a node of a graph whose edges join topological
/// neighbors.
pub struct Model<B> {
    pub graph: Graph<B>,
}

impl<B> Model<B> {
    /// The graph is well formed.
    pub open spec fn wf(&self) -> bool {
        self.graph.wf()
    }

    /// The balls, in the order in which the model lists them.
    pub open spec fn balls(&self) -> Seq<B> {
        self.graph.balls_in_order()
    }

    /// A model without balls.
    pub fn new() -> (r: Self)
        ensures
            r.wf(),
            r.balls() == Seq::<B>::empty(),
    {
        let r = Model { graph: Graph::new() };
        assert(r.balls() =~= Seq::<B>::empty());
        r
    }

    /// A model of the given balls, in that order, with no edge.
    pub fn load(balls: Vec<B>) -> (r: Self)
        requires
            balls@.len() < usize::MAX,
        ensures
            r.wf(),
            r.balls() == balls@,
            forall|a: usize, b: usize| !(#[trigger] r.graph.adjacent(a, b)),
    {
        let ghost s = balls@;
        let mut rest = balls;
        let mut rev: Vec<B> = Vec::new();
        while rest.len() > 0
            invariant
                rest@ == s.take(rest@.len() as int),
                rev@.len() + rest@.len() == s.len(),
                forall|i: int| 0 <= i < rev@.len() ==> #[trigger] rev@[i] == s[s.len() - 1 - i],
            decreases rest@.len(),
        {
            let b = rest.pop().unwrap();
            rev.push(b);
        }
        let mut graph: Graph<B> = Graph::new();
        assert(graph.balls_in_order() =~= s.take(0));
        while rev.len() > 0
            invariant
                s.len() < usize::MAX,
                graph.wf(),
                graph.next_id() + rev@.len() == s.len(),
                graph.balls_in_order() == s.take(graph.next_id() as int),
                forall|i: int| 0 <= i < rev@.len() ==> #[trigger] rev@[i] == s[s.len() - 1 - i],
                forall|a: usize, b: usize| !(#[trigger] graph.adjacent(a, b)),
            decreases rev@.len(),
        {
            let ghost k = graph.next_id() as int;
            let b = rev.pop().unwrap();
            assert(b == s[k]);
            graph.add_node(b);
            assert(s.take(k).push(b) =~= s.take(k + 1));
        }
        assert(s.take(s.len() as int) =~= s);
        Model { graph }
    }

    /// The balls, in the order of `balls`.
    pub fn iter_balls(&self) -> (r: Vec<&B>)
        requires
            self.wf(),
        ensures
            r@.len() == self.balls().len(),
            forall|i: int| 0 <= i < r@.len() ==> *r@[i] == self.balls()[i],
    {
        self.graph.iter_balls()
    }

    /// The number of balls.
    pub fn len(&self) -> (r: usize)
        requires
            self.wf(),
        ensures
            r == self.balls().len(),
    {
        self.graph.iter_balls().len()
    }

    /// The two balls nearest to `point` under the squared distance `dist`,
    /// nearest first; ties go to the ball listed first.
    pub fn nearest_two<'a, P, F: Fn(&P, &&'a B) -> u64>(&'a self, point: &P, dist: F) -> (r:
        Neighborhood<&'a B>)
        requires
            self.wf(),
            forall|c: &'a B| call_requires(dist, (point, &c)),
        ensures
            exists|cs: Seq<&'a B>, s: Seq<NeighborDist<&'a B>>|
                {
                    &&& cs.len() == self.balls().len()
                    &&& forall|i: int| 0 <= i < cs.len() ==> *#[trigger] cs[i] == self.balls()[i]
                    &&& measured(point, dist, cs, s)
                    &&& is_neighborhood_of(s, r)
                },
    {
        let cands = self.graph.iter_balls();
        cands.get_neighborhood(point, dist)
    }
}

/// Listing the balls of a model loaded from `balls` gives back `balls`, in
/// order.
pub proof fn lemma_load_iter_round_trip<B>(balls: Seq<B>, m: Model<B>, listed: Seq<&B>)
    requires
        m.balls() == balls,
        listed.len() == m.balls().len(),
        forall|i: int| 0 <= i < listed.len() ==> *listed[i] == m.balls()[i],
    ensures
        listed.len() == balls.len(),
        forall|i: int| 0 <= i < balls.len() ==> *listed[i] == #[trigger] balls[i],
{
}

} // verus!
