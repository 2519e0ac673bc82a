//! An undirected graph of balls with stable node identifiers.
//!
//! Nodes live in an arena indexed by their identifier: a new node takes the
//! next free slot and a removed node leaves its slot empty, so an identifier
//! is never handed out twice.
use vstd::prelude::*;

verus! {

/// Removes `x` from a list of distinct identifiers.
fn remove_value(v: &mut Vec<usize>, x: usize)
    requires
        old(v)@.no_duplicates(),
    ensures
        final(v)@.no_duplicates(),
        forall|y: usize| final(v)@.contains(y) <==> (old(v)@.contains(y) && y != x),
{
    let ghost s = v@;
    let mut i: usize = 0;
    while i < v.len()
        invariant
            v@ == s,
            s == old(v)@,
            s.no_duplicates(),
            0 <= i <= v@.len(),
            forall|k: int| 0 <= k < i ==> v@[k] != x,
        decreases v@.len() - i,
    {
        if v[i] == x {
            assert(s[i as int] == x);
            v.remove(i);
            assert(forall|k: int| 0 <= k < i ==> v@[k] == s[k]);
            assert(forall|k: int| i <= k < v@.len() ==> v@[k] == s[k + 1]);
            assert forall|y: usize| v@.contains(y) <==> (s.contains(y) && y != x) by {
                if s.contains(y) && y != x {
                    let k = choose|k: int| 0 <= k < s.len() && s[k] == y;
                    if k < i {
                        assert(v@[k] == y);
                    } else {
                        assert(k != i);
                        assert(v@[k - 1] == y);
                    }
                }
                if v@.contains(y) {
                    let k = choose|k: int| 0 <= k < v@.len() && v@[k] == y;
                    if k < i {
                        assert(s[k] == y);
                    } else {
                        assert(s[k + 1] == y);
                    }
                    let sk = if k < i { k } else { k + 1 };
                    assert(sk != i && s[sk] == y);
                    assert(y != x);
                }
            }
            assert forall|a: int, b: int| 0 <= a < v@.len() && 0 <= b < v@.len() && a != b implies v@[a] != v@[b] by {
                let sa = if a < i { a } else { a + 1 };
                let sb = if b < i { b } else { b + 1 };
                assert(s[sa] == v@[a] && s[sb] == v@[b]);
                assert(sa != sb);
            }
            return;
        }
        i = i + 1;
    }
}

/// A copy of a list of identifiers.
fn copy_ids(v: &Vec<usize>) -> (r: Vec<usize>)
    ensures
        r@ == v@,
{
    let mut r: Vec<usize> = Vec::new();
    let mut i: usize = 0;
    while i < v.len()
        invariant
            0 <= i <= v@.len(),
            r@ == v@.take(i as int),
        decreases v@.len() - i,
    {
        r.push(v[i]);
        i = i + 1;
        assert(r@ =~= v@.take(i as int));
    }
    assert(r@ =~= v@);
    r
}

/// An undirected graph whose nodes carry a ball of type `B`.
pub struct Graph<B> {
    /// The ball of each identifier, `None` once its node is removed.
    balls: Vec<Option<B>>,
    /// The neighbors of each identifier.
    adj: Vec<Vec<usize>>,
}

impl<B> Graph<B> {
    /// The identifier that the next node will get.
    pub closed spec fn next_id(&self) -> nat {
        self.balls@.len()
    }

    /// Node `id` is in the graph.
    pub closed spec fn live(&self, id: usize) -> bool {
        id < self.balls@.len() && self.balls@[id as int] is Some
    }

    /// The ball of node `id`.
    pub closed spec fn ball_of(&self, id: usize) -> B {
        self.balls@[id as int]->Some_0
    }

    /// An edge joins nodes `a` and `b`.
    pub closed spec fn adjacent(&self, a: usize, b: usize) -> bool {
        self.live(a) && self.adj@[a as int]@.contains(b)
    }

    /// Each neighbor list is free of repeats and empty for a removed node, and
    /// edges join two distinct live nodes and are recorded at both ends.
    pub closed spec fn wf(&self) -> bool {
        &&& self.balls@.len() == self.adj@.len()
        &&& self.balls@.len() <= usize::MAX
        &&& forall|i: int| 0 <= i < self.adj@.len() ==> (#[trigger] self.adj@[i])@.no_duplicates()
        &&& forall|i: int|
            0 <= i < self.adj@.len() && self.balls@[i] is None ==> (#[trigger] self.adj@[i])@.len()
                == 0
        &&& forall|a: usize, b: usize| #[trigger]
            self.adjacent(a, b) ==> a != b && self.live(b) && self.adjacent(b, a)
    }

    /// The nodes, and their balls, are those of `other`.
    pub open spec fn same_nodes(&self, other: &Self) -> bool {
        &&& self.next_id() == other.next_id()
        &&& forall|x: usize| #[trigger] self.live(x) == other.live(x)
        &&& forall|x: usize| other.live(x) ==> #[trigger] self.ball_of(x) == other.ball_of(x)
    }

    /// An empty graph.
    pub fn new() -> (r: Self)
        ensures
            r.wf(),
            r.next_id() == 0,
            forall|x: usize| !(#[trigger] r.live(x)),
            forall|a: usize, b: usize| !(#[trigger] r.adjacent(a, b)),
            r.balls_in_order() == Seq::<B>::empty(),
    {
        let r = Graph { balls: Vec::new(), adj: Vec::new() };
        assert(r.balls_in_order() =~= Seq::<B>::empty());
        r
    }

    /// Inserts an isolated node carrying `ball`, and returns its identifier.
    pub fn add_node(&mut self, ball: B) -> (id: usize)
        requires
            old(self).wf(),
            old(self).next_id() < usize::MAX,
        ensures
            final(self).wf(),
            id == old(self).next_id(),
            final(self).next_id() == old(self).next_id() + 1,
            !old(self).live(id),
            final(self).live(id),
            final(self).ball_of(id) == ball,
            forall|x: usize| x != id ==> #[trigger] final(self).live(x) == old(self).live(x),
            forall|x: usize|
                x != id && old(self).live(x) ==> #[trigger] final(self).ball_of(x) == old(
                    self,
                ).ball_of(x),
            forall|x: usize, y: usize| #[trigger]
                final(self).adjacent(x, y) == old(self).adjacent(x, y),
            final(self).balls_in_order() == old(self).balls_in_order().push(ball),
    {
        let id = self.balls.len();
        self.balls.push(Some(ball));
        self.adj.push(Vec::new());
        assert forall|x: usize, y: usize| #[trigger]
            self.adjacent(x, y) == old(self).adjacent(x, y) by {
            if x == id {
                assert(self.adj@[x as int]@.len() == 0);
            } else if x < id {
                assert(self.adj@[x as int] == old(self).adj@[x as int]);
            }
        }
        assert forall|i: int| 0 <= i < self.adj@.len() implies (#[trigger] self.adj@[i])@.no_duplicates() by {
            if i < id {
                assert(self.adj@[i] == old(self).adj@[i]);
            }
        }
        proof {
            lemma_balls_upto_agree(self, old(self), id as nat);
        }
        id
    }

    /// Node `id` is in the graph.
    pub fn contains(&self, id: usize) -> (r: bool)
        ensures
            r == self.live(id),
    {
        id < self.balls.len() && self.balls[id].is_some()
    }

    /// The ball of node `id`.
    pub fn ball(&self, id: usize) -> (r: &B)
        requires
            self.live(id),
        ensures
            *r == self.ball_of(id),
    {
        match &self.balls[id] {
            Some(b) => b,
            None => unreached(),
        }
    }

    /// The neighbors of node `id`, each once.
    pub fn neighbors(&self, id: usize) -> (r: Vec<usize>)
        requires
            self.wf(),
            self.live(id),
        ensures
            r@.no_duplicates(),
            forall|y: usize| r@.contains(y) <==> self.adjacent(id, y),
    {
        copy_ids(&self.adj[id])
    }

    /// The identifiers of the nodes, in increasing order.
    pub fn nodes(&self) -> (r: Vec<usize>)
        ensures
            forall|i: int, j: int| 0 <= i < j < r@.len() ==> r@[i] < r@[j],
            forall|y: usize| r@.contains(y) <==> self.live(y),
    {
        let mut r: Vec<usize> = Vec::new();
        let mut i: usize = 0;
        while i < self.balls.len()
            invariant
                0 <= i <= self.balls@.len(),
                forall|a: int, b: int| 0 <= a < b < r@.len() ==> r@[a] < r@[b],
                forall|k: int| 0 <= k < r@.len() ==> r@[k] < i,
                forall|y: usize| r@.contains(y) <==> (y < i && self.live(y)),
            decreases self.balls@.len() - i,
        {
            if self.balls[i].is_some() {
                let ghost before = r@;
                r.push(i);
                assert forall|y: usize| r@.contains(y) <==> (y < i + 1 && self.live(y)) by {
                    if y == i {
                        assert(r@[r@.len() - 1] == y);
                    } else if r@.contains(y) {
                        let k = choose|k: int| 0 <= k < r@.len() && r@[k] == y;
                        assert(before[k] == y);
                    } else if y < i && self.live(y) {
                        let k = choose|k: int| 0 <= k < before.len() && before[k] == y;
                        assert(r@[k] == y);
                    }
                }
            }
            i = i + 1;
        }
        r
    }
}

impl<B> Graph<B> {
    /// Joins nodes `a` and `b` by an edge, if they are not joined yet.
    pub fn add_edge(&mut self, a: usize, b: usize)
        requires
            old(self).wf(),
            old(self).live(a),
            old(self).live(b),
            a != b,
        ensures
            final(self).wf(),
            final(self).same_nodes(old(self)),
            forall|x: usize, y: usize| #[trigger]
                final(self).adjacent(x, y) == (old(self).adjacent(x, y) || (x == a && y == b) || (x
                    == b && y == a)),
    {
        if !contains_id(&self.adj[a], b) {
            let ghost a_adj = self.adj@[a as int]@;
            let ghost b_adj = self.adj@[b as int]@;
            assert(!b_adj.contains(a)) by {
                if b_adj.contains(a) {
                    assert(old(self).adjacent(b, a));
                }
            }
            self.adj[a].push(b);
            self.adj[b].push(a);
            assert(self.adj@[a as int]@ == a_adj.push(b));
            assert(self.adj@[b as int]@ == b_adj.push(a));
            assert forall|x: usize, y: usize| #[trigger]
                self.adjacent(x, y) == (old(self).adjacent(x, y) || (x == a && y == b) || (x == b
                    && y == a)) by {
                if x != a && x != b && x < self.adj@.len() {
                    assert(self.adj@[x as int] == old(self).adj@[x as int]);
                }
                lemma_push_contains(a_adj, b, y);
                lemma_push_contains(b_adj, a, y);
            }
            assert forall|i: int| 0 <= i < self.adj@.len() implies (#[trigger] self.adj@[i])@.no_duplicates() by {
                if i != a && i != b {
                    assert(self.adj@[i] == old(self).adj@[i]);
                }
            }
            assert forall|i: int|
                0 <= i < self.adj@.len() && self.balls@[i] is None implies (#[trigger] self.adj@[i])@.len() == 0 by {
                assert(self.adj@[i] == old(self).adj@[i]);
            }
        } else {
            assert(old(self).adjacent(a, b));
            assert(old(self).adjacent(b, a));
        }
    }

    /// Takes away the edge between nodes `a` and `b`, if there is one.
    pub fn remove_edge(&mut self, a: usize, b: usize)
        requires
            old(self).wf(),
        ensures
            final(self).wf(),
            final(self).same_nodes(old(self)),
            forall|x: usize, y: usize| #[trigger]
                final(self).adjacent(x, y) == (old(self).adjacent(x, y) && !(x == a && y == b) && !(x
                    == b && y == a)),
    {
        if a < self.adj.len() && b < self.adj.len() && a != b {
            let ghost a_adj = self.adj@[a as int]@;
            let ghost b_adj = self.adj@[b as int]@;
            remove_value(&mut self.adj[a], b);
            remove_value(&mut self.adj[b], a);
            assert forall|x: usize, y: usize| #[trigger]
                self.adjacent(x, y) == (old(self).adjacent(x, y) && !(x == a && y == b) && !(x == b
                    && y == a)) by {
                if x != a && x != b && x < self.adj@.len() {
                    assert(self.adj@[x as int] == old(self).adj@[x as int]);
                }
            }
            assert forall|i: int| 0 <= i < self.adj@.len() implies (#[trigger] self.adj@[i])@.no_duplicates() by {
                if i != a && i != b {
                    assert(self.adj@[i] == old(self).adj@[i]);
                }
            }
            assert forall|i: int|
                0 <= i < self.adj@.len() && self.balls@[i] is None implies (#[trigger] self.adj@[i])@.len() == 0 by {
                if i != a && i != b {
                    assert(self.adj@[i] == old(self).adj@[i]);
                } else if i == a {
                    assert(a_adj.len() == 0);
                    assert(self.adj@[i]@.len() == 0) by {
                        if self.adj@[i]@.len() > 0 {
                            assert(self.adj@[i]@.contains(self.adj@[i]@[0]));
                        }
                    }
                } else {
                    assert(b_adj.len() == 0);
                    assert(self.adj@[i]@.len() == 0) by {
                        if self.adj@[i]@.len() > 0 {
                            assert(self.adj@[i]@.contains(self.adj@[i]@[0]));
                        }
                    }
                }
            }
        }
    }
}

proof fn lemma_push_contains(s: Seq<usize>, v: usize, y: usize)
    ensures
        s.push(v).contains(y) <==> (s.contains(y) || y == v),
{
    if s.contains(y) {
        let k = choose|k: int| 0 <= k < s.len() && s[k] == y;
        assert(s.push(v)[k] == y);
    }
    if y == v {
        assert(s.push(v)[s.len() as int] == y);
    }
    if s.push(v).contains(y) && y != v {
        let k = choose|k: int| 0 <= k < s.len() + 1 && s.push(v)[k] == y;
        assert(s[k] == y);
    }
}

impl<B> Graph<B> {
    /// Removes node `id` with all its edges, and returns its ball.
    pub fn remove_node(&mut self, id: usize) -> (r: B)
        requires
            old(self).wf(),
            old(self).live(id),
        ensures
            r == old(self).ball_of(id),
            final(self).wf(),
            final(self).next_id() == old(self).next_id(),
            !final(self).live(id),
            forall|x: usize| x != id ==> #[trigger] final(self).live(x) == old(self).live(x),
            forall|x: usize|
                x != id && old(self).live(x) ==> #[trigger] final(self).ball_of(x) == old(
                    self,
                ).ball_of(x),
            forall|x: usize, y: usize| #[trigger]
                final(self).adjacent(x, y) == (old(self).adjacent(x, y) && x != id && y != id),
    {
        let nbrs = copy_ids(&self.adj[id]);
        let mut i: usize = 0;
        while i < nbrs.len()
            invariant
                0 <= i <= nbrs@.len(),
                nbrs@ == old(self).adj@[id as int]@,
                self.balls@ == old(self).balls@,
                self.adj@.len() == old(self).adj@.len(),
                self.adj@[id as int] == old(self).adj@[id as int],
                old(self).wf(),
                old(self).live(id),
                forall|x: int| 0 <= x < self.adj@.len() ==> (#[trigger] self.adj@[x])@.no_duplicates(),
                forall|x: int|
                    0 <= x < self.adj@.len() && self.balls@[x] is None ==> (
                    #[trigger] self.adj@[x])@.len() == 0,
                forall|x: usize, y: usize|
                    x < self.adj@.len() && x != id ==> (#[trigger] self.adj@[x as int]@.contains(y)
                        <==> (old(self).adj@[x as int]@.contains(y) && !(y == id && exists|k: int|
                        0 <= k < i && nbrs@[k] == x))),
            decreases nbrs@.len() - i,
        {
            let n = nbrs[i];
            assert(old(self).adjacent(id, n));
            let ghost before = self.adj@;
            remove_value(&mut self.adj[n], id);
            assert forall|x: usize, y: usize|
                x < self.adj@.len() && x != id implies (#[trigger] self.adj@[x as int]@.contains(y)
                    <==> (old(self).adj@[x as int]@.contains(y) && !(y == id && exists|k: int|
                    0 <= k < i + 1 && nbrs@[k] == x))) by {
                if x != n {
                    assert(self.adj@[x as int] == before[x as int]);
                    if exists|k: int| 0 <= k < i + 1 && nbrs@[k] == x {
                        let k = choose|k: int| 0 <= k < i + 1 && nbrs@[k] == x;
                        assert(k != i);
                    }
                } else {
                    assert(nbrs@[i as int] == x);
                    assert(!(exists|k: int| 0 <= k < i && nbrs@[k] == x)) by {
                        if exists|k: int| 0 <= k < i && nbrs@[k] == x {
                            let k = choose|k: int| 0 <= k < i && nbrs@[k] == x;
                            assert(nbrs@[k] == nbrs@[i as int]);
                        }
                    }
                }
            }
            assert forall|x: int| 0 <= x < self.adj@.len() implies (#[trigger] self.adj@[x])@.no_duplicates() by {
                if x != n {
                    assert(self.adj@[x] == before[x]);
                }
            }
            assert forall|x: int|
                0 <= x < self.adj@.len() && self.balls@[x] is None implies (#[trigger] self.adj@[x])@.len() == 0 by {
                assert(self.adj@[x] == before[x]);
            }
            i = i + 1;
        }
        self.adj[id] = Vec::new();
        let mut slot: Option<B> = None;
        std::mem::swap(&mut self.balls[id], &mut slot);
        assert forall|x: usize, y: usize| #[trigger]
            self.adjacent(x, y) == (old(self).adjacent(x, y) && x != id && y != id) by {
            if x != id && x < self.adj@.len() && self.live(x) {
                if y == id && old(self).adjacent(x, y) {
                    assert(old(self).adjacent(id, x));
                    let k = choose|k: int| 0 <= k < nbrs@.len() && nbrs@[k] == x;
                }
            }
        }
        assert forall|i: int| 0 <= i < self.adj@.len() implies (#[trigger] self.adj@[i])@.no_duplicates() by {
            if i == id {
                assert(self.adj@[i]@ =~= Seq::<usize>::empty());
            }
        }
        assert forall|a: usize, b: usize| #[trigger]
            self.adjacent(a, b) implies a != b && self.live(b) && self.adjacent(b, a) by {
            assert(old(self).adjacent(a, b));
            assert(old(self).adjacent(b, a));
        }
        match slot {
            Some(b) => b,
            None => unreached(),
        }
    }

    /// Puts `ball` in node `id` and returns the ball it held.
    pub fn replace_ball(&mut self, id: usize, ball: B) -> (r: B)
        requires
            old(self).wf(),
            old(self).live(id),
        ensures
            final(self).wf(),
            r == old(self).ball_of(id),
            final(self).next_id() == old(self).next_id(),
            final(self).live(id),
            final(self).ball_of(id) == ball,
            forall|x: usize| #[trigger] final(self).live(x) == old(self).live(x),
            forall|x: usize|
                x != id && old(self).live(x) ==> #[trigger] final(self).ball_of(x) == old(
                    self,
                ).ball_of(x),
            forall|x: usize, y: usize| #[trigger]
                final(self).adjacent(x, y) == old(self).adjacent(x, y),
    {
        let mut slot = Some(ball);
        std::mem::swap(&mut self.balls[id], &mut slot);
        assert forall|x: usize, y: usize| #[trigger]
            self.adjacent(x, y) == old(self).adjacent(x, y) by {}
        assert forall|x: int|
            0 <= x < self.adj@.len() && self.balls@[x] is None implies (#[trigger] self.adj@[x])@.len() == 0 by {
            assert(x != id);
        }
        match slot {
            Some(b) => b,
            None => unreached(),
        }
    }
}

impl<B> Graph<B> {
    /// The balls of the live nodes whose identifier is below `n`, by
    /// increasing identifier.
    pub closed spec fn balls_upto(&self, n: nat) -> Seq<B>
        decreases n,
    {
        if n == 0 {
            Seq::empty()
        } else {
            let before = self.balls_upto((n - 1) as nat);
            if self.live((n - 1) as usize) {
                before.push(self.ball_of((n - 1) as usize))
            } else {
                before
            }
        }
    }

    /// The balls of all live nodes, by increasing identifier.
    pub open spec fn balls_in_order(&self) -> Seq<B> {
        self.balls_upto(self.next_id())
    }

    /// The balls of the live nodes, by increasing identifier.
    pub fn iter_balls(&self) -> (r: Vec<&B>)
        requires
            self.wf(),
        ensures
            r@.len() == self.balls_in_order().len(),
            forall|i: int| 0 <= i < r@.len() ==> *r@[i] == self.balls_in_order()[i],
    {
        let mut r: Vec<&B> = Vec::new();
        let mut i: usize = 0;
        while i < self.balls.len()
            invariant
                self.wf(),
                0 <= i <= self.balls@.len(),
                r@.len() == self.balls_upto(i as nat).len(),
                forall|k: int| 0 <= k < r@.len() ==> *r@[k] == self.balls_upto(i as nat)[k],
            decreases self.balls@.len() - i,
        {
            assert(self.balls_upto((i + 1) as nat) == (if self.live(i) {
                self.balls_upto(i as nat).push(self.ball_of(i))
            } else {
                self.balls_upto(i as nat)
            }));
            match &self.balls[i] {
                Some(b) => {
                    r.push(b);
                },
                None => {},
            }
            i = i + 1;
        }
        r
    }
}

impl<B> Graph<B> {
    /// Dissolves node `y` into node `x`: every neighbor of `y` other than `x`
    /// becomes a neighbor of `x`, then `y` is removed; returns the ball of `y`.
    pub fn merge_node(&mut self, x: usize, y: usize) -> (r: B)
        requires
            old(self).wf(),
            old(self).live(x),
            old(self).live(y),
            x != y,
        ensures
            r == old(self).ball_of(y),
            final(self).wf(),
            final(self).next_id() == old(self).next_id(),
            !final(self).live(y),
            final(self).live(x),
            forall|u: usize| u != y ==> #[trigger] final(self).live(u) == old(self).live(u),
            forall|u: usize|
                u != y && old(self).live(u) ==> #[trigger] final(self).ball_of(u) == old(
                    self,
                ).ball_of(u),
            forall|u: usize, v: usize| #[trigger]
                final(self).adjacent(u, v) == (u != y && v != y && (old(self).adjacent(u, v) || (u
                    == x && v != x && old(self).adjacent(y, v)) || (v == x && u != x && old(
                    self,
                ).adjacent(y, u)))),
    {
        let nbrs = self.neighbors(y);
        let mut i: usize = 0;
        while i < nbrs.len()
            invariant
                0 <= i <= nbrs@.len(),
                old(self).wf(),
                self.wf(),
                self.same_nodes(old(self)),
                x != y,
                old(self).live(x),
                old(self).live(y),
                forall|z: usize| nbrs@.contains(z) <==> old(self).adjacent(y, z),
                forall|u: usize, v: usize| #[trigger]
                    self.adjacent(u, v) == (old(self).adjacent(u, v) || (u == x && v != x && exists|
                        k: int,
                    | 0 <= k < i && nbrs@[k] == v) || (v == x && u != x && exists|k: int|
                        0 <= k < i && nbrs@[k] == u)),
            decreases nbrs@.len() - i,
        {
            let z = nbrs[i];
            assert(nbrs@.contains(z));
            assert(old(self).adjacent(y, z));
            let ghost before = *self;
            if z != x {
                self.add_edge(x, z);
            }
            assert forall|u: usize, v: usize| #[trigger]
                self.adjacent(u, v) == (old(self).adjacent(u, v) || (u == x && v != x && exists|
                    k: int,
                | 0 <= k < i + 1 && nbrs@[k] == v) || (v == x && u != x && exists|k: int|
                    0 <= k < i + 1 && nbrs@[k] == u)) by {
                if exists|k: int| 0 <= k < i + 1 && nbrs@[k] == v {
                    let k = choose|k: int| 0 <= k < i + 1 && nbrs@[k] == v;
                    if k < i {
                        assert(exists|k: int| 0 <= k < i && nbrs@[k] == v);
                    }
                }
                if exists|k: int| 0 <= k < i + 1 && nbrs@[k] == u {
                    let k = choose|k: int| 0 <= k < i + 1 && nbrs@[k] == u;
                    if k < i {
                        assert(exists|k: int| 0 <= k < i && nbrs@[k] == u);
                    }
                }
                if u == x && v == z && z != x {
                    assert(nbrs@[i as int] == v);
                }
                if v == x && u == z && z != x {
                    assert(nbrs@[i as int] == u);
                }
            }
            i = i + 1;
        }
        let ghost mid = *self;
        assert forall|u: usize, v: usize|
            mid.adjacent(u, v) == (old(self).adjacent(u, v) || (u == x && v != x && old(
                self,
            ).adjacent(y, v)) || (v == x && u != x && old(self).adjacent(y, u))) by {
            if u == x && v != x && old(self).adjacent(y, v) {
                assert(nbrs@.contains(v));
                let k = choose|k: int| 0 <= k < nbrs@.len() && nbrs@[k] == v;
            }
            if v == x && u != x && old(self).adjacent(y, u) {
                assert(nbrs@.contains(u));
                let k = choose|k: int| 0 <= k < nbrs@.len() && nbrs@[k] == u;
            }
            if exists|k: int| 0 <= k < nbrs@.len() && nbrs@[k] == v {
                let k = choose|k: int| 0 <= k < nbrs@.len() && nbrs@[k] == v;
                assert(nbrs@.contains(v));
            }
            if exists|k: int| 0 <= k < nbrs@.len() && nbrs@[k] == u {
                let k = choose|k: int| 0 <= k < nbrs@.len() && nbrs@[k] == u;
                assert(nbrs@.contains(u));
            }
        }
        self.remove_node(y)
    }

    /// Inserts a node carrying `ball`, split off node `a`: it is joined to `a`
    /// and, where there is one, to the runner-up `b`. Returns its identifier.
    pub fn split_node(&mut self, a: usize, b: Option<usize>, ball: B) -> (id: usize)
        requires
            old(self).wf(),
            old(self).live(a),
            b is Some ==> old(self).live(b->0),
            old(self).next_id() < usize::MAX,
        ensures
            final(self).wf(),
            id == old(self).next_id(),
            !old(self).live(id),
            final(self).live(id),
            final(self).ball_of(id) == ball,
            final(self).next_id() == old(self).next_id() + 1,
            forall|u: usize| u != id ==> #[trigger] final(self).live(u) == old(self).live(u),
            forall|u: usize|
                u != id && old(self).live(u) ==> #[trigger] final(self).ball_of(u) == old(
                    self,
                ).ball_of(u),
            forall|u: usize, v: usize| #[trigger]
                final(self).adjacent(u, v) == (old(self).adjacent(u, v) || (u == id && v == a) || (
                u == a && v == id) || (b is Some && ((u == id && v == b->0) || (u == b->0 && v
                    == id)))),
    {
        let id = self.add_node(ball);
        self.add_edge(id, a);
        match b {
            Some(b) => {
                self.add_edge(id, b);
            },
            None => {},
        }
        id
    }
}

/// Two graphs with the same live nodes and balls below `n` list the same
/// balls below `n`.
proof fn lemma_balls_upto_agree<B>(g: &Graph<B>, h: &Graph<B>, n: nat)
    requires
        forall|x: usize| x < n ==> #[trigger] g.live(x) == h.live(x),
        forall|x: usize| x < n && g.live(x) ==> #[trigger] g.ball_of(x) == h.ball_of(x),
    ensures
        g.balls_upto(n) == h.balls_upto(n),
    decreases n,
{
    if n > 0 {
        lemma_balls_upto_agree(g, h, (n - 1) as nat);
        assert(g.live((n - 1) as usize) == h.live((n - 1) as usize));
    }
}

/// Edges only join live nodes, never a node to itself, and each edge is
/// seen from both ends.
pub proof fn lemma_edges_symmetric_loop_free<B>(g: &Graph<B>, a: usize, b: usize)
    requires
        g.wf(),
        g.adjacent(a, b),
    ensures
        g.adjacent(b, a),
        a != b,
        g.live(a),
        g.live(b),
{
}

/// A node that is not in the graph, removed or never added, has no edge.
pub proof fn lemma_no_edge_at_missing_node<B>(g: &Graph<B>, id: usize, u: usize)
    requires
        g.wf(),
        !g.live(id),
    ensures
        !g.adjacent(id, u),
        !g.adjacent(u, id),
{
}

/// `x` is in `v`.
fn contains_id(v: &Vec<usize>, x: usize) -> (r: bool)
    ensures
        r == v@.contains(x),
{
    let mut i: usize = 0;
    while i < v.len()
        invariant
            0 <= i <= v@.len(),
            forall|k: int| 0 <= k < i ==> v@[k] != x,
        decreases v@.len() - i,
    {
        if v[i] == x {
            assert(v@[i as int] == x);
            return true;
        }
        i = i + 1;
    }
    false
}

} // verus!
