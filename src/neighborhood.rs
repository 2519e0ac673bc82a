//! The two nearest neighbors of a query point among a set of candidates.
//!
//! Squared distances are carried as `u64` order keys: any encoding that is
//! monotone in the squared distance will do, for instance the IEEE-754 bits of
//! a non-negative `f64`, whose integer order is its numeric order.
use vstd::prelude::*;

verus! {

/// A candidate and its squared distance to some query point.
#[derive(PartialEq, Debug)]
pub struct NeighborDist<T>(pub T, pub u64);

impl<T> NeighborDist<T> {
    /// The candidate.
    pub fn coord(&self) -> (r: &T)
        ensures
            *r == self.0,
    {
        &self.0
    }

    /// The squared distance of the candidate to the query point.
    pub fn dist(&self) -> (r: u64)
        ensures
            r == self.1,
    {
        self.1
    }
}

/// The two nearest neighbors of some query point, when they exist.
#[derive(PartialEq, Debug)]
pub enum Neighborhood<T> {
    Two(NeighborDist<T>, NeighborDist<T>),
    One(NeighborDist<T>),
    Empty,
}

/// Candidate `i` comes before candidate `j`: it is strictly closer, or as
/// close and seen earlier.
pub open spec fn precedes<T>(s: Seq<NeighborDist<T>>, i: int, j: int) -> bool {
    s[i].1 < s[j].1 || (s[i].1 == s[j].1 && i < j)
}

/// Candidate `i` comes before every other candidate.
pub open spec fn is_nearest<T>(s: Seq<NeighborDist<T>>, i: int) -> bool {
    &&& 0 <= i < s.len()
    &&& forall|k: int| 0 <= k < s.len() && k != i ==> #[trigger] precedes(s, i, k)
}

/// Candidate `j`, other than `i`, comes before every candidate but `i`.
pub open spec fn is_runner_up<T>(s: Seq<NeighborDist<T>>, i: int, j: int) -> bool {
    &&& 0 <= j < s.len()
    &&& j != i
    &&& forall|k: int| 0 <= k < s.len() && k != i && k != j ==> #[trigger] precedes(s, j, k)
}

/// `r` is the neighborhood of the candidates `s`, ties going to the one seen first.
pub open spec fn is_neighborhood_of<T>(s: Seq<NeighborDist<T>>, r: Neighborhood<T>) -> bool {
    match r {
        Neighborhood::Empty => s.len() == 0,
        Neighborhood::One(a) => s.len() == 1 && a == s[0],
        Neighborhood::Two(a, b) => exists|i: int, j: int|
            is_nearest(s, i) && is_runner_up(s, i, j) && a == s[i] && b == s[j],
    }
}

/// The two nearest of three candidates, nearest first.
pub fn smallest<T>(d1: NeighborDist<T>, d2: NeighborDist<T>, d3: NeighborDist<T>) -> (r: (
    NeighborDist<T>,
    NeighborDist<T>,
))
    ensures
        exists|i: int, j: int|
            is_nearest(seq![d1, d2, d3], i) && is_runner_up(seq![d1, d2, d3], i, j) && r.0 == seq![
                d1,
                d2,
                d3,
            ][i] && r.1 == seq![d1, d2, d3][j],
{
    let ghost s = seq![d1, d2, d3];
    if d1.1 > d2.1 {
        if d1.1 > d3.1 {
            if d2.1 > d3.1 {
                assert(is_nearest(s, 2) && is_runner_up(s, 2, 1));
                (d3, d2)
            } else {
                assert(is_nearest(s, 1) && is_runner_up(s, 1, 2));
                (d2, d3)
            }
        } else {
            assert(is_nearest(s, 1) && is_runner_up(s, 1, 0));
            (d2, d1)
        }
    } else if d2.1 > d3.1 {
        if d1.1 > d3.1 {
            assert(is_nearest(s, 2) && is_runner_up(s, 2, 0));
            (d3, d1)
        } else {
            assert(is_nearest(s, 0) && is_runner_up(s, 0, 2));
            (d1, d3)
        }
    } else {
        assert(is_nearest(s, 0) && is_runner_up(s, 0, 1));
        (d1, d2)
    }
}

/// Candidates with their distances, handed out front first.
pub struct Candidates<T> {
    /// The remaining candidates, the next one last.
    rev: Vec<NeighborDist<T>>,
}

impl<T> View for Candidates<T> {
    type V = Seq<NeighborDist<T>>;

    closed spec fn view(&self) -> Seq<NeighborDist<T>> {
        Seq::new(self.rev@.len(), |i: int| self.rev@[self.rev@.len() - 1 - i])
    }
}

impl<T> Candidates<T> {
    /// No candidate.
    pub fn new() -> (r: Self)
        ensures
            r@ == Seq::<NeighborDist<T>>::empty(),
    {
        let r = Candidates { rev: Vec::new() };
        assert(r@ =~= Seq::<NeighborDist<T>>::empty());
        r
    }

    /// Puts `d` in front of the remaining candidates.
    pub fn push_front(&mut self, d: NeighborDist<T>)
        ensures
            final(self)@ == seq![d] + old(self)@,
    {
        self.rev.push(d);
        assert(self@ =~= seq![d] + old(self)@);
    }

    /// The number of remaining candidates.
    pub fn len(&self) -> (r: usize)
        ensures
            r == self@.len(),
    {
        self.rev.len()
    }

    /// Hands out the front candidate, if any.
    pub fn next(&mut self) -> (r: Option<NeighborDist<T>>)
        ensures
            old(self)@.len() == 0 ==> r is None && final(self)@ == old(self)@,
            old(self)@.len() > 0 ==> r == Some(old(self)@[0]) && final(self)@ == old(
                self,
            )@.drop_first(),
    {
        let r = self.rev.pop();
        assert(old(self)@.len() > 0 ==> self@ =~= old(self)@.drop_first());
        r
    }
}

/// Where `i` and `j` are the two nearest of the first `k` candidates of `s`,
/// and `ni`, `nj` the two nearest of the three candidates `i`, `j`, `k` taken
/// in that order, then `ni` and `nj` are the two nearest of the first `k + 1`.
proof fn lemma_step<T>(s: Seq<NeighborDist<T>>, k: int, i: int, j: int, i3: int, j3: int, ni: int, nj: int)
    requires
        0 <= k < s.len(),
        is_nearest(s.take(k), i),
        is_runner_up(s.take(k), i, j),
        is_nearest(seq![s[i], s[j], s[k]], i3),
        is_runner_up(seq![s[i], s[j], s[k]], i3, j3),
        ni == (if i3 == 0 { i } else if i3 == 1 { j } else { k }),
        nj == (if j3 == 0 { i } else if j3 == 1 { j } else { k }),
    ensures
        is_nearest(s.take(k + 1), ni),
        is_runner_up(s.take(k + 1), ni, nj),
{
    let p = s.take(k);
    let q = s.take(k + 1);
    let t = seq![s[i], s[j], s[k]];
    assert(t[0] == s[i] && t[1] == s[j] && t[2] == s[k]);
    assert(precedes(p, i, j));
    assert(0 <= i < k && 0 <= j < k && i != j);
    assert(i3 != 1) by {
        if i3 == 1 {
            assert(precedes(t, 1, 0));
        }
    }
    if i3 == 0 {
        assert(precedes(t, 0, 2));
        if j3 == 1 {
            assert(precedes(t, 1, 2));
        } else {
            assert(precedes(t, 2, 1));
        }
    } else {
        assert(precedes(t, 2, 0));
        assert(precedes(t, 2, 1));
        assert(j3 == 0) by {
            if j3 == 1 {
                assert(precedes(t, 1, 0));
            }
        }
    }
    assert forall|x: int| 0 <= x < k + 1 && x != ni implies #[trigger] precedes(q, ni, x) by {
        if x != i && x != j && x != k {
            assert(precedes(p, i, x));
            assert(precedes(p, j, x));
        }
    }
    assert forall|x: int| 0 <= x < k + 1 && x != ni && x != nj implies #[trigger] precedes(q, nj, x) by {
        if x != i && x != j && x != k {
            assert(precedes(p, i, x));
            assert(precedes(p, j, x));
        }
    }
}

/// The neighborhood of candidates of which at least two exist.
fn fold_others_2<T>(first: NeighborDist<T>, second: NeighborDist<T>, others: Candidates<T>) -> (r:
    Neighborhood<T>)
    ensures
        is_neighborhood_of(seq![first, second] + others@, r),
{
    let ghost s = seq![first, second] + others@;
    let ghost mut i: int = 0;
    let ghost mut j: int = 1;
    let (mut d1, mut d2) = if first.1 > second.1 {
        proof {
            i = 1;
            j = 0;
        }
        (second, first)
    } else {
        (first, second)
    };
    let mut others = others;
    let ghost mut k: int = 2;
    assert(is_nearest(s.take(2), i));
    assert(is_runner_up(s.take(2), i, j));
    while others.len() > 0
        invariant
            2 <= k <= s.len(),
            others@ == s.subrange(k, s.len() as int),
            is_nearest(s.take(k), i),
            is_runner_up(s.take(k), i, j),
            d1 == s[i],
            d2 == s[j],
        decreases others@.len(),
    {
        let d = others.next().unwrap();
        assert(d == s[k]);
        let (a, b) = smallest(d1, d2, d);
        let ghost t = seq![s[i], s[j], s[k]];
        let ghost (i3, j3) = choose|i3: int, j3: int|
            is_nearest(t, i3) && is_runner_up(t, i3, j3) && a == t[i3] && b == t[j3];
        proof {
            let ni = if i3 == 0 {
                i
            } else if i3 == 1 {
                j
            } else {
                k
            };
            let nj = if j3 == 0 {
                i
            } else if j3 == 1 {
                j
            } else {
                k
            };
            lemma_step(s, k, i, j, i3, j3, ni, nj);
            i = ni;
            j = nj;
            k = k + 1;
        }
        d1 = a;
        d2 = b;
    }
    assert(s.take(k) =~= s);
    Neighborhood::Two(d1, d2)
}

/// The neighborhood of candidates of which at least one exists.
fn fold_1<T>(first: NeighborDist<T>, others: Candidates<T>) -> (r: Neighborhood<T>)
    ensures
        is_neighborhood_of(seq![first] + others@, r),
{
    let mut others = others;
    let ghost all = seq![first] + others@;
    match others.next() {
        Some(d2) => {
            assert(all =~= seq![first, d2] + others@);
            fold_others_2(first, d2, others)
        },
        None => {
            assert(all =~= seq![first]);
            Neighborhood::One(first)
        },
    }
}

/// The neighborhood of the candidates.
pub fn fold_0<T>(iter: Candidates<T>) -> (r: Neighborhood<T>)
    ensures
        is_neighborhood_of(iter@, r),
{
    let mut iter = iter;
    let ghost all = iter@;
    match iter.next() {
        Some(d1) => {
            assert(all =~= seq![d1] + iter@);
            fold_1(d1, iter)
        },
        None => Neighborhood::Empty,
    }
}

/// `s` pairs each candidate of `cs`, in order, with a distance that `dist`
/// gave for it from `point`.
pub open spec fn measured<P, T, F: Fn(&P, &T) -> u64>(
    point: &P,
    dist: F,
    cs: Seq<T>,
    s: Seq<NeighborDist<T>>,
) -> bool {
    &&& s.len() == cs.len()
    &&& forall|i: int|
        0 <= i < s.len() ==> #[trigger] s[i].0 == cs[i] && call_ensures(dist, (point, &cs[i]), s[i].1)
}

/// A set of candidates whose two nearest neighbors of a point can be found.
pub trait GetNeighborhood<P, T, F: Fn(&P, &T) -> u64>: Sized {
    /// The candidates, in the order in which they are examined.
    spec fn candidates(&self) -> Seq<T>;

    /// The two nearest candidates to `point`, nearest first, under the squared
    /// distance `dist`; ties go to the candidate examined first.
    fn get_neighborhood(self, point: &P, dist: F) -> (r: Neighborhood<T>)
        requires
            forall|c: T| call_requires(dist, (point, &c)),
        ensures
            exists|s: Seq<NeighborDist<T>>|
                measured(point, dist, self.candidates(), s) && is_neighborhood_of(s, r),
    ;
}

impl<P, T, F: Fn(&P, &T) -> u64> GetNeighborhood<P, T, F> for Vec<T> {
    open spec fn candidates(&self) -> Seq<T> {
        self@
    }

    fn get_neighborhood(self, point: &P, dist: F) -> (r: Neighborhood<T>) {
        let ghost cs = self@;
        let mut v = self;
        let mut cands: Candidates<T> = Candidates::new();
        while v.len() > 0
            invariant
                forall|c: T| call_requires(dist, (point, &c)),
                v@ == cs.take(v@.len() as int),
                cands@.len() + v@.len() == cs.len(),
                forall|i: int|
                    0 <= i < cands@.len() ==> #[trigger] cands@[i].0 == cs[v@.len() + i]
                        && call_ensures(dist, (point, &cs[v@.len() + i]), cands@[i].1),
            decreases v@.len(),
        {
            let c = v.pop().unwrap();
            let d = dist(point, &c);
            let ghost before = cands@;
            cands.push_front(NeighborDist(c, d));
            assert forall|i: int| 0 <= i < cands@.len() implies #[trigger] cands@[i].0 == cs[v@.len()
                + i] && call_ensures(dist, (point, &cs[v@.len() + i]), cands@[i].1) by {
                if i > 0 {
                    assert(cands@[i] == before[i - 1]);
                }
            }
        }
        let ghost s = cands@;
        assert(measured(point, dist, cs, s));
        fold_0(cands)
    }
}

/// There is one nearest candidate, and one runner-up: the order that
/// `precedes` puts on candidates is strict and total.
pub proof fn lemma_two_nearest_unique<T>(s: Seq<NeighborDist<T>>, i: int, j: int, i2: int, j2: int)
    requires
        is_nearest(s, i),
        is_runner_up(s, i, j),
        is_nearest(s, i2),
        is_runner_up(s, i2, j2),
    ensures
        i == i2,
        j == j2,
{
    if i != i2 {
        assert(precedes(s, i, i2));
        assert(precedes(s, i2, i));
    }
    if j != j2 {
        assert(precedes(s, j, j2));
        assert(precedes(s, j2, j));
    }
}

/// The shape of a neighborhood: nothing for no candidate, one for one, and
/// otherwise two distinct candidates, the first no farther than the second and
/// the second no farther than any other candidate.
pub proof fn lemma_neighborhood_shape<T>(s: Seq<NeighborDist<T>>, r: Neighborhood<T>)
    requires
        is_neighborhood_of(s, r),
    ensures
        r is Empty <==> s.len() == 0,
        r is One <==> s.len() == 1,
        r is Two <==> s.len() >= 2,
        r is One ==> r->One_0 == s[0],
        r is Two ==> exists|i: int, j: int|
            {
                &&& 0 <= i < s.len()
                &&& 0 <= j < s.len()
                &&& i != j
                &&& r->Two_0 == s[i]
                &&& r->Two_1 == s[j]
                &&& s[i].1 <= s[j].1
                &&& forall|k: int| 0 <= k < s.len() && k != i && k != j ==> s[j].1 <= #[trigger] s[k].1
            },
{
    if let Neighborhood::Two(a, b) = r {
        let (i, j) = choose|i: int, j: int|
            is_nearest(s, i) && is_runner_up(s, i, j) && a == s[i] && b == s[j];
        assert(precedes(s, i, j));
        assert forall|k: int| 0 <= k < s.len() && k != i && k != j implies s[j].1 <= #[trigger] s[k].1 by {
            assert(precedes(s, j, k));
        }
    }
}

} // verus!
