use fluent_data::neighborhood::{smallest, GetNeighborhood, NeighborDist, Neighborhood};

fn euclid_dist(p1: &Vec<f64>, p2: &Vec<f64>) -> f64 {
    p1.iter().zip(p2.iter()).map(|(a, b)| (a - b) * (a - b)).sum()
}

fn key(d: f64) -> u64 {
    d.to_bits()
}

fn nearest<'a>(centers: &'a Vec<Vec<f64>>, point: &Vec<f64>) -> Neighborhood<&'a Vec<f64>> {
    let cands: Vec<&Vec<f64>> = centers.iter().collect();
    cands.get_neighborhood(point, |p: &Vec<f64>, c: &&Vec<f64>| key(euclid_dist(p, c)))
}

#[test]
fn neighborhood_test_point_dist() {
    let point = vec![0., 0.];
    let p = NeighborDist(&point, key(2.4));
    assert_eq!(&point, *p.coord());
    assert_eq!(2.4, f64::from_bits(p.dist()));
}

#[test]
fn neighborhood_test_neighbors() {
    let centers = vec![vec![1., 1.], vec![3.5, -1.6], vec![2.4, 4.], vec![-0.5, 1.]];
    let point = &vec![0., 0.];
    let nn = nearest(&centers, point);
    assert_eq!(
        Neighborhood::Two(
            NeighborDist(&centers[3], key(1.25)),
            NeighborDist(&centers[0], key(2.))
        ),
        nn
    );
    let point = &vec![1.2, 5.];
    let nn = nearest(&centers, point);
    assert_eq!(
        Neighborhood::Two(
            NeighborDist(&centers[2], key(2.44)),
            NeighborDist(&centers[0], key(16.04))
        ),
        nn
    );
}

#[test]
fn test_neighbors_0_model() {
    let centers: Vec<Vec<f64>> = vec![];
    let point = &vec![0., 0.];
    let nn = nearest(&centers, point);
    assert_eq!(Neighborhood::Empty, nn);
}

#[test]
fn test_neighbors_1_model() {
    let centers = vec![vec![1., 1.]];
    let point = &vec![0., 0.];
    let nn = nearest(&centers, point);
    assert_eq!(Neighborhood::One(NeighborDist(&centers[0], key(2.))), nn);
}

#[test]
fn test_neighbors_2_models() {
    let centers = vec![vec![1., 1.], vec![-0.5, 1.]];
    let point = &vec![0., 0.];
    let nn = nearest(&centers, point);
    assert_eq!(
        Neighborhood::Two(
            NeighborDist(&centers[1], key(1.25)),
            NeighborDist(&centers[0], key(2.))
        ),
        nn
    );
}

#[test]
fn neighborhood_test_smallest() {
    let p: Vec<f64> = vec![];
    let d1 = NeighborDist(&p, key(7.));
    let d2 = NeighborDist(&p, key(4.));
    let d3 = NeighborDist(&p, key(1.));
    let s = smallest(d1, d2, d3);
    assert_eq!((NeighborDist(&p, key(1.)), NeighborDist(&p, key(4.))), s);
    let d1 = NeighborDist(&p, key(7.));
    let d2 = NeighborDist(&p, key(4.));
    let d3 = NeighborDist(&p, key(5.));
    let s = smallest(d1, d2, d3);
    assert_eq!((NeighborDist(&p, key(4.)), NeighborDist(&p, key(5.))), s);
    let d1 = NeighborDist(&p, key(7.));
    let d2 = NeighborDist(&p, key(4.));
    let d3 = NeighborDist(&p, key(8.));
    let s = smallest(d1, d2, d3);
    assert_eq!((NeighborDist(&p, key(4.)), NeighborDist(&p, key(7.))), s);
}

#[test]
fn smallest_all_six_orderings() {
    let orders: [[u64; 3]; 6] = [[1, 2, 3], [1, 3, 2], [2, 1, 3], [2, 3, 1], [3, 1, 2], [3, 2, 1]];
    for o in orders.iter() {
        let (a, b) = smallest(
            NeighborDist('a', o[0]),
            NeighborDist('b', o[1]),
            NeighborDist('c', o[2]),
        );
        assert_eq!(1, a.dist());
        assert_eq!(2, b.dist());
    }
}

#[test]
fn smallest_ties_go_to_the_earlier() {
    let (a, b) = smallest(NeighborDist('a', 5), NeighborDist('b', 5), NeighborDist('c', 5));
    assert_eq!(('a', 'b'), (a.0, b.0));
    let (a, b) = smallest(NeighborDist('a', 9), NeighborDist('b', 5), NeighborDist('c', 5));
    assert_eq!(('b', 'c'), (a.0, b.0));
}

#[test]
fn neighborhood_ties_go_to_the_first_seen() {
    let cands = vec!['a', 'b', 'c', 'd'];
    let dists = |_: &u8, c: &char| -> u64 {
        match *c {
            'a' => 3,
            'b' => 1,
            'c' => 1,
            _ => 1,
        }
    };
    let nn = cands.get_neighborhood(&0u8, dists);
    assert_eq!(Neighborhood::Two(NeighborDist('b', 1), NeighborDist('c', 1)), nn);
}

#[test]
fn neighborhood_second_is_nearest_of_the_rest() {
    let cands: Vec<u64> = vec![50, 10, 40, 30, 20, 60];
    let nn = cands.get_neighborhood(&0u64, |q: &u64, c: &u64| c - q);
    assert_eq!(Neighborhood::Two(NeighborDist(10, 10), NeighborDist(20, 20)), nn);
}
