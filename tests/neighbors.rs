use fluent_data::neighbors::{smallest, GetNeighbors, Neighborhood, PointDist};

fn euclid_dist(p1: &Vec<f64>, p2: &Vec<f64>) -> f64 {
    p1.iter().zip(p2.iter()).map(|(a, b)| (a - b) * (a - b)).sum()
}

fn key(d: f64) -> u64 {
    d.to_bits()
}

fn nearest<'a>(centers: &'a Vec<Vec<f64>>, point: &Vec<f64>) -> Neighborhood<&'a Vec<f64>> {
    let cands: Vec<&Vec<f64>> = centers.iter().collect();
    cands.get_neighbors(point, |p: &Vec<f64>, c: &&Vec<f64>| key(euclid_dist(p, c)))
}

#[test]
fn neighbors_test_point_dist() {
    let point = vec![0., 0.];
    let p = PointDist(&point, key(2.4));
    assert_eq!(&point, *p.coord());
    assert_eq!(2.4, f64::from_bits(p.dist()));
}

#[test]
fn neighbors_test_neighbors() {
    let centers = vec![vec![1., 1.], vec![3.5, -1.6], vec![2.4, 4.], vec![-0.5, 1.]];
    let point = &vec![0., 0.];
    let nn = nearest(&centers, point);
    assert_eq!(
        Neighborhood(
            Some(PointDist(&centers[3], key(1.25))),
            Some(PointDist(&centers[0], key(2.)))
        ),
        nn
    );
    let point = &vec![1.2, 5.];
    let nn = nearest(&centers, point);
    assert_eq!(
        Neighborhood(
            Some(PointDist(&centers[2], key(2.44))),
            Some(PointDist(&centers[0], key(16.04)))
        ),
        nn
    );
}

#[test]
fn test_neighbors_0_centroid() {
    let centers: Vec<Vec<f64>> = vec![];
    let point = &vec![0., 0.];
    let nn = nearest(&centers, point);
    assert_eq!(Neighborhood(None, None), nn);
}

#[test]
fn test_neighbors_1_centroid() {
    let centers = vec![vec![1., 1.]];
    let point = &vec![0., 0.];
    let nn = nearest(&centers, point);
    assert_eq!(Neighborhood(Some(PointDist(&centers[0], key(2.))), None), nn);
}

#[test]
fn test_neighbors_2_centroids() {
    let centers = vec![vec![1., 1.], vec![-0.5, 1.]];
    let point = &vec![0., 0.];
    let nn = nearest(&centers, point);
    assert_eq!(
        Neighborhood(
            Some(PointDist(&centers[1], key(1.25))),
            Some(PointDist(&centers[0], key(2.)))
        ),
        nn
    );
}

#[test]
fn neighbors_test_smallest() {
    let p: Vec<f64> = vec![];
    let d1 = PointDist(&p, key(7.));
    let d2 = PointDist(&p, key(4.));
    let d3 = PointDist(&p, key(1.));
    let s = smallest(d1, d2, d3);
    assert_eq!((PointDist(&p, key(1.)), PointDist(&p, key(4.))), s);
    let d1 = PointDist(&p, key(7.));
    let d2 = PointDist(&p, key(4.));
    let d3 = PointDist(&p, key(5.));
    let s = smallest(d1, d2, d3);
    assert_eq!((PointDist(&p, key(4.)), PointDist(&p, key(5.))), s);
    let d1 = PointDist(&p, key(7.));
    let d2 = PointDist(&p, key(4.));
    let d3 = PointDist(&p, key(8.));
    let s = smallest(d1, d2, d3);
    assert_eq!((PointDist(&p, key(4.)), PointDist(&p, key(7.))), s);
}
