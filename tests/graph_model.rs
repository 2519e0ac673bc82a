use fluent_data::graph::Graph;
use fluent_data::model::Model;
use fluent_data::neighborhood::{NeighborDist, Neighborhood};

fn sorted(mut v: Vec<usize>) -> Vec<usize> {
    v.sort();
    v
}

#[test]
fn graph_ids_are_never_reused() {
    let mut g: Graph<char> = Graph::new();
    let a = g.add_node('a');
    let b = g.add_node('b');
    assert_ne!(a, b);
    g.remove_node(b);
    let c = g.add_node('c');
    assert_ne!(b, c);
    assert!(!g.contains(b));
    assert_eq!(vec![a, c], g.nodes());
    assert_eq!('c', *g.ball(c));
}

#[test]
fn graph_edges_are_symmetric_and_idempotent() {
    let mut g: Graph<u32> = Graph::new();
    let a = g.add_node(1);
    let b = g.add_node(2);
    let c = g.add_node(3);
    g.add_edge(a, b);
    g.add_edge(b, a);
    g.add_edge(a, c);
    assert_eq!(vec![b, c], sorted(g.neighbors(a)));
    assert_eq!(vec![a], g.neighbors(b));
    assert_eq!(vec![a], g.neighbors(c));
    g.remove_edge(c, a);
    assert_eq!(vec![b], g.neighbors(a));
    assert!(g.neighbors(c).is_empty());
    g.remove_edge(c, a);
    assert_eq!(vec![b], g.neighbors(a));
}

#[test]
fn graph_remove_node_drops_its_edges() {
    let mut g: Graph<u32> = Graph::new();
    let a = g.add_node(1);
    let b = g.add_node(2);
    let c = g.add_node(3);
    g.add_edge(a, b);
    g.add_edge(b, c);
    g.add_edge(a, c);
    g.remove_node(b);
    assert_eq!(vec![c], g.neighbors(a));
    assert_eq!(vec![a], g.neighbors(c));
    assert_eq!(vec![a, c], g.nodes());
}

#[test]
fn graph_replace_ball_hands_back_the_old_one() {
    let mut g: Graph<u32> = Graph::new();
    let a = g.add_node(1);
    assert_eq!(1, g.replace_ball(a, 5));
    assert_eq!(5, *g.ball(a));
}

#[test]
fn model_load_then_iter_balls_gives_the_balls_back() {
    let balls = vec![(0u64, 5u64), (1, 5), (7, 2)];
    let m = Model::load(balls.clone());
    let listed: Vec<(u64, u64)> = m.iter_balls().into_iter().cloned().collect();
    assert_eq!(balls, listed);
    assert_eq!(3, m.len());
    for id in m.graph.nodes() {
        assert!(m.graph.neighbors(id).is_empty());
    }
}

#[test]
fn empty_model_lists_no_ball() {
    let m: Model<u64> = Model::new();
    assert!(m.iter_balls().is_empty());
    assert_eq!(0, m.len());
}

#[test]
fn model_nearest_two_orders_by_distance() {
    let m = Model::load(vec![10u64, 3, 8, 4]);
    let nn = m.nearest_two(&5u64, |q: &u64, b: &&u64| {
        let d = if **b > *q { **b - *q } else { *q - **b };
        d * d
    });
    assert_eq!(Neighborhood::Two(NeighborDist(&4, 1), NeighborDist(&3, 4)), nn);
}

#[test]
fn graph_merge_rehomes_edges() {
    let mut g: Graph<u32> = Graph::new();
    let x = g.add_node(1);
    let y = g.add_node(2);
    let z = g.add_node(3);
    let w = g.add_node(4);
    g.add_edge(x, y);
    g.add_edge(y, z);
    g.add_edge(y, w);
    g.add_edge(x, w);
    assert_eq!(2, g.merge_node(x, y));
    assert!(!g.contains(y));
    assert_eq!(vec![x, z, w], g.nodes());
    assert_eq!(vec![z, w], sorted(g.neighbors(x)));
    assert_eq!(vec![x], g.neighbors(z));
    assert_eq!(vec![x], g.neighbors(w));
}

#[test]
fn graph_split_joins_winner_and_runner_up() {
    let mut g: Graph<u32> = Graph::new();
    let a = g.add_node(1);
    let b = g.add_node(2);
    let c = g.add_node(3);
    g.add_edge(a, c);
    let n = g.split_node(a, Some(b), 9);
    assert_eq!(9, *g.ball(n));
    assert_eq!(vec![a, b], sorted(g.neighbors(n)));
    assert_eq!(vec![c, n], sorted(g.neighbors(a)));
    assert_eq!(vec![n], g.neighbors(b));
    assert_eq!(vec![a], g.neighbors(c));
    let m = g.split_node(c, None, 7);
    assert_eq!(vec![c], g.neighbors(m));
}
