use essay_ecs::schedule::plan::Plan;
use essay_ecs::schedule::ready::ready_rounds;
use essay_ecs::schedule::preorder::{Preorder, NodeId};

#[test]
fn empty() {
    let mut graph = Preorder::new();

    assert_eq!(as_vec(graph.sort()).as_slice(), []);
}

#[test]
fn no_arrows() {
    let mut graph = Preorder::new();

    let n0 = graph.add_node(0);
    assert_eq!(n0, NodeId(0));

    let n1 = graph.add_node(0);
    assert_eq!(n1, NodeId(1));

    let n2 = graph.add_node(0);
    assert_eq!(n2, NodeId(2));

    let n3 = graph.add_node(0);
    assert_eq!(n3, NodeId(3));

    assert_eq!(as_vec(graph.sort()).as_slice(), [0, 1, 2, 3]);
}

#[test]
fn pair() {
    let mut g = graph(2, &[(0, 1)]);
    assert_eq!(as_vec(g.sort()).as_slice(), [0, 1]);

    let mut g = graph(2, &[(1, 0)]);
    assert_eq!(as_vec(g.sort()).as_slice(), [1, 0]);
}

#[test]
fn triple() {
    // single arrows
    let mut g = graph(3, &[(0, 1)]);
    assert_eq!(as_vec(g.sort()).as_slice(), [0, 2, 1]);

    let mut g = graph(3, &[(1, 0)]);
    assert_eq!(as_vec(g.sort()).as_slice(), [1, 2, 0]);

    let mut g = graph(3, &[(0, 2)]);
    assert_eq!(as_vec(g.sort()).as_slice(), [0, 1, 2]);

    let mut g = graph(3, &[(2, 0)]);
    assert_eq!(as_vec(g.sort()).as_slice(), [1, 2, 0]);

    let mut g = graph(3, &[(1, 2)]);
    assert_eq!(as_vec(g.sort()).as_slice(), [0, 1, 2]);

    let mut g = graph(3, &[(2, 1)]);
    assert_eq!(as_vec(g.sort()).as_slice(), [0, 2, 1]);

    // two arrows
    let mut g = graph(3, &[(0, 1), (0, 2)]);
    assert_eq!(as_vec(g.sort()).as_slice(), [0, 1, 2]);

    let mut g = graph(3, &[(0, 1), (2, 0)]);
    assert_eq!(as_vec(g.sort()).as_slice(), [2, 0, 1]);

    let mut g = graph(3, &[(1, 0), (2, 0)]);
    assert_eq!(as_vec(g.sort()).as_slice(), [1, 2, 0]);

    let mut g = graph(3, &[(1, 0), (0, 2)]);
    assert_eq!(as_vec(g.sort()).as_slice(), [1, 0, 2]);

    // --
    let mut g = graph(3, &[(0, 1), (1, 2)]);
    assert_eq!(as_vec(g.sort()).as_slice(), [0, 1, 2]);

    let mut g = graph(3, &[(1, 0), (1, 2)]);
    assert_eq!(as_vec(g.sort()).as_slice(), [1, 0, 2]);

    let mut g = graph(3, &[(1, 0), (2, 1)]);
    assert_eq!(as_vec(g.sort()).as_slice(), [2, 1, 0]);

    let mut g = graph(3, &[(0, 1), (2, 1)]);
    assert_eq!(as_vec(g.sort()).as_slice(), [0, 2, 1]);
}

#[test]
#[should_panic]
fn cycle() {
    let mut g = graph(3, &[(0, 1), (1, 0)]);
    assert_eq!(as_vec(g.sort()).as_slice(), [0, 2, 1]);
}

#[test]
fn weights_no_arrows() {
    let mut g = graph_w(&[0, 1], &[]);
    assert_eq!(as_vec(g.sort()).as_slice(), [1, 0]);

    let mut g = graph_w(&[1, 0], &[]);
    assert_eq!(as_vec(g.sort()).as_slice(), [0, 1]);

    let mut g = graph_w(&[0, 1, 2], &[]);
    assert_eq!(as_vec(g.sort()).as_slice(), [2, 1, 0]);

    let mut g = graph_w(&[0, 2, 1], &[]);
    assert_eq!(as_vec(g.sort()).as_slice(), [1, 2, 0]);

    let mut g = graph_w(&[0, 0, 1], &[]);
    assert_eq!(as_vec(g.sort()).as_slice(), [2, 0, 1]);
}

#[test]
fn weights_triple_one_arrow() {
    let mut g = graph_w(&[0, 1, 2], &[(0, 1)]);
    assert_eq!(as_vec(g.sort()).as_slice(), [2, 0, 1]);

    let mut g = graph_w(&[0, 1, 2], &[(1, 0)]);
    assert_eq!(as_vec(g.sort()).as_slice(), [2, 1, 0]);

    let mut g = graph_w(&[2, 1, 0], &[(0, 1)]);
    assert_eq!(as_vec(g.sort()).as_slice(), [0, 2, 1]);

    let mut g = graph_w(&[2, 1, 0], &[(1, 0)]);
    assert_eq!(as_vec(g.sort()).as_slice(), [1, 2, 0]);
}

#[test]
fn weights_dual_cycle() {
    let mut g = graph(4, &[
        (0, 1),
        (1, 0),
        (2, 3),
        (3, 2),
        (2, 0),
    ]);
    assert_eq!(as_vec(g.sort()).as_slice(), [2, 3, 1, 0]);

    let mut g = graph(4, &[
        (0, 1),
        (1, 0),
        (2, 3),
        (3, 2),
        (0, 2),
    ]);
    assert_eq!(as_vec(g.sort()).as_slice(), [0, 1, 3, 2]);

    let mut g = graph(6, &[
        (1, 0),
        (1, 2),
        (2, 1),

        (3, 2),

        (3, 4),
        (4, 3),
        (5, 3)
    ]);
    assert_eq!(as_vec(g.sort()).as_slice(), [5, 4, 3, 1, 0, 2]);

    let mut g = graph(6, &[
        (0, 1),
        (1, 2),
        (2, 1),

        (2, 3),

        (3, 4),
        (4, 3),
        (4, 5)
    ]);
    assert_eq!(as_vec(g.sort()).as_slice(), [0, 2, 1, 4, 3, 5]);

}


fn graph(n: usize, arrows: &[(usize, usize)]) -> Preorder {
    let mut graph = Preorder::new();

    for _ in 0..n {
        graph.add_node(0);
    }

    for arrow in arrows {
        graph.add_arrow(NodeId(arrow.0), NodeId(arrow.1));
    }

    graph
}

fn graph_w(weights: &[u64], arrows: &[(usize, usize)]) -> Preorder {
    let mut graph = Preorder::new();

    for weight in weights {
        graph.add_node(*weight);
    }

    for arrow in arrows {
        graph.add_arrow(NodeId(arrow.0), NodeId(arrow.1));
    }

    graph
}

fn as_vec(list: Vec<NodeId>) -> Vec<usize> {
    let values: Vec<usize> = list.iter().map(|i| i.0).collect();

    values
}

#[test]
fn ready_rounds_follow_arrows() {
    let mut graph = Preorder::new();
    let n0 = graph.add_node(0);
    let n1 = graph.add_node(0);
    let n2 = graph.add_node(0);
    let n3 = graph.add_node(0);
    graph.add_arrow(n2, n0);
    graph.add_arrow(n1, n0);
    graph.add_arrow(n0, n3);

    let plan = Plan::new(&mut graph);
    let order: Vec<usize> = plan.order().iter().map(|id| id.0).collect();
    let rounds: Vec<Vec<usize>> = ready_rounds(&plan)
        .iter()
        .map(|round| round.iter().map(|p| order[*p]).collect())
        .collect();

    assert_eq!(rounds.len(), 3);
    let mut first = rounds[0].clone();
    first.sort();
    assert_eq!(first, vec![1, 2]);
    assert_eq!(rounds[1], vec![0]);
    assert_eq!(rounds[2], vec![3]);
}
