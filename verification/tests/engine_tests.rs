use floyd_warshall::distance::Distance;
use floyd_warshall::engine::{floyd_warshall, Matrix};

fn fin(w: u32) -> Distance {
    Distance::Finite(w)
}

/// The four-vertex example graph: edges 0->1: 5, 1->2: 3, 0->2: 10,
/// 2->3: 1, everything else absent, zero diagonal.
fn example_graph() -> Matrix {
    let inf = Distance::Inf;
    let rows = vec![
        vec![fin(0), fin(5), fin(10), inf],
        vec![inf, fin(0), fin(3), inf],
        vec![inf, inf, fin(0), fin(1)],
        vec![inf, inf, inf, fin(0)],
    ];
    Matrix::from_rows(&rows).expect("the example graph is square")
}

#[test]
fn example_graph_shortest_distances() {
    let mut m = example_graph();
    floyd_warshall(&mut m);
    assert_eq!(m.get(0, 1), fin(5));
    assert_eq!(m.get(0, 2), fin(8));
    assert_eq!(m.get(0, 3), fin(9));
    assert_eq!(m.get(1, 2), fin(3));
    assert_eq!(m.get(1, 3), fin(4));
    assert_eq!(m.get(2, 3), fin(1));
    assert_eq!(m.get(3, 0), Distance::Inf);
    assert_eq!(m.get(3, 1), Distance::Inf);
    assert_eq!(m.get(3, 2), Distance::Inf);
    assert_eq!(m.get(1, 0), Distance::Inf);
    assert_eq!(m.get(2, 0), Distance::Inf);
    assert_eq!(m.get(2, 1), Distance::Inf);
    for i in 0..4 {
        assert_eq!(m.get(i, i), fin(0));
    }
}

#[test]
fn running_twice_changes_nothing() {
    let mut once = example_graph();
    floyd_warshall(&mut once);
    let mut twice = example_graph();
    floyd_warshall(&mut twice);
    floyd_warshall(&mut twice);
    assert_eq!(once.size(), twice.size());
    for i in 0..once.size() {
        for j in 0..once.size() {
            assert_eq!(once.get(i, j), twice.get(i, j));
        }
    }
}

#[test]
fn diagonal_stays_zero() {
    let mut m = example_graph();
    floyd_warshall(&mut m);
    for i in 0..m.size() {
        assert_eq!(m.get(i, i), fin(0));
    }
}

#[test]
fn triangle_inequality_holds_after_the_run() {
    let mut m = example_graph();
    floyd_warshall(&mut m);
    let n = m.size();
    for i in 0..n {
        for j in 0..n {
            for k in 0..n {
                let direct = m.get(i, j);
                let through = m.get(i, k).add(m.get(k, j));
                assert!(direct <= through);
            }
        }
    }
}

#[test]
fn no_distance_ever_increases() {
    let input = example_graph();
    let mut output = example_graph();
    floyd_warshall(&mut output);
    let n = input.size();
    for i in 0..n {
        for j in 0..n {
            assert!(output.get(i, j) <= input.get(i, j));
        }
    }
}

#[test]
fn unreachable_pairs_stay_inf() {
    // Two islands: {0, 1} and {2, 3}, with edges only inside each island.
    let inf = Distance::Inf;
    let rows = vec![
        vec![fin(0), fin(1), inf, inf],
        vec![fin(1), fin(0), inf, inf],
        vec![inf, inf, fin(0), fin(2)],
        vec![inf, inf, fin(2), fin(0)],
    ];
    let mut m = Matrix::from_rows(&rows).expect("square");
    floyd_warshall(&mut m);
    for i in 0..2 {
        for j in 2..4 {
            assert_eq!(m.get(i, j), Distance::Inf);
            assert_eq!(m.get(j, i), Distance::Inf);
        }
    }
    assert_eq!(m.get(0, 1), fin(1));
    assert_eq!(m.get(2, 3), fin(2));
}

#[test]
fn single_vertex_matrix_is_unchanged() {
    let rows = vec![vec![fin(0)]];
    let mut m = Matrix::from_rows(&rows).expect("square");
    floyd_warshall(&mut m);
    assert_eq!(m.size(), 1);
    assert_eq!(m.get(0, 0), fin(0));
}

#[test]
fn empty_matrix_is_a_no_op() {
    let rows: Vec<Vec<Distance>> = vec![];
    let mut m = Matrix::from_rows(&rows).expect("square");
    floyd_warshall(&mut m);
    assert_eq!(m.size(), 0);
}

#[test]
fn ragged_rows_are_rejected() {
    let rows = vec![vec![fin(0), fin(1)], vec![fin(2)]];
    assert!(Matrix::from_rows(&rows).is_none());
    let rows = vec![vec![fin(0)], vec![fin(1)]];
    assert!(Matrix::from_rows(&rows).is_none());
    let rows = vec![vec![fin(0), fin(1), fin(2)], vec![fin(3), fin(4), fin(5)]];
    assert!(Matrix::from_rows(&rows).is_none());
}

#[test]
fn filled_builds_a_constant_matrix() {
    let m = Matrix::filled(3, Distance::Inf).expect("3 by 3 fits");
    assert_eq!(m.size(), 3);
    for i in 0..3 {
        for j in 0..3 {
            assert_eq!(m.get(i, j), Distance::Inf);
        }
    }
}

#[test]
fn filled_rejects_an_overflowing_dimension() {
    assert!(Matrix::filled(usize::MAX, Distance::Inf).is_none());
}

#[test]
fn set_overwrites_one_cell() {
    let mut m = Matrix::filled(2, Distance::Inf).expect("2 by 2 fits");
    m.set(0, 1, fin(7));
    assert_eq!(m.get(0, 1), fin(7));
    assert_eq!(m.get(0, 0), Distance::Inf);
    assert_eq!(m.get(1, 0), Distance::Inf);
    assert_eq!(m.get(1, 1), Distance::Inf);
}

#[test]
fn relaxation_beats_a_direct_edge() {
    // 0 -> 2 direct costs 10, but 0 -> 1 -> 2 costs 8.
    let mut m = example_graph();
    floyd_warshall(&mut m);
    assert!(m.get(0, 2) < fin(10));
    assert_eq!(m.get(0, 2), fin(8));
}

#[test]
fn diagonal_can_improve_through_a_cheaper_cycle() {
    // A self-loop of cost 5 at vertex 0 is beaten by the cycle 0 -> 1 -> 0
    // of cost 2: the engine treats the diagonal as ordinary cells.
    let rows = vec![vec![fin(5), fin(1)], vec![fin(1), fin(0)]];
    let mut m = Matrix::from_rows(&rows).expect("square");
    floyd_warshall(&mut m);
    assert_eq!(m.get(0, 0), fin(2));
    assert_eq!(m.get(0, 1), fin(1));
    assert_eq!(m.get(1, 0), fin(1));
    assert_eq!(m.get(1, 1), fin(0));
}

#[test]
fn saturating_weights_keep_the_run_total() {
    // Two huge legs in a row saturate instead of wrapping around to a
    // small, wrong distance.
    let inf = Distance::Inf;
    let big = u32::MAX - 1;
    let rows = vec![
        vec![fin(0), fin(big), inf],
        vec![inf, fin(0), fin(big)],
        vec![inf, inf, fin(0)],
    ];
    let mut m = Matrix::from_rows(&rows).expect("square");
    floyd_warshall(&mut m);
    assert_eq!(m.get(0, 2), fin(u32::MAX));
}
