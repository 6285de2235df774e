use avenue_model::fitting::{choose_joint_pairs, sweep_order};
use avenue_model::quantity::Quantity;

fn q(x: f64) -> Quantity {
    let bits = x.to_bits() as i64;
    if bits < 0 {
        Quantity::Ordered(-(bits & i64::MAX))
    } else {
        Quantity::Ordered(bits)
    }
}

#[test]
fn joint_pairs_are_disjoint_worst_first_and_finer_table_leads() {
    let shapes = vec![1, 6, 30, 4, 9];
    // Worst first: (1, 2) is taken; (2, 3) shares table 2 and is passed over.
    let pairs = choose_joint_pairs(&vec![(1, 2), (2, 3), (4, 3)], &shapes);
    assert_eq!(pairs, vec![(2, 1), (4, 3)]);
}

#[test]
fn the_most_coupled_tables_are_swept_first() {
    let pairs = vec![(1, 2, q(0.97)), (2, 3, q(0.61)), (0, 3, Quantity::Undefined)];
    assert_eq!(sweep_order(&pairs, 5), vec![1, 2, 3, 0, 4]);
    assert_eq!(sweep_order(&vec![], 3), vec![0, 1, 2]);
}

#[test]
fn joint_pairs_are_taken_worst_first() {
    let shapes = vec![3, 5, 2];
    assert_eq!(choose_joint_pairs(&vec![(0, 1), (1, 2)], &shapes), vec![(1, 0)]);
    assert_eq!(choose_joint_pairs(&vec![(2, 1), (0, 1)], &shapes), vec![(1, 2)]);
    // A pair naming one table twice is taken as it stands.
    assert_eq!(choose_joint_pairs(&vec![(2, 2), (0, 2), (0, 1)], &shapes), vec![(2, 2), (1, 0)]);
}
