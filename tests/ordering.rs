use scheduler_benchmark::error::ScheduleError;
use scheduler_benchmark::graph::TaskGraph;
use scheduler_benchmark::order::{heft_order, topological_order};

fn position(order: &[usize], t: usize) -> usize {
    order.iter().position(|x| *x == t).unwrap()
}

#[test]
fn topological_order_puts_producers_first() {
    let mut g = TaskGraph::new(5);
    g.add_dependency(4, 2, 10);
    g.add_dependency(2, 0, 5);
    g.add_dependency(3, 1, 7);
    g.add_dependency(4, 1, 1);
    let order = topological_order(&g).unwrap();
    assert_eq!(order.len(), 5);
    let mut sorted = order.clone();
    sorted.sort();
    assert_eq!(sorted, vec![0, 1, 2, 3, 4]);
    for d in g.dependencies.iter() {
        assert!(position(&order, d.source) < position(&order, d.target));
    }
    assert_ne!(order, vec![0, 1, 2, 3, 4]);
}

#[test]
fn topological_order_reports_cycle() {
    let mut g = TaskGraph::new(3);
    g.add_dependency(0, 1, 1);
    g.add_dependency(1, 2, 1);
    g.add_dependency(2, 0, 1);
    assert_eq!(topological_order(&g), Err(ScheduleError::Cycle));
    let mut h = TaskGraph::new(1);
    h.add_dependency(0, 0, 1);
    assert_eq!(topological_order(&h), Err(ScheduleError::Cycle));
}

#[test]
fn topological_order_of_empty_graph() {
    let g = TaskGraph::new(0);
    assert_eq!(topological_order(&g), Ok(vec![]));
}

#[test]
fn heft_order_sorts_by_rank_descending_with_ties_reversed() {
    assert_eq!(heft_order(&vec![3, 5, 5, 1]), vec![2, 1, 0, 3]);
    assert_eq!(heft_order(&vec![0, 0, 0]), vec![2, 1, 0]);
    assert_eq!(heft_order(&vec![1, 2, 3, 4]), vec![3, 2, 1, 0]);
    assert_eq!(heft_order(&vec![]), Vec::<usize>::new());
}

#[test]
fn heft_order_is_idempotent() {
    let ranks = vec![21, 14, 16, 0, 4, 21, 9, 9];
    assert_eq!(heft_order(&ranks), heft_order(&ranks));
}

#[test]
fn incoming_and_outgoing_edges() {
    let mut g = TaskGraph::new(3);
    g.add_dependency(0, 2, 4);
    g.add_dependency(1, 2, 6);
    g.add_dependency(0, 1, 8);
    assert_eq!(g.incoming(2), vec![0, 1]);
    assert_eq!(g.outgoing(0), vec![0, 2]);
    assert_eq!(g.incoming(0), Vec::<usize>::new());
    g.pin(1, 0);
    assert_eq!(g.pins, vec![None, Some(0), None]);
}
