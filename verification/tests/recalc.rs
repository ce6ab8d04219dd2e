use ferrum::coord::{A1Ref, CellAddr, SheetId};
use ferrum::graph::{Dependency, DependencyGraph};
use ferrum::recalc::{affected_by, evaluation_order, recalculation_plan};

fn at(a1: &str) -> CellAddr {
    CellAddr::new(SheetId(0), A1Ref::parse(a1).unwrap().cell)
}

fn reads(graph: &mut DependencyGraph, formula: &str, inputs: &[&str]) {
    graph.set_precedents(at(formula), inputs.iter().map(|a| Dependency::Cell(at(a))).collect());
}

fn position(order: &[CellAddr], a1: &str) -> usize {
    order.iter().position(|c| *c == at(a1)).unwrap()
}

#[test]
fn an_edit_reaches_every_formula_downstream_and_nothing_else() {
    let mut graph = DependencyGraph::new();
    reads(&mut graph, "B1", &["A1"]);
    reads(&mut graph, "C1", &["B1"]);
    reads(&mut graph, "D1", &["Z9"]);
    let reached = affected_by(&graph, &vec![at("A1")]);
    assert_eq!(reached, vec![at("A1"), at("B1"), at("C1")]);
    assert_eq!(affected_by(&graph, &vec![at("Q1")]), vec![at("Q1")]);
    assert!(affected_by(&graph, &vec![]).is_empty());
}

#[test]
fn every_formula_comes_after_what_it_reads() {
    let mut graph = DependencyGraph::new();
    // A diamond: B and C read A, D reads both.
    reads(&mut graph, "B1", &["A1"]);
    reads(&mut graph, "C1", &["A1"]);
    reads(&mut graph, "D1", &["B1", "C1"]);
    let (order, circular) = recalculation_plan(&graph, &vec![at("A1")]);
    assert!(circular.is_empty());
    assert_eq!(order.len(), 4);
    assert!(position(&order, "A1") < position(&order, "B1"));
    assert!(position(&order, "A1") < position(&order, "C1"));
    assert!(position(&order, "B1") < position(&order, "D1"));
    assert!(position(&order, "C1") < position(&order, "D1"));
}

#[test]
fn a_cycle_is_set_apart_and_the_rest_still_ordered() {
    let mut graph = DependencyGraph::new();
    reads(&mut graph, "A1", &["B1"]);
    reads(&mut graph, "B1", &["A1"]);
    reads(&mut graph, "C1", &["D1"]);
    let cells = vec![at("A1"), at("B1"), at("C1"), at("D1")];
    let (order, circular) = evaluation_order(&graph, &cells);
    assert_eq!(circular, vec![at("A1"), at("B1")]);
    assert_eq!(order, vec![at("D1"), at("C1")]);
}

#[test]
fn a_cell_reading_itself_is_circular() {
    let mut graph = DependencyGraph::new();
    reads(&mut graph, "A1", &["A1"]);
    let (order, circular) = recalculation_plan(&graph, &vec![at("A1")]);
    assert!(order.is_empty());
    assert_eq!(circular, vec![at("A1")]);
}

#[test]
fn the_plan_is_the_same_run_to_run() {
    let mut graph = DependencyGraph::new();
    reads(&mut graph, "B2", &["A1"]);
    reads(&mut graph, "C3", &["A1", "B2"]);
    reads(&mut graph, "A3", &["C3"]);
    let first = recalculation_plan(&graph, &vec![at("A1")]);
    let second = recalculation_plan(&graph, &vec![at("A1")]);
    assert_eq!(first, second);
    assert_eq!(first.0, vec![at("A1"), at("B2"), at("C3"), at("A3")]);
}

#[test]
fn only_the_cells_met_again_on_the_walk_are_set_apart() {
    // A1 -> B1 -> C1 -> A1 is a cycle; D1 reads A1 and C1 reads D1 too, so
    // D1 is on a cycle as well, but the walk meets C1 finished by then.
    let mut graph = DependencyGraph::new();
    reads(&mut graph, "B1", &["A1"]);
    reads(&mut graph, "C1", &["B1", "D1"]);
    reads(&mut graph, "A1", &["C1"]);
    reads(&mut graph, "D1", &["A1"]);
    let (order, circular) = recalculation_plan(&graph, &vec![at("A1")]);
    assert!(circular.contains(&at("A1")));
    assert!(circular.contains(&at("B1")));
    assert!(circular.contains(&at("C1")));
    assert_eq!(order.len() + circular.len(), 4);
}

#[test]
fn a_cycle_through_several_cells_is_caught() {
    // A1 reads C1, B1 reads A1, C1 reads B1: all three are circular.
    let mut graph = DependencyGraph::new();
    reads(&mut graph, "A1", &["C1"]);
    reads(&mut graph, "B1", &["A1"]);
    reads(&mut graph, "C1", &["B1"]);
    let (order, circular) = recalculation_plan(&graph, &vec![at("A1")]);
    assert_eq!(circular, vec![at("A1"), at("B1"), at("C1")]);
    assert!(order.is_empty());
}
