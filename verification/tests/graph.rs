use ez_core::graph::{connect, evaluation_order, inputs_of, layer_wiring, EvalStep, Wire};

fn w(from: u32, to: u32, to_pin: usize) -> Wire {
    Wire { from, from_pin: 0, to, to_pin }
}

#[test]
fn connecting_replaces_the_input() {
    let mut wires = vec![w(1, 0, 0), w(2, 0, 1)];
    connect(&mut wires, 3, 0, 0, 0);
    assert_eq!(wires, vec![w(2, 0, 1), w(3, 0, 0)]);
    connect(&mut wires, 4, 0, 5, 0);
    assert_eq!(wires.len(), 3);
}

#[test]
fn inputs_are_read_by_pin() {
    let wires = vec![w(1, 9, 2), w(2, 8, 0), w(3, 9, 0), w(4, 9, 2), w(5, 9, 1)];
    let ins: Vec<u32> = inputs_of(&wires, 9).iter().map(|w| w.from).collect();
    assert_eq!(ins, vec![3, 5, 1, 4]);
    assert!(inputs_of(&wires, 7).is_empty());
}

#[test]
fn cycles_do_not_hang() {
    // Output 0 fed by merge 1; merges 1 and 2 feed each other.
    let nodes = vec![0u32, 1, 2];
    let mut wires = Vec::new();
    connect(&mut wires, 1, 0, 2, 0);
    connect(&mut wires, 2, 0, 1, 0);
    connect(&mut wires, 1, 0, 0, 0);
    let steps = evaluation_order(&nodes, &wires, 0);
    assert_eq!(
        steps,
        vec![
            EvalStep::Empty,
            EvalStep::Node { id: 2, inputs: 1 },
            EvalStep::Node { id: 1, inputs: 1 },
            EvalStep::Node { id: 0, inputs: 1 },
        ]
    );
}

#[test]
fn evaluation_visits_inputs_by_pin_and_skips_unknown_nodes() {
    let nodes = vec![0u32, 1, 2];
    let wires = vec![w(2, 0, 1), w(1, 0, 0), w(9, 0, 2)];
    assert_eq!(
        evaluation_order(&nodes, &wires, 0),
        vec![
            EvalStep::Node { id: 1, inputs: 0 },
            EvalStep::Node { id: 2, inputs: 0 },
            EvalStep::Empty,
            EvalStep::Node { id: 0, inputs: 3 },
        ]
    );
    assert_eq!(evaluation_order(&nodes, &wires, 7), vec![EvalStep::Empty]);
}

#[test]
fn deep_chains_stop() {
    let n = 300u32;
    let nodes: Vec<u32> = (0..n).collect();
    let wires: Vec<Wire> = (1..n).map(|i| w(i, i - 1, 0)).collect();
    let steps = evaluation_order(&nodes, &wires, 0);
    assert_eq!(steps[0], EvalStep::Empty);
    assert_eq!(steps.len(), 258);
}

#[test]
fn layers_are_wired_in_groups_of_four() {
    assert!(layer_wiring(0).is_empty());
    assert_eq!(
        layer_wiring(5),
        vec![w(1, 0, 0), w(2, 1, 0), w(3, 1, 1), w(4, 1, 2), w(5, 1, 3), w(6, 0, 1), w(7, 6, 0)]
    );
}

#[test]
fn every_group_feeds_the_output() {
    let wires = layer_wiring(36);
    let into_output: Vec<(u32, usize)> =
        wires.iter().filter(|x| x.to == 0).map(|x| (x.from, x.to_pin)).collect();
    assert_eq!(
        into_output,
        vec![(1, 0), (6, 1), (11, 2), (16, 3), (21, 4), (26, 5), (31, 6), (36, 7), (41, 8)]
    );
    assert_eq!(wires.iter().filter(|x| x.to != 0).count(), 36);
    assert!(wires.contains(&w(45, 41, 3)));
}

#[test]
fn layers_compile_back_in_order() {
    // 36 layers: nine groups, nodes 0 (output) to 45.
    let wires = layer_wiring(36);
    let nodes: Vec<u32> = (0..46).collect();
    let steps = evaluation_order(&nodes, &wires, 0);
    let sources: Vec<u32> = steps
        .iter()
        .filter_map(|s| match s {
            EvalStep::Node { id, inputs: 0 } => Some(*id),
            _ => None,
        })
        .collect();
    let want: Vec<u32> = (0..36u32).map(|i| 1 + 5 * (i / 4) + 1 + i % 4).collect();
    assert_eq!(sources, want);
    assert_eq!(steps.last(), Some(&EvalStep::Node { id: 0, inputs: 9 }));
}
