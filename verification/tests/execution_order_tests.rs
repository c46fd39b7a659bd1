use rsim::assoc::AssocMap;
use rsim::execution_order::ExecutionOrderBuilder;
use rsim::types::ComponentId;
use rsim::components::{PortSpec, ProcessorModule};
use rsim::modules::{ComponentInstance, ComponentModule};
use rsim::registry::ComponentRegistry;

fn create_test_component(id: &str) -> ComponentId {
    ComponentId::new(id.to_string(), "test".to_string())
}

#[test]
fn test_build_execution_order_stages_simple() {
    let components = vec![
        create_test_component("A"),
        create_test_component("B"),
        create_test_component("C"),
    ];

    let mut connections = AssocMap::new();
    connections.insert(
        (create_test_component("A"), "out".to_string()),
        vec![(create_test_component("B"), "in".to_string())],
    );
    connections.insert(
        (create_test_component("B"), "out".to_string()),
        vec![(create_test_component("C"), "in".to_string())],
    );

    let stages = ExecutionOrderBuilder::build_execution_order_stages(&components, &connections)
        .expect("Should build execution order");

    assert_eq!(stages.len(), 3);
    assert_eq!(stages[0], vec![create_test_component("A")]);
    assert_eq!(stages[1], vec![create_test_component("B")]);
    assert_eq!(stages[2], vec![create_test_component("C")]);
}

#[test]
fn test_build_execution_order_stages_parallel() {
    let components = vec![
        create_test_component("A"),
        create_test_component("B"),
        create_test_component("C"),
        create_test_component("D"),
    ];

    let mut connections = AssocMap::new();
    connections.insert(
        (create_test_component("A"), "out".to_string()),
        vec![
            (create_test_component("B"), "in".to_string()),
            (create_test_component("C"), "in".to_string()),
        ],
    );
    connections.insert(
        (create_test_component("B"), "out".to_string()),
        vec![(create_test_component("D"), "in1".to_string())],
    );
    connections.insert(
        (create_test_component("C"), "out".to_string()),
        vec![(create_test_component("D"), "in2".to_string())],
    );

    let stages = ExecutionOrderBuilder::build_execution_order_stages(&components, &connections)
        .expect("Should build execution order");

    assert_eq!(stages.len(), 3);
    assert_eq!(stages[0], vec![create_test_component("A")]);

    let mut stage1 = stages[1].clone();
    stage1.sort();
    assert_eq!(stage1, vec![create_test_component("B"), create_test_component("C")]);

    assert_eq!(stages[2], vec![create_test_component("D")]);
}

#[test]
fn test_build_execution_order_stages_cycle_detection() {
    let components = vec![create_test_component("A"), create_test_component("B")];

    let mut connections = AssocMap::new();
    connections.insert(
        (create_test_component("A"), "out".to_string()),
        vec![(create_test_component("B"), "in".to_string())],
    );
    connections.insert(
        (create_test_component("B"), "out".to_string()),
        vec![(create_test_component("A"), "in".to_string())],
    );

    let result = ExecutionOrderBuilder::build_execution_order_stages(&components, &connections);
    assert!(result.is_err());
    assert!(result.unwrap_err().contains("Cycle detected"));
}

#[test]
fn test_build_execution_order_backwards_compatibility() {
    let components = vec![
        create_test_component("A"),
        create_test_component("B"),
        create_test_component("C"),
    ];

    let mut connections = AssocMap::new();
    connections.insert(
        (create_test_component("A"), "out".to_string()),
        vec![(create_test_component("B"), "in".to_string())],
    );
    connections.insert(
        (create_test_component("B"), "out".to_string()),
        vec![(create_test_component("C"), "in".to_string())],
    );

    let stages = ExecutionOrderBuilder::build_execution_order_stages(&components, &connections)
        .expect("Should build execution order");
    let flattened = ExecutionOrderBuilder::build_execution_order(&components, &connections)
        .expect("Should build execution order");

    let expected_flat: Vec<ComponentId> = stages.into_iter().flatten().collect();
    assert_eq!(flattened, expected_flat);
}

#[test]
fn execution_order_independent_components_share_a_stage_in_sorted_order() {
    let components = vec![create_test_component("C"), create_test_component("A"), create_test_component("B")];
    let connections = AssocMap::new();
    let stages = ExecutionOrderBuilder::build_execution_order_stages(&components, &connections).unwrap();
    assert_eq!(stages.len(), 1);
    assert_eq!(
        stages[0],
        vec![create_test_component("A"), create_test_component("B"), create_test_component("C")]
    );
}

#[test]
fn execution_order_sub_levels_cover_each_stage() {
    let components = vec![
        create_test_component("A"),
        create_test_component("B"),
        create_test_component("C"),
    ];
    let mut connections = AssocMap::new();
    connections.insert(
        (create_test_component("A"), "out".to_string()),
        vec![(create_test_component("B"), "in".to_string()), (create_test_component("C"), "in".to_string())],
    );
    let stages = ExecutionOrderBuilder::build_execution_order_with_sub_levels(&components, &connections).unwrap();
    let flat: Vec<ComponentId> = stages
        .iter()
        .flat_map(|s| s.sub_levels.iter().flat_map(|l| l.components.clone()))
        .collect();
    assert_eq!(flat.len(), 3);
    assert_eq!(flat[0], create_test_component("A"));
}

#[test]
fn execution_order_self_loop_is_a_cycle() {
    let components = vec![create_test_component("A")];
    let mut connections = AssocMap::new();
    connections.insert(
        (create_test_component("A"), "out".to_string()),
        vec![(create_test_component("A"), "in".to_string())],
    );
    let result = ExecutionOrderBuilder::build_execution_order(&components, &connections);
    assert!(result.unwrap_err().contains("Cycle detected"));
}

#[test]
fn test_subdivide_stage_internal_dependency() {
    let c = create_test_component;
    let stage = vec![c("A"), c("B"), c("C")];
    let mut connections = AssocMap::new();
    connections.insert((c("A"), "out".to_string()), vec![(c("B"), "in".to_string())]);
    connections.insert((c("X"), "out".to_string()), vec![(c("C"), "in".to_string())]);

    let levels = ExecutionOrderBuilder::subdivide_stage_into_sub_levels(&stage, &connections)
        .expect("sub-levels");
    let got: Vec<Vec<ComponentId>> = levels.iter().map(|l| l.components.clone()).collect();
    assert_eq!(got, vec![vec![c("A"), c("C")], vec![c("B")]]);
}

#[test]
fn test_subdivide_stage_cycle_falls_back() {
    let c = create_test_component;
    let stage = vec![c("B"), c("A"), c("C")];
    let mut connections = AssocMap::new();
    connections.insert((c("A"), "out".to_string()), vec![(c("B"), "in".to_string())]);
    connections.insert((c("B"), "out".to_string()), vec![(c("A"), "in".to_string())]);

    let levels = ExecutionOrderBuilder::subdivide_stage_into_sub_levels(&stage, &connections)
        .expect("sub-levels");
    let got: Vec<Vec<ComponentId>> = levels.iter().map(|l| l.components.clone()).collect();
    // C is ready first; then A and B feed each other, so B (first in the stage) goes alone
    assert_eq!(got, vec![vec![c("C")], vec![c("B")], vec![c("A")]]);
}

#[test]
fn test_subdivide_empty_stage() {
    let connections = AssocMap::new();
    let levels = ExecutionOrderBuilder::subdivide_stage_into_sub_levels(&[], &connections)
        .expect("sub-levels");
    assert_eq!(levels.len(), 1);
    assert!(levels[0].components.is_empty());
}

fn registry_with(names: &[&str]) -> ComponentRegistry {
    let mut registry = ComponentRegistry::new();
    for name in names {
        let module = ProcessorModule::new("test", vec![PortSpec::input("in")], vec![PortSpec::output("out")], vec![]);
        registry
            .register_component(ComponentInstance {
                id: create_test_component(name),
                module: ComponentModule::Processing(module),
            })
            .unwrap();
    }
    registry
}

#[test]
fn test_registry_order_follows_the_queue() {
    let c = create_test_component;
    let registry = registry_with(&["A", "B", "Y", "Z"]);
    let mut connections = AssocMap::new();
    connections.insert((c("A"), "out".to_string()), vec![(c("Z"), "in".to_string())]);
    connections.insert((c("B"), "out".to_string()), vec![(c("Y"), "in".to_string())]);
    let order = ExecutionOrderBuilder::build_execution_order_for_registry(&registry, &connections).unwrap();
    // Z joins the queue when A is taken, before Y joins it when B is taken
    assert_eq!(order, vec![c("A"), c("B"), c("Z"), c("Y")]);
}

#[test]
fn test_registry_order_detects_cycle() {
    let c = create_test_component;
    let registry = registry_with(&["A", "B", "C"]);
    let mut connections = AssocMap::new();
    connections.insert((c("A"), "out".to_string()), vec![(c("B"), "in".to_string())]);
    connections.insert((c("B"), "out".to_string()), vec![(c("A"), "in".to_string())]);
    let result = ExecutionOrderBuilder::build_execution_order_for_registry(&registry, &connections);
    assert_eq!(result, Err("Cycle detected in processing component dependencies".to_string()));
}

#[test]
fn test_sub_levels_follow_stages() {
    let components = vec![create_test_component("A"), create_test_component("B"), create_test_component("C")];
    let mut connections = AssocMap::new();
    connections.insert(
        (create_test_component("A"), "out".to_string()),
        vec![(create_test_component("C"), "in".to_string())],
    );
    let stages = ExecutionOrderBuilder::build_execution_order_stages(&components, &connections).unwrap();
    let split = ExecutionOrderBuilder::build_execution_order_with_sub_levels(&components, &connections).unwrap();
    assert_eq!(stages.len(), 2);
    assert_eq!(split.len(), stages.len());
    for (stage, levels) in stages.iter().zip(split.iter()) {
        assert_eq!(levels.sub_levels.len(), 1);
        assert_eq!(&levels.sub_levels[0].components, stage);
    }

    connections.insert(
        (create_test_component("C"), "out".to_string()),
        vec![(create_test_component("A"), "in".to_string())],
    );
    let staged_err = ExecutionOrderBuilder::build_execution_order_stages(&components, &connections).unwrap_err();
    let split_err = ExecutionOrderBuilder::build_execution_order_with_sub_levels(&components, &connections).unwrap_err();
    assert_eq!(staged_err, split_err);

    let twice = vec![create_test_component("A"), create_test_component("A")];
    let empty = AssocMap::new();
    assert!(ExecutionOrderBuilder::build_execution_order_stages(&twice, &empty).is_err());
    assert!(ExecutionOrderBuilder::build_execution_order_with_sub_levels(&twice, &empty).is_err());
}
