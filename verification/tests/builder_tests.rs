use rsim::builder::Simulation;
use rsim::components::{PortSpec, PortType, ProcessorModule};
use rsim::modules::ComponentModule;
use rsim::traits::Component;

struct Adder;

impl Component for Adder {
    fn define_ports() -> Vec<(String, PortType)> {
        vec![
            ("a".to_string(), PortType::Input),
            ("sum".to_string(), PortType::Output),
        ]
    }

    fn into_module() -> ProcessorModule {
        ProcessorModule::new("Adder", vec![PortSpec::input("a")], vec![PortSpec::output("sum")], vec![])
    }
}

#[test]
fn test_add_component_ids_use_type_name_and_counter() {
    let mut sim = Simulation::new();
    let first = sim.add_component(Adder, "my_crate::alu::Adder");
    let second = sim.add_component(Adder, "Adder");
    assert_eq!(first.id(), "Adder0");
    assert_eq!(second.id(), "Adder1");
    assert!(sim.has_component(&first));
    assert_eq!(sim.component_ids().len(), 2);
}

#[test]
fn test_connections_are_one_to_one() {
    let mut sim = Simulation::new();
    let a = sim.add_component(Adder, "Adder");
    let b = sim.add_component(Adder, "Adder");
    let c = sim.add_component(Adder, "Adder");
    sim.connect(a.output("sum"), b.input("a")).unwrap();
    assert_eq!(
        sim.connect(a.output("sum"), c.input("a")),
        Err("Output port 'sum' on component 'Adder0' is already connected".to_string())
    );
    assert_eq!(
        sim.connect(c.output("sum"), b.input("a")),
        Err("Input port 'a' on component 'Adder1' is already connected".to_string())
    );
    assert_eq!(
        sim.connect(c.output("nope"), a.input("a")),
        Err("Component 'Adder2' does not have output port 'nope'".to_string())
    );
}

#[test]
fn test_required_ports_are_checked() {
    let mut sim = Simulation::new();
    let a = sim.add_component(Adder, "Adder");
    let b = sim.add_component(Adder, "Adder");
    assert_eq!(
        sim.validate_connections(),
        Err("Required input port 'a' on component 'Adder0' is not connected".to_string())
    );
    sim.connect(a.output("sum"), b.input("a")).unwrap();
    sim.connect(b.output("sum"), a.input("a")).unwrap();
    assert_eq!(sim.validate_connections(), Ok(()));
    assert_eq!(sim.validate_required_ports(), Err("Component module 'Adder' not found".to_string()));
    sim.register_module("Adder", ComponentModule::Processing(Adder::into_module())).unwrap();
    assert_eq!(sim.validate_required_ports(), Ok(()));
}

#[test]
fn test_module_templates() {
    let mut sim = Simulation::new();
    sim.register_module("adder", ComponentModule::Processing(Adder::into_module())).unwrap();
    let made = sim.create_component("adder").unwrap();
    assert_eq!(made.id(), "adder_0");
    let named = sim.create_component_with_id("adder", "main".to_string()).unwrap();
    assert_eq!(named.id(), "main");
    let batch = sim.create_components_with_prefix("adder", "alu", 2).unwrap();
    assert_eq!(batch[1].id(), "alu_1");
    assert!(sim.create_component("mul").is_err());
    let stats = sim.component_stats();
    assert_eq!(stats.total_components, 4);
}

#[test]
fn test_build_into_engine() {
    let mut sim = Simulation::new();
    let a = sim.add_component(Adder, "Adder");
    let b = sim.add_component(Adder, "Adder");
    sim.connect(a.output("sum"), b.input("a")).unwrap();
    let mut engine = sim.build().unwrap();
    assert!(engine.has_component(&a));
    assert!(engine.has_component(&b));
    assert_eq!(engine.current_cycle(), 0);
    engine.build_execution_order().unwrap();
    let order = engine.execution_order();
    assert_eq!(order.len(), 2);
    assert_eq!(order[0][0].id(), "Adder0");
    assert_eq!(order[1][0].id(), "Adder1");
}

#[test]
fn test_create_components_batch() {
    let mut sim = Simulation::new();
    sim.register_module("adder", ComponentModule::Processing(Adder::into_module())).unwrap();
    let ids = sim.create_components_batch(vec![("adder", Some("main")), ("adder", None), ("adder", None)]).unwrap();
    let names: Vec<&str> = ids.iter().map(|c| c.id()).collect();
    assert_eq!(names, vec!["main", "adder_0", "adder_1"]);
    assert_eq!(
        sim.create_components_batch(vec![("adder", Some("other")), ("adder", Some("main"))]),
        Err("Component with ID 'main' already exists".to_string())
    );
    assert_eq!(
        sim.create_components_batch(vec![("mul", None)]),
        Err("Component module 'mul' not found".to_string())
    );
}
