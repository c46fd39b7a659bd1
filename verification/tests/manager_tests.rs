use rsim::components::{PortSpec, ProcessorModule};
use rsim::manager::ComponentManager;
use rsim::memory::MemoryStore;
use rsim::modules::ComponentModule;
use rsim::values::TypeTag;

fn adder() -> ComponentModule {
    ComponentModule::Processing(ProcessorModule::new(
        "adder",
        vec![PortSpec::input("a"), PortSpec::input_optional("b")],
        vec![PortSpec::output("sum")],
        vec![],
    ))
}

#[test]
fn test_register_and_create() {
    let mut manager = ComponentManager::new();
    manager.register_module("adder", adder()).unwrap();
    assert_eq!(
        manager.register_module("adder", adder()),
        Err("Component module 'adder' is already registered".to_string())
    );
    assert!(manager.has_module("adder"));
    assert!(!manager.has_module("mul"));
    let instance = manager.create_component("adder", "a1".to_string()).unwrap();
    assert_eq!(instance.id.id(), "a1");
    assert_eq!(instance.id.module_type(), "adder");
    assert_eq!(
        manager.create_component("mul", "m1".to_string()).err(),
        Some("Component module 'mul' not found".to_string())
    );
}

#[test]
fn test_generated_ids_are_distinct() {
    let mut manager = ComponentManager::new();
    manager.register_module("adder", adder()).unwrap();
    let first = manager.generate_unique_id("adder");
    let second = manager.generate_unique_id("adder");
    assert_eq!(first.id(), "adder_0");
    assert_eq!(second.id(), "adder_1");
    let batch = manager.create_components("adder", 3).unwrap();
    let ids: Vec<&str> = batch.iter().map(|c| c.id.id()).collect();
    assert_eq!(ids, vec!["adder_2", "adder_3", "adder_4"]);
    let auto = manager.create_component_auto_id("adder").unwrap();
    assert_eq!(auto.id.id(), "adder_5");
}

#[test]
fn test_prefixed_components() {
    let mut manager = ComponentManager::new();
    manager.register_module("adder", adder()).unwrap();
    let batch = manager.create_components_with_prefix("adder", "alu", 2).unwrap();
    assert_eq!(batch[0].id.id(), "alu_0");
    assert_eq!(batch[1].id.id(), "alu_1");
    assert!(manager.create_components_with_prefix("mul", "x", 1).is_err());
    assert_eq!(manager.create_components_with_prefix("mul", "x", 0).map(|v| v.len()), Ok(0));
}

#[test]
fn test_validate_component_ports() {
    let mut manager = ComponentManager::new();
    manager.register_module("adder", adder()).unwrap();
    assert_eq!(manager.validate_component_ports("adder", &["a".to_string()]), Ok(()));
    assert_eq!(
        manager.validate_component_ports("adder", &["b".to_string()]),
        Err("Required input port 'a' is not connected for component type 'adder'".to_string())
    );
    assert_eq!(
        manager.validate_component_ports("mul", &[]),
        Err("Component module 'mul' not found".to_string())
    );
}

#[test]
fn test_module_stats() {
    let mut manager = ComponentManager::new();
    manager.register_module("adder", adder()).unwrap();
    manager.register_module("ram", ComponentModule::Memory(MemoryStore::new("ram", TypeTag::I64))).unwrap();
    manager.generate_unique_id("adder");
    let stats = manager.get_module_stats();
    assert_eq!(stats.total_modules, 2);
    assert_eq!(stats.processing_modules, 1);
    assert_eq!(stats.memory_modules, 1);
    assert_eq!(stats.components_created, 1);
    let mut names = manager.module_names();
    names.sort();
    assert_eq!(names, vec!["adder".to_string(), "ram".to_string()]);
}
