use rsim::components::{PortSpec, ProcessorModule};
use rsim::connections::ConnectionManager;
use rsim::memory::MemoryStore;
use rsim::modules::{ComponentInstance, ComponentModule};
use rsim::registry::ComponentRegistry;
use rsim::types::ComponentId;
use rsim::values::TypeTag;

fn id(name: &str, kind: &str) -> ComponentId {
    ComponentId::new(name.to_string(), kind.to_string())
}

fn registry() -> ComponentRegistry {
    let mut registry = ComponentRegistry::new();
    let adder = ProcessorModule::new(
        "adder",
        vec![PortSpec::input("a"), PortSpec::input("b")],
        vec![PortSpec::output("sum")],
        vec![PortSpec::memory("mem")],
    );
    registry
        .register_component(ComponentInstance { id: id("add1", "adder"), module: ComponentModule::Processing(adder.clone()) })
        .unwrap();
    registry
        .register_component(ComponentInstance { id: id("add2", "adder"), module: ComponentModule::Processing(adder) })
        .unwrap();
    registry
        .register_component(ComponentInstance {
            id: id("ram", "memory"),
            module: ComponentModule::Memory(MemoryStore::new("ram", TypeTag::I64)),
        })
        .unwrap();
    registry
}

fn port(name: &str, kind: &str, p: &str) -> (ComponentId, String) {
    (id(name, kind), p.to_string())
}

#[test]
fn test_connect_and_query() {
    let registry = registry();
    let mut manager = ConnectionManager::new();
    manager.connect(&registry, port("add1", "adder", "sum"), port("add2", "adder", "a")).unwrap();
    manager.connect(&registry, port("add1", "adder", "sum"), port("add2", "adder", "b")).unwrap();
    let targets = manager.get_targets(&id("add1", "adder"), "sum").unwrap();
    assert_eq!(targets.len(), 2);
    assert_eq!(targets[1].1, "b");
    assert!(manager.is_connected(&id("add2", "adder"), "a"));
    assert!(manager.is_connected(&id("add1", "adder"), "sum"));
    assert!(!manager.is_connected(&id("add1", "adder"), "a"));
    let stats = manager.connection_stats();
    assert_eq!(stats.regular_connections, 1);
    assert_eq!(stats.memory_connections, 0);
    assert_eq!(stats.total_targets, 2);
}

#[test]
fn test_input_port_takes_one_driver() {
    let registry = registry();
    let mut manager = ConnectionManager::new();
    manager.connect(&registry, port("add1", "adder", "sum"), port("add2", "adder", "a")).unwrap();
    assert_eq!(
        manager.connect(&registry, port("add2", "adder", "sum"), port("add2", "adder", "a")),
        Err("Input port 'a' on component 'add2' is already connected. Multiple drivers not allowed.".to_string())
    );
    assert_eq!(manager.get_targets(&id("add2", "adder"), "sum"), None);
}

#[test]
fn test_connect_unknown_components_and_ports() {
    let registry = registry();
    let mut manager = ConnectionManager::new();
    assert_eq!(
        manager.connect(&registry, port("nope", "adder", "sum"), port("add2", "adder", "a")),
        Err("Source component 'nope' not found".to_string())
    );
    assert_eq!(
        manager.connect(&registry, port("add1", "adder", "sum"), port("nope", "adder", "a")),
        Err("Target component 'nope' not found".to_string())
    );
    let err = manager.connect(&registry, port("add1", "adder", "bogus"), port("add2", "adder", "a")).unwrap_err();
    assert!(err.starts_with("Output port 'bogus' not found on processing component 'add1'"));
    let err = manager.connect(&registry, port("add1", "adder", "sum"), port("add2", "adder", "bogus")).unwrap_err();
    assert!(err.starts_with("Input port 'bogus' not found on processing component 'add2'"));
}

#[test]
fn test_memory_connections() {
    let registry = registry();
    let mut manager = ConnectionManager::new();
    manager.connect_memory(&registry, id("add1", "adder"), "mem".to_string(), id("ram", "memory")).unwrap();
    assert_eq!(manager.get_memory_connection(&id("add1", "adder"), "mem"), Some(&id("ram", "memory")));
    assert!(manager.is_connected(&id("add1", "adder"), "mem"));
    assert_eq!(
        manager.connect_memory(&registry, id("add1", "adder"), "mem".to_string(), id("ram", "memory")),
        Err("Memory port 'mem' on component 'add1' is already connected to memory 'ram'".to_string())
    );
    assert_eq!(
        manager.connect_memory(&registry, id("add2", "adder"), "mem".to_string(), id("disk", "memory")),
        Err("Memory component 'disk' not found".to_string())
    );
    assert_eq!(manager.connection_stats().memory_connections, 1);
}

#[test]
fn test_required_inputs() {
    let registry = registry();
    let mut manager = ConnectionManager::new();
    assert_eq!(
        manager.validate_required_connections(&registry),
        Err("Required input port 'a' on component 'add1' is not connected".to_string())
    );
    manager.connect(&registry, port("add2", "adder", "sum"), port("add1", "adder", "a")).unwrap();
    manager.connect(&registry, port("add2", "adder", "sum"), port("add1", "adder", "b")).unwrap();
    manager.connect(&registry, port("add1", "adder", "sum"), port("add2", "adder", "a")).unwrap();
    manager.connect(&registry, port("add1", "adder", "sum"), port("add2", "adder", "b")).unwrap();
    assert_eq!(manager.validate_required_connections(&registry), Ok(()));
    assert_eq!(manager.validate_all_connections(&registry), Ok(()));
}

#[test]
fn test_remove_component_connections() {
    let registry = registry();
    let mut manager = ConnectionManager::new();
    manager.connect(&registry, port("add1", "adder", "sum"), port("add2", "adder", "a")).unwrap();
    manager.connect(&registry, port("add2", "adder", "sum"), port("add1", "adder", "b")).unwrap();
    manager.connect_memory(&registry, id("add1", "adder"), "mem".to_string(), id("ram", "memory")).unwrap();
    manager.remove_component_connections(&id("add1", "adder"));
    assert!(!manager.is_connected(&id("add1", "adder"), "sum"));
    assert!(!manager.is_connected(&id("add1", "adder"), "b"));
    assert!(!manager.is_connected(&id("add1", "adder"), "mem"));
    assert_eq!(manager.get_targets(&id("add2", "adder"), "sum").map(|t| t.len()), Some(0));
    manager.clear();
    assert_eq!(manager.connection_stats().regular_connections, 0);
}

#[test]
fn test_registry_components_by_kind() {
    let registry = registry();
    let procs = registry.processing_components();
    assert_eq!(procs.len(), 2);
    assert!(procs.contains_key(&id("add1", "adder")));
    let mems = registry.memory_component_instances();
    assert_eq!(mems.len(), 1);
    assert!(mems.contains_key(&id("ram", "memory")));
}
