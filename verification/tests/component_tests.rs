use rsim::components::{ComponentError, PortSpec, PortType, ProcessorModule};
use rsim::traits::{Component, Cycle, MemoryComponent};

struct TestAdder;

impl Component for TestAdder {
    fn define_ports() -> Vec<(String, PortType)> {
        vec![
            ("a".to_string(), PortType::Input),
            ("b".to_string(), PortType::Input),
            ("sum".to_string(), PortType::Output),
        ]
    }

    fn into_module() -> ProcessorModule {
        ProcessorModule::new(
            "TestAdder",
            vec![PortSpec::input("a"), PortSpec::input("b")],
            vec![PortSpec::output("sum")],
            vec![],
        )
    }
}

#[derive(Clone)]
struct TestBuffer {
    data: i32,
}

impl Cycle for TestBuffer {
    type Output = i32;

    fn cycle(&mut self) -> Option<Self::Output> {
        Some(self.data)
    }
}

impl MemoryComponent for TestBuffer {
    fn define_ports() -> Vec<(String, PortType)> {
        vec![("input".to_string(), PortType::Input), ("output".to_string(), PortType::Output)]
    }
}

struct TestCalculator;

impl Component for TestCalculator {
    fn define_ports() -> Vec<(String, PortType)> {
        vec![
            ("x".to_string(), PortType::Input),
            ("y".to_string(), PortType::Input),
            ("result".to_string(), PortType::Output),
        ]
    }

    fn into_module() -> ProcessorModule {
        ProcessorModule::new(
            "TestCalculator",
            vec![PortSpec::input("x"), PortSpec::input("y")],
            vec![PortSpec::output("result")],
            vec![],
        )
    }
}

fn port_list(names: &[&str], port_type: PortType) -> Vec<(String, PortType)> {
    names.iter().map(|n| (n.to_string(), port_type.clone())).collect()
}

#[test]
fn test_impl_component_ports() {
    let ports = TestAdder::define_ports();
    assert_eq!(ports.len(), 3);
    assert!(ports.contains(&("a".to_string(), PortType::Input)));
    assert!(ports.contains(&("b".to_string(), PortType::Input)));
    assert!(ports.contains(&("sum".to_string(), PortType::Output)));
}

#[test]
fn test_impl_memory_component_ports() {
    let ports = TestBuffer::define_ports();
    assert_eq!(ports.len(), 2);
    assert!(ports.contains(&("input".to_string(), PortType::Input)));
    assert!(ports.contains(&("output".to_string(), PortType::Output)));
    let mut buffer = TestBuffer { data: 7 };
    assert_eq!(buffer.cycle(), Some(7));
}

#[test]
fn test_component_module_creation() {
    let module = TestAdder::into_module();
    assert_eq!(module.name, "TestAdder");
    assert_eq!(module.input_ports.len(), 2);
    assert_eq!(module.output_ports.len(), 1);
    assert_eq!(module.memory_ports.len(), 0);
}

#[test]
fn test_complete_component_macro() {
    let ports = TestCalculator::define_ports();
    assert_eq!(ports.len(), 3);

    let module = TestCalculator::into_module();
    assert_eq!(module.name, "TestCalculator");
}

#[test]
fn test_port_macros() {
    let input_ports = port_list(&["a", "b", "c"], PortType::Input);
    assert_eq!(input_ports.len(), 3);

    let output_ports = port_list(&["result"], PortType::Output);
    assert_eq!(output_ports.len(), 1);

    let memory_ports = port_list(&["state", "buffer"], PortType::Memory);
    assert_eq!(memory_ports.len(), 2);
}

#[test]
fn test_port_definitions_macro() {
    let mut ports = port_list(&["a", "b"], PortType::Input);
    ports.extend(port_list(&["sum"], PortType::Output));
    ports.extend(port_list(&["state"], PortType::Memory));

    assert_eq!(ports.len(), 4);
    assert!(ports.contains(&("a".to_string(), PortType::Input)));
    assert!(ports.contains(&("b".to_string(), PortType::Input)));
    assert!(ports.contains(&("sum".to_string(), PortType::Output)));
    assert!(ports.contains(&("state".to_string(), PortType::Memory)));
}

#[test]
fn test_component_creation_examples() {
    let _adder = ProcessorModule::new(
        "SimpleAdder",
        vec![PortSpec::input("input_a"), PortSpec::input("input_b")],
        vec![PortSpec::output("output")],
        vec![],
    );
    let _delay = ProcessorModule::new(
        "DelayComponent",
        vec![PortSpec::input("data")],
        vec![PortSpec::output("delayed_output")],
        vec![],
    );
    let _logger = ProcessorModule::new(
        "LoggerComponent",
        vec![PortSpec::input("log_data")],
        vec![PortSpec::output("logged_output")],
        vec![],
    );
    let _correlator = ProcessorModule::new(
        "EventCorrelator",
        vec![PortSpec::input("sensor_a"), PortSpec::input("sensor_b")],
        vec![PortSpec::output("correlation")],
        vec![],
    );
}

#[test]
fn memory_component_with_wrong_ports_is_refused() {
    let ports = vec![("a".to_string(), PortType::Input), ("b".to_string(), PortType::Input)];
    let err = rsim::traits::validate_memory_ports(&ports, "Bad").unwrap_err();
    assert_eq!(err, "Memory component Bad must have exactly one input port, found 2");
    let ports = vec![("a".to_string(), PortType::Input), ("m".to_string(), PortType::Memory), ("o".to_string(), PortType::Output)];
    let err = rsim::traits::validate_memory_ports(&ports, "Bad").unwrap_err();
    assert_eq!(err, "Memory component Bad cannot have memory ports, found 1");
    let ports = vec![("a".to_string(), PortType::Input)];
    let err = rsim::traits::validate_memory_ports(&ports, "Bad").unwrap_err();
    assert_eq!(err, "Memory component Bad must have exactly one output port, found 0");
}

#[test]
fn test_component_error_messages() {
    assert_eq!(ComponentError::PortNotFound("x".to_string()).message(), "Port not found: x");
    assert_eq!(ComponentError::MemoryError("y".to_string()).message(), "Memory error: y");
    let e: ComponentError = "gone".to_string().into();
    assert_eq!(e.message(), "Component not found: gone");
}
