use rsim::maps::{
    EventInputMap, EventInputs, EventOutputMap, EventOutputs, Inputs, InputsExt, Outputs, OutputsExt,
    TypedInputMap, TypedInputs, TypedOutputMap, TypedOutputs, UnifiedInputMap, UnifiedOutputMap,
};
use rsim::values::TypedValue;

#[test]
fn typed_values_test_typed_value_basic() {
    let value = TypedValue::new(42i64);
    assert_eq!(value.get::<i64>().unwrap(), &42);
    assert!(value.is_type::<i64>());
    assert!(!value.is_type::<String>());
}

#[test]
fn typed_values_test_typed_value_type_mismatch() {
    let value = TypedValue::new(42i64);
    let result = value.get::<String>();
    assert!(result.is_err());
    assert!(result.unwrap_err().contains("Type mismatch"));
}

#[test]
fn typed_values_test_typed_inputs() {
    let mut inputs = TypedInputMap::new();
    inputs.insert("port1".to_string(), 42i64);
    inputs.insert("port2".to_string(), "hello".to_string());

    assert_eq!(inputs.get::<i64>("port1").unwrap(), 42);
    assert_eq!(inputs.get::<String>("port2").unwrap(), "hello");
    assert!(inputs.has_input("port1"));
    assert!(!inputs.has_input("port3"));
    assert_eq!(inputs.len(), 2);
}

#[test]
fn typed_values_test_typed_outputs() {
    let mut outputs = TypedOutputMap::new(vec![("out1", "i64"), ("out2", "alloc::string::String")]);

    outputs.set("out1", 42i64).unwrap();
    outputs.set("out2", "hello".to_string()).unwrap();

    assert!(outputs.set("invalid", 42i64).is_err());

    let map = outputs.into_map();
    assert_eq!(map.len(), 2);
    assert!(map.contains_key(&"out1".to_string()));
    assert!(map.contains_key(&"out2".to_string()));
}

#[test]
fn typed_values_test_flexible_outputs() {
    let mut outputs = TypedOutputMap::new_flexible();

    outputs.set("any_port", 42i64).unwrap();
    outputs.set("another_port", "hello".to_string()).unwrap();

    let map = outputs.into_map();
    assert_eq!(map.len(), 2);
}

#[test]
fn implementations_test_typed_inputs() {
    let mut inputs = TypedInputMap::new();
    inputs.insert("port1".to_string(), 42i64);
    inputs.insert("port2".to_string(), "hello".to_string());

    assert_eq!(inputs.get::<i64>("port1").unwrap(), 42);
    assert_eq!(inputs.get::<String>("port2").unwrap(), "hello");
    assert!(inputs.has_input("port1"));
    assert!(!inputs.has_input("port3"));
    assert_eq!(inputs.len(), 2);
}

#[test]
fn implementations_test_typed_outputs() {
    let mut outputs = TypedOutputMap::new(vec![("out1", "i64"), ("out2", "alloc::string::String")]);

    outputs.set("out1", 42i64).unwrap();
    outputs.set("out2", "hello".to_string()).unwrap();

    assert!(outputs.set("invalid", 42i64).is_err());

    let map = outputs.into_map();
    assert_eq!(map.len(), 2);
    assert!(map.contains_key(&"out1".to_string()));
    assert!(map.contains_key(&"out2".to_string()));
}

#[test]
fn implementations_test_flexible_outputs() {
    let mut outputs = TypedOutputMap::new_flexible();

    outputs.set("any_port", 42i64).unwrap();
    outputs.set("another_port", "hello".to_string()).unwrap();

    let map = outputs.into_map();
    assert_eq!(map.len(), 2);
}

#[test]
fn implementations_test_event_inputs() {
    let mut inputs = EventInputMap::new();
    inputs.insert("port1".to_string(), 100, 42i64);
    inputs.insert("port2".to_string(), 101, "hello".to_string());

    assert_eq!(inputs.get::<i64>("port1").unwrap(), 42);
    assert_eq!(inputs.get::<String>("port2").unwrap(), "hello");

    assert_eq!(inputs.get_timestamp("port1").unwrap(), 100);
    assert_eq!(inputs.get_timestamp("port2").unwrap(), 101);

    let event = inputs.get_event("port1").unwrap();
    assert_eq!(event.timestamp, 100);
    assert_eq!(event.get_payload::<i64>().unwrap(), &42);

    assert!(inputs.has_input("port1"));
    assert!(!inputs.has_input("port3"));
    assert_eq!(inputs.len(), 2);
}

#[test]
fn implementations_test_event_outputs() {
    let mut outputs = EventOutputMap::new_flexible(200);

    outputs.set("out1", 42i64).unwrap();
    outputs.set("out2", "hello".to_string()).unwrap();

    let event_map = outputs.into_event_map();
    assert_eq!(event_map.len(), 2);

    let event1 = event_map.get(&"out1".to_string()).unwrap();
    assert_eq!(event1.timestamp, 200);
    assert_eq!(event1.get_payload::<i64>().unwrap(), &42);

    let event2 = event_map.get(&"out2".to_string()).unwrap();
    assert_eq!(event2.timestamp, 200);
    assert_eq!(event2.get_payload::<String>().unwrap(), "hello");
}

#[test]
fn event_input_map_test_event_inputs() {
    let mut inputs = EventInputMap::new();
    inputs.insert("port1".to_string(), 100, 42i64);
    inputs.insert("port2".to_string(), 101, "hello".to_string());

    assert_eq!(inputs.get::<i64>("port1").unwrap(), 42);
    assert_eq!(inputs.get::<String>("port2").unwrap(), "hello");

    assert_eq!(inputs.get_timestamp("port1").unwrap(), 100);
    assert_eq!(inputs.get_timestamp("port2").unwrap(), 101);

    let event = inputs.get_event("port1").unwrap();
    assert_eq!(event.timestamp, 100);
    assert_eq!(event.get_payload::<i64>().unwrap(), &42);

    assert!(inputs.has_input("port1"));
    assert!(!inputs.has_input("port3"));
    assert_eq!(inputs.len(), 2);
}

#[test]
fn event_output_map_test_event_outputs() {
    let mut outputs = EventOutputMap::new_flexible(200);

    outputs.set("out1", 42i64).unwrap();
    outputs.set("out2", "hello".to_string()).unwrap();

    let event_map = outputs.into_event_map();
    assert_eq!(event_map.len(), 2);

    let event1 = event_map.get(&"out1".to_string()).unwrap();
    assert_eq!(event1.timestamp, 200);
    assert_eq!(event1.get_payload::<i64>().unwrap(), &42);

    let event2 = event_map.get(&"out2".to_string()).unwrap();
    assert_eq!(event2.timestamp, 200);
    assert_eq!(event2.get_payload::<String>().unwrap(), "hello");
}

#[test]
fn typed_input_map_test_typed_inputs() {
    let mut inputs = TypedInputMap::new();
    inputs.insert("port1".to_string(), 42i64);
    inputs.insert("port2".to_string(), "hello".to_string());

    assert_eq!(inputs.get::<i64>("port1").unwrap(), 42);
    assert_eq!(inputs.get::<String>("port2").unwrap(), "hello");
    assert!(inputs.has_input("port1"));
    assert!(!inputs.has_input("port3"));
    assert_eq!(inputs.len(), 2);
}

#[test]
fn typed_output_map_test_typed_outputs() {
    let mut outputs = TypedOutputMap::new(vec![("out1", "i64"), ("out2", "alloc::string::String")]);

    outputs.set("out1", 42i64).unwrap();
    outputs.set("out2", "hello".to_string()).unwrap();

    assert!(outputs.set("invalid", 42i64).is_err());

    let map = outputs.into_map();
    assert_eq!(map.len(), 2);
    assert!(map.contains_key(&"out1".to_string()));
    assert!(map.contains_key(&"out2".to_string()));
}

#[test]
fn typed_output_map_test_flexible_outputs() {
    let mut outputs = TypedOutputMap::new_flexible();

    outputs.set("any_port", 42i64).unwrap();
    outputs.set("another_port", "hello".to_string()).unwrap();

    let map = outputs.into_map();
    assert_eq!(map.len(), 2);
}

#[test]
fn typed_value_test_typed_value_basic() {
    let value = TypedValue::new(42i64);
    assert_eq!(value.get::<i64>().unwrap(), &42);
    assert!(value.is_type::<i64>());
    assert!(!value.is_type::<String>());
}

#[test]
fn typed_value_test_typed_value_type_mismatch() {
    let value = TypedValue::new(42i64);
    let result = value.get::<String>();
    assert!(result.is_err());
    assert!(result.unwrap_err().contains("Type mismatch"));
}

#[test]
fn test_unified_input_map() {
    let mut inputs = UnifiedInputMap::new();
    inputs.insert("test_port".to_string(), 42i32);

    assert!(inputs.has_input("test_port"));
    assert_eq!(inputs.get::<i32>("test_port").unwrap(), 42);
    assert_eq!(inputs.get_timestamp("test_port").unwrap(), 0);
}

#[test]
fn test_unified_output_map() {
    let mut outputs = UnifiedOutputMap::new(vec!["result".to_string()]);

    outputs.set("result", 100i32).unwrap();
    assert!(outputs.is_valid_port("result"));
    assert!(!outputs.is_valid_port("invalid"));

    let events = outputs.into_events();
    assert!(events.contains_key(&"result".to_string()));
}

#[test]
fn test_timestamp_handling() {
    let mut inputs = UnifiedInputMap::new();
    inputs.insert_with_timestamp("timed_port".to_string(), "test".to_string(), 12345);

    assert_eq!(inputs.get::<String>("timed_port").unwrap(), "test");
    assert_eq!(inputs.get_timestamp("timed_port").unwrap(), 12345);
}

#[test]
fn typed_value_kind_names() {
    assert_eq!(TypedValue::new(1i64).kind_name(), "i64");
    assert_eq!(TypedValue::new(1u64).kind_name(), "u64");
    assert_eq!(TypedValue::new(1i32).kind_name(), "i32");
    assert_eq!(TypedValue::new(1u32).kind_name(), "u32");
    assert_eq!(TypedValue::new(true).kind_name(), "bool");
    assert_eq!(TypedValue::new("x".to_string()).kind_name(), "alloc::string::String");
}

#[test]
fn typed_output_rejects_wrong_type_on_expected_port() {
    let mut outputs = TypedOutputMap::new(vec![("out1", "i64")]);
    assert!(outputs.set("out1", "text".to_string()).is_err());
    assert!(outputs.is_valid_port("out1"));
    assert!(!outputs.is_valid_port("other"));
    assert_eq!(outputs.expected_ports(), vec!["out1"]);
}

#[test]
fn typed_input_mismatch_names_both_types() {
    let mut inputs = TypedInputMap::new();
    inputs.insert("p".to_string(), 5u32);
    let err = inputs.get::<bool>("p").unwrap_err();
    assert_eq!(err, "Type mismatch: expected bool, found u32");
}

#[test]
fn unified_output_timestamps_and_typed_values() {
    let mut outputs = UnifiedOutputMap::new_flexible();
    outputs.set_with_timestamp("a", 9u64, 77).unwrap();
    let events = outputs.into_events();
    let ev = events.get(&"a".to_string()).unwrap();
    assert_eq!(ev.timestamp, 77);
    assert_eq!(ev.get_payload::<u64>().unwrap(), &9);
}

#[test]
fn unified_input_from_typed_values() {
    let mut values = rsim::assoc::AssocMap::new();
    values.insert("x".to_string(), TypedValue::new(3i64));
    let inputs = UnifiedInputMap::from_typed_values(values);
    assert_eq!(inputs.get::<i64>("x").unwrap(), 3);
    assert_eq!(inputs.get_timestamp("x").unwrap(), 0);
    assert_eq!(inputs.input_ports(), vec!["x"]);
}
