use rsim::maps::{EventInputMap, EventInputs, EventOutputMap, EventOutputs};
use rsim::values::{Event, EventIds, TypedValue};

#[test]
fn test_event_basic_functionality() {
    let mut ids = EventIds::new();
    let event = Event::new(&mut ids, 123, 42i64);
    assert_eq!(event.timestamp, 123);
    assert_eq!(event.get_payload::<i64>().unwrap(), &42);
    assert!(event.event_id > 0);

    let event1 = Event::new(&mut ids, 1, 42i64);
    let event2 = Event::new(&mut ids, 1, 42i64);
    assert_ne!(event1.event_id, event2.event_id);
}

#[test]
fn test_event_input_map() {
    let mut inputs = EventInputMap::new();
    inputs.insert("port1".to_string(), 100, 42i64);
    inputs.insert("port2".to_string(), 101, "hello".to_string());

    assert_eq!(inputs.get::<i64>("port1").unwrap(), 42);
    assert_eq!(inputs.get::<String>("port2").unwrap(), "hello");

    assert_eq!(inputs.get_timestamp("port1").unwrap(), 100);
    assert_eq!(inputs.get_timestamp("port2").unwrap(), 101);

    let event = inputs.get_event("port1").unwrap();
    assert_eq!(event.timestamp, 100);
    assert_eq!(event.get_payload::<i64>().unwrap(), &42);

    assert!(inputs.has_input("port1"));
    assert!(!inputs.has_input("port3"));
    assert_eq!(inputs.len(), 2);
}

#[test]
fn test_event_output_map() {
    let mut outputs = EventOutputMap::new_flexible(200);

    outputs.set("out1", 42i64).unwrap();
    outputs.set("out2", "hello".to_string()).unwrap();

    let event_map = outputs.into_event_map();
    assert_eq!(event_map.len(), 2);

    let event1 = event_map.get(&"out1".to_string()).unwrap();
    assert_eq!(event1.timestamp, 200);
    assert_eq!(event1.get_payload::<i64>().unwrap(), &42);

    let event2 = event_map.get(&"out2".to_string()).unwrap();
    assert_eq!(event2.timestamp, 200);
    assert_eq!(event2.get_payload::<String>().unwrap(), "hello");
}

#[test]
fn test_progressive_disclosure_api() {
    let mut inputs = EventInputMap::new();
    inputs.insert("data".to_string(), 42, 123i64);

    let simple_data: i64 = inputs.get("data").unwrap();
    assert_eq!(simple_data, 123);

    let timestamp = inputs.get_timestamp("data").unwrap();
    assert_eq!(timestamp, 42);

    let event = inputs.get_event("data").unwrap();
    assert_eq!(event.timestamp, 42);
    assert_eq!(event.get_payload::<i64>().unwrap(), &123);
    assert!(event.event_id > 0);
}

#[test]
fn test_event_creation() {
    let mut ids = EventIds::new();
    let event = Event::new(&mut ids, 123, 42i64);
    assert_eq!(event.timestamp, 123);
    assert_eq!(event.get_payload::<i64>().unwrap(), &42);
    assert!(event.event_id > 0);
}

#[test]
fn test_event_unique_ids() {
    let mut ids = EventIds::new();
    let event1 = Event::new(&mut ids, 1, 42i64);
    let event2 = Event::new(&mut ids, 1, 42i64);
    assert_ne!(event1.event_id, event2.event_id);
}

#[test]
fn event_ids_count_up_from_one() {
    let mut ids = EventIds::new();
    let a = Event::new(&mut ids, 0, true);
    let b = Event::from_typed_value(&mut ids, 5, TypedValue::new(7u64));
    assert_eq!(a.event_id, 1);
    assert_eq!(b.event_id, 2);
    assert_eq!(b.timestamp, 5);
    assert_eq!(b.into_payload::<u64>().unwrap(), 7);
}

#[test]
fn event_payload_of_wrong_type_is_refused() {
    let mut ids = EventIds::new();
    let event = Event::new(&mut ids, 3, 42i64);
    let err = event.get_payload::<String>().unwrap_err();
    assert_eq!(err, "Type mismatch: expected alloc::string::String, found i64");
}

#[test]
fn event_input_missing_port_is_reported() {
    let inputs = EventInputMap::new();
    assert!(inputs.get_timestamp("nowhere").is_err());
    assert!(inputs.get::<i64>("nowhere").is_err());
    assert!(inputs.is_empty());
}
