use rsim::assoc::AssocMap;
use rsim::events::EventScheduler;
use rsim::memory::{MemoryModule, MemoryModuleTrait, MemoryStore};
use rsim::proxy::{MemoryDelta, MemoryProxy};
use rsim::types::ComponentId;
use rsim::values::{TypeTag, TypedValue};

fn id(name: &str) -> ComponentId {
    ComponentId::new(name.to_string(), "memory".to_string())
}

#[test]
fn test_delta_last_write_wins() {
    let mut delta = MemoryDelta::new();
    assert!(delta.is_empty());
    delta.record_write(id("ram"), "x".to_string(), 1i64, id("cpu"));
    delta.record_write(id("ram"), "x".to_string(), 2i64, id("cpu"));
    delta.record_write(id("ram"), "y".to_string(), 3i64, id("cpu"));
    assert_eq!(delta.len(), 2);
    let key = (id("ram"), "x".to_string());
    let w = delta.get_writes().get(&key).unwrap();
    assert_eq!(w.data.get::<i64>(), Ok(&2));
}

#[test]
fn test_delta_merge_prefers_other() {
    let mut a = MemoryDelta::new();
    a.record_write(id("ram"), "x".to_string(), 1i64, id("cpu"));
    a.record_write(id("ram"), "z".to_string(), 9i64, id("cpu"));
    let mut b = MemoryDelta::new();
    b.record_write(id("ram"), "x".to_string(), 5i64, id("gpu"));
    a.merge(b);
    assert_eq!(a.len(), 2);
    let w = a.get_writes().get(&(id("ram"), "x".to_string())).unwrap();
    assert_eq!(w.data.get::<i64>(), Ok(&5));
    let taken = a.take_writes();
    assert_eq!(taken.len(), 2);
    assert!(a.is_empty());
}

#[test]
fn test_memory_store_snapshot_semantics() {
    let mut store = MemoryStore::new("ram", TypeTag::I64);
    assert!(store.write_any("state", TypedValue::new(4i64)));
    assert!(store.read_any("state").is_none());
    store.create_snapshot();
    assert_eq!(store.read_any("state").map(|v| v.into_inner::<i64>()), Some(Ok(4)));
    assert!(!store.write_any("state", TypedValue::new(true)));
}

#[test]
fn test_proxy_reads_snapshot_and_writes_current() {
    let mut connections = AssocMap::new();
    let cpu = ComponentId::new("cpu".to_string(), "proc".to_string());
    connections.insert((cpu.clone(), "mem".to_string()), id("ram"));
    let mut store = MemoryStore::new("ram", TypeTag::I64);
    store.write_any("state", TypedValue::new(10i64));
    store.create_snapshot();
    let mut modules = AssocMap::new();
    modules.insert(id("ram"), store);
    let mut proxy = MemoryProxy::new_with_owned_components(connections, cpu, modules, &[id("ram")]);
    assert_eq!(proxy.read::<i64>("mem", "state"), Ok(Some(10)));
    proxy.write::<i64>("mem", "state", 11).unwrap();
    assert_eq!(proxy.read::<i64>("mem", "state"), Ok(Some(10)));
    assert!(proxy.read::<i64>("nope", "state").is_err());
    assert!(proxy.write::<bool>("mem", "state", true).is_err());
    assert!(proxy.is_connected("mem"));
    assert!(!proxy.is_connected("nope"));
}

#[test]
fn test_scheduler_orders_by_delay_then_arrival() {
    let mut scheduler: EventScheduler<&str> = EventScheduler::new();
    assert!(!scheduler.has_events());
    scheduler.schedule_event("late", 5);
    scheduler.schedule_event("first", 2);
    scheduler.schedule_event("second", 2);
    assert_eq!(scheduler.peek_next_delay(), Some(2));
    assert_eq!(scheduler.get_next_time_events(), vec!["first", "second"]);
    scheduler.advance_time(3);
    assert_eq!(scheduler.peek_next_delay(), Some(2));
    assert_eq!(scheduler.get_next_time_events(), vec!["late"]);
    assert!(!scheduler.has_events());
    assert_eq!(scheduler.get_next_time_events(), Vec::<&str>::new());
}

#[test]
fn test_delta_len_counts_distinct_addresses() {
    let mut delta = MemoryDelta::new();
    assert!(delta.is_empty());
    delta.record_write(id("m"), "a".to_string(), 1u64, id("w"));
    assert_eq!(delta.len(), 1);
    delta.record_write(id("m"), "b".to_string(), 2u64, id("w"));
    assert_eq!(delta.len(), 2);
    delta.record_write(id("m"), "a".to_string(), 3u64, id("w"));
    assert_eq!(delta.len(), 2);
    assert!(!delta.is_empty());
}

#[test]
fn test_typed_module_read_after_write_and_snapshot() {
    let mut flags: MemoryModule<bool> = MemoryModule::new("flags");
    assert_eq!(flags.read("ready"), None);
    assert!(flags.write("ready", true));
    assert_eq!(flags.read("ready"), None);
    flags.create_snapshot();
    assert_eq!(flags.read("ready"), Some(true));
    assert!(flags.write("ready", false));
    assert_eq!(flags.read("ready"), Some(true));
    flags.create_snapshot();
    assert_eq!(flags.read("ready"), Some(false));

    let mut names: MemoryModule<String> = MemoryModule::new("names");
    assert!(names.write("first", "ada".to_string()));
    names.create_snapshot();
    assert_eq!(names.read("first"), Some("ada".to_string()));
    assert_eq!(names.read("second"), None);
}
