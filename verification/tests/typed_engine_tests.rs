use std::cell::RefCell;

use rsim::components::{PortSpec, ProcessorModule};
use rsim::maps::{TypedInputs, TypedOutputMap, TypedOutputs};
use rsim::memory::MemoryStore;
use rsim::modules::{ComponentInstance, ComponentModule};
use rsim::assoc::AssocMap;
use rsim::typed_engine::{merge_typed_outputs, CycleEngine, EvaluationContext, TypedEvaluator};
use rsim::values::TypedValue;
use rsim::types::ComponentId;
use rsim::values::TypeTag;

fn id(name: &str) -> ComponentId {
    ComponentId::new(name.to_string(), "proc".to_string())
}

fn module(name: &str) -> ProcessorModule {
    ProcessorModule::new(
        name,
        vec![PortSpec::input_optional("in")],
        vec![PortSpec::output("out")],
        vec![PortSpec::memory("mem")],
    )
}

fn engine_with(names: &[&str]) -> CycleEngine {
    let mut engine = CycleEngine::new();
    for name in names {
        engine
            .register_component(ComponentInstance { id: id(name), module: ComponentModule::Processing(module(name)) })
            .unwrap();
    }
    engine
}

fn link(engine: &mut CycleEngine, from: &str, to: &str) {
    engine.connect((id(from), "out".to_string()), (id(to), "in".to_string())).unwrap();
}

/// "src" emits 5; "sink" adds its input to the memory's "state" and records
/// what it read from memory.
struct Recorder {
    seen: RefCell<Vec<Option<i64>>>,
}

impl TypedEvaluator for Recorder {
    fn evaluate(
        &self,
        module: &ProcessorModule,
        context: &mut EvaluationContext,
        outputs: &mut TypedOutputMap,
    ) -> Result<(), String> {
        if module.name == "src" {
            outputs.set("out", 5i64)
        } else {
            let stored = context.memory.read_data::<i64>("mem", "state")?;
            self.seen.borrow_mut().push(stored);
            if let Ok(v) = context.inputs.get::<i64>("in") {
                context.memory.write_data::<i64>("mem", "state", stored.unwrap_or(0) + v)?;
            }
            Ok(())
        }
    }
}

#[test]
fn test_typed_execution_order_is_topological() {
    let mut engine = engine_with(&["a", "b", "c"]);
    link(&mut engine, "a", "b");
    link(&mut engine, "b", "c");
    engine.build_execution_order().unwrap();
    let order: Vec<&str> = engine.execution_order().iter().map(|c| c.id()).collect();
    assert_eq!(order, vec!["a", "b", "c"]);
}

#[test]
fn test_typed_cycle_detection() {
    let mut engine = engine_with(&["a", "b"]);
    link(&mut engine, "a", "b");
    link(&mut engine, "b", "a");
    assert_eq!(
        engine.build_execution_order(),
        Err("Cycle detected involving component 'a'".to_string())
    );
    assert!(engine.execution_order().is_empty());
}

#[test]
fn test_typed_self_loop_is_no_cycle() {
    let mut engine = engine_with(&["a"]);
    link(&mut engine, "a", "a");
    assert_eq!(engine.build_execution_order(), Ok(()));
    assert_eq!(engine.execution_order().len(), 1);
}

#[test]
fn test_typed_run_cycle_uses_last_cycle_outputs() {
    let mut engine = CycleEngine::new();
    engine
        .register_component(ComponentInstance { id: id("src"), module: ComponentModule::Processing(module("src")) })
        .unwrap();
    engine
        .register_component(ComponentInstance { id: id("sink"), module: ComponentModule::Processing(module("sink")) })
        .unwrap();
    let ram = ComponentId::new("ram".to_string(), "memory".to_string());
    engine
        .register_component(ComponentInstance {
            id: ram.clone(),
            module: ComponentModule::Memory(MemoryStore::new("ram", TypeTag::I64)),
        })
        .unwrap();
    link(&mut engine, "src", "sink");
    engine.connect_memory(id("sink"), "mem".to_string(), ram).unwrap();
    engine.build_execution_order().unwrap();
    let recorder = Recorder { seen: RefCell::new(Vec::new()) };
    for _ in 0..4 {
        engine.run_cycle(&recorder);
    }
    assert_eq!(engine.current_cycle(), 4);
    assert_eq!(*recorder.seen.borrow(), vec![None, None, Some(5), Some(10)]);
}

#[test]
fn test_typed_registration() {
    let mut engine = engine_with(&["a"]);
    assert!(engine
        .register_component(ComponentInstance { id: id("a"), module: ComponentModule::Processing(module("a")) })
        .is_err());
    assert!(engine.get_component(&id("a")).is_some());
    assert_eq!(engine.component_ids().len(), 1);
    assert!(engine.connect((id("a"), "out".to_string()), (id("zz"), "in".to_string())).is_err());
}

#[test]
fn test_merge_typed_outputs_step() {
    let mut acc: AssocMap<(ComponentId, String), TypedValue> = AssocMap::new();
    let mut produced: AssocMap<String, TypedValue> = AssocMap::new();
    produced.insert("out".to_string(), TypedValue::new(9u64));

    merge_typed_outputs(&mut acc, &id("a"), &Err("broken".to_string()), &produced);
    assert_eq!(acc.len(), 0);

    merge_typed_outputs(&mut acc, &id("a"), &Ok(()), &produced);
    assert_eq!(acc.len(), 1);
    let v = acc.get(&(id("a"), "out".to_string())).expect("stored");
    assert_eq!(*v.get::<u64>().unwrap(), 9u64);
}
