use rsim::components::{PortSpec, ProcessorModule};
use rsim::config::{ConcurrencyMode, SimulationConfig};
use rsim::contexts::EvaluationContext;
use rsim::engine::{CycleEngine, Evaluator};
use rsim::manager::ComponentManager;
use rsim::maps::{EventOutputMap, EventOutputs};
use rsim::memory::MemoryStore;
use rsim::modules::{ComponentInstance, ComponentModule};
use rsim::simulation::SimulationEngine;
use rsim::types::ComponentId;
use rsim::values::TypeTag;

/// Does nothing: every module succeeds without outputs.
struct Idle;

impl Evaluator for Idle {
    fn evaluate(
        &self,
        _module: &ProcessorModule,
        _context: &mut EvaluationContext,
        _outputs: &mut EventOutputMap,
    ) -> Result<(), String> {
        Ok(())
    }
}

/// A source emits 7 on "out"; an accumulator adds its "in" input to the
/// "state" address of the memory on its "mem" port.
struct Pipeline;

impl Evaluator for Pipeline {
    fn evaluate(
        &self,
        module: &ProcessorModule,
        context: &mut EvaluationContext,
        outputs: &mut EventOutputMap,
    ) -> Result<(), String> {
        if module.name == "source" {
            outputs.set("out", 7u64)
        } else {
            let input: u64 = context.inputs.get_value::<u64>("in")?;
            let previous: i64 = context.memory.read::<i64>("mem", "state")?.unwrap_or(0);
            context.memory.write::<i64>("mem", "state", previous + input as i64)
        }
    }
}

/// Every module fails.
struct Failing;

impl Evaluator for Failing {
    fn evaluate(
        &self,
        _module: &ProcessorModule,
        _context: &mut EvaluationContext,
        _outputs: &mut EventOutputMap,
    ) -> Result<(), String> {
        Err("broken".to_string())
    }
}

fn test_processor(inputs: Vec<PortSpec>) -> ProcessorModule {
    ProcessorModule::new("test_processor", inputs, vec![PortSpec::output("out")], vec![])
}

fn id(name: &str, kind: &str) -> ComponentId {
    ComponentId::new(name.to_string(), kind.to_string())
}

fn pipeline_engine(config: SimulationConfig) -> CycleEngine {
    let mut engine = CycleEngine::new(config);
    let source = ProcessorModule::new("source", vec![], vec![PortSpec::output("out")], vec![]);
    let acc = ProcessorModule::new("acc", vec![PortSpec::input("in")], vec![], vec![PortSpec::memory("mem")]);
    engine
        .register_component_instance(ComponentInstance { id: id("src", "source"), module: ComponentModule::Processing(source) })
        .unwrap();
    engine
        .register_component_instance(ComponentInstance { id: id("acc", "acc"), module: ComponentModule::Processing(acc) })
        .unwrap();
    engine
        .register_component_instance(ComponentInstance {
            id: id("mem", "memory"),
            module: ComponentModule::Memory(MemoryStore::new("mem", TypeTag::I64)),
        })
        .unwrap();
    engine.connect((id("src", "source"), "out".to_string()), (id("acc", "acc"), "in".to_string())).unwrap();
    engine.connect_memory((id("acc", "acc"), "mem".to_string()), id("mem", "memory")).unwrap();
    engine.build_execution_order().unwrap();
    engine
}

#[test]
fn test_execution_order_builder_integration() {
    let mut engine = CycleEngine::new_sequential();
    let mut comp_manager = ComponentManager::new();
    let proc_module = test_processor(vec![PortSpec::input("in")]);
    comp_manager.register_module("test_processor", ComponentModule::Processing(proc_module)).unwrap();
    let instance = comp_manager.create_component("test_processor", "test_comp_1".to_string()).unwrap();
    engine.register_component_instance(instance).unwrap();

    let result = engine.build_execution_order();
    assert!(result.is_ok(), "Execution order building should succeed");

    let order = engine.execution_order();
    assert_eq!(order.len(), 1);
    assert_eq!(order[0][0].id(), "test_comp_1");
}

#[test]
fn test_cycle_detection() {
    let mut engine = CycleEngine::new_sequential();
    let mut comp_manager = ComponentManager::new();
    let proc_module = test_processor(vec![PortSpec::input("in")]);
    comp_manager.register_module("test_processor", ComponentModule::Processing(proc_module)).unwrap();
    let instance1 = comp_manager.create_component("test_processor", "comp1".to_string()).unwrap();
    let instance2 = comp_manager.create_component("test_processor", "comp2".to_string()).unwrap();
    engine.register_component_instance(instance1).unwrap();
    engine.register_component_instance(instance2).unwrap();

    let comp1_id = id("comp1", "test_processor");
    let comp2_id = id("comp2", "test_processor");
    engine.connect((comp1_id.clone(), "out".to_string()), (comp2_id.clone(), "in".to_string())).unwrap();
    engine.connect((comp2_id, "out".to_string()), (comp1_id, "in".to_string())).unwrap();

    let result = engine.build_execution_order();
    assert!(result.is_err(), "Should detect cycle in component dependencies");
    assert!(result.unwrap_err().contains("Cycle detected"));
}

#[test]
fn test_step_return_type() {
    let mut comp_manager = ComponentManager::new();
    let proc_module = test_processor(vec![]);
    comp_manager.register_module("test_processor", ComponentModule::Processing(proc_module)).unwrap();
    let instance = comp_manager.create_component("test_processor", "test_comp".to_string()).unwrap();
    let mut cycle_engine = CycleEngine::new_sequential();
    cycle_engine.register_component_instance(instance).unwrap();

    let mut sim_engine = SimulationEngine::new(cycle_engine, Some(1)).unwrap();
    let result = sim_engine.step(&Idle);
    assert!(result.is_ok(), "Step should succeed");
    let _unit_result: () = result.unwrap();
    assert_eq!(sim_engine.current_cycle(), 1);
}

#[test]
fn test_run_with_max_cycles() {
    let mut comp_manager = ComponentManager::new();
    let proc_module = test_processor(vec![]);
    comp_manager.register_module("test_processor", ComponentModule::Processing(proc_module)).unwrap();
    let instance = comp_manager.create_component("test_processor", "test_comp".to_string()).unwrap();
    let mut cycle_engine = CycleEngine::new_sequential();
    cycle_engine.register_component_instance(instance).unwrap();

    let mut sim_engine = SimulationEngine::new(cycle_engine, Some(3)).unwrap();
    let final_cycle = sim_engine.run(&Idle).unwrap();
    assert_eq!(final_cycle, 3, "Should run exactly 3 cycles");
    assert_eq!(sim_engine.current_cycle(), 3, "Current cycle should be 3");
}

#[test]
fn test_sequential_pipeline_accumulates_in_memory() {
    let mut engine = pipeline_engine(SimulationConfig::new());
    assert_eq!(engine.execution_order().len(), 2);
    assert_eq!(engine.execution_order()[0][0].id(), "src");
    assert_eq!(engine.execution_order()[1][0].id(), "acc");
    for _ in 0..3 {
        engine.cycle(&Pipeline).unwrap();
    }
    assert_eq!(engine.current_cycle(), 3);
    assert_eq!(engine.query_memory_component_state::<i64>(&id("mem", "memory")), Ok(Some(21)));
}

#[test]
fn test_grouped_pipeline_matches_sequential() {
    let mut engine = pipeline_engine(SimulationConfig::new().with_concurrency(ConcurrencyMode::Rayon));
    for _ in 0..3 {
        engine.run_cycle(&Pipeline).unwrap();
    }
    assert_eq!(engine.query_memory_component_state::<i64>(&id("mem", "memory")), Ok(Some(21)));
}

#[test]
fn test_query_errors() {
    let engine = pipeline_engine(SimulationConfig::new());
    assert_eq!(engine.query_memory_component_state::<i64>(&id("mem", "memory")), Ok(None));
    assert_eq!(
        engine.query_memory_component_state::<i64>(&id("nope", "memory")),
        Err("Memory component 'nope' not found".to_string())
    );
}

#[test]
fn test_failing_component_reports_error() {
    let mut engine = pipeline_engine(SimulationConfig::new());
    assert_eq!(engine.cycle(&Failing), Err("broken".to_string()));
    assert_eq!(engine.current_cycle(), 1);

    let mut grouped = pipeline_engine(SimulationConfig::new().with_concurrency(ConcurrencyMode::Rayon));
    assert_eq!(
        grouped.cycle(&Failing),
        Err("Sub-level execution failed in 1 components: [Component 'src': broken]".to_string())
    );
}

#[test]
fn test_empty_engine_cycles() {
    let mut engine = CycleEngine::new_sequential();
    engine.build_execution_order().unwrap();
    engine.cycle(&Failing).unwrap();
    assert_eq!(engine.current_cycle(), 1);
}

#[test]
fn test_connect_unknown_component() {
    let mut engine = CycleEngine::new_sequential();
    assert!(engine.connect((id("a", "x"), "out".to_string()), (id("b", "x"), "in".to_string())).is_err());
    assert!(!engine.has_component(&id("a", "x")));
}

#[test]
fn test_simulation_engine_refuses_cycle() {
    let mut engine = CycleEngine::new_sequential();
    let m = test_processor(vec![PortSpec::input("in")]);
    engine
        .register_component_instance(ComponentInstance { id: id("a", "p"), module: ComponentModule::Processing(m.clone()) })
        .unwrap();
    engine
        .register_component_instance(ComponentInstance { id: id("b", "p"), module: ComponentModule::Processing(m) })
        .unwrap();
    engine.connect((id("a", "p"), "out".to_string()), (id("b", "p"), "in".to_string())).unwrap();
    engine.connect((id("b", "p"), "out".to_string()), (id("a", "p"), "in".to_string())).unwrap();
    assert_eq!(
        SimulationEngine::new(engine, Some(2)).err(),
        Some("Cycle detected in component dependencies".to_string())
    );
}

#[test]
fn test_run_from_past_limit_does_nothing() {
    let engine = CycleEngine::new_sequential();
    let mut sim = SimulationEngine::new(engine, Some(2)).unwrap();
    assert_eq!(sim.run(&Idle), Ok(2));
    let mut sim2 = SimulationEngine::new(CycleEngine::new_sequential(), Some(0)).unwrap();
    assert_eq!(sim2.run(&Idle), Ok(0));
}

#[test]
fn test_parallel_component_queues_its_writes() {
    let mut engine = pipeline_engine(SimulationConfig::default());
    engine.begin_cycle();
    let src = id("src", "source");
    let acc = id("acc", "acc");
    let source_result = engine.execute_processing_component_parallel(&src, &Pipeline);
    let (outputs, writes) = source_result.as_ref().expect("source runs");
    assert_eq!(outputs.len(), 1);
    assert!(writes.is_empty());
    engine.finish_group("Stage", &vec![src.clone()], vec![source_result]).unwrap();

    let (acc_outputs, acc_writes) = engine.execute_processing_component_parallel(&acc, &Pipeline).expect("acc runs");
    assert!(acc_outputs.is_empty());
    assert_eq!(acc_writes.len(), 1);
    assert_eq!(acc_writes[0].writer_id, acc);
    assert_eq!(acc_writes[0].memory_id, id("mem", "memory"));
    assert_eq!(acc_writes[0].address, "state");
    assert_eq!(acc_writes[0].data.get::<i64>(), Ok(&7));

    let missing = engine.execute_processing_component_parallel(&id("nope", "x"), &Pipeline);
    assert_eq!(missing.err(), Some("Processing component 'nope' not found".to_string()));
}
