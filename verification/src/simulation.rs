use vstd::prelude::*;
use crate::engine::{CycleEngine, Evaluator, cycle_done};
use crate::execution_order::{gets_stuck, valid_stages};

verus! {

/// `after` is `before` after one cycle, whatever the cycle returned.
pub open spec fn one_cycle<V: Evaluator>(ev: &V, before: CycleEngine, after: CycleEngine) -> bool {
    exists|r: Result<(), Seq<char>>| #[trigger] cycle_done(ev, &before, &after, r)
}

/// Each engine of `es` is the one before it after one cycle.
pub open spec fn cycles_run<V: Evaluator>(ev: &V, es: Seq<CycleEngine>) -> bool {
    &&& es.len() >= 1
    &&& forall|i: int| 0 <= i < es.len() - 1 ==> one_cycle(ev, #[trigger] es[i], es[i + 1])
}

/// Runs a cycle engine for a number of cycles, or without limit.
pub struct SimulationEngine {
    cycle_engine: CycleEngine,
    max_cycles: Option<u64>,
}

impl SimulationEngine {
    /// The engine being run.
    pub closed spec fn engine(&self) -> CycleEngine {
        self.cycle_engine
    }

    /// The number of cycles to stop at, if any.
    pub closed spec fn limit(&self) -> Option<u64> {
        self.max_cycles
    }

    /// A simulation over a cycle engine, whose execution order is built
    /// first; a dependency cycle among the processing components refuses it
    pub fn new(cycle_engine: CycleEngine, max_cycles: Option<u64>) -> (r: Result<Self, String>)
        ensures
            r is Ok <==> !gets_stuck(&cycle_engine.connection_map(), cycle_engine.proc_order().to_set()),
            match r {
                Ok(s) => s.limit() == max_cycles && s.engine().procs() == cycle_engine.procs() && s.engine().mems()
                    == cycle_engine.mems() && s.engine().conns() == cycle_engine.conns() && s.engine().mem_conns()
                    == cycle_engine.mem_conns() && s.engine().cycle_count() == cycle_engine.cycle_count()
                    && valid_stages(&s.engine().connection_map(), s.engine().proc_order(), s.engine().order()),
                Err(e) => e@ == crate::execution_order::cycle_message() && gets_stuck(
                    &cycle_engine.connection_map(),
                    cycle_engine.proc_order().to_set(),
                ),
            },
    {
        let mut cycle_engine = cycle_engine;
        match cycle_engine.build_execution_order() {
            Ok(_) => {},
            Err(e) => return Err(e),
        }
        Ok(SimulationEngine { cycle_engine, max_cycles })
    }

    /// Run cycles until the limit is reached; gives the cycle count then
    pub fn run<V: Evaluator>(&mut self, evaluator: &V) -> (r: Result<u64, String>)
        requires
            old(self).limit() is Some,
        ensures
            final(self).limit() == old(self).limit(),
            final(self).engine().same_plan(&old(self).engine()),
            r == Ok::<u64, String>(final(self).engine().cycle_count()),
            final(self).engine().cycle_count() == if old(self).engine().cycle_count() < old(self).limit()->0 {
                old(self).limit()->0
            } else {
                old(self).engine().cycle_count()
            },
            exists|es: Seq<CycleEngine>| #[trigger] cycles_run(evaluator, es) && es[0] == old(self).engine() && es.last()
                == final(self).engine() && es.len() - 1 == final(self).engine().cycle_count() - old(self).engine().cycle_count(),
    {
        let max = match self.max_cycles {
            Some(m) => m,
            None => 0,
        };
        let ghost start = self.cycle_engine;
        let ghost mut es: Seq<CycleEngine> = seq![start];
        proof {
            CycleEngine::lemma_same_plan_reflexive(&start);
        }
        while self.current_cycle() < max
            invariant
                self.max_cycles == old(self).max_cycles,
                max == old(self).limit()->0,
                self.cycle_engine.same_plan(&start),
                start == old(self).engine(),
                self.cycle_engine.cycle_count() >= start.cycle_count(),
                start.cycle_count() < max ==> self.cycle_engine.cycle_count() <= max,
                start.cycle_count() >= max ==> self.cycle_engine.cycle_count() == start.cycle_count(),
                cycles_run(evaluator, es),
                es[0] == start,
                es.last() == self.cycle_engine,
                es.len() - 1 == self.cycle_engine.cycle_count() - start.cycle_count(),
            decreases max - self.cycle_engine.cycle_count(),
        {
            let ghost before = self.cycle_engine;
            let _ = self.step(evaluator);
            proof {
                CycleEngine::lemma_same_plan_transitive(&self.cycle_engine, &before, &start);
                let es2 = es.push(self.cycle_engine);
                assert forall|i: int| 0 <= i < es2.len() - 1 implies one_cycle(evaluator, #[trigger] es2[i], es2[i + 1]) by {
                    if i < es.len() - 1 {
                        assert(es2[i] == es[i] && es2[i + 1] == es[i + 1]);
                    } else {
                        assert(es2[i] == before);
                    }
                }
                es = es2;
            }
        }
        Ok(self.current_cycle())
    }

    /// Run one cycle; a failing cycle does not stop the simulation
    pub fn step<V: Evaluator>(&mut self, evaluator: &V) -> (r: Result<(), String>)
        requires
            old(self).engine().cycle_count() < u64::MAX,
        ensures
            r is Ok,
            final(self).limit() == old(self).limit(),
            final(self).engine().same_plan(&old(self).engine()),
            final(self).engine().cycle_count() == old(self).engine().cycle_count() + 1,
            one_cycle(evaluator, old(self).engine(), final(self).engine()),
    {
        let result = self.cycle_engine.run_cycle(evaluator);
        proof {
            assert(cycle_done(evaluator, &old(self).engine(), &self.cycle_engine, crate::strings::outcome(result)));
        }
        Ok(())
    }

    /// The number of cycles run so far
    pub fn current_cycle(&self) -> (r: u64)
        ensures
            r == self.engine().cycle_count(),
    {
        self.cycle_engine.current_cycle()
    }
}

} // verus!
