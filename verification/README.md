# rsim

A cycle-based simulation library: processing components read typed values
from their input ports and from memory components, and write values to their
output ports and memory; memory components keep the state from one cycle to
the next, read through a snapshot taken at the end of each cycle.

The library is written in Verus and verified: every public function carries a
contract over a mathematical model of its data.

What a processing module computes is supplied by the user through the
`Evaluator` (or `TypedEvaluator`) trait.  Its `evaluates_to` relation says
which results and which memory writes an evaluation may have; the engines'
contracts state, over it, that a cycle evaluates each scheduled component on
the inputs its connections deliver, with its outputs stamped by the cycle,
keeps the outputs it sets, and applies its memory writes in order before the
snapshot that the next cycle reads.

Layout:

- `src/` — the verified library
  - values, typed and event-carrying (`values`, `maps`), component
    identifiers and ports (`types`), ordered maps (`assoc`), text (`strings`)
  - module descriptions and instances (`components`, `modules`, `memory`,
    `traits`), registries and managers (`registry`, `manager`)
  - connections and their validation (`connections`, `port_validator`)
  - the execution order in stages and sub-levels, and the queue order of
    a registry's processing components (`execution_order`), the
    cycle engines (`engine`, `typed_engine`), the simulation driver
    (`simulation`), the builder (`builder`)
  - memory access for components (`proxy`, `contexts`), events and their
    scheduling (`events`), the event dependency graph (`dependency_graph`)
- `tests/` — tests of the library
- `app/` — parallel execution of a cycle's sub-levels on a thread pool
