# structure

A verified library that groups the blocks of a control-flow graph into loops, branches and
value decisions, and gives every value that crosses a join exactly one owner.

The input is one function of a register machine: its instructions (`lir`), its control-flow
graph (`cfg`) and what each instruction reads and writes (`compute`). The work goes in steps,
each with a contract that says what it yields:

| step | modules |
| --- | --- |
| consistency of the graph | `validate` |
| dominators, loops, components | `flood`, `dominance`, `tree`, `forest`, `dfs`, `loopforest`, `graph` |
| liveness, phis, renaming | `tracks`, `ssa`, `open_values`, `collapse`, `renaming`, `uses`, `compute` |
| loops | `loop_shape`, `loop_exits`, `loop_partition`, `loop_candidates`, `loop_values`, `loops`, `repeats`, `continues` |
| branches | `branches`, `classify`, `refine`, `fences`, `branch_regions`, `branch_values`, `phi_arms` |
| conditions and value decisions | `condition_arcs`, `condition_safety`, `conditions`, `guards`, `selection`, `value_decisions`, `value_selection`, `callees` |
| jumps that are left over | `gotos`, `edge_actions` |
| input of the plan | `continuation`, `final_input`, `analyze` |
| the plan and its queries | `plan`, `structure_plan`, `debug_bindings` |
| owners of values | `owners`, `claims`, `region_claims`, `inherit`, `dispositions`, `copy_targets`, `edge_copies`, `forwarding`, `moves`, `install`, `ownership`, `finalize` |
| text | `text`, `plan_text`, `region_text`, `structure_dump`, `diagnostic`, `error_text`, `ownership_text` |

Properties that span several steps are proof functions of their own. The most important are
in `ssa_laws` (on every path the value at a place is the one that was made last),
`ownership_laws` (in a plan that has passed its check every value is accounted for, and edges
copy what is stated), `completion_laws` (a completed plan passes its check),
`condition_laws` (joining conditions, or cutting one off, changes no outcome), and
`dataflow_laws` (definitions follow what instructions write, phis stand by block and register,
and a use outside a set of blocks is a read there). Others are in `route_laws`, `owners`,
`region_text`, `selection`, `continues`, `collapse`, `graph`, `loopforest`, `analyze` and
`error_text`.

`app/` holds the error type for callers of `std::error::Error`, and reports that print the
parts of a plan with `Debug`.
