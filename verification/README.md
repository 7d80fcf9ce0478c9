# safety_pass

Netlist passes over `safety_net` gate netlists, written in Verus with their
contracts proved.

## Layout

- `src/netlist.rs` — `Design`, a netlist of `safety_net::Gate`s, and its model:
  a sequence of `ObjectView`s (cell type, instance name, net identifiers,
  drivers of each input, attributes with their values), one per node in
  storage order, beside the module name and the top-level outputs.  Every
  call into `safety_net` goes through a small trusted item whose contract
  states what the crate does to that model.  Every operation keeps the model
  well formed (`netlist::well_formed`: each driver and each top-level output
  names an existing output).
- `src/text.rs` — decimal rendering and the text of the pass reports.
- `src/usage.rs` — the cell usage table of `CellStats`, with its laws
  (counts add up, most used first, one line per cell type).
- `src/listing.rs` — the net listing of `ListNets`.
- `src/passes.rs` — the passes that read or edit nodes in place
  (`PrintVerilog`, `DotGraph`, `Clean`, `RenameNets`, `CellStats`,
  `ListNets`, `StripAttributes`, `RemapCells`) and the pass registry
  `BasicPasses`.
- `src/rewrites.rs` — the passes that add nodes and rewire the netlist
  (`DedupConsts`, `InsertInv`, `InsertScanChain`, `ExtractInvClock`).
- `app/lib.rs` — the registry as a `clap` value enum, and a dispatcher that
  checks what each pass needs of the netlist before it runs.
- `tests/` — tests on concrete netlists, run against the real `safety_net`.

## Preconditions

A few passes reach ports through `safety_net` calls that panic on some
netlists; their `requires` leave those netlists out, and a verified check
tells a caller whether a netlist qualifies:

- `netlist::port_fit` — for `PrintVerilog` (its `emitted` field: the
  instances that the Verilog emitter writes) and `ListNets` (its
  `connected_inputs` field, needed only where `netlist::fanout_ready` says
  the fan-out table builds); only a cell type remapped to one with fewer
  ports breaks the fit;
- `netlist::dot_ready` — for `DotGraph`, which reads the ports of the
  instances and takes a line of its graph text that holds both `->` and
  `port=` for an edge;
- `rewrites::constants_ready` — for `DedupConsts`;
- `rewrites::scan_chain_ready` — for `InsertScanChain`, whose `try_run`
  makes that test itself.
