# ia2_project

The logic of an IEC 61131-3 automation workbench and its edge runtime,
written in Verus with its behaviour stated in `requires` / `ensures`
contracts and proved.

## Layout

- `src/` — the verified library.
  - `text`, `chars`: string operations over `Seq<char>` used throughout.
  - `ld`, `ld_transpile`, `fbd`, `fbd_order`, `fbd_transpile`, `sfc`:
    graphical POU models and their translation to Structured Text, with
    source maps; FBD execution order by Kahn's algorithm.
  - `types`, `store`: the project's data model and the project store's
    decisions (names, paths, listing, task migration).
  - `gear_channels`, `iomap_check`: IO-map channel naming and validation.
  - `bridge`, `problem_docs`: what surrounds the IEC compiler — the
    synthesised CONFIGURATION, per-unit plans, diagnostic positions.
  - `runtime`, `scan`, `retain`, `forces`, `devices`, `logs`: the scan
    runtime's decisions — scheduling, watchdog, write routing, snapshots,
    RETAIN keys, forced values, device reconnect schedule, log ring.
  - `hmi`, `hmi_ops`: HMI screen documents, validation and tree edits.
  - `cli`, `northbound`, `host`, `opcua`: command line, MQTT plan, host
    inventory and OPC UA decisions on plain values.
- `tests/` — tests run against the compiled library.
- `app/` — unverified glue: file I/O, serde copies of the library's types
  and the conversions between them.
