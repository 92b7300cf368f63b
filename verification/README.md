# fan_control

The core of a fan-control program, verified with Verus: the graph of
configuration items (sensors, custom temperatures, curves, flat, linear and
target behaviors, controls), the evaluation pass that drives the controls from
the sensors, the configuration files' names and the settings.

## Layout

- `src/` — the verified library.
  - `app_graph.rs`, `node.rs`, `boilerplate.rs`: the graph of nodes, its
    well-formedness, building it from a configuration, naming and inputs.
  - `config/`: the items and the values they compute (`affine.rs` holds the
    exact rational interpolation that the curves and linear behaviors share).
  - `update.rs`: the evaluation pass; each node is updated once, after its
    inputs, and the pass leaves every valid node consistent with its inputs or
    above a failure, every sensor holding what the bridge answered and every
    control driven to its input's value.
  - `dir_manager.rs`, `directories.rs`, `name_sorter.rs`: configuration names,
    their natural order and the directory bookkeeping.
  - `hardware.rs`, `fake_hardware.rs`, `hardware_list.rs`: the hardware model
    and the bridge trait that platforms implement.
  - `packet.rs`, `parse.rs`, `text.rs`, `utils.rs`, `settings.rs`, `id.rs`.
- `tests/` — ordinary Rust tests of the library.
- `app/` — the program around it: arguments, logging, files (TOML through
  serde), and the update loop.

Outside calls are few and stated in trusted items: `lexical_sort`'s natural
comparison and transliteration, `rand` for the simulated sensors,
`char::is_alphabetic` and `String::push`. The hardware bridge is a trait that
platforms implement; each of its calls is recorded, with its answer, in a
ghost log that the contracts of the update pass speak of.
