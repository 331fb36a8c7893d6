# zellij_monitor

A Zellij status-bar plugin that shows CPU, memory, temperature, disk,
network and load metrics. The logic is a Verus-verified library; a thin
plugin shell around it talks to Zellij.

Layout:

- `src/text.rs` — character-level text handling (whitespace and line
  splitting, trimming, unsigned integer parsing, case-insensitive keywords,
  decimal output, UTF-8 lengths).
- `src/config.rs` — the configuration read from the layout's key/value map.
- `src/metrics/` — parsers for `/proc/stat`, `/proc/meminfo`,
  `/proc/net/dev`, the thermal zones and `df -BM`, and the CPU and network
  sample trackers.
- `src/decimal.rs` — exact one-decimal display of MiB/GiB values.
- `src/render.rs` — the status bar: segments, colours, truncation, alignment.
- `src/plugin.rs` — the commands to run per metric and the reaction to each
  host event.
- `app/lib.rs` — the Zellij plugin: host calls, floating-point readings
  (load averages, temperature average, network rates) and their formatting.
- `tests/` — tests of the library.
