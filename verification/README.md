# btemp

A terminal monitor for lm-sensors temperatures. The library (`src/`) holds the logic,
verified with Verus: parsing `sensors -j` output (decoded with serde_json) and plain
`sensors` text into
readings, grouping readings into panels and storage drives, the per-series sample
history, the key bindings and poll interval, and the plan of what to draw where on
screen. The program (`app/`) runs `sensors`, reads `/proc/cpuinfo` and
`/sys/class/nvme`, drives the terminal event loop with crossterm, and renders the plan
with ratatui, including the braille graphs (floating-point drawing code).

Modules of the library:

- `text`: character-sequence helpers (trimming, splitting, searching, ordering).
- `cpu_info`: the CPU model line of `/proc/cpuinfo`.
- `storage_names`: NVMe chip names, PCI addresses and drive labels from a sysfs snapshot.
- `sensors`: readings from a decoded JSON document or from `sensors` text.
- `history`: ring buffers of samples per series.
- `group`, `group_laws`: panels, drives, ordering, and the properties of the grouping.
- `layout`: screen rectangles and the ratatui layout calls.
- `ui`: the monitor state, key handling, poll handling and the frame plan.
