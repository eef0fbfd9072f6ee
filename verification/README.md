# JAM - Job Analysis and Monitoring

A monitor for cgroup v2 hierarchies and process trees on Linux, for one machine or for all
machines of a Slurm job. What it computes is in a library that is verified with Verus; what reads
files, starts processes and draws on the terminal is a program around it.

## Layout

- `src/`: the verified library.
  - `text`, `number`, `path`, `table`: texts, numbers in them, paths, tables by name and by path.
  - `float`, `rate`, `format`: binary floating point by integers, rates in single precision, and
    how numbers are shown.
  - `process`, `cgroup`: what the files under `/proc` and the cgroup mount point say.
  - `sort`, `nav`, `rows`, `row_laws`, `resorted`: the rows of the tree, their order and the
    selection.
  - `baseline`, `baseline_laws`, `app`: the rates between two samples, and the state of the view of one machine.
  - `slurm`: jobs, the collector on a machine, and the coordinator that merges their snapshots.
  - `ui`: the cells, headers, titles and footers of the screen, and the keys.
- `tests/`: tests of the library.
- `app/`: the program.

## Conventions

- Times are passed in: nanoseconds since the start of the program, or the milliseconds of a
  collector's clock.
- A rate is the encoding of a single precision number. One without a baseline is pending, and is
  shown as a dash.
- Counters are added modulo the width of their type.
- What a function expects of a text that comes from a file has a test beside it: `is_whole_stat`,
  `has_fields`, `is_whole`, `can_render_row`.
