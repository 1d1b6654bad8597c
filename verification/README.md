# energy_bench

A tool that measures the energy and time that benchmark programs written in
different languages take: it runs (or compiles) every task found under
`<path>/<language>/<task>` with `make`, reads the Intel RAPL energy counter
around each run, shows progress in a terminal UI and writes `energy.csv`.

- `src/` is the verified library (Verus): the scheduler state machine
  (`app`), task discovery and the energy-counter arithmetic (`benchmark`),
  the sensor and channel selection rules of the Apple-silicon sampler
  (`metrics`), and character-level helpers (`text`).
- `app/` is the program around it: command line, directory walk, `make`,
  RAPL readings, timing, the terminal UI and the CSV output.
- `tests/` exercises the library on concrete values.
