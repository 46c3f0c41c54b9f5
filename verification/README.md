# sysmon

A verified core for a handful of small system-monitoring programs, written
in Verus.

- `src/` is the library. Every function is verified against its contract,
  except the three calls into `rand` in `random`, whose contracts are trusted:
  - `binary`: decimal to binary digits, with uniqueness of the representation;
  - `memory`: a block of random integers in `1..100`;
  - `counter`: the bounded counter shared by threads, with its bound laws;
  - `ranking`: stable descending top-N ranking by an integer key, with
    uniqueness and maximality laws;
  - `metrics`: memory in fixed units, disk counter deltas, network totals;
  - `defense`: top CPU and memory process lists and the CPU, memory and
    DDoS alert rules;
  - `monitor`: the logger's memory figures and five busiest processes;
  - `analyzer`: process names and frequencies from the log, axis bounds,
    label counts, white-space trimming and time labels;
  - `log_order`: the frequency table does not depend on the order of the log.
- `app/` runs the programs (`binary`, `memory`, `threads`, `scope`,
  `monitor`, `analyze`, `defense`): system sampling, files, JSON, plots,
  notifications and all floating-point figures. Floating-point figures reach
  the library as order keys, integers that order as the figures do.
- `tests/` exercises the library on concrete values.
