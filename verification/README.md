# labs

A Verus library of small systems programs and a command-line program
around it. The library's functions are verified against their contracts;
where a result comes from outside the library (a channel, the clock, std's
text functions, or the compute functions and callbacks that a caller hands
to the reactive network), the contracts rest on what that code is stated to
do, and say so where they are declared.

- `src/` — the verified library, one module per subject: `robot`,
  `minesweeper`, `slug`, `records`, `sensor`, `ring_buffer`, `filesystem`
  (with `shell` for the commands of its interactive shell), `operations` and
  `puzzle`, `barrier`, `react`, `scheduler`, `terminal`; `text` holds the
  character-level helpers they share and `clock` reads the time.
- `app/` — the programs: argument handling, files, processes, threads,
  locks and channels, floating-point statistics. Each subcommand of the
  binary is one program; where the library decides, the program only carries
  the decision out.
- `tests/` — tests of the library on concrete values.

Verify with `verus` on `src/lib.rs`; the library's public proof functions
(`lemma_*`) state the laws that hold across its operations.
