# macmemana

Mac Memory Analyzer: a terminal table of per-process memory and swap on
macOS (`macmemana`), or a one-shot report (`macmemana --cli --sort swap`).

The program reads `vmmap`, `footprint`, `top` and `sysctl`, and shows each
process's physical footprint, compressed memory and disk swap, the disk
swap scaled so that it adds up to the swap the system reports in use.

## Layout

- `src/` is the library, written and proved with Verus:
  - `size.rs`: reading sizes such as `8.12G` (as `f64` reads them) and
    writing byte counts with one decimal;
  - `float.rs`, `fraction.rs`, `decimal.rs`: the double-precision rounding,
    decimal digit strings and decimal numbers these rest on;
  - `scanner.rs`: the `vmmap -summary` report; `top.rs`: the `top` report;
    `footprint.rs`: the `footprint -j` report;
  - `normalize.rs`: scaling the per-process disk swap to the system figure;
  - `app.rs`, `events.rs`, `scan.rs`, `view.rs`: the interactive table's
    state, its reactions to keys and scanner messages, the scan's messages
    and the texts it shows;
  - `cli.rs`: the one-shot report;
  - `text.rs`: character-level helpers.
- `app/` is the program around it: arguments, the commands it runs, the
  terminal interface and the JSON decoding.
- `tests/` runs the library on concrete inputs.
