# rayon_logs

A logging extension for the [rayon](https://github.com/rayon-rs/rayon)
library, written in Verus. Logged `join`s and subgraphs record, per thread,
raw events (tasks starting and ending, their children, tagged subgraphs);
the events are saved in a small binary format or replayed into the
fork-join graph of the run, which is then analysed (tasks of each subgraph,
work and time per tag, idle times of threads, statistics over several runs)
and displayed as an animated svg.

Layout:

- `src/` is the verified library. Each public function states its behaviour
  in `requires`/`ensures` over mathematical models (`Seq`, `Map`, views), and
  the laws of the library (a saved log loads back as it was, renumbering tags
  keeps the tag of every subgraph, every duration falls in one histogram bar,
  the block layout of a run is a tree holding each task once, each task
  placed after its fathers by the layout rule, ...) are proof
  functions or postconditions.
  - `events`, `le`, `codec`, `loader`: raw events, their byte format, loading.
  - `list`, `storage`, `recorder`, `logging`, `context`, `parallel`,
    `builder`: recording events in per-thread logs while rayon runs logged
    `join`s and subgraphs.
  - `runlog`, `analysis`, `tags`, `idle`, `stats`, `histogram`, `graph`:
    the fork-join graph of a run and what is computed from it.
- `app/` is ordinary Rust around the library: a global logging pool with
  `join`, `subgraph`, ... that log into it, file input and output, the svg
  and html displays (floating point geometry) and the `Comparator`.
- `tests/` runs the library on concrete logs and pools.
