# athanor_app

The application layer of the Athanor code knowledge engine, as a library verified with Verus:
the graph queries over a canonical snapshot (related entities, shortest paths, cycles, hubs,
exports), impact analysis, repository overview, Rustok architecture audits and graphs, the
index state and its invalidation rules, the JSON contract registry, and the journals and
pointers that publish one snapshot-consistent generation at a time.

Layout:

- `src/` — the verified library. Every public function has an `ensures` that states what
  it returns; where a search is cut by a limit, the contract states what is still owed
  (which results must be found and why the result is marked truncated), not every choice
  the search makes between equal candidates. Laws that relate several functions are
  public proof functions beside them.
- `tests/` — tests of the library on concrete values.
- `app/` — the file-system, JSON and floating-point work around the library (reading and
  writing state, pointers and journals; PageRank scores).
