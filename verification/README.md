# mcf_timetable

Passenger flow distribution in a railway network as a multi-commodity flow
problem. The library's functions carry contracts that Verus checks; calls into
`petgraph`, `indexmap`, `rand` and `csv` go through trusted items whose contracts
are stated, not proved (the depth-first traversal of `petgraph`, for instance, is
named rather than described).

A train timetable (stations, trips, footpaths) becomes a time-expanded directed
graph; every travel group searches route options through it with a budgeted
depth-first search; a selection of one route per group is scored by the travel
cost, the delay and the overload of the trains it fills, and improved by local
search.

## Layout

- `src/` — the verified library
  - `graph_weight`, `graph`, `index_set`: node and edge weights, and the trusted
    interface to the `petgraph` graph and the `indexmap` sets
  - `station`, `trip`, `footpath`, `model`, `integrity`: building the timetable
    graph, and what every graph built this way satisfies
  - `path`, `search`, `simple_paths`, `group`: routes, their search, and the
    travel groups
  - `load`, `optimization`, `randomized_best`, `randomized_hillclimb`: loading
    the graph with a selection of routes, its costs, and the improvement steps
  - `selection_check`: checks, before an improvement run, that the groups' paths
    take edges of the graph and that no selection's costs leave their types
  - `parse`, `travel`: reading the input records, and travel plans as text
  - `subgraph`: the part of the graph made of some of its edges (written out as
    DOT code with `graph::dot_code`)
- `app/` — the command line program: reading the CSV files, threads, snapshots,
  the float-based simulated annealing and the output files
- `tests/` — tests of the library on small timetables
