# steel_memory

A spatial memory palace for agents: drawers of text filed under wings and rooms, a
temporal knowledge graph of triples, a palace graph of rooms, the compressed AAAK
dialect, a layered memory stack, and a retrieval benchmark over LongMemEval.

The library under `src/` is written in Verus. Every function carries a contract over a
mathematical model of its data (`Seq`, `Map`, views of each type), and public proof
functions state the properties that hold across operations, such as:

- adding a drawer then reading it back gives exactly that drawer; deleting an id removes
  only that id (`vector.rs`);
- recall is ordered by importance and filtered by place (`vector.rs`);
- invalidating a triple closes it without removing it, and a triple just added is found
  by queries on its subject and object (`knowledge_graph.rs`);
- a graph traversal reports only rooms within the hop limit, never twice, starting at the
  start room, and with a step allowed it reports every room of the start room's wing;
  every tunnel joins two distinct wings; the node counts add up to the number
  of drawers (`palace_graph.rs`);
- the AAAK key sentence takes at most 80 characters and a text names at most five
  entities (`dialect.rs`); an id has a clean shape and normalizing it again gives it
  back (`knowledge_graph.rs`);
- the table keeps drawer ids unique, so an add grows the count by one exactly when the
  id is new; `list_wings` lists each wing once and its counts add up to the total
  (`vector.rs`); a timeline holds the newest triples in chronological order.

Layout:

- `src/text.rs`, `src/sorting.rs`: strings as character sequences, and a stable sort
  with its specification;
- `src/vector.rs`, `src/knowledge_graph.rs`, `src/palace_graph.rs`: the stores, held in
  memory as tables of rows;
- `src/dialect.rs`, `src/layers.rs`, `src/tools.rs`: what the palace's tools compute;
- `src/benchmark.rs`: corpus building, retrieval facts and command-line parsing of the
  benchmark;
- `src/clock.rs`: the one call that reads the time, through `chrono`.

`app/` holds what the library leaves out: SQLite persistence, embeddings, the
floating-point similarity and metrics, JSON, and the MCP server.
