# fm_verified

Data structures, analyses and layout decisions for a Mermaid-style diagram
toolkit, written in Verus: each function states its behaviour in `requires` /
`ensures` and Verus proves it.

## Layout

- `src/` — the verified library, one module per area:
  - data structures: `art` (adaptive radix tree), `quotient_filter`,
    `succinct` (rank/select bit vector, compressed adjacency), `epoch`;
  - graph analyses: `directed` (reachability, weakly and strongly connected
    components, directed cycles), `centrality`, `ir_queries`, `graph_ir`;
  - layout: `egraph_ordering` (crossing counts and local rewrites of layer
    orderings), `egraph_crossing` (the search over a saturated e-graph table,
    selection and saturation budgets), `cache_oblivious` (van Emde Boas and
    Morton orders), `adapton` (incremental layout caching);
  - the diagram model: `model`, `taxonomy`, `diagnostics`, `style` (inline
    style parsing and sanitizing), `cascade` (the style cascade), `config`
    (reading a Mermaid configuration object), `capability`, `lens`,
    `trace_ids`;
  - runtime policy: `budget`, `pressure`, `degradation`;
  - helpers: `text`, `seq_sum`.
  Laws that relate several operations stand as public proof functions named
  `law_*`.
- `tests/` — tests of the library on concrete values.
- `app/` — the parts that stay outside the verifier: the `egg` saturation run
  (which hands the library a plain table of e-classes), JSON conversion of
  configuration values, and the floating-point geometry and persistence code.
