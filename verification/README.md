# truecalc_workbook

The workbook layer of a spreadsheet engine, written in Verus: every function
in `src/` carries a `requires`/`ensures` contract that Verus proves.

## Layout

- `src/` — the verified library.
  - Addressing and names: `address` (A1 keys), `named_ref` (canonical
    sheet-qualified references), `table_ref` (table ranges and header
    columns), `casefold` (simple case folding of names).
  - The document model: `value` (cell values, numbers kept as their JSON
    text), `cell`, `worksheet` (a sorted sparse grid with a map view),
    `workbook` (sheets in tab order, names and tables, the mutation API),
    `registry` (named ranges and tables), `sheet_list` (the tab-list rules),
    `sheet_index`.
  - The file format: `json` (the JSON tree, duplicate keys, BOM, objects
    sorted by key), `validate` and `document` (every document rule,
    reported as the first violation), `canonical` (string escaping and the
    canonical text of a whole tree, keys in UTF-16 order), `persist`
    (schema versions, the written order of names and tables).
  - Spills and recalculation support: `spill`, `grid_spills`, `spill_place`,
    `authored_index`, `digraph` and `depgraph` (the dependency graph, cycle
    detection, evaluation order), `resolve` (turning references into
    precedents), `caches`, `recalc_util`, `recalc_context`.
  - `limits`, `error`, `text`: resource caps, the error type, string helpers.
- `tests/` — ordinary Rust tests of the library.
- `app/` — what stays outside the proofs: `Display` for errors, the serde
  shapes of the library's types, cell values with `f64` numbers, the
  strict JSON reader, canonical number formatting, whole-document reading
  and writing, and the calendar arithmetic of a recalculation context.

Laws of the library are stated as public proof functions named `law_*`
(for example `law_read_after_write` and `law_rename_keeps_refs_resolvable`
in `workbook`, `law_acyclic_order_is_topological` in `depgraph`).

The formula parser belongs to the engine, not to this crate. Where the
workbook needs what a parse gives, the caller hands it in: the parser's
verdict on a formula written with `Workbook::set`, the references found in
each formula cell that `Workbook::formula_cells` lists (for
`DependencyGraph::of_workbook`), and the rewritten text of the formulas
that name a sheet being renamed (for `Workbook::rename_sheet`).

Evaluating formulas is the engine's work as well, so recalculation,
explaining one cell's value, and translating formula text live with the
engine, not here. This crate holds the decisions around evaluation: the
dependency graph, the cells an edit makes dirty, cycle membership, the
evaluation order, spill placement, how each reference reads a cell
during a pass, and, once values are computed, writing them back
(`Workbook::apply_results`) and listing what changed
(`Workbook::diff_against_snapshot`), ordered by tab, row and column.
