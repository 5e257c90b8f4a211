# tasky

Track projects, their goals, and a DAG of tasks. The library in `src/` holds the rules
and algorithms, written in Verus and proved against their contracts; `app/` is the
`tasky` command line and its SQLite storage, which hand the library plain values. The
graph viewer's window is not part of this build; the layout it draws is `layout::plan`.

## Library layout

| Module | What it holds |
| --- | --- |
| `lib.rs` | The error type, blank-field and slug checks |
| `text` | Blank text, slugs, ID order, string building |
| `time` | The instant type and its RFC 3339 text |
| `status` | Goal and task lifecycles, link kinds, their text forms |
| `project`, `goal`, `task` | Records and their lifecycle operations |
| `order` | Kahn's algorithm over task positions, ties broken by position |
| `dag` | The dependency graph: construction, queries, reachability, dependency order |
| `store` | What storage decides between reading and writing: changes, filters, lookups, totals, details |
| `rows` | Records as stored text, and reading them back |
| `ui` | The viewer's states, collapsing, dependency ranks, and labels |
| `layout` | The viewer's layout in whole world units: shown shapes, positions, edges, bounds |
| `tree` | Project paths, root projects, nested scopes |

Each public operation states in its contract what it returns, errors included. Laws that relate
several operations are public proof functions, such as `dag::lemma_dependency_order_unique`,
`dag::lemma_allowed_dependency_builds` and `rows::lemma_rows_round_trip`.
