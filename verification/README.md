# ankurah-xray

A live inspector panel for Ankurah applications: per-entity event DAGs, head
clocks, live-query traffic and node internals, drawn over a running application
that stays usable while you look at it.

What the panel decides, computes and says is a library verified with Verus, under
`src/`. Its contracts speak of mathematical models, and what holds across operations
is stated in proof functions whose names start with `law_`.

- `launcher`: the master switch, and what is observed while it is on
- `host`: what the panel learns from the application, and how one installs itself
- `bus`: the registry of live queries, the bounded feed, the connection log
- `walk`: the walk over an entity's event history, as a state machine
- `inspector`: which walk may write into the drawer, and how an event reads
- `plan`, `dag`, `dag_view`: the layout of a history and its picture
- `decode`, `wire`: what each backend did in an event, and which bytes can be decoded
- `feed`, `system_panel`, `env`: what the cards say
- `event`, `ids`, `text`: events, ids and clocks, and texts

Ids, content hashes, last writers and yrs diffs come from the `ankurah` and `yrs`
crates, behind small wrappers whose doc comments say what is relied upon.

`app/` holds the rest: Leptos components, browser and storage access, and the trait
that an application implements. It carries out the actions and requests that the
library asks for, and hands the replies back.

`tests/` runs the library on concrete values.
