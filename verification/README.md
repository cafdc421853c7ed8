# Navigation scene workbench

A game-neutral two-dimensional navigation workbench: a scene model with an
occupancy grid, entities and prefab collisions, routes over the grid, a
hierarchical navigator that steers an agent around threats, actors that wander,
and a viewer that puts these together.

The library under `src/` is verified with Verus. All arithmetic in it is on
`Real`, a binary64 number given by its encoding; single precision is a `Real`
that single precision can represent. Addition, multiplication, division and
square root are proved to round correctly, so every contract is exact to the
bit.

| Modules | What they hold |
| --- | --- |
| `rounding`, `number`, `conversion`, `ordering`, `single`, `roots`, `geometry`, `unit`, `nearness` | arithmetic, its laws, points, distances and directions |
| `text`, `attributes`, `scene`, `json`, `store` | the scene model, its contract, and scenes as database rows |
| `queue`, `stamped`, `search`, `settle`, `reopen`, `thorough`, `least`, `thrifty`, `frugal`, `ring` | best-first search on grids, that it misses no route, and that what it finds costs the least |
| `walk`, `dilation`, `raycast`, `crossing`, `passage`, `coarse`, `config` | the views that navigators plan on, and that clear segments touch no blocked cell |
| `gate`, `snap`, `steering`, `corridor`, `window`, `refine`, `legs`, `cheapest`, `scratch`, `navigator`, `pace`, `turning`, `conduct` | the navigator, and what holds of its plans and of each of its steps |
| `pathfinding`, `shortest` | routes over the grid of a scene, and that they are the shortest |
| `random`, `walkable`, `wander`, `listing`, `roster`, `population` | wandering and synthetic actors |
| `awareness`, `workbench`, `camera` | what the viewer works with |

Attributes are written and read as JSON by `serde_json`; the two functions in
`json` that call it, and nothing else, are trusted.

`app/` is the viewer: command line, window, painting, and the SQLite tables. It
supplies the sine, cosine and arc tangent that wandering actors turn by.

`tests/` runs the library on whole scenes and on single cases.
