# route_optimizer

A verified core for an octilinear transit-map optimizer. Route definitions
(`data/route/*.json`) and stop positions (`data/position/*.json`) are read by
the program in `app/`; the library in `src/` holds everything about the map
that does not depend on floating-point coordinates, with contracts proved by
Verus:

- `catalog`: stops by id (a later stop with an id already present replaces the
  earlier one) and stop references (`"01009*"` is a pass-through stop).
- `routes`: resolution of routes against the catalog into visit nodes, with
  warnings for missing stops and for routes left with fewer than two stops.
- `segments`: the legs of each route and the relations between two legs.
- `grouping`, `groups`: stop groups (all visit nodes of one stop) and corridor
  groups (legs of different routes joining the same two stops), in id order.
- `layout`: the whole problem structure built from the above.
- `transfer`: candidate orders of a transfer stop's nodes and the route arms
  leaving them.
- `drawing`: label placement order, legend grid, variable addressing.
- `skeleton`: the shape of the output map, to which the program attaches
  coordinates.
- `text`: XML escaping and the lexicographic order on ids.

`app/` runs the coordinate optimization (automatic differentiation and Adam),
the projection, and the SVG rendering, all of which compute on floating-point
numbers, and the file and command-line handling. Invoked under the name
`route-svg`, the program draws the plain real-position map instead.
