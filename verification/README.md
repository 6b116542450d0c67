# Traffic Control

A city traffic simulation: road, lane and tram networks, signals, right of way, car following,
routes, and the messages that a window draws from them.

- `src/` is the library. Its rules are stated in contracts and proved with Verus. All quantities are
  whole numbers: lengths in micrometres, times in microseconds, places in billionths of a degree or
  micrometres in the plane, positions along an edge in billionths of it, angles in millionths of a
  radian, and factors in millionths.
- `tests/` runs the library on chosen values.
- `app/` is the application around it: loading maps, serving the window, measuring on the globe and
  on smooth curves, and the thread that runs the simulation.

Modules of the library:

- `map`: graph, road and tram networks, lanes and connectors, buildings, the editor, city maps, lines
  and curves in the plane.
- `traffic`: signals and their programs.
- `vehicles`, `time`: drivers, vehicles, the clock and the traffic of the day.
- `simulation`: leaders, conflicts and reservations, right of way, motion, lane changes, routes, trips,
  trams, and the parts of a step of the whole simulation.
- `commands`, `state`: what the window asks for and gets.
