# colby_editor

The decisions of a game editor and its launcher, as a verified library: what is
selected and what happens to it, what can be undone, how a project list is read,
ordered and written, what a form may make, what each panel shows.

`src/` is the library. Every function states what it returns or changes, and
Verus proves it. It works on plain values: a world is tables of entities, bodies
and joints, a fraction is carried by its bits, a path is a text, a file is the
text in it.

- `value`, `table`, `world`, `tree`, `planted`: the world, its handles, what hangs off
  what, and that nothing ever hangs below itself.
- `select`, `edit`, `copy`, `make`, `group`, `bake`: picking things and changing
  them.
- `history`, `tabs`, `panels`, `frame`, `change`, `editor`, `session`: presses, steps
  back and forward, the scenes that are open, and what is kept between runs.
- `hierarchy`, `inspector`, `section`, `entities`, `label`, `helper`, `gizmo`, `aim`,
  `paint`, `bar`, `browser`, `catalog`, `console`, `settings`, `profiler`,
  `loading`: what each panel shows and what a press on it means.
- `launcher`: the list of projects, the templates, and the form for a new one.
- `json`, `paths`, `order`, `text`, `fraction`: what the others are written with.

`app/` is ordinary Rust around it: windows, files, drawing, and the arithmetic
on fractions that says where things land.

`tests/` runs the library from outside.
