# diagram_viewer

A database diagram editor: tables with their columns, relations between
columns drawn as crow's-foot lines, a selection that clicks, drags and
arrow keys change, and a plain-text report of the diagram.

- `src/` is the editor's logic, verified with Verus: the data model
  (`diagram`), the selection and how a click toggles it (`selection`), how
  the selection shows on tables and lines (`highlight`), arrow-key moves
  (`navigation`), the crow's-foot markers and labels (`notation`), the
  tidying of a relation's bends (`routing`), the automatic placement of
  tables (`layout`) and the text report (`export`). Positions and line
  coordinates are type parameters there; the library never computes with
  them.
- `app/` is the egui/eframe front end compiled to WebAssembly: drawing,
  pointer and keyboard input, floating-point geometry, JSON (de)serialization
  and the handle through which the web page drives the editor.
- `tests/` runs the library on concrete diagrams.
