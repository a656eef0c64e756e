# Parametric sketch engine, verified

A 2-D parametric sketch model and its editing session, written in Verus.

- `src/` is the verified library. The document keeps points, segments,
  fills and paths in generational arenas (`arena`, `ids`, `document`),
  with constraints and dimensions beside them (`constraints`). Positions,
  stroke widths and dimension values are carried as IEEE-754 bit patterns:
  the library moves them around and compares them (`float_bits` gives the
  numeric comparison), it never computes with them.
- The editing session (`editor`) builds on it: undo/redo snapshots
  (`history`), cascading deletion (`delete`), point merging (`selection`),
  shape creation (`create`), copy and paste in the `parametric/v2` text
  format (`clipboard`, `clip_parse`, with the read-back law in
  `clip_laws`), lock explanations (`overconstraint`), fillet records
  (`fillet`), arcs and rulers (`arc`, `ruler`), connectivity queries
  (`links`), the points a drag must not snap onto (`snap`), the move
  tool's press decisions (`press`), the constraint tools' picks
  (`constraint_tool`), and the reference-integrity law for removals
  (`integrity`).
- `app/` is a small command-line front end: it reads clipboard text,
  pastes it, and prints the copy of what was pasted. The floating-point
  geometry (distances, circumcircles, number formatting) lives there.
- `tests/` exercises the library through its public API.
