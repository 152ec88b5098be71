# mdr

A terminal markdown reader. The library in `src/` holds its logic, written in
Verus with contracts that the verifier checks; `app/` is the terminal program
around it (argument handling, files, config files, watchers and drawing).

## Layout of `src/`

- `text`: character sequences, lines, byte offsets and string helpers.
- `style`: colors, styles, spans and lines of styled text.
- `theme`: built-in themes and themes resolved from configuration.
- `markdown`: rendering markdown into styled, wrapped lines.
- `browser`: the file picker: listings, filtering, selection and scrolling.
- `state`: tabs, cursor and viewport, folding, task filtering, search,
  checkbox toggling, and the state of the whole reader.
- `config`: configuration values and where configuration files live.
- `ui`: the text that the screen shows: tab bar, status line, popups and rows.
- `highlight`: search matches highlighted within a line.
- `keys`: key bindings for each mode.

The proof functions named `lemma_*` state the properties that hold across
calls: a checkbox toggled twice is as it was, searching forward then back
returns to the same match, a preview of a theme that is cancelled leaves the
theme as it was, and so on.
