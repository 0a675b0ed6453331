# sshp

An interactive SSH host selector: it reads the `Host` entries of
`~/.ssh/config`, lets the user filter them by typing (fuzzy matching through
`nucleo-matcher`), and runs `ssh` on the chosen host.

The library under `src/` is written in Verus and verified:

- `config` reads hosts and `#group:` comments out of a config file's text;
- `selector::filter` ranks hosts against a query (best fuzzy score first,
  then by lower-cased name, stable among ties);
- `selector::runner` decides what each key does to the query and selection
  (the selection counts hosts in the order the list shows them, so the
  marked host is the one Enter picks);
- `ui::renderer` groups the listed hosts into sections and picks the lines
  that fit on screen, keeping the selected one in view; `ui::highlight`
  splits a name into plain and highlighted parts; `ui::screen` lays out the
  whole screen as drawing commands for any terminal size;
- `text` holds the character-level helpers (trimming, prefixes, ordering).

`app/` is the program around it: reading the file and the environment, the
terminal loop and the drawing with `crossterm`.
