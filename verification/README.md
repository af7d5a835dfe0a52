# haremal_ctrl

Settings logic of the HaremalCTRL desktop control panel, verified with Verus.

- `src/text.rs`: the text model (`str::lines`, `trim`, `split`, `find`, joining lines).
- `src/config.rs`: reading, writing and removing entries of line-based
  configuration files addressed by key paths, and the laws that relate them.
- `src/applications.rs`: keybinds, startup commands and default applications.
- `src/region.rs`: tool output, the language list, locale commands.
- `src/update.rs`: the update tab as a state machine.
- `app/`: the desktop window (dioxus), file and process I/O, dialogs.
- `tests/`: tests on concrete values.
