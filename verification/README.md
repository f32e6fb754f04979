# bind_studio

A keyboard-mapping editor for the `button_config.ini` file of a fighting game.

- `src/` is the library, verified with Verus:
  - `text.rs`: the string operations the format relies on (trimming,
    splitting at whitespace and at a separator, `u8` parsing, decimal
    formatting, lines and line endings, string order), each with its
    specification.
  - `config.rs`: the document (`ButtonConfig`), its parse into bindings and
    macros, and the edits (change a binding's key, remove a binding, add a
    keyboard binding), conflict detection and live-input expansion.
  - `keys.rs`: the known keys, their labels, and the scanner that tells newly
    pressed keys from held ones.
  - `studio.rs`: the editor state: what a captured key does, what loading,
    saving, backing up and restoring report, and how the screens arrange
    bindings.
  - `laws.rs`: properties across operations: saving an unedited document
    writes the file back, each edit reads back as the binding it wrote and
    leaves the macros alone, removing an added binding restores the document,
    the parsed bindings and macros are exactly the document's binding and
    macro lines, and a poll reports new keys in key-table order.
- `app/` is the window (eframe/egui), the file dialogs (rfd), file reading and
  writing, and reading the keyboard state.
- `tests/` runs the library on concrete documents.
