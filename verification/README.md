# clipd

Clipboard history for KDE Plasma on Wayland. Plasma owns the hotkey (default
Meta+Shift+V) and runs `clipd show`; a daemon records the clipboard, encrypted,
in SQLite.

- `src/` — the library, verified with Verus: chord parsing, the
  `kglobalshortcutsrc` and desktop-file patches, conflict detection in
  KGlobalAccel replies, the daemon state and its pause, sealing and opening of
  history entries (AES-256-GCM), previews and content hashes, the socket
  protocol's replies, and the popup's and tray's texts and selection.
- `app/` — the program around it: command line, files, processes, D-Bus calls,
  the socket, SQLite, the keyring, the tray and the egui popup.
- `tests/` — tests of the library on concrete values.
