# windows_key_listener

Global keyboard shortcuts for Windows, with the decision logic verified by Verus.

- `src/` — the verified library: the key table and chord parser
  (`key_chord_parser`), the virtual-key codes (`virtual_keys`) and the
  listener's state and decisions (`key_listener`): held keys, chord matching,
  debouncing, the order in which registered chords handle an event, and the
  bookkeeping of the keyboard hook and the message loop.
- `app/` — the Windows side: the low-level keyboard hook procedure, the
  message loop, the process-wide state behind a lock, logging, and the
  `Display` form of the error type.
- `tests/` — tests of the library on concrete values.
