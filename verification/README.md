# editor

The core of a small terminal image editor, verified with Verus.

- `src/colour.rs`: 24-bit colours, their HTML text and contrast colour.
- `src/decimal.rs`: decimal text of bytes and parsing it back.
- `src/escape.rs`: the true-colour escape sequences, drawn by termion.
- `src/image.rs`: the picture format (characters with colour escapes, rows
  ended by newlines), the screen text, the character sheet.
- `src/roundtrip.rs`: proofs that a saved image reads back as itself.
- `src/editor.rs`: the editor's state and its reaction to key presses, as a
  transition function with the invariants it keeps.
- `app/main.rs`: the terminal program: files, events, drawing.
