# neko

A small terminal toy, verified with Verus where it computes.

- `src/event.rs` decodes terminal input bytes into key and mouse events
  (escape sequences, X10, xterm and rxvt mouse reports, UTF-8 characters).
- `src/get_line.rs` is the prompt's line editor: what each key does to the
  line and what is shown for it.
- `src/cursor.rs` reads the terminal's cursor position reports.
- `src/objets.rs` places and animates the cat on the screen matrix.
- `src/page.rs` and `src/shell.rs` keep what a pseudo-terminal printed and
  what was typed at it.
- `app/` holds the terminal I/O, the pseudo-terminal and the threads.
