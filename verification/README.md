# swaybg-tui

A terminal wallpaper browser for Wayland/swaybg, with its logic verified in
Verus.

- `src/` is the verified library: the path model (`path`: file names,
  extensions, parents, joins, path equality), directory listings and image
  detection (`entries`), configuration defaults (`config`), the browser's state
  and key handling (`ui`), the half-block preview renderer (`render`) and the
  SDDM theme update (`sddm`).
- `app/` is the program around it: argument parsing, the terminal loop,
  reading directories and images, drawing with ratatui, running commands.
- `tests/` exercises the library, often against the standard library's own
  `Path` as a reference.
