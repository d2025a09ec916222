# DeskFence

DeskFence keeps the files of a Windows desktop in fences: panes that stand on the
desktop, each with the files of one category or those that were dragged onto it.

The rules of the program are a library, written in Rust and proved with Verus.
The windows, the disk and the registry are around it.

- `src/` is the library. Every function states what it does; Verus proves it.
  - what there is: `model`, `settings`, `usage`, `paths`, `defaults`, `lang`
  - what a fence shows: `display`, `listing`, `order`, `scan`
  - where it shows it: `grid`, `rows`
  - what the user does: `drag`, `motion`, `release`, `keys`, `selection`, `menu`,
    `rename`, `panel`, `welcome`, `desk`
  - what is kept and read back: `iconcache`, `snapshot`, `wallpaper`, `pictures`,
    `bytes`, `utf16`
  - the system around it: `hosts`, `system`, `autostart`
  - `text` and `text_map`: text, and maps from text
- `tests/` runs the library on values.
- `app/` is the program: its windows, the calls to the system, and the geometry of
  the screen, which is in floating point.

Properties that hold of several functions together are proof functions whose names
begin with `law_`. They stand beside the functions that they speak of.
