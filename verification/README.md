# orbutils

The Orbital desktop utilities of E-OS Crimson — the launcher bar and file
chooser, the desktop icon layer, the settings panel, desktop notifications
and the animated wallpaper — with their logic written in Verus and proved
against its contracts.

## Layout

- `src/` — the verified library.
  - `metrics`, `bar`, `launcher`: UI sizes from the display scale, the
    desktop icon grid and its hit test, the bar's geometry, hit testing,
    clicks, menus, shortcuts and clock.
  - `packages`, `menus`, `order`: application packages (manifest lines and
    desktop-entry values), the desktop's one icon per program, the bar, the
    Start menu and its category submenus, stable sorting.
  - `exec`: command lines of desktop entries (shell words through `shlex`,
    file field codes).
  - `settings`, `notify`: the settings panels and the notification message.
  - `tiles`, `pixels`, `damage`, `blend`, `rng`, `frames`, `background`:
    the wallpaper's dirty-tile bookkeeping, pixel restore and sprite
    blending, the damage it reports, colour packing, the particle generator,
    resize and frame pacing, display URLs and the scaled-picture cache
    entries (hashed with `xxhash-rust`).
  - `text`: string and character-sequence helpers shared by the above.
- `tests/` — tests of the library on concrete values.
- `app/` — the programs themselves: windows, fonts, files, processes and the
  floating-point particle physics, calling the library for every decision.
  One binary serves all programs, chosen by the name it is started under.
