# Dodgin's UI mod

Installer and live preview for ElvUI-style unitframes and action bars for
SWG Legends.  The library (`src/`) holds the logic, verified with Verus; the
application (`app/`) is the window, the command line and the file system
work around it.

## Library modules

- `settings`: colours (`#RRGGBB`), profession presets, the user settings and
  the values derived from them (health colour, window locations).
- `cfg`: the client's config chain (`client.cfg` and its includes, read one
  file at a time through `CfgLoad`) and its options files (IFF), including
  the buff icon sizes the client uses.
- `iff`: big- and little-endian words and chunk bounds of IFF files.
- `keymap`: a character's input map (IFF `IMAP`), the key labels of toolbar
  slots, the characters found under `profiles/` and which keymap the
  settings ask for.
- `xml`: the small XML subset the UI pages use, and lookups in it.
- `import`: reading the installed pages back into the settings.
- `install`: the class swatch texture, the hud and role style patches, the
  template fill, which files a render writes, and the order and per-file
  decisions of install and remove.
- `pathmap`: files or hashes by path, kept in ascending path order, each
  path once.
- `preview`: display sizes, the "WxH" reader and profession names.
- `text`: character-level helpers (trimming, case, numbers, searching,
  replacing) shared by the above.

## Application

`app/main.rs` starts the window, or runs headless with `--render DIR`,
`--install`, `--remove [--force]`, `--detect` or `--import`.  The page
templates are read from a `templates` folder next to the executable; its
layout is described in `app/templates.rs`.
