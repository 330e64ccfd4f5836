# wallset

Per-monitor wallpapers for Windows — a picture, a solid color, or a
slideshow with its own interval — kept while a monitor is disconnected.

The library under `src/` is verified with Verus:

- `config` — the saved configuration, fit modes, and what a stored file is
  accepted as.
- `ordered_map` — the map of monitors by device path, walked in key order.
- `monitor_registry` — reconciling connected monitors with saved ones.
- `slideshow` — the persisted deck (shuffled, or newest first by date
  added), deadlines, and folder listings.
- `wallpaper_draft` — the editable form of a wallpaper mode.
- `wallpaper` — the state machine that applies commands: it asks for outside
  work (listing monitors, setting wallpapers, saving) as requests and takes
  the answers as replies.
- `ui_state` — the selection, the monitor list and the apply decision of the
  settings window.
- `text` — trimming, number and color parsing, and text order.

`app/` is the program around it: the settings file (serde), the desktop
wallpaper service (the `windows` crate), the color bitmaps (`image`), the
thread that answers the state machine's requests, and a console that reads
commands (`picture`, `color`, `slideshow`, `fit`, `next`, `quit`, …) from
standard input.
