# wallpaper_shuffler

A multi-monitor wallpaper rotator for Windows: each monitor gets images from
its own folders, all monitors advance together on one global timer, in one of
three cycle modes (Sequential, Shuffle, PureRandom), with a tray menu and a
settings window.

The logic is a library verified with Verus; the Windows program around it
is ordinary Rust.

## Layout

- `src/` — the verified library.
  - `model.rs` — monitor identity, orientation, modes, errors, and the
    seams the program implements (monitor enumeration, wallpaper setting,
    autostart).
  - `playlist.rs` — a monitor's image list: supported formats, the sort by
    file name, and the Sequential / Shuffle / PureRandom steps, with the
    removal of unreadable images.  Laws: sequential order and wrap-around,
    one image per position in a shuffle pass, skipping an image keeps the
    rest of the pass, a removed image never comes back, the sorted order is
    determined by the files.
  - `scheduler.rs` — the global tick over all monitors: the request sent
    for each monitor, the retry after an unreadable image, the outcome each
    answer settles; pause/resume, the log lines of the outcomes.
  - `config.rs` — the configuration (interval, modes, autostart, per-monitor
    folders kept sorted by monitor id), clamping, assignments by monitor id,
    and the edits the settings window applies.
  - `monitors.rs` — the decisions behind monitor enumeration (dimensions,
    fallback table, availability).
  - `settings.rs` — labels, field parsing and folder-list edits of the
    settings window and tray menu.
  - `shell.rs`, `wide.rs` — wallpaper positions, error classification,
    registry result codes, UTF-16 text.
  - `text.rs`, `sorting.rs`, `random.rs` — character sequences and their
    order, a verified stable sort, and the random source.
- `tests/` — tests on concrete values.
- `app/` — the Windows program: COM, registry, the tray and settings window,
  the configuration file (TOML through serde) and folder scanning.
