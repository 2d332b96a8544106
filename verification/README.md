# cadenza

A terminal music player and spectrum visualizer for local audio libraries.

The library under `src/` holds the player's logic, verified with Verus:

- `library` — the browser tree built from a directory listing (hidden items and
  unsupported files left out, directories first, names in order), its flattening
  into browser lines, and the track list of a library sorted by path.
- `app` — the browser state: selection, folding and unfolding, the parent line,
  what Enter does, and the file that is playing, with a view of what a state
  shows.
- `folding` — that a listing with distinct paths gives a tree with unique paths,
  how the lines correspond to the tree when paths are unique, and
  the laws that a second Enter, or Left after Right, undoes the first.
- `session` — what the terminal loop decides on each key press.
- `ui` — every text the interface shows, and the cell roles of the spectrum panel.
- `player` — the playback buffer shared with the audio device: cursors,
  silence, stopping at the end, and the reported progress.
- `audio`, `analysis` — supported formats, frame resampling and the logarithmic
  bucket ranges of the spectrum.
- `cli`, `catalog`, `download` — arguments, catalog entries and download plans.
- `paths`, `text`, `sorting` — paths as strings, text helpers, stable insertion
  order with its laws.

`app/` is the program around it: directory reading, audio decoding and output,
floating-point spectrum analysis and animation, and the terminal drawing.
