# lilypondx

Literary music notation: LilyPond-style note text embedded in Markdown
scores, played with a live terminal preview of per-track pitch sparklines,
and turned into LilyPond sources, PDF and MIDI.

## Layout

- `src/` — the library, verified with Verus:
  - `note.rs`: the note-text parser (relative octaves, durations, dots,
    ties, chords, rests), MIDI events read back into notes;
  - `parser.rs`: Markdown scores (frontmatter and fenced note blocks) over
    pulldown-cmark's event stream;
  - `score.rs`: the score model;
  - `audio.rs`: MIDI events of a score, instrument programs, playback
    positions;
  - `midi_file.rs`: Standard MIDI Files (through midly) into events;
  - `ly_gen.rs`: the `.ly` source of a score;
  - `sparkline.rs`: scales and keys, the sparkline grid, its plain and
    styled rendering, timeline columns;
  - `tui.rs`: the terminal player's decisions (hit testing, scrolling,
    seeking);
  - `text.rs`: character-sequence helpers the others share.
- `tests/` — the test suite.
- `app/` — the `lilypondx` command: file and network I/O, the LilyPond
  compiler, audio output, the synthesizer and the terminal UI.
