# rsedit

A small video editor: cut, trim and arrange clips on video, audio and text tracks,
preview them, mix their sound, and export the result.

`src/` is the editor without its window: the timeline and its edits, undo, snapping,
subtitles, the compositor, text layout, the audio mix, export planning, preferences, the
session, the command palette, and what the installer decides. Verus proves that it does
what its contracts say. `app/` is the program round it: windows, files, sound output,
video decoding and encoding.

## Layout of `src/`

| Module | What it holds |
|---|---|
| `float`, `exact` | IEEE numbers as bit patterns, and what is exact about them |
| `strings` | text as sequences of characters |
| `timeline`, `project` | assets, clips, tracks, projects |
| `edit`, `snap`, `history` | edits, snapping, undo and redo |
| `app`, `commands`, `palette`, `session`, `prefs` | the state of the editor and its commands |
| `text` | SRT and VTT subtitles |
| `decoder`, `framecache`, `assets`, `media` | decoded frames and samples, imports |
| `pixel`, `paint`, `render`, `layout`, `fonts` | the compositor and text |
| `audio`, `export` | the mix, playback, export |
| `view` | the geometry of the timeline |
| `installer` | installing and removing the program |

Numbers are floating point throughout, and the contracts say so exactly: `float`
computes each operation on bit patterns and proves it to be the real result, rounded to
the nearest number with ties to even. What the library cannot compute itself is handed
to it as a value: the cosine and sine of an angle, the power behind a gain in decibels,
the advance of a glyph.

The laws that hold of several functions together are the public proof functions whose
names begin with `law_`.
