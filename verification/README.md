# cutlass_ui

The planning core of a video editor, written in Verus. Verus proves the contracts
of `src/`, except those of six small wrappers around calls into std and
`serde_json` (in `recent`, `paths` and `inspector`), which it believes; the doc
comment of each says what it claims.

The library decides; it does no input or output. An edit is planned as a list of
steps on a project, and `edits::after_step` says after each step whether the
engine goes on, commits the history group, or undoes it: a plan is applied whole
or not at all (`edits::law_plan_is_all_or_nothing`).

## Layout

- `model`, `project`: the timeline as the window shows it, and the project that
  edits are planned on.
- `snap`, `selection`, `group_drag`: pointer gestures on the timeline.
- `fit`, `edits`, `moves`, `batch`, `ripple`, `clipboard`, `clip_edits`, `editor`:
  planning edits.
- `queue`: how the worker thread drains its messages.
- `timeline`, `transport`, `audio`, `mixer`: time, playback and the mixer's
  positions.
- `strips`, `thumbnails`, `raster`: clip tiles and waveform pictures.
- `projection`, `inspector`, `preview_pick`: what the window shows and picks.
- `agent`, `session`, `recent`: the assistant, autosave and export, recent
  projects.
- `num`, `arith`, `find`, `order`, `text`, `paths`: arithmetic, sequences, sorting,
  texts, paths.

Public proof functions whose names start with `law_` state what holds of several
functions together.

`app/` holds what is around the library: threads, files, the sound device, file
dialogs, and floating-point geometry. `tests/` runs the library.
