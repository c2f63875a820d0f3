# plotredox

The logic of a plot digitizer, verified with Verus: reading axes, ticks and
data curves out of the painted pixels of a chart image, the point editor as
a state machine (placing, selecting, moving and deleting points, groups,
calibration values, detected axes and series, undo and redo), its keyboard
shortcuts, the small markdown dialect of the scripting help, and the
TrueType work behind the subsetted interface font.

Layout:

- `src/` — the verified library. Each module states its contracts over
  sequences, sets and spec functions; laws that relate several functions
  are public proof functions (`lemma_*`).
  - pixels, morphology, closing: background colour, foreground masks,
    directional opening, halving, closing a painted mask.
  - spatial, contours, geometry, keys: connected components (and the small
    fragments dropped from a colour cluster), outlines and the sorted pixel
    keys they rest on.
  - axes, tally, extent: stroke-based axis and tick detection, and the reach
    of tick columns.
  - clusters, gaps, sampling: ordering, thinning and stitching curve pixels
    into chains.
  - fonts, subset: `cmap` tables, table checksums, rebuilding a font with
    extra tables, and cutting a font down to the characters it must show
    (through ttf-parser and subsetter).
  - markdown, syntax: the help text's blocks and inline spans.
  - editor, editing, history, state: the editor step (`apply_edit`, from
    a state and an action to the next state and what the caller must
    recompute), its rules, the undo history, stored state.
  - shortcuts: the keys pressed in a frame mapped to canvas and window
    actions.
- `tests/` — tests on concrete values.
- `app/` — a command-line front end: image decoding, project files, the
  `edit` command that drives the editor step (and the key and shortcut
  mapping) on a project, colour clustering, floating-point
  calibration, line fitting and arc-length sampling.
