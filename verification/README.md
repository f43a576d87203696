# cam_granular

A webcam turned into an ASCII-art terminal view and a gesture-controlled
synthesizer with a looper.

- `src/` is the verified library (Verus):
  - `tracker.rs` — frame-difference motion tracking: grey conversion,
    thresholded difference on a sampling grid, 3x3 dilation, and per-region
    statistics, reported largest first.
  - `components.rs` — 4-connected component labelling (raster pass plus
    union-find), proved to number exactly the connected regions, in raster
    order of their first cell.
  - `ascii.rs` — sharpening, nearest-neighbour resampling, dithered
    character ramp, colour sampling and bounding-box outlines.
  - `looper.rs` — recording takes, committing layers, installing mixes.
  - `control.rs` — finger-count presets, tracker stride, camera watchdog.
  - `faust_gen.rs`, `dsp_api.rs` — the sine-table phase counter and the
    DSP host interface.
- `app/` is the program: camera, audio and terminal I/O, the floating-point
  synth, gesture-to-sound mapping and blob classification.
- `tests/` runs the library on concrete inputs.
