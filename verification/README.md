# postprocessor

Post-processing of camera detections, verified with Verus: overlaps of boxes, greedy
suppression per class, merging of boxes that belong together, detection zones and privacy
masks, line crossings, and two trackers that give objects ids which stay the same from
frame to frame.

## Layout

- `src/` is the verified library.
  - `reading`: reals as integers that compare the way the reals do.
  - `iou`, `nms`, `merge`, `cluster`, `grouping`: boxes.
  - `polygon`, `zone_filter`, `line_crossing`: zones and lines.
  - `world`, with `track` and `world_model`: a world of objects that enter, settle, wake,
    fall asleep and depart.
  - `tracker`, with `tracker_model` and `engine`: tracks class by class.
  - `embedding`: what a crop of an image looks like, as counts and sums.
  - `replay`, `replay_input`: recorded sessions and their summary.
  - `api`: what callers hand over and get back.
  - `merge_laws`, `merge_order`: what holds of merged boxes, in whatever order they came.
  - `world_laws`, `tick_laws`, `tracker_laws`: what holds of every tick and every frame.
  - `run_laws`, `replay_laws`: what holds of whole runs, over any number of ticks.
- `app/` is the program around it: floating point, the tracking engines, files and JSON, and
  the bindings for Node.
- `tests/` runs the library, with the real engines where it needs them.

## Readings

The library never computes with floating point. It compares values by their readings, and
whatever has to be computed with reals is handed in: as a measure, or as a function that
gives measures. A contract then says what is decided for any function that gives the
measures.
