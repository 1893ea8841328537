# speakrs

Speaker diarization: which backend inference runs on, how overlapping chunks are put back
together on one time axis, how many speakers a run may report, and who speaks in a frame where
only one may.

The library under `src/` is verified with Verus.

- `score`, `arithmetic`, `grid`, `rng`, `text`: numbers held as their bits, the floating-point
  operations asked of whoever embeds the library, tables on top of `ndarray`, random numbers,
  and strings.
- `types`: the tables that a diarization passes from step to step.
- `reconstruct`, `ranking`: speaker counts, activations and activity masks.
- `exclusive`, `exclusive_laws`, `path`: the exclusive timeline from frame support.
- `speaker_count`, `clustering`, `assignment`: bounds on the number of speakers, k-means, and
  the assignment of local speakers to clusters.
- `mode`, `device`, `provider`, `embedding`, `segmentation`, `runtime`: execution modes, OpenVINO
  device strings, execution providers of ONNX Runtime, model files, and loading.

`app/` puts the library on a machine: floating-point numbers, files, environment variables, and
ONNX Runtime itself. `tests/` runs the library.

What is trusted is marked `external_body` or declared as an outside type: the `ndarray` tables in
`grid`, the `ort` providers and session builder in `provider`, and `String::leak` in `mode`.
