# riskanvil

Scores transactions with boosted trees, in two stages, and serves the scores over HTTP.

`src/` is the library. Its functions are verified with Verus: a contract says what each returns for
every input, and the modules state their laws as public proof functions (`law_*`). Calls into other
libraries are trusted instead, each behind a small item that says what is believed of it:
`utf8_to_string` in `le`; `sha256_digest` in `tensors`; `path_file_name`, `path_parent`,
`path_join`, `path_with_file_name` and `path_strip_prefix` in `paths`; `parse_value`, `take_apart`
and `parse_names` in `json`; and the buffers of `stash`.

* Numbers: `single` orders single-precision numbers by their bit patterns; `arith` names the
  operations that a caller performs; `rank`, `quantize`, `leaf_set`, `sorting`, `scan`, `text`, `le`.
* Files: `forest`, `qs_pack`, `hot_pack`, `layout`, `features`, `row_meta`, `calibration`,
  `atlas_file`, `certify_file`, `packet_file`, `bundle`, `paths`, `json`, `base_score`, `policy`,
  `v4`, `tensors`.
* Trees: `descend`, `traverse`, `tail`, `compact`, `hot`, `stage_plan`, `kernel`, `kernel_batch`,
  `dispatch`.
* Packed trees: `qs_score`, `qs_rows`, `qs_prefix`, `qs_batch`, `qs_features`, `qs_extract`,
  `segments`, `pack_check`.
* Judging a row before all trees have run: `bands`, `certify`, `network`, `shadow`,
  `prefix_runtime`, `online`, `prefix_v2`, `exp_v1`, `continuation`, `rescue`, `packets`,
  `buffers`. `routes` holds the laws on what these ways through a model have in common, `trace`
  those on recording a row, `kept` those on what rows leave behind for later ones.
* Models: `runtime_load` and `minpack` put them together, `ready` finds out whether they hold
  together, `mamba` runs the sequence model.
* Serving: `http`, `wire`, `stash`, `server`, `cpus`, `kinds`; `bare` speaks of requests of one
  line, and `talk` holds the laws on whole conversations.

Floating point is not verified. A function that needs it takes an `arith` argument that performs
one operation at a time, and its contract holds for whatever those operations return.

`app/` is the program around the library: files, sockets, threads and floating point.

`tests/` runs the library on concrete values.
