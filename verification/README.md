# whispery

The pure part of a speech-to-text pipeline, verified with Verus: cutting live
audio into chunks of speech, dispatching them to recognition and alignment
workers, and turning recognised text and alignment paths into timed words.

- `src/machine` is the state machine. It takes audio packets, speech segments
  and results, and hands out commands and events. No chunk is longer
  than the chunk size, every chunk is reported exactly once, and events come in
  chunk order.
- `src/align` splits recognised segments into runs of one language, drives the
  alignment of a chunk run by run, and builds words from an alignment path.
- `src/pool.rs` configures a pool of recognition workers.
- `src/lang.rs`, `src/time.rs`, `src/types.rs`, `src/text.rs` and
  `src/binary32.rs` hold what they share. Floating-point numbers pass through the
  library by their bits.
- `app` holds what is not verified: inference with ONNX Runtime, floating-point
  arithmetic, whisper.cpp segments, the alignment thread and its watchdog, and
  serialised forms.
- `tests` run the library with its dependencies.
