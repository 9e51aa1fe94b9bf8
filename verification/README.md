# boa_fapi

The W3C File API for script contexts: `Blob`, `File`, `FileList`, `FileReader`,
`FileReaderSync`, blob streams, blob URLs and structured clones.

`src/` is the library. It holds the rules as plain Rust values and functions,
each with a contract that Verus proves: what a constructor makes of its parts,
how a range is read, which events a reader fires and when, how streams answer
reads, who holds which slot of the I/O bridge, how a registration installs its
globals or leaves none behind.

- `webidl`, `number`, `mime`, `package`, `utf8`: values, numbers and text.
- `blob`, `file`, `file_list`, `brand`: immutable payloads and their gates.
- `bridge`, `io`, `read`, `execute`, `resource`: slots, tasks and their work.
- `filereader`, `filereader_sync`, `promise_read`, `streams`: the four ways to read.
- `operations`, `poll`, `handle`: the state of a context, what script starts in
  it, and what a poll makes of finished work.
- `events`, `budget`: what holds over a whole course: which events a reader
  fires in which order, and what a poll budget leaves for the next poll.
- `blob_url`, `url_shim`, `clone_bridge`: blob URLs and clones.
- `extension`, `install`, `lifecycle`, `environment`: registration and shutdown.

`app/` puts a `boa_engine` context around the library: script classes, worker
threads, logging. `tests/` runs the library on concrete values.
