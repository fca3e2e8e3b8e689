# acestream-audio

A small service that pulls an AceStream engine stream **once** and re-serves it
to many listeners: as audio only (ADTS or MP3), or as fragmented MP4 with the
video track copied untouched.

```
GET /audio?id=<40-hex content id>[&fmt=adts|mp3]
GET /video?id=<40-hex content id>
GET /status
GET /healthz
```

A single puller holds one engine session per content id and fans the raw MPEG-TS
out to one ffmpeg per output format, each of which fans out to its own
listeners. Teardown is counted from the bottom up: the last listener leaving a
format stops its ffmpeg, and the last format stopping closes the engine session.

## Layout

- `src/` is a library verified with Verus. It performs no I/O: it is told what
  has arrived and what time it is, and says what is to be done. Its contracts are
  stated over mathematical models of its types; the modules whose names end in
  `laws` prove what holds of several functions together, such as that a late
  joiner on `/video` gets the init segment and then the stream from the next
  fragment on.
- `app/` is the program around it: sockets, processes, threads, and the HTTP
  server.
- `tests/` runs the library.

What the library has from the `bytes` and `serde_json` crates is declared, with
what is taken for granted of it, in `src/octets.rs` and `src/json.rs`; `src/text.rs`
and `src/http.rs` declare three functions of the standard library.

## Configuration

| Env var | Default | Purpose |
| --- | --- | --- |
| `ENGINE_HOST` | *(required)* | AceStream engine `host[:port]` to pull streams from |
| `LISTEN_ADDR` | `:8080` | HTTP listen address |
| `FRAG_DURATION_MS` | *(unset)* | fMP4 fragment duration; unset means to fragment on keyframes only |
