# serde_fressian

Fressian is a self-describing binary format: every value starts with a code that
says what follows. This crate reads and writes it.

## Layout

- `src/` — the codec, verified with Verus.
  - `imp/io.rs`: the byte reader over a slice and the byte writer over a growable
    buffer.
  - `imp/rawoutput.rs`, `imp/rawinput.rs`: the encoders and decoders of every
    primitive (packed integers, floats and doubles by their IEEE-754 bits, byte
    arrays, strings in Java's modified UTF-8), each specified against a spec
    function of the bytes it writes or accepts.
  - `imp/cache.rs`: the writer's priority cache, keyed by string hashes.
  - `ser.rs`: the writer (lists, maps, sets, the footer, cached strings) and the
    `Encode` trait with its impls.
  - `de.rs`: the reader: typed reads (`Decode`), and `read_event`, which reads the
    next code and whatever it announces, as a reader of self-described values needs.
  - `types/`: instants, UUIDs, URIs, regular expressions, symbols, keywords, typed
    arrays and sets.
  - `laws.rs`: what a read gives back of a write, proved.
- `tests/` — tests of the library on concrete bytes.
- `app/` — serde on top of the codec: `Serializer` and `Deserializer` drivers, the
  dynamic `Value`, copies of the Fressian types with serde impls, and the
  WebAssembly bindings.
