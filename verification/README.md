# rust_data_server

Packing, error correction and unpacking of sensor data streams, verified with
Verus.

A data file is a sequence of data frames. Each frame packs a fixed list of
channels (accelerometer axes, GPS, strain gauges, switch bytes, mux checks and
padding) into bytes; every eighth byte is reserved for a Hamming code so that
single flipped bits can be corrected. The library describes frames, parses the
text descriptor found in a file's header, adds and removes Hamming codes,
unpacks frames into per-channel streams and names the files those streams are
kept in. Sample values are carried as the bit patterns of their `f32`s.

Layout:

- `src/data_format`: data types, frame and file descriptors, the Hamming
  compatibility check.
- `src/hamming.rs`: the 64-bit Hamming code and the `secded` block code.
- `src/ingestion`: descriptor parsing, the streaming frame reader, the batch
  unpacker and the names of downsampled files.
- `src/generate_data.rs`: packing generated samples, with the laws that the
  readers give them back.
- `src/read.rs`, `src/interface.rs`, `src/util.rs`, `src/text.rs`: sample file
  paths, status messages, progress tracking and text formatting.
- `app/`: the command line tools and the websocket server, the file I/O,
  floating-point filtering and the serde copies of the library's types.
