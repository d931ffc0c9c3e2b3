# bluez_buffer

A buffered byte reader for audio capture from Bluetooth, where data arrives in bursts, verified
with Verus.

- `src/filedevice.rs`: the `Reader` trait, its results, and the record of a call made to a reader.
- `src/filereader_buffered.rs`: `BufferedReader`, which wraps any `Reader`.
- `src/filedevice_bluez.rs`: how long to wait for data.
- `src/laws.rs`: what holds of every `BufferedReader`: no byte is lost, repeated or reordered, the
  capacity is respected, gaps in the input are bridged by what is buffered, errors pass through.
- `app/`: opens a BlueALSA PCM device over D-Bus and puts a `BufferedReader` on its pipe.

Nothing in `src/` is trusted beyond Verus's own specifications of the standard library and, of a
`Reader` that Verus has not seen, what its implementer says of it. What
`BufferedReader::read` does is stated as a relation: some calls of the inner reader, each one that
the inner reader's own description allows, account for the bytes delivered, the bytes kept and the
result. A read is promised to end where the inner reader's answers bring it to an end.
