# xmip-core-transport-dnp3

DNP3 transport: one application fragment is one Stream, reassembled from its
link frames and transport segments. IEEE 1815.

- `src/` is the library, proved with Verus. It decides; it does no I/O.
  - `crc` the check of the header and of every block
  - `link` the frame: encoding, and reading step by step or from bytes
  - `segment` the transport header, and a fragment split into segments
  - `outstation` frames into fragments, with their origin
  - `master` fragments into frames
  - `transport` what a transport is configured with
  - `frame_laws`, `fragment_laws` what holds of all of these together
- `app/` is the TCP connections around it.
- `tests/` runs the library on given values.
