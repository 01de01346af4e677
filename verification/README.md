# xvcd

A Xilinx Virtual Cable (XVC) daemon for FTDI JTAG adapters, with its protocol
and signal logic verified in Verus.

- `src/` is the verified library:
  - `xvc_server`: framing of the client byte stream into `getinfo:`, `settck:`
    and `shift:` requests; the action each request asks of the adapter and the
    reply made of its answer; `XvcSession`, the per-connection state machine the
    program runs on bytes as they arrive; session drivers over a
    `JtagController` (whole input, or input in pieces) whose shared contract
    records every call made on the adapter;
    with proofs that framing, and so the adapter calls, are insensitive to how
    the stream is cut into reads and that encoded requests decode back to
    themselves.
  - `backend_bitbang`: the two-step TCK waveform, TDO sampling from the
    TCK-high step behind the chip's status header, chunking, USB set-up values.
  - `backend_mpsse`: byte-mode (0x39) and TMS-pin (0x6B) command building,
    reply decoding, TCK clamping, IDCODE extraction.
  - `cli`: the command line (options, defaults, hexadecimal IDs).
  - `codec`, `bits`: little-endian fields (through `byteorder`) and LSB-first bit vectors.
  - `ng`: the `xvcd-ng` variant (six-byte command prefixes, single-transfer backends).
- `app/` holds the program: `clap`, `tokio` sockets, and USB I/O through `nusb`
  and `ftdi-nusb`. Run under the name `xvcd-ng` it serves the `ng` variant.
