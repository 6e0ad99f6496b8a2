# mcumgr-toolkit-web

A browser-side MCUmgr client (SMP over a Web Serial port), with its protocol
logic verified by Verus.

- `src/` — the verified library:
  - `smp` — the 8-byte SMP header, its encoding and decoding;
  - `framing` — the serial line framing (size, CRC-16/XMODEM, base64 lines
    of at most 127 bytes) and its decoder, with the round-trip law;
  - `transport` — the SMP session: sequence numbers, request framing, and the
    matching of received frames to the pending request;
  - `commands` — the decisions of the management commands (SMP error check,
    upload chunk size and upload sequence, application and bootloader info);
  - `text` — decimal text of integers;
  - `primitives` — the trusted calls into `crc`, `base64` and `sha2`, with
    the CRC-16/XMODEM and base64 encoding and decoding stated as spec
    functions.
- `app/` — the WebAssembly bindings: the Web Serial port, CBOR encoding and
  decoding with `ciborium`/`serde`, and the `McuMgrWeb` JavaScript object.
- `tests/` — tests of the library on concrete values.
