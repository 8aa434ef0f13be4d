# wasmos

The logic of a small x86-64 kernel that runs WebAssembly programs, written
in Verus: every function in `src/` is verified against its `requires` /
`ensures` contract.

## Layout

- `src/wasm/` — the WebAssembly side: module loading (`loader`), section
  parsers (`sections`), the interpreter (`interp`: one `step` per
  instruction, `run`/`call`/`resume` over the relation `run_rel`), numeric
  semantics (`numeric`), the block-jump scan (`scan`), host functions
  (`host`), instances (`instance`) and cooperative tasks (`task`).
- `src/wat*.rs` — the text-format assembler: tokenizer (`wat_lex`), parser
  (`wat_parse`) and binary emitter (`wat`).
- `src/jit/` — the x86-64 code buffer and instruction encodings (`emit`),
  the executable arena and the compiler for simple bodies (`compile`).
- `src/net/` — Ethernet, ARP, IPv4, UDP, TCP, DHCP and the network stack
  that ties them together.
- `src/fs/` — the block cursor, the FAT helpers, the flat WasmFS file
  system, the file table and the bump allocator.
- `src/shell.rs`, `src/commands.rs`, `src/keyboard.rs`, `src/vga.rs` — the
  line editor, history, command parsing, key decoding and the text console.
- `src/virtq.rs` — the virtqueue layout and the search for contiguous pages;
  `src/shared.rs` — the error kinds shared with the programs.
- `app/` — the unverified edge: the program's entry, file and console I/O,
  the FAT volume over `fatfs`, and the floating-point instructions (over
  `libm`), which the interpreter hands to the host.
- `tests/` — ordinary Rust tests of the library.

## Building

Verus verifies the library from `src/lib.rs`; the tests are plain
`#[test]` functions.
