# snemu

A verified RV64 emulator. The library under `src/` holds the whole machine: harts, memory,
devices, the scheduler, the decode cache, the block compiler and the native code generator,
and around it the ELF loader, device-tree patching, the telemetry wire format with its stream
decoder and stores, a RAM filesystem, and the slices, cursors and probes that an embedder
drives it with. Every function states what it does in a contract over mathematical models
(`model`, and the `...State` types), and Verus proves it.

Laws that span functions are public proof functions whose names begin with `law_`, most of
them in the module of what they speak of. Those of the hart as a whole are in `laws`,
`tuning` and `cached`, those of the machine as a whole in `rest` and `profile`, that of the generated native
code in `jit::correct`, and what the probe's program does under every accelerator in
`probe::trace`.

The wire format's primitive encodings come from `postcard`, behind the wrappers in `wire`.

`app/` is the command-line program around the library: files, terminal, window and page.
