//! A deterministic RISC-V emulator for the QEMU `virt` machine, and the telemetry
//! tooling around it. Every item carries a contract over a mathematical model of
//! the machine.

pub mod alu;
pub mod audio;
pub mod bench;
pub mod block;
pub mod boot;
pub mod budget;
pub mod bus;
pub mod bytes;
pub mod cached;
pub mod cpu;
pub mod csr;
pub mod cursor;
pub mod decode;
pub mod decode_cache;
pub mod devices;
pub mod dtb;
pub mod files;
pub mod format;
pub mod fp;
pub mod framebuffer;
pub mod fwcfg;
pub mod gmac;
pub mod hashed;
pub mod image;
pub mod input;
pub mod interactive;
pub mod isa;
pub mod jit;
pub mod laws;
pub mod loader;
pub mod machine;
pub mod mem;
pub mod memop;
pub mod mmu;
pub mod model;
pub mod names;
pub mod probe;
pub mod profile;
pub mod protocol;
pub mod ramfs;
pub mod rest;
pub mod run;
pub mod schedule;
pub mod series;
pub mod shell;
pub mod store;
pub mod stream;
pub mod symbols;
pub mod telemetry;
pub mod text;
pub mod tree;
pub mod tuning;
pub mod uart;
pub mod virtio;
pub mod wire;
