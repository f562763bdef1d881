//! A small operating system's core logic: an in-memory hierarchical filesystem,
//! a line editor and a command shell over it, a bitmap physical-frame allocator,
//! PCI configuration-space decoding, system-call decoding, a cooperative
//! task queue, the keyboard console that ties them together, and the
//! decisions of the desktop's language-model agent.
pub mod text;
pub mod vfs;
pub mod memory;
pub mod pci;
pub mod syscall;
pub mod executor;
pub mod editor;
pub mod shell;
pub mod keyboard;
pub mod console;
pub mod agent;
