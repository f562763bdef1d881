# nexus_os

The core of NexusOS, a small x86_64 operating system with a desktop agent,
written in Verus: every function in `src/` is verified against its contract.

- `src/vfs.rs`: the in-memory hierarchical filesystem, modelled as a map from
  directory paths to their sorted files and subdirectories.
- `src/editor.rs`, `src/shell.rs`, `src/console.rs`, `src/keyboard.rs`: the
  line editor, the shell, and the console that turns scancodes and typed
  characters into what the screen shows.
- `src/memory.rs`: the bitmap frame allocator.
- `src/pci.rs`, `src/syscall.rs`, `src/executor.rs`: PCI enumeration, system
  call decoding and the cooperative task queue.
- `src/agent.rs`: the decisions of the desktop's language-model agent.
- `src/text.rs`: the string helpers the rest is built on.

In the editor, typed text adds a line, `:w` and `:wq` save and close the
editor, `:q` and `:q!` close it without saving, and `:d N` deletes line N.

`app/` holds what cannot be verified: the boot entry, port and register
access, interrupts, the screen, and the desktop window with its HTTP client.
`tests/` runs the library on concrete values.
