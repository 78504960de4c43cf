# oxygen

Oxygen is a small AArch64 kernel for QEMU's `virt` board: capabilities instead of ambient
authority, typed IPC between EL0 tasks that find each other by name, an audit journal of every
grant and refusal, and schemas through which a capability describes its own methods.

This crate is the kernel's logic, verified with Verus: every function in `src/` carries a
contract, and the properties the kernel relies on are stated and proved as laws.

- `src/aarch64` — translation-table descriptor encodings.
- `src/cap` — handles, rights, and the capability space with its derivation tree.
- `src/ipc` — messages, bounded queues, and the name registry.
- `src/audit` — journal events and the journal ring.
- `src/schema` — method and interface descriptions and their wire encoding.
- `src/mem` — physical addresses, the bitmap frame allocator, and the free-list heap.
- `src/kernel` — the decisions the kernel takes on top of these: the boot identity map, memory
  bring-up, the scheduler, every system call, interrupts and exceptions, the shell's line
  editing and rendering, and the self test's verdicts.

`app/` is the part that touches the machine — boot code, vectors, context switch, registers,
devices, the global allocator's lock, the EL0 shell — and performs what the library decides.

One piece of logic exists twice. The EL0 shell's line reader in `app/arch/shell.rs` is a copy
of `LineEditor::feed` (`src/kernel/shell.rs`), and the copy is not verified: code that runs at
EL0 must sit in the user text section, which cannot fetch the kernel's text where the library
lives. The verified editor is the reference the copy follows.
`tests/` exercises the library on concrete values.
