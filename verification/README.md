# ferros

The verified core of FerrOS, a small AArch64 batch kernel for the Raspberry Pi 3:
its ELF64 program loader, its `printf` formatter, and what its UART driver and
user programs send.

- `src/elf_spec.rs` — what loading an ELF64 image means: the fields read from
  the image, the order in which checks refuse it, and the destination bytes a
  successful load leaves (`load_plan`, `loaded_image`, `load_outcome`).
- `src/elf.rs` — the loader (`load_elf_at`, `load_elf`) and its stages, each
  proved against `elf_spec`.
- `src/elf_laws.rs` — properties of every accepted load: header and segment
  counts, segments fit, no overlap, aligned executable entry, dynamic table
  and relocation entries, gaps untouched, segments copied and `bss` zeroed,
  relocations written.
- `src/cstr.rs` — C strings in byte buffers: the bytes before the first NUL.
- `src/printf_spec.rs`, `src/printf.rs` — what `printf` prints for a format and
  its arguments, and the formatter proved to print exactly that.
- `src/printf_laws.rs` — the text each conversion prints, unknown directives
  printed verbatim, arguments read in order, and printing a format in parts.
- `src/uart.rs` — bytes a string sends; the GPIO function-select word for the
  UART pins.
- `src/programs.rs` — what the `squares` and `primecheck` user programs print.
- `app/` — the kernel around the library: MMIO, drivers, the `printf` entry
  points and the batch loader.
