pub mod cstr;
pub mod elf;
pub mod elf_laws;
pub mod elf_spec;
pub mod printf;
pub mod printf_laws;
pub mod printf_spec;
pub mod programs;
pub mod uart;
