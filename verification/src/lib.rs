pub mod acpi;
pub mod acpi_laws;
pub mod blob_laws;
pub mod bytes;
pub mod command_laws;
pub mod docker;
pub mod generate;
pub mod loader;
pub mod machine;
pub mod measure;
pub mod nvram;
pub mod nvram_laws;
pub mod ovmf;
pub mod qemu;
pub mod qemu_laws;
pub mod text;
pub mod utf16;
pub mod variable_laws;
