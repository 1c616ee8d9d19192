# tdx_measure

Verified building blocks for computing the measurements of a TDX guest: ACPI tables, EFI
variables, firmware images and the command lines of QEMU and docker.

`src/` is a Verus library. Its functions work on plain values and state in their contracts what
they return for every input.

| module | what it does |
|---|---|
| `acpi`, `acpi_laws` | walks concatenated ACPI tables, finds one of them, derives the table-loader blob |
| `loader` | encodes the commands of QEMU's table loader |
| `machine` | puts the tables, the RSDP and the loader of a machine together |
| `nvram`, `nvram_laws` | reads EFI variables and boot variables from an OVMF_VARS.fd |
| `ovmf` | splits a combined OVMF image into variables and code |
| `qemu`, `qemu_laws` | command lines for dumping ACPI tables and for populating NVRAM |
| `docker` | QEMU packages per distribution and the command lines of docker |
| `generate` | what an image's configuration asks of the container runs |
| `measure` | what is measured into RTMR1 and RTMR2 of a direct boot |
| `bytes`, `text`, `utf16` | little-endian numbers, text and UTF-16 names |

Properties that relate several functions, such as that reading an image gives back the variables
written into it, are public proof functions whose names begin with `law_`.

`app/` is ordinary Rust around the library: it reads files, runs docker and reports errors. The
metadata format, the files of the docker image and the digests are handed in by its callers.

`tests/` runs the library on concrete values.
