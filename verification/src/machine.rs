//! The ACPI blobs of a machine: the tables, the RSDP and the table loader.
use vstd::prelude::*;
use vstd::string::StringSliceAdditionalSpecFns;

use crate::acpi::{
    derive_table_loader, filled, find, find_acpi_table, loader_commands, required,
    required_signature, walk, AcpiError, RequiredTable,
};
use crate::bytes::{append_bytes, append_u32, le32_at, le32_bytes};
use crate::loader::encode_all;

verus! {

/// The blobs of a machine.
pub struct Tables {
    pub tables: Vec<u8>,
    pub rsdp: Vec<u8>,
    pub loader: Vec<u8>,
    /// Path to a populated OVMF_VARS.fd that was generated during this build. `None` when the
    /// caller supplied `Machine::nvram` or when no generation was requested.
    pub generated_nvram: Option<String>,
}

/// What `Tables` holds.
pub struct TablesView {
    pub tables: Seq<u8>,
    pub rsdp: Seq<u8>,
    pub loader: Seq<u8>,
    pub generated_nvram: Option<Seq<char>>,
}

impl View for Tables {
    type V = TablesView;

    open spec fn view(&self) -> TablesView {
        TablesView {
            tables: self.tables@,
            rsdp: self.rsdp@,
            loader: self.loader@,
            generated_nvram: match self.generated_nvram {
                Some(path) => Some(path@),
                None => None,
            },
        }
    }
}

/// What is known of a machine before its blobs are built. An empty path says that the file is to
/// be derived from the tables.
pub struct Machine<'a> {
    /// Whether tables and NVRAM are generated first.
    pub create_acpi_table: bool,
    /// Whether the kernel is booted directly, not from a disk.
    pub direct_boot: bool,
    pub metadata_path: &'a str,
    pub distribution: &'a str,
    pub qemu_version: Option<&'a str>,
    /// Where the caller wants the NVRAM.
    pub nvram: Option<&'a str>,
    pub acpi_tables: &'a str,
    pub rsdp: &'a str,
    pub table_loader: &'a str,
}

/// Which outside steps a build takes besides reading the tables.
#[derive(Debug, Clone, Copy, PartialEq, Eq, Structural)]
pub struct BuildPlan {
    pub generate_acpi: bool,
    pub generate_nvram: bool,
    pub read_rsdp: bool,
    pub read_loader: bool,
}

/// What came of the outside steps. Steps that are not in the plan are not looked at.
pub struct BuildInputs<E> {
    /// How generating the tables ended.
    pub acpi: Result<(), E>,
    /// Where the NVRAM was generated.
    pub nvram: Result<String, E>,
    /// What reading `Machine::acpi_tables` gave.
    pub tables: Result<Vec<u8>, E>,
    /// What reading `Machine::rsdp` gave.
    pub rsdp: Result<Vec<u8>, E>,
    /// What reading `Machine::table_loader` gave.
    pub loader: Result<Vec<u8>, E>,
}

/// Why blobs could not be built: an outside step failed, or the tables did not serve.
#[derive(Debug)]
pub enum BuildError<E> {
    Outside(E),
    Acpi(AcpiError),
}

/// The RSDP of tables whose RSDT is at `offset`: signature, checksum yet to be made, OEM name,
/// revision and the address of the RSDT.
pub open spec fn rsdp_bytes(offset: u32) -> Seq<u8> {
    seq![
        0x52u8, 0x53, 0x44, 0x20, 0x50, 0x54, 0x52, 0x20,
        0x00,
        0x42, 0x4F, 0x43, 0x48, 0x53, 0x20,
        0x00,
    ] + le32_bytes(offset as int)
}

/// The RSDP for the first RSDT of the tables.
pub open spec fn derived_rsdp(tables: Seq<u8>) -> Result<Seq<u8>, AcpiError> {
    match find(tables, required_signature(RequiredTable::Rsdt)) {
        Ok(rsdt) => Ok(rsdp_bytes(rsdt.offset)),
        Err(e) => Err(e),
    }
}

/// The table loader for the tables.
pub open spec fn derived_loader(tables: Seq<u8>) -> Result<Seq<u8>, AcpiError> {
    match loader_commands(tables) {
        Ok(cmds) => Ok(filled(encode_all(cmds))),
        Err(e) => Err(e),
    }
}

/// A blob that was read, or derived where no file is named.
pub open spec fn read_or<E>(
    path: Seq<char>,
    read: Result<Vec<u8>, E>,
    derived: Result<Seq<u8>, AcpiError>,
) -> Result<Seq<u8>, BuildError<E>> {
    if path.len() > 0 {
        match read {
            Ok(bytes) => Ok(bytes@),
            Err(e) => Err(BuildError::Outside(e)),
        }
    } else {
        match derived {
            Ok(bytes) => Ok(bytes),
            Err(e) => Err(BuildError::Acpi(e)),
        }
    }
}

impl<'a> Machine<'a> {
    /// Which outside steps a build takes.
    pub open spec fn steps(&self) -> BuildPlan {
        BuildPlan {
            generate_acpi: self.create_acpi_table && self.direct_boot,
            generate_nvram: self.create_acpi_table,
            read_rsdp: self.rsdp@.len() > 0,
            read_loader: self.table_loader@.len() > 0,
        }
    }

    /// The blobs of a build, or its first failure: generation comes first, then the tables, the
    /// RSDP and the loader.
    pub open spec fn built<E>(&self, inputs: BuildInputs<E>) -> Result<TablesView, BuildError<E>> {
        if self.steps().generate_acpi && inputs.acpi is Err {
            Err(BuildError::Outside(inputs.acpi->Err_0))
        } else if self.steps().generate_nvram && inputs.nvram is Err {
            Err(BuildError::Outside(inputs.nvram->Err_0))
        } else {
            match inputs.tables {
                Err(e) => Err(BuildError::Outside(e)),
                Ok(tables) => match read_or(self.rsdp@, inputs.rsdp, derived_rsdp(tables@)) {
                    Err(e) => Err(e),
                    Ok(rsdp) => match read_or(
                        self.table_loader@,
                        inputs.loader,
                        derived_loader(tables@),
                    ) {
                        Err(e) => Err(e),
                        Ok(loader) => Ok(
                            TablesView {
                                tables: tables@,
                                rsdp,
                                loader,
                                generated_nvram: if self.create_acpi_table && self.nvram is None {
                                    Some(inputs.nvram->Ok_0@)
                                } else {
                                    None
                                },
                            },
                        ),
                    },
                },
            }
        }
    }

    /// Which outside steps the build takes, in their order.
    pub fn plan(&self) -> (r: BuildPlan)
        ensures
            r == self.steps(),
    {
        BuildPlan {
            generate_acpi: self.create_acpi_table && self.direct_boot,
            generate_nvram: self.create_acpi_table,
            read_rsdp: !self.rsdp.is_empty(),
            read_loader: !self.table_loader.is_empty(),
        }
    }

    /// Builds the blobs from what the outside steps gave.
    pub fn build_tables<E>(&self, inputs: BuildInputs<E>) -> (r: Result<Tables, BuildError<E>>)
        ensures
            match r {
                Ok(t) => self.built(inputs) == Ok::<TablesView, BuildError<E>>(t@),
                Err(e) => self.built(inputs) == Err::<TablesView, BuildError<E>>(e),
            },
    {
        let generated_nvram: Option<String> = if self.create_acpi_table {
            if self.direct_boot {
                match inputs.acpi {
                    Ok(()) => {},
                    Err(e) => return Err(BuildError::Outside(e)),
                }
            }
            match inputs.nvram {
                Ok(path) => if self.nvram.is_none() {
                    Some(path)
                } else {
                    None
                },
                Err(e) => return Err(BuildError::Outside(e)),
            }
        } else {
            None
        };
        let tables = match inputs.tables {
            Ok(tables) => tables,
            Err(e) => return Err(BuildError::Outside(e)),
        };
        let rsdp = if !self.rsdp.is_empty() {
            match inputs.rsdp {
                Ok(rsdp) => rsdp,
                Err(e) => return Err(BuildError::Outside(e)),
            }
        } else {
            match derive_rsdp(&tables) {
                Ok(rsdp) => rsdp,
                Err(e) => return Err(BuildError::Acpi(e)),
            }
        };
        let loader = if !self.table_loader.is_empty() {
            match inputs.loader {
                Ok(loader) => loader,
                Err(e) => return Err(BuildError::Outside(e)),
            }
        } else {
            match derive_table_loader(&tables) {
                Ok(loader) => loader,
                Err(e) => return Err(BuildError::Acpi(e)),
            }
        };
        Ok(Tables { tables, rsdp, loader, generated_nvram })
    }
}

/// Derives the RSDP from the concatenated tables.
pub fn derive_rsdp(tables: &[u8]) -> (r: Result<Vec<u8>, AcpiError>)
    ensures
        match r {
            Ok(rsdp) => derived_rsdp(tables@) == Ok::<Seq<u8>, AcpiError>(rsdp@),
            Err(e) => derived_rsdp(tables@) == Err::<Seq<u8>, AcpiError>(e),
        },
{
    proof {
        reveal_strlit("RSDT");
        vstd::utf8::is_ascii_chars_encode_utf8("RSDT"@);
        assert("RSDT".spec_bytes() =~= required_signature(RequiredTable::Rsdt));
    }
    let (rsdt_offset, _, _) = match find_acpi_table(tables, "RSDT") {
        Ok(t) => t,
        Err(e) => return Err(e),
    };
    let mut rsdp: Vec<u8> = Vec::with_capacity(20);
    append_bytes(&mut rsdp, &[0x52, 0x53, 0x44, 0x20, 0x50, 0x54, 0x52, 0x20]);
    rsdp.push(0x00);
    append_bytes(&mut rsdp, &[0x42, 0x4F, 0x43, 0x48, 0x53, 0x20]);
    rsdp.push(0x00);
    append_u32(&mut rsdp, rsdt_offset);
    assert(rsdp@ =~= rsdp_bytes(rsdt_offset));
    Ok(rsdp)
}

/// A derived RSDP is 20 bytes long and points to the table that a search for the RSDT finds.
pub proof fn law_rsdp_points_to_rsdt(tables: Seq<u8>)
    ensures
        derived_rsdp(tables) matches Ok(rsdp) ==> {
            &&& rsdp.len() == 20
            &&& find(tables, required_signature(RequiredTable::Rsdt)) matches Ok(rsdt)
            &&& le32_at(rsdp, 16) == rsdt.offset
        },
{
    if let Ok(rsdt) = find(tables, required_signature(RequiredTable::Rsdt)) {
        let rsdp = rsdp_bytes(rsdt.offset);
        assert(rsdp.subrange(16, 20) =~= le32_bytes(rsdt.offset as int));
        crate::bytes::lemma_le32_field(rsdp, 16, rsdt.offset);
    }
}

/// Where a loader can be derived from tables, so can an RSDP, and it points to the RSDT that the
/// loader patches.
pub proof fn law_rsdp_goes_with_loader(tables: Seq<u8>)
    ensures
        derived_loader(tables) is Ok ==> {
            let rsdt = required(walk(tables)->Ok_0, RequiredTable::Rsdt)->Ok_0;
            derived_rsdp(tables) matches Ok(rsdp) && le32_at(rsdp, 16) == rsdt.offset
        },
{
    crate::acpi_laws::law_find_is_first_listed(tables, required_signature(RequiredTable::Rsdt));
    law_rsdp_points_to_rsdt(tables);
}

/// What `Tables` holds is its fields.
pub proof fn law_tables_view(t: Tables)
    ensures
        t@.tables == t.tables@,
        t@.rsdp == t.rsdp@,
        t@.loader == t.loader@,
        t.generated_nvram matches Some(path) ==> t@.generated_nvram == Some(path@),
        t.generated_nvram is None ==> t@.generated_nvram is None,
{
}

/// A build generates only where it is asked to, ACPI tables only for a direct boot, and reads the
/// files that are named, each by its own path.
pub proof fn law_plan(m: &Machine)
    ensures
        m.steps().generate_acpi <==> m.create_acpi_table && m.direct_boot,
        m.steps().generate_nvram <==> m.create_acpi_table,
        m.steps().read_rsdp <==> m.rsdp@ != Seq::<char>::empty(),
        m.steps().read_loader <==> m.table_loader@ != Seq::<char>::empty(),
{
    assert(m.rsdp@.len() == 0 ==> m.rsdp@ =~= Seq::empty());
    assert(m.table_loader@.len() == 0 ==> m.table_loader@ =~= Seq::empty());
}

/// Whether every step that a build of the machine takes went well.
pub open spec fn steps_went_well<E>(m: &Machine, inputs: BuildInputs<E>) -> bool {
    &&& m.create_acpi_table && m.direct_boot ==> inputs.acpi is Ok
    &&& m.create_acpi_table ==> inputs.nvram is Ok
    &&& inputs.tables is Ok
    &&& m.rsdp@.len() > 0 ==> inputs.rsdp is Ok
    &&& m.table_loader@.len() > 0 ==> inputs.loader is Ok
}

/// A build that succeeds hands out the tables as they were read. The RSDP is the file's contents
/// where one is named and derived from the tables where none is, whatever is said of the loader;
/// the loader likewise, whatever is said of the RSDP. The NVRAM's path is told where it was
/// generated and the caller did not name it.
pub proof fn law_blobs_of_a_build<E>(m: &Machine, inputs: BuildInputs<E>, t: TablesView)
    requires
        m.built(inputs) == Ok::<TablesView, BuildError<E>>(t),
    ensures
        steps_went_well(m, inputs),
        t.tables == inputs.tables->Ok_0@,
        m.rsdp@.len() > 0 ==> t.rsdp == inputs.rsdp->Ok_0@,
        m.rsdp@.len() == 0 ==> derived_rsdp(t.tables) == Ok::<Seq<u8>, AcpiError>(t.rsdp),
        m.table_loader@.len() > 0 ==> t.loader == inputs.loader->Ok_0@,
        m.table_loader@.len() == 0 ==> derived_loader(t.tables) == Ok::<Seq<u8>, AcpiError>(
            t.loader,
        ),
        m.create_acpi_table && m.nvram is None ==> t.generated_nvram == Some(inputs.nvram->Ok_0@),
        !m.create_acpi_table || m.nvram is Some ==> t.generated_nvram is None,
{
}

/// A build succeeds where its steps went well and what no file is named for can be derived.
pub proof fn law_build_succeeds<E>(m: &Machine, inputs: BuildInputs<E>)
    requires
        steps_went_well(m, inputs),
        m.rsdp@.len() == 0 ==> derived_rsdp(inputs.tables->Ok_0@) is Ok,
        m.table_loader@.len() == 0 ==> derived_loader(inputs.tables->Ok_0@) is Ok,
    ensures
        m.built(inputs) is Ok,
{
}

/// Steps that a build does not take do not matter to it.
pub proof fn law_other_steps_do_not_matter<E>(
    m: &Machine,
    inputs: BuildInputs<E>,
    other: BuildInputs<E>,
)
    requires
        m.create_acpi_table && m.direct_boot ==> inputs.acpi == other.acpi,
        m.create_acpi_table ==> inputs.nvram == other.nvram,
        inputs.tables == other.tables,
        m.rsdp@.len() > 0 ==> inputs.rsdp == other.rsdp,
        m.table_loader@.len() > 0 ==> inputs.loader == other.loader,
    ensures
        m.built(inputs) == m.built(other),
{
}

/// A build fails with the first thing that went wrong: generating ACPI tables, generating NVRAM,
/// reading the tables, reading or deriving the RSDP, reading or deriving the loader.
pub proof fn law_first_failure<E>(m: &Machine, inputs: BuildInputs<E>)
    ensures
        ({
            let r = m.built(inputs);
            if m.create_acpi_table && m.direct_boot && inputs.acpi is Err {
                r == Err::<TablesView, BuildError<E>>(BuildError::Outside(inputs.acpi->Err_0))
            } else if m.create_acpi_table && inputs.nvram is Err {
                r == Err::<TablesView, BuildError<E>>(BuildError::Outside(inputs.nvram->Err_0))
            } else if inputs.tables is Err {
                r == Err::<TablesView, BuildError<E>>(BuildError::Outside(inputs.tables->Err_0))
            } else if m.rsdp@.len() > 0 && inputs.rsdp is Err {
                r == Err::<TablesView, BuildError<E>>(BuildError::Outside(inputs.rsdp->Err_0))
            } else if m.rsdp@.len() == 0 && derived_rsdp(inputs.tables->Ok_0@) is Err {
                r == Err::<TablesView, BuildError<E>>(
                    BuildError::Acpi(derived_rsdp(inputs.tables->Ok_0@)->Err_0),
                )
            } else if m.table_loader@.len() > 0 && inputs.loader is Err {
                r == Err::<TablesView, BuildError<E>>(BuildError::Outside(inputs.loader->Err_0))
            } else if m.table_loader@.len() == 0 && derived_loader(inputs.tables->Ok_0@) is Err {
                r == Err::<TablesView, BuildError<E>>(
                    BuildError::Acpi(derived_loader(inputs.tables->Ok_0@)->Err_0),
                )
            } else {
                r is Ok
            }
        }),
{
}

/// A derived RSDP is the signature `RSD PTR `, a zero checksum, the OEM name `BOCHS `, revision
/// zero and the offset of the first RSDT that a search meets; where a search meets none, its error
/// is that of the search.
pub proof fn law_bytes_of_a_derived_rsdp(tables: Seq<u8>)
    ensures
        match find(tables, seq![0x52u8, 0x53, 0x44, 0x54]) {
            Ok(rsdt) => derived_rsdp(tables) matches Ok(rsdp) && {
                &&& rsdp.len() == 20
                &&& rsdp.take(8) == "RSD PTR ".spec_bytes()
                &&& rsdp[8] == 0
                &&& rsdp.subrange(9, 15) == "BOCHS ".spec_bytes()
                &&& rsdp[15] == 0
                &&& rsdp[16] + 256 * rsdp[17] + 65536 * rsdp[18] + 16777216 * rsdp[19]
                    == rsdt.offset
            },
            Err(e) => derived_rsdp(tables) == Err::<Seq<u8>, AcpiError>(e),
        },
{
    reveal_strlit("RSD PTR ");
    reveal_strlit("BOCHS ");
    vstd::utf8::is_ascii_chars_encode_utf8("RSD PTR "@);
    vstd::utf8::is_ascii_chars_encode_utf8("BOCHS "@);
    if let Ok(rsdt) = find(tables, seq![0x52u8, 0x53, 0x44, 0x54]) {
        let rsdp = rsdp_bytes(rsdt.offset);
        assert(rsdp.take(8) =~= "RSD PTR ".spec_bytes());
        assert(rsdp.subrange(9, 15) =~= "BOCHS ".spec_bytes());
        law_rsdp_points_to_rsdt(tables);
    }
}

} // verus!
