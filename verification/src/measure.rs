//! The measurement logs of a direct boot: which data is measured into a register, in which order
//! and how.
use vstd::prelude::*;
use vstd::string::{StringExecFns, StringSliceAdditionalSpecFns};

verus! {

/// One entry of a measurement log: data, and by which digest it enters the log.
pub enum LogEntry {
    /// A PE image, by its Authenticode digest.
    Authenticode(Vec<u8>),
    /// Bytes, by their SHA-384 digest.
    Sha384(Vec<u8>),
    /// A command line, by the digest of command lines.
    Cmdline(String),
}

/// What a log entry holds.
pub enum Measured {
    Authenticode(Seq<u8>),
    Sha384(Seq<u8>),
    Cmdline(Seq<char>),
}

impl View for LogEntry {
    type V = Measured;

    open spec fn view(&self) -> Measured {
        match *self {
            LogEntry::Authenticode(data) => Measured::Authenticode(data@),
            LogEntry::Sha384(data) => Measured::Sha384(data@),
            LogEntry::Cmdline(line) => Measured::Cmdline(line@),
        }
    }
}

/// What the entries of a log hold.
pub open spec fn log_view(log: Seq<LogEntry>) -> Seq<Measured> {
    Seq::new(log.len(), |i: int| log[i]@)
}

/// The log of RTMR1: the kernel image, then the events of starting it.
pub open spec fn rtmr1_measured(kernel: Seq<u8>) -> Seq<Measured> {
    seq![
        Measured::Authenticode(kernel),
        Measured::Sha384("Calling EFI Application from Boot Option".spec_bytes()),
        Measured::Sha384(seq![0u8, 0, 0, 0]),
        Measured::Sha384("Exit Boot Services Invocation".spec_bytes()),
        Measured::Sha384("Exit Boot Services Returned with Success".spec_bytes()),
    ]
}

/// The log of RTMR2: the command line as the firmware hands it on, with the initrd named before
/// it, and the initrd.
pub open spec fn rtmr2_measured(cmdline: Seq<char>, initrd: Seq<u8>) -> Seq<Measured> {
    seq![Measured::Cmdline("initrd=initrd "@ + cmdline), Measured::Sha384(initrd)]
}

fn event(text: &str) -> (r: LogEntry)
    ensures
        r@ == Measured::Sha384(text.spec_bytes()),
{
    LogEntry::Sha384(vstd::slice::slice_to_vec(text.as_bytes()))
}

/// What is measured into RTMR1 when the kernel is booted directly. The firmware measures the
/// kernel before its setup header is patched, so the image enters as it is on disk.
pub fn rtmr1_log(kernel: Vec<u8>) -> (r: Vec<LogEntry>)
    ensures
        log_view(r@) == rtmr1_measured(kernel@),
{
    let mut log: Vec<LogEntry> = Vec::new();
    let ghost image = kernel@;
    log.push(LogEntry::Authenticode(kernel));
    log.push(event("Calling EFI Application from Boot Option"));
    let separator: [u8; 4] = [0, 0, 0, 0];
    assert(separator@ =~= seq![0u8, 0, 0, 0]);
    log.push(LogEntry::Sha384(vstd::slice::slice_to_vec(&separator)));
    log.push(event("Exit Boot Services Invocation"));
    log.push(event("Exit Boot Services Returned with Success"));
    assert(log_view(log@) =~= rtmr1_measured(image));
    log
}

/// What is measured into RTMR2 when the kernel is booted directly.
pub fn rtmr2_log(kernel_cmdline: &str, initrd: Vec<u8>) -> (r: Vec<LogEntry>)
    ensures
        log_view(r@) == rtmr2_measured(kernel_cmdline@, initrd@),
{
    let mut log: Vec<LogEntry> = Vec::new();
    let ghost image = initrd@;
    let mut cmdline = "initrd=initrd ".to_owned();
    cmdline.append(kernel_cmdline);
    log.push(LogEntry::Cmdline(cmdline));
    log.push(LogEntry::Sha384(initrd));
    assert(log_view(log@) =~= rtmr2_measured(kernel_cmdline@, image));
    log
}

/// A log has what its entries hold, one for one and each by its digest.
pub proof fn law_log_view(log: Seq<LogEntry>, i: int)
    requires
        0 <= i < log.len(),
    ensures
        log_view(log).len() == log.len(),
        log[i] matches LogEntry::Authenticode(d) ==> log_view(log)[i] == Measured::Authenticode(d@),
        log[i] matches LogEntry::Sha384(d) ==> log_view(log)[i] == Measured::Sha384(d@),
        log[i] matches LogEntry::Cmdline(c) ==> log_view(log)[i] == Measured::Cmdline(c@),
{
}

/// The kernel image enters the log of RTMR1 whole and by its Authenticode digest, and the four
/// events behind it do not depend on it; two kernels never give the same log.
pub proof fn law_rtmr1_measures_the_kernel(kernel: Seq<u8>, other: Seq<u8>)
    ensures
        rtmr1_measured(kernel).len() == 5,
        rtmr1_measured(kernel)[0] == Measured::Authenticode(kernel),
        rtmr1_measured(kernel)[1] == Measured::Sha384(
            "Calling EFI Application from Boot Option".spec_bytes(),
        ),
        rtmr1_measured(kernel)[2] matches Measured::Sha384(s) && s.len() == 4 && s[0] == 0 && s[1]
            == 0 && s[2] == 0 && s[3] == 0,
        rtmr1_measured(kernel)[3] == Measured::Sha384("Exit Boot Services Invocation".spec_bytes()),
        rtmr1_measured(kernel)[4] == Measured::Sha384(
            "Exit Boot Services Returned with Success".spec_bytes(),
        ),
        rtmr1_measured(kernel).skip(1) == rtmr1_measured(other).skip(1),
        rtmr1_measured(kernel) == rtmr1_measured(other) ==> kernel == other,
{
    assert(rtmr1_measured(kernel).skip(1) =~= rtmr1_measured(other).skip(1));
    assert(rtmr1_measured(kernel)[0] == Measured::Authenticode(kernel));
    assert(rtmr1_measured(other)[0] == Measured::Authenticode(other));
}

/// The log of RTMR2 measures the command line with `initrd=initrd ` before it, every character of
/// it in its place, and then the whole initrd.
pub proof fn law_rtmr2_measures_the_whole_line(cmdline: Seq<char>, initrd: Seq<u8>)
    ensures
        rtmr2_measured(cmdline, initrd).len() == 2,
        rtmr2_measured(cmdline, initrd)[0] matches Measured::Cmdline(line) && {
            &&& line.len() == 14 + cmdline.len()
            &&& line.take(14) == "initrd=initrd "@
            &&& forall|i: int| 0 <= i < cmdline.len() ==> line[14 + i] == #[trigger] cmdline[i]
        },
        rtmr2_measured(cmdline, initrd)[1] == Measured::Sha384(initrd),
{
    reveal_strlit("initrd=initrd ");
    let line = "initrd=initrd "@ + cmdline;
    assert(line.take(14) =~= "initrd=initrd "@);
}

/// Two command lines or two initrds never give the same log of RTMR2.
pub proof fn law_rtmr2_tells_boots_apart(
    cmdline: Seq<char>,
    initrd: Seq<u8>,
    other_cmdline: Seq<char>,
    other_initrd: Seq<u8>,
)
    requires
        rtmr2_measured(cmdline, initrd) == rtmr2_measured(other_cmdline, other_initrd),
    ensures
        cmdline == other_cmdline,
        initrd == other_initrd,
{
    law_rtmr2_measures_the_whole_line(cmdline, initrd);
    law_rtmr2_measures_the_whole_line(other_cmdline, other_initrd);
    let line = rtmr2_measured(cmdline, initrd)[0]->Cmdline_0;
    assert forall|i: int| 0 <= i < cmdline.len() implies cmdline[i] == other_cmdline[i] by {
        assert(line[14 + i] == cmdline[i]);
        assert(line[14 + i] == other_cmdline[i]);
    }
    assert(cmdline =~= other_cmdline);
}

} // verus!
