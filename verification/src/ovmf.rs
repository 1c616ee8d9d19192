//! The two regions of a combined OVMF image: variables first, code behind them.
use vstd::prelude::*;

use crate::bytes::{le64_at, u64_at};

verus! {

/// Why an image could not be split.
#[derive(Debug, Clone, Copy, PartialEq, Eq, Structural)]
pub enum OvmfError {
    /// The image has no room for the header of a firmware volume.
    TooSmall,
    /// The image does not begin with a firmware volume.
    NoSignature,
    /// The volume's length is zero or leaves no room for code.
    InvalidLength { length: usize, image: usize },
}

/// The signature of a firmware volume, `_FVH`, at offset 40 of its header.
pub open spec fn has_signature(ovmf: Seq<u8>) -> bool {
    ovmf[40] == 0x5F && ovmf[41] == 0x46 && ovmf[42] == 0x56 && ovmf[43] == 0x48
}

/// The length that the header of the first firmware volume says.
pub open spec fn volume_length(ovmf: Seq<u8>) -> usize {
    (le64_at(ovmf, 32) as u64) as usize
}

/// The length of the variables region at the start of an image, or why it has none.
pub open spec fn vars_size(ovmf: Seq<u8>) -> Result<usize, OvmfError> {
    if ovmf.len() < 48 {
        Err(OvmfError::TooSmall)
    } else if !has_signature(ovmf) {
        Err(OvmfError::NoSignature)
    } else if volume_length(ovmf) == 0 || volume_length(ovmf) >= ovmf.len() {
        Err(
            OvmfError::InvalidLength { length: volume_length(ovmf), image: ovmf.len() as usize },
        )
    } else {
        Ok(volume_length(ovmf))
    }
}

/// The length of the variables region at the start of a combined image.
pub fn ovmf_vars_region_size(ovmf: &[u8]) -> (r: Result<usize, OvmfError>)
    ensures
        r == vars_size(ovmf@),
{
    if ovmf.len() < 48 {
        return Err(OvmfError::TooSmall);
    }
    if ovmf[40] != 0x5F || ovmf[41] != 0x46 || ovmf[42] != 0x56 || ovmf[43] != 0x48 {
        return Err(OvmfError::NoSignature);
    }
    let length: usize = u64_at(ovmf, 32).unwrap() as usize;
    if length == 0 || length >= ovmf.len() {
        return Err(OvmfError::InvalidLength { length, image: ovmf.len() });
    }
    Ok(length)
}

/// Splits a combined image into its variables and its code region.
pub fn split_ovmf(ovmf: &[u8]) -> (r: Result<(&[u8], &[u8]), OvmfError>)
    ensures
        match r {
            Ok((vars, code)) => vars_size(ovmf@) matches Ok(n) && vars@ == ovmf@.take(n as int)
                && code@ == ovmf@.skip(n as int),
            Err(e) => vars_size(ovmf@) == Err::<usize, OvmfError>(e),
        },
{
    let n = match ovmf_vars_region_size(ovmf) {
        Ok(n) => n,
        Err(e) => return Err(e),
    };
    let (vars, code) = ovmf.split_at(n);
    assert(vars@ =~= ovmf@.take(n as int));
    assert(code@ =~= ovmf@.skip(n as int));
    Ok((vars, code))
}

/// An image that can be split has both regions, and they make up the image.
pub proof fn law_regions_make_up_image(ovmf: Seq<u8>)
    ensures
        vars_size(ovmf) matches Ok(n) ==> {
            &&& ovmf.take(n as int).len() > 0
            &&& ovmf.skip(n as int).len() > 0
            &&& ovmf.take(n as int) + ovmf.skip(n as int) == ovmf
        },
{
    if let Ok(n) = vars_size(ovmf) {
        assert(ovmf.take(n as int) + ovmf.skip(n as int) =~= ovmf);
    }
}

/// An image is split behind as many bytes as the 64-bit number at offset 32 says, where it is 48
/// bytes long at least, has `_FVH` at offset 40, and the number is neither zero nor the image's
/// length or more; else what is wrong with it is told, in this order.
pub proof fn law_split_place(ovmf: Seq<u8>)
    requires
        ovmf.len() <= usize::MAX,
        ovmf.len() >= 48 ==> header_length(ovmf) <= usize::MAX,
    ensures
        ovmf.len() < 48 ==> vars_size(ovmf) == Err::<usize, OvmfError>(OvmfError::TooSmall),
        ovmf.len() >= 48 && ovmf.subrange(40, 44) != seq![0x5Fu8, 0x46, 0x56, 0x48] ==> vars_size(
            ovmf,
        ) == Err::<usize, OvmfError>(OvmfError::NoSignature),
        ovmf.len() >= 48 && ovmf.subrange(40, 44) == seq![0x5Fu8, 0x46, 0x56, 0x48] ==> {
            let n = header_length(ovmf);
            if 0 < n < ovmf.len() {
                vars_size(ovmf) matches Ok(size) && size == n
            } else {
                vars_size(ovmf) matches Err(OvmfError::InvalidLength { length, image }) && length
                    == n && image == ovmf.len()
            }
        },
{
    if ovmf.len() >= 48 {
        let sig = ovmf.subrange(40, 44);
        assert(sig[0] == ovmf[40] && sig[1] == ovmf[41] && sig[2] == ovmf[42] && sig[3]
            == ovmf[43]);
        if has_signature(ovmf) {
            assert(sig =~= seq![0x5Fu8, 0x46, 0x56, 0x48]);
        } else {
            let fvh = seq![0x5Fu8, 0x46, 0x56, 0x48];
            assert(fvh[0] == 0x5F && fvh[1] == 0x46 && fvh[2] == 0x56 && fvh[3] == 0x48);
        }
        assert(le64_at(ovmf, 32) == header_length(ovmf));
    }
}

/// The number that the eight bytes at offset 32 stand for, the low one first.
pub open spec fn header_length(ovmf: Seq<u8>) -> int {
    ovmf[32] + 256 * (ovmf[33] + 256 * (ovmf[34] + 256 * (ovmf[35] + 256 * (ovmf[36] + 256 * (
    ovmf[37] + 256 * (ovmf[38] + 256 * ovmf[39]))))))
}

} // verus!
