use tdx_measure::bytes::{align4, append_u32, append_zeros, same_bytes, u16_le, u32_at, u64_at};
use tdx_measure::measure::{rtmr1_log, rtmr2_log, LogEntry};
use tdx_measure::ovmf::{ovmf_vars_region_size, split_ovmf, OvmfError};
use tdx_measure::text::{
    append_decimal, append_hex4, contains_text, same_text, split_text, string_of,
};
use tdx_measure::utf16::decode_utf16;

#[test]
fn numbers_are_little_endian() {
    assert_eq!(u16_le(0x34, 0x12), 0x1234);
    let data = [0, 0x78, 0x56, 0x34, 0x92, 1, 0, 0, 0x80];
    assert_eq!(u32_at(&data, 1), Some(0x9234_5678));
    assert_eq!(u32_at(&data, 5), Some(0x8000_0001));
    assert_eq!(u32_at(&data, 6), None);
    assert_eq!(u32_at(&[], 0), None);
    assert_eq!(u64_at(&data, 1), Some(0x8000_0001_9234_5678));
    assert_eq!(u64_at(&data, 2), None);
    let mut buf = vec![9];
    append_u32(&mut buf, 0x9234_5678);
    assert_eq!(buf, vec![9, 0x78, 0x56, 0x34, 0x92]);
    assert_eq!(u32_at(&buf, 1), Some(0x9234_5678));
    append_zeros(&mut buf, 2);
    assert_eq!(buf.len(), 7);
}

#[test]
fn sizes_are_rounded_up_to_four() {
    assert_eq!(align4(0), 0);
    assert_eq!(align4(1), 4);
    assert_eq!(align4(4), 4);
    assert_eq!(align4(61), 64);
}

#[test]
fn bytes_are_compared_whole() {
    assert!(same_bytes(b"abc", b"abc"));
    assert!(!same_bytes(b"abc", b"abd"));
    assert!(!same_bytes(b"abc", b"ab"));
    assert!(same_bytes(b"", b""));
}

#[test]
fn text_is_split_and_searched() {
    let split = |s: &str| -> Vec<String> {
        split_text(s, ',').iter().map(|p| string_of(p)).collect()
    };
    assert_eq!(split(""), vec![""]);
    assert_eq!(split("a"), vec!["a"]);
    assert_eq!(split(",a,,b,"), vec!["", "a", "", "b", ""]);
    assert_eq!(split(",a,,b,").join(","), ",a,,b,");
    assert!(contains_text("xnetdev=1", "netdev="));
    assert!(contains_text("", ""));
    assert!(!contains_text("net", "netdev="));
    assert!(same_text("\u{e9}a", "\u{e9}a"));
    assert!(!same_text("a", "ab"));
}

#[test]
fn numbers_are_written_out() {
    let mut s = String::new();
    for n in [0u8, 7, 10, 42, 100, 255] {
        append_decimal(&mut s, n);
        s.push(' ');
    }
    assert_eq!(s, "0 7 10 42 100 255 ");
    let mut s = "Boot".to_string();
    append_hex4(&mut s, 0x0A9F);
    append_hex4(&mut s, 0xFFFF);
    append_hex4(&mut s, 0);
    assert_eq!(s, "Boot0A9FFFFF0000");
}

fn utf16_bytes(text: &str) -> Vec<u8> {
    text.encode_utf16().flat_map(|u| u.to_le_bytes()).collect()
}

#[test]
fn utf16_names_are_decoded_up_to_a_null() {
    assert_eq!(decode_utf16(&[]), Some(String::new()));
    assert_eq!(decode_utf16(&utf16_bytes("BootOrder")), Some("BootOrder".to_string()));
    assert_eq!(decode_utf16(&utf16_bytes("Boot\0Order")), Some("Boot".to_string()));
    assert_eq!(decode_utf16(&utf16_bytes("\0")), Some(String::new()));
    let text = "a\u{e9}\u{d7ff}\u{e000}\u{ffff}\u{10000}\u{1f600}\u{10ffff}";
    assert_eq!(decode_utf16(&utf16_bytes(text)), Some(text.to_string()));
}

#[test]
fn malformed_utf16_is_no_text() {
    assert_eq!(decode_utf16(&[0x41]), None);
    assert_eq!(decode_utf16(&[0x41, 0, 0]), None);
    // Half pairs: high alone, high before a letter, low alone, low before high.
    assert_eq!(decode_utf16(&[0x00, 0xD8]), None);
    assert_eq!(decode_utf16(&[0x00, 0xD8, 0x41, 0x00]), None);
    assert_eq!(decode_utf16(&[0x00, 0xDC]), None);
    assert_eq!(decode_utf16(&[0x00, 0xDC, 0x00, 0xD8]), None);
    // Behind a null nothing is looked at.
    assert_eq!(decode_utf16(&[0x41, 0, 0, 0, 0x00, 0xD8]), Some("A".to_string()));
}

fn ovmf(length: u64, size: usize) -> Vec<u8> {
    let mut image: Vec<u8> = (0..size).map(|i| i as u8).collect();
    image[32..40].copy_from_slice(&length.to_le_bytes());
    image[40..44].copy_from_slice(b"_FVH");
    image
}

#[test]
fn ovmf_image_is_split_at_its_volume() {
    let image = ovmf(50, 64);
    assert_eq!(ovmf_vars_region_size(&image), Ok(50));
    let (vars, code) = split_ovmf(&image).unwrap();
    assert_eq!(vars, &image[..50]);
    assert_eq!(code, &image[50..]);
    assert_eq!([vars, code].concat(), image);
    assert_eq!(ovmf_vars_region_size(&ovmf(63, 64)), Ok(63));
}

#[test]
fn ovmf_image_that_cannot_be_split_is_rejected() {
    assert_eq!(ovmf_vars_region_size(&[0; 47]), Err(OvmfError::TooSmall));
    assert_eq!(ovmf_vars_region_size(&[0; 48]), Err(OvmfError::NoSignature));
    let invalid = |length: usize| OvmfError::InvalidLength { length, image: 64 };
    assert_eq!(ovmf_vars_region_size(&ovmf(0, 64)), Err(invalid(0)));
    assert_eq!(ovmf_vars_region_size(&ovmf(64, 64)), Err(invalid(64)));
    assert_eq!(split_ovmf(&ovmf(0x1_0000, 64)), Err(invalid(0x1_0000)));
}

#[test]
fn rtmr1_measures_the_kernel_and_its_start() {
    let log = rtmr1_log(vec![1, 2, 3]);
    assert_eq!(log.len(), 5);
    assert!(matches!(&log[0], LogEntry::Authenticode(d) if d == &[1, 2, 3]));
    let sha = |i: usize, expected: &[u8]| match &log[i] {
        LogEntry::Sha384(d) => assert_eq!(d, expected),
        _ => panic!("entry {i} is not of plain bytes"),
    };
    sha(1, b"Calling EFI Application from Boot Option");
    sha(2, &[0, 0, 0, 0]);
    sha(3, b"Exit Boot Services Invocation");
    sha(4, b"Exit Boot Services Returned with Success");
}

#[test]
fn rtmr2_measures_the_command_line_and_the_initrd() {
    let log = rtmr2_log("console=ttyS0", vec![7; 3]);
    assert_eq!(log.len(), 2);
    assert!(matches!(&log[0], LogEntry::Cmdline(c) if c == "initrd=initrd console=ttyS0"));
    assert!(matches!(&log[1], LogEntry::Sha384(d) if d == &[7, 7, 7]));
    assert!(matches!(&rtmr2_log("", vec![])[0], LogEntry::Cmdline(c) if c == "initrd=initrd "));
}
