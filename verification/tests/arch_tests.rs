use mmm_core::arch::{bytes_eq, contains_sub, lex_le_bytes, max_cpuid, to_lower, Kind};

fn b(s: &str) -> Vec<u8> {
    s.as_bytes().to_vec()
}

#[test]
fn lowercasing_is_ascii_only() {
    assert_eq!(to_lower(&b("AbC-53!")), b("abc-53!"));
    assert_eq!(to_lower(&b("")), b(""));
}

#[test]
fn substring_search() {
    assert!(contains_sub(&b("cortex-a53 big"), &b("a53")));
    assert!(!contains_sub(&b("cortex-a55"), &b("a53")));
    assert!(contains_sub(&b("x"), &b("")));
    assert!(!contains_sub(&b(""), &b("x")));
}

#[test]
fn byte_equality_and_order() {
    assert!(bytes_eq(&b("0xd03"), &b("0xd03")));
    assert!(!bytes_eq(&b("0xd03"), &b("0xd05")));
    assert!(lex_le_bytes(&b("0xd03"), &b("0xd09")));
    assert!(!lex_le_bytes(&b("0xd09"), &b("0xd03")));
    assert!(lex_le_bytes(&b("0x"), &b("0xd03")));
}

#[test]
fn forced_kind_override_wins() {
    assert_eq!(Kind::detect(Some(&b("Cortex-A53")), None, None), Kind::CortexA53);
    assert_eq!(
        Kind::detect(Some(&b("big.LITTLE A72 thing")), Some(&b("0xd03")), None),
        Kind::CortexA72
    );
    assert_eq!(Kind::detect(Some(&b("A55")), None, None), Kind::CortexA55);
    assert_eq!(Kind::detect(Some(&b("a73")), None, None), Kind::CortexA73);
    assert_eq!(Kind::detect(Some(&b("a75")), None, None), Kind::CortexA75);
    assert_eq!(Kind::detect(Some(&b("whatever")), None, None), Kind::Generic);
}

#[test]
fn part_override_is_second() {
    assert_eq!(Kind::detect(None, Some(&b("0xd05")), None), Kind::CortexA55);
    assert_eq!(Kind::detect(None, Some(&b("0xd08")), None), Kind::CortexA72);
    assert_eq!(Kind::detect(None, Some(&b("0xd0a")), None), Kind::CortexA75);
    assert_eq!(Kind::detect(None, Some(&b("0x000")), None), Kind::Generic);
}

#[test]
fn auto_detection_takes_maximum_part() {
    let info = b("processor\t: 0\nCPU part\t: 0xd03\nprocessor\t: 1\nCPU part\t: 0xd09\n");
    assert_eq!(max_cpuid(&info), b("0xd09"));
    assert_eq!(Kind::detect(None, None, Some(&info)), Kind::CortexA73);
}

#[test]
fn unreadable_metadata_degrades_to_generic() {
    assert_eq!(Kind::detect(None, None, None), Kind::Generic);
    assert_eq!(max_cpuid(&b("no part lines here\n")), b(""));
    assert_eq!(Kind::detect(None, None, Some(&b("garbage"))), Kind::Generic);
}
