use aube::platform::{field_matches, host_triple, is_supported, SupportedArchitectures};

fn s(xs: &[&str]) -> Vec<String> {
    xs.iter().map(|x| (*x).to_string()).collect()
}

fn host() -> (String, String, String) {
    host_triple("linux", "x86_64", false)
}

#[test]
fn empty_fields_accept_any_host() {
    let sup = SupportedArchitectures::default();
    assert!(is_supported(&[], &[], &[], &sup, &host()));
}

#[test]
fn positive_match_rules() {
    assert!(field_matches(&s(&["linux", "darwin"]), "linux"));
    assert!(!field_matches(&s(&["linux", "darwin"]), "win32"));
}

#[test]
fn negation_rejects_match() {
    assert!(!field_matches(&s(&["!win32"]), "win32"));
    assert!(field_matches(&s(&["!win32"]), "linux"));
}

#[test]
fn mixed_negation_and_positive() {
    assert!(!field_matches(&s(&["linux", "!linux"]), "linux"));
}

#[test]
fn supported_architectures_widens_with_current() {
    let sup = SupportedArchitectures {
        os: s(&["current", "linux"]),
        ..Default::default()
    };
    assert!(is_supported(&s(&["linux"]), &[], &[], &sup, &host_triple("macos", "aarch64", false)));
    assert!(is_supported(&s(&["linux"]), &[], &[], &sup, &host()));
}

#[test]
fn libc_ignored_off_linux() {
    let sup = SupportedArchitectures::default();
    assert!(is_supported(&[], &[], &s(&["musl"]), &sup, &host_triple("macos", "aarch64", false)));
    assert!(is_supported(&[], &[], &s(&["musl"]), &sup, &host_triple("windows", "x86_64", false)));
}

#[test]
fn linux_glibc_host_rejects_musl_only_package() {
    let sup = SupportedArchitectures::default();
    assert!(!is_supported(&[], &[], &s(&["musl"]), &sup, &host_triple("linux", "x86_64", false)));
}
