use trantor::host_target::{declared_native_target_names, is_glibc, is_glibc_runtime_file, roc_target_for, target_or_host};

#[test]
fn an_explicit_target_wins_over_the_host() {
    assert_eq!(target_or_host(Some("wasm32".into()), roc_target_for("linux", "x86_64", false)).unwrap(), "wasm32");
}

#[test]
fn each_supported_host_has_its_roc_target_and_the_glibc_ones_are_declared() {
    assert_eq!(roc_target_for("macos", "aarch64", false).unwrap(), "arm64mac");
    assert_eq!(roc_target_for("linux", "x86_64", true).unwrap(), "x64musl");
    let glibc = roc_target_for("linux", "aarch64", false).unwrap();
    assert!(declared_native_target_names().contains(&glibc));
    assert_eq!(
        roc_target_for("freebsd", "x86_64", false).unwrap_err(),
        "no roc target is known for this host (freebsd/x86_64); pass `--target <roc target>`"
    );
    assert_eq!(target_or_host(None, roc_target_for("macos", "x86_64", false)).unwrap(), "x64mac");
    assert!(is_glibc("x64glibc") && !is_glibc("x64musl"));
    assert!(is_glibc_runtime_file("crti.o") && is_glibc_runtime_file("libgcc_s.so.1") && !is_glibc_runtime_file("libc.a"));
}
