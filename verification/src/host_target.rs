//! The roc target this machine builds for, and the native targets every
//! composed platform declares.
use vstd::prelude::*;

use crate::text::{chars_of, ends, ends_with, extend, same, starts, string_of};

verus! {

/// The native targets every composed `main.roc` declares, whatever machine
/// composed it.
pub open spec fn declared_native_targets() -> Seq<Seq<char>> {
    seq!["arm64mac"@, "x64mac"@, "arm64glibc"@, "x64glibc"@]
}

pub fn declared_native_target_names() -> (out: Vec<String>)
    ensures
        out@.map_values(|s: String| s@) == declared_native_targets(),
{
    let mut out: Vec<String> = Vec::new();
    out.push(string_of(&chars_of("arm64mac")));
    out.push(string_of(&chars_of("x64mac")));
    out.push(string_of(&chars_of("arm64glibc")));
    out.push(string_of(&chars_of("x64glibc")));
    assert(out@.map_values(|s: String| s@) =~= declared_native_targets());
    out
}

/// The C runtime files a glibc target names before its archives, then
/// those it names after the app.
pub open spec fn glibc_runtime_files() -> Seq<Seq<char>> {
    seq!["Scrt1.o"@, "crti.o"@, "crtn.o"@, "libc.so"@, "libm.so.6"@, "libgcc_s.so.1"@]
}

/// The roc target for an OS and architecture, musl or glibc on Linux.
pub open spec fn roc_target(os: Seq<char>, arch: Seq<char>, musl: bool) -> Option<Seq<char>> {
    if os == "macos"@ && arch == "aarch64"@ {
        Some("arm64mac"@)
    } else if os == "macos"@ && arch == "x86_64"@ {
        Some("x64mac"@)
    } else if os == "linux"@ && arch == "aarch64"@ {
        Some(if musl { "arm64musl"@ } else { "arm64glibc"@ })
    } else if os == "linux"@ && arch == "x86_64"@ {
        Some(if musl { "x64musl"@ } else { "x64glibc"@ })
    } else {
        None
    }
}

/// The roc target of a host, or the refusal of one no target is known for.
pub fn roc_target_for(os: &str, arch: &str, musl: bool) -> (r: Result<String, String>)
    ensures
        match r {
            Ok(t) => roc_target(os@, arch@, musl) == Some(t@),
            Err(e) => roc_target(os@, arch@, musl) is None && e@ == "no roc target is known for this host ("@
                + os@ + "/"@ + arch@ + "); pass `--target <roc target>`"@,
        },
{
    let o = chars_of(os);
    let a = chars_of(arch);
    let mac = same(&o, &chars_of("macos"));
    let linux = same(&o, &chars_of("linux"));
    let arm = same(&a, &chars_of("aarch64"));
    let x64 = same(&a, &chars_of("x86_64"));
    let t = if mac && arm {
        "arm64mac"
    } else if mac && x64 {
        "x64mac"
    } else if linux && arm {
        if musl {
            "arm64musl"
        } else {
            "arm64glibc"
        }
    } else if linux && x64 {
        if musl {
            "x64musl"
        } else {
            "x64glibc"
        }
    } else {
        let mut m = chars_of("no roc target is known for this host (");
        extend(&mut m, &o);
        extend(&mut m, &chars_of("/"));
        extend(&mut m, &a);
        extend(&mut m, &chars_of("); pass `--target <roc target>`"));
        return Err(string_of(&m));
    };
    Ok(string_of(&chars_of(t)))
}

/// A glibc target needs the C runtime staged beside its archives.
pub fn is_glibc(target: &str) -> (r: bool)
    ensures
        r == ends(target@, "glibc"@),
{
    ends_with(&chars_of(target), &chars_of("glibc"))
}

/// Whether a staged file is one of the glibc runtime files.
pub fn is_glibc_runtime_file(file: &str) -> (r: bool)
    ensures
        r == glibc_runtime_files().contains(file@),
{
    let f = chars_of(file);
    let names = [
        chars_of("Scrt1.o"),
        chars_of("crti.o"),
        chars_of("crtn.o"),
        chars_of("libc.so"),
        chars_of("libm.so.6"),
        chars_of("libgcc_s.so.1"),
    ];
    let mut i: usize = 0;
    while i < 6
        invariant
            i <= 6,
            f@ == file@,
            names@.len() == 6,
            forall|j: int| 0 <= j < 6 ==> #[trigger] names@[j]@ == glibc_runtime_files()[j],
            forall|j: int| 0 <= j < i ==> glibc_runtime_files()[j] != f@,
        decreases 6 - i,
    {
        if same(&names[i], &f) {
            assert(glibc_runtime_files()[i as int] == f@);
            return true;
        }
        i += 1;
    }
    false
}

/// `--target` when one was given, else the host's.
pub fn target_or_host(given: Option<String>, host: Result<String, String>) -> (r: Result<String, String>)
    ensures
        match given {
            Some(t) => r == Ok::<String, String>(t),
            None => r == host,
        },
{
    match given {
        Some(t) => Ok(t),
        None => host,
    }
}

/// The host's roc target follows the host: one is known exactly for macOS
/// and Linux on aarch64 and x86_64; on Linux it is a glibc target exactly
/// when the host is not musl, and a glibc target names the host's
/// architecture; every target of a host that is not musl is one of the
/// native targets the platform declares, so a composed platform can be
/// built for the machine that composed it; and the same host with and
/// without musl gets different targets on Linux and the same on macOS.
pub proof fn lemma_host_target(os: Seq<char>, arch: Seq<char>, musl: bool)
    ensures
        roc_target(os, arch, musl) is Some <==> ((os == "macos"@ || os == "linux"@) && (arch == "aarch64"@
            || arch == "x86_64"@)),
        roc_target(os, arch, musl) matches Some(t) ==> (os == "linux"@ ==> (ends(t, "glibc"@) <==> !musl)),
        roc_target(os, arch, musl) matches Some(t) ==> (os == "macos"@ ==> ends(t, "mac"@)),
        roc_target(os, arch, musl) matches Some(t) ==> (arch == "x86_64"@ ==> starts(t, "x64"@)),
        roc_target(os, arch, musl) matches Some(t) ==> (arch == "aarch64"@ ==> starts(t, "arm64"@)),
        roc_target(os, arch, musl) matches Some(t) ==> (!musl ==> declared_native_targets().contains(t)),
        os == "linux"@ && roc_target(os, arch, musl) is Some ==> roc_target(os, arch, true) != roc_target(
            os,
            arch,
            false,
        ),
        os == "macos"@ ==> roc_target(os, arch, true) == roc_target(os, arch, false),
{
    reveal_strlit("macos");
    reveal_strlit("linux");
    reveal_strlit("aarch64");
    reveal_strlit("x86_64");
    reveal_strlit("arm64mac");
    reveal_strlit("x64mac");
    reveal_strlit("arm64glibc");
    reveal_strlit("x64glibc");
    reveal_strlit("arm64musl");
    reveal_strlit("x64musl");
    reveal_strlit("glibc");
    reveal_strlit("mac");
    reveal_strlit("x64");
    reveal_strlit("arm64");
    assert("arm64glibc"@.skip(5) =~= "glibc"@);
    assert("x64glibc"@.skip(3) =~= "glibc"@);
    assert("arm64musl"@.skip(4)[0] != "glibc"@[0]);
    assert("x64musl"@.skip(2)[0] != "glibc"@[0]);
    assert("arm64mac"@.skip(5) =~= "mac"@);
    assert("x64mac"@.skip(3) =~= "mac"@);
    assert("x64mac"@.take(3) =~= "x64"@);
    assert("x64glibc"@.take(3) =~= "x64"@);
    assert("x64musl"@.take(3) =~= "x64"@);
    assert("arm64mac"@.take(5) =~= "arm64"@);
    assert("arm64glibc"@.take(5) =~= "arm64"@);
    assert("arm64musl"@.take(5) =~= "arm64"@);
    assert(declared_native_targets()[0] == "arm64mac"@);
    assert(declared_native_targets()[1] == "x64mac"@);
    assert(declared_native_targets()[2] == "arm64glibc"@);
    assert(declared_native_targets()[3] == "x64glibc"@);
    assert("macos"@[0] != "linux"@[0]);
    assert("aarch64"@[0] != "x86_64"@[0]);
    assert("x64musl"@ != "x64glibc"@) by {
        assert("x64musl"@[3] != "x64glibc"@[3]);
    }
    assert("arm64musl"@ != "arm64glibc"@) by {
        assert("arm64musl"@[5] != "arm64glibc"@[5]);
    }
}

} // verus!
