//! A published baseline's ABI fingerprint, what the baseline ships, and an
//! extension's tier.
use vstd::prelude::*;

use crate::manifest::{Component, World};
use crate::text::{chars_of, extend, same, string_of};

verus! {

/// FNV-1a's prime.
pub const FNV_PRIME: u64 = 0x0100_0000_01b3;

/// FNV-1a's offset basis, where a fingerprint starts.
pub const FNV_OFFSET: u64 = 0xcbf2_9ce4_8422_2325;

/// One byte folded into an FNV-1a hash.
pub open spec fn fnv_step(h: u64, b: u8) -> u64 {
    (h ^ (b as u64)).wrapping_mul(FNV_PRIME)
}

/// Bytes folded into an FNV-1a hash from `h`.
pub open spec fn fnv_spec(bytes: Seq<u8>, h: u64) -> u64
    decreases bytes.len(),
{
    if bytes.len() == 0 {
        h
    } else {
        fnv_step(fnv_spec(bytes.drop_last(), h), bytes.last())
    }
}

/// FNV-1a over `bytes`, from `h`: a cheap, stable content hash, enough to
/// notice that an input changed.
pub fn fnv1a(bytes: &[u8], h: u64) -> (r: u64)
    ensures
        r == fnv_spec(bytes@, h),
{
    let mut acc = h;
    let mut i: usize = 0;
    while i < bytes.len()
        invariant
            i <= bytes@.len(),
            acc == fnv_spec(bytes@.take(i as int), h),
        decreases bytes@.len() - i,
    {
        assert(bytes@.take(i + 1).drop_last() =~= bytes@.take(i as int));
        assert(bytes@.take(i + 1).last() == bytes@[i as int]);
        acc = (acc ^ (bytes[i] as u64)).wrapping_mul(FNV_PRIME);
        i += 1;
    }
    assert(bytes@.take(bytes@.len() as int) =~= bytes@);
    acc
}

/// A `u64`'s bytes, least significant first.
pub open spec fn le_bytes(n: u64) -> Seq<u8> {
    Seq::new(8, |i: int| ((n >> (8 * i) as u64) & 0xff) as u8)
}

pub fn to_le(n: u64) -> (out: Vec<u8>)
    ensures
        out@ == le_bytes(n),
{
    let mut out: Vec<u8> = Vec::new();
    let mut i: u64 = 0;
    while i < 8
        invariant
            i <= 8,
            out@.len() == i,
            forall|j: int| 0 <= j < i ==> out@[j] == ((n >> (8 * j) as u64) & 0xff) as u8,
        decreases 8 - i,
    {
        out.push(((n >> (8 * i)) & 0xff) as u8);
        i += 1;
    }
    assert(out@ =~= le_bytes(n));
    out
}

pub open spec fn hex_char(d: u64) -> char {
    if d < 10 {
        ('0' as u64 + d) as char
    } else {
        ('a' as u64 + d - 10) as char
    }
}

/// A `u64` as sixteen lowercase hex digits, as `{:016x}` prints it.
pub open spec fn hex16(h: u64) -> Seq<char> {
    Seq::new(16, |i: int| hex_char((h >> (4 * (15 - i)) as u64) & 0xf))
}

pub fn hex16_exec(h: u64) -> (out: String)
    ensures
        out@ == hex16(h),
{
    let mut cs: Vec<char> = Vec::new();
    let mut i: u64 = 0;
    while i < 16
        invariant
            i <= 16,
            cs@.len() == i,
            forall|j: int| 0 <= j < i ==> cs@[j] == hex_char((h >> (4 * (15 - j)) as u64) & 0xf),
        decreases 16 - i,
    {
        let sh: u64 = 4 * (15 - i);
        let d = (h >> sh) & 0xf;
        assert(d < 16) by (bit_vector)
            requires
                d == (h >> sh) & 0xf,
        ;
        let c = if d < 10 {
            ((('0' as u8) + d as u8) as char)
        } else {
            ((('a' as u8) + (d - 10) as u8) as char)
        };
        assert(c == hex_char(d));
        cs.push(c);
        i += 1;
    }
    assert(cs@ =~= hex16(h));
    string_of(&cs)
}

/// The fingerprint of what determines the prebuilt host's ABI: the roc
/// compiler's path, size and modification time (seconds since the epoch),
/// then the glue spec's bytes, hashed in that order from the offset basis.
pub open spec fn fingerprint_spec(roc: Seq<u8>, size: u64, mtime: u64, glue: Seq<u8>) -> Seq<char> {
    hex16(fnv_spec(glue, fnv_spec(le_bytes(mtime), fnv_spec(le_bytes(size), fnv_spec(roc, FNV_OFFSET)))))
}

pub fn fingerprint(roc: &[u8], size: u64, mtime: u64, glue: &[u8]) -> (out: String)
    ensures
        out@ == fingerprint_spec(roc@, size, mtime, glue@),
{
    let h = fnv1a(roc, FNV_OFFSET);
    let h = fnv1a(to_le(size).as_slice(), h);
    let h = fnv1a(to_le(mtime).as_slice(), h);
    let h = fnv1a(glue, h);
    hex16_exec(h)
}

/// The lock a published baseline carries.
pub fn baseline_lock(fp: &str) -> (out: String)
    ensures
        out@ == "# trantor baseline lock (D11/H11)\nabi_fingerprint = \""@ + fp@ + "\"\n"@,
{
    let mut o = chars_of("# trantor baseline lock (D11/H11)\nabi_fingerprint = \"");
    extend(&mut o, &chars_of(fp));
    extend(&mut o, &chars_of("\"\n"));
    string_of(&o)
}

/// The archives of test-only components, which a baseline must not ship.
pub open spec fn test_archives(cs: Seq<(String, Component)>) -> Seq<Seq<char>>
    decreases cs.len(),
{
    if cs.len() == 0 {
        Seq::<Seq<char>>::empty()
    } else {
        let rest = test_archives(cs.drop_last());
        if cs.last().1.test_only {
            rest.push("lib"@ + crate::resolve::sanitized(cs.last().0@) + ".a"@)
        } else {
            rest
        }
    }
}

pub fn test_archive_names(world: &World) -> (out: Vec<String>)
    ensures
        out@.map_values(|s: String| s@) == test_archives(world.components@),
{
    let ghost cs = world.components@;
    let mut out: Vec<String> = Vec::new();
    let mut i: usize = 0;
    assert(cs.take(0) =~= Seq::<(String, Component)>::empty());
    assert(out@.map_values(|s: String| s@) =~= Seq::<Seq<char>>::empty());
    while i < world.components.len()
        invariant
            i <= world.components@.len(),
            cs == world.components@,
            out@.map_values(|s: String| s@) == test_archives(cs.take(i as int)),
        decreases world.components@.len() - i,
    {
        assert(cs.take(i + 1).drop_last() =~= cs.take(i as int));
        assert(cs.take(i + 1).last() == cs[i as int]);
        if world.components[i].1.test_only {
            let a = crate::scan::archive_file(world.components[i].0.as_str());
            let ghost before = out@.map_values(|s: String| s@);
            out.push(a);
            assert(out@.map_values(|s: String| s@) =~= before.push(a@));
        }
        i += 1;
    }
    assert(cs.take(world.components@.len() as int) =~= cs);
    out
}

/// A file name whose extension is `ext` (given with its dot): it ends so,
/// with something before the dot, as `Path::extension` reads it.
pub open spec fn has_extension(name: Seq<char>, ext: Seq<char>) -> bool {
    name.len() > ext.len() && crate::text::ends(name, ext)
}

/// A file of the composed platform that a baseline ships: a `.roc` source.
pub fn is_platform_source(name: &str) -> (r: bool)
    ensures
        r == has_extension(name@, ".roc"@),
{
    let n = chars_of(name);
    proof {
        reveal_strlit(".roc");
    }
    n.len() > 4 && crate::text::ends_with(&n, &chars_of(".roc"))
}

/// A prebuilt archive a baseline ships: an `.a`, unless a test-only
/// component's.
pub open spec fn ships_spec(name: Seq<char>, tests: Seq<Seq<char>>) -> bool {
    has_extension(name, ".a"@) && !tests.contains(name)
}

pub fn ships_archive(name: &str, tests: &Vec<String>) -> (r: bool)
    ensures
        r == ships_spec(name@, tests@.map_values(|s: String| s@)),
{
    let n = chars_of(name);
    proof {
        reveal_strlit(".a");
    }
    if !(n.len() > 2 && crate::text::ends_with(&n, &chars_of(".a"))) {
        return false;
    }
    let ghost tv = tests@.map_values(|s: String| s@);
    let mut i: usize = 0;
    while i < tests.len()
        invariant
            i <= tests@.len(),
            tv == tests@.map_values(|s: String| s@),
            n@ == name@,
            forall|k: int| 0 <= k < i ==> tv[k] != name@,
        decreases tests@.len() - i,
    {
        if same(&chars_of(tests[i].as_str()), &n) {
            assert(tv[i as int] == name@);
            return false;
        }
        i += 1;
    }
    true
}

/// An extension's tier: pure Roc reuses the baseline's prebuilt archives;
/// one that adds host code needs a full composition.
#[derive(Debug, PartialEq)]
pub enum Tier {
    One,
    Two(Vec<String>),
}

/// The host and driver components, in name order.
pub open spec fn host_components(cs: Seq<(String, Component)>) -> Seq<Seq<char>>
    decreases cs.len(),
{
    if cs.len() == 0 {
        Seq::<Seq<char>>::empty()
    } else {
        let rest = host_components(cs.drop_last());
        let k = cs.last().1.kind@;
        if k == "host"@ || k == "driver"@ {
            rest.push(cs.last().0@)
        } else {
            rest
        }
    }
}

pub open spec fn empty_world_msg() -> Seq<char> {
    "tier: this world declares no components, so there is no extension to classify. An extension manifest lists what it ADDS over a baseline (see tests/golden/two-component/extensions/tier1.toml); an empty one answers nothing."@
}

/// An extension manifest's tier and how many components it declares; an
/// empty one is refused.
pub fn classify(world: &World) -> (r: Result<(Tier, usize), String>)
    ensures
        match r {
            Ok((t, n)) => {
                &&& n == world.components@.len()
                &&& n > 0
                &&& match t {
                    Tier::One => host_components(world.components@).len() == 0,
                    Tier::Two(hs) => host_components(world.components@).len() > 0 && hs@.map_values(
                        |s: String| s@,
                    ) == host_components(world.components@),
                }
            },
            Err(e) => world.components@.len() == 0 && e@ == empty_world_msg(),
        },
{
    let n = world.components.len();
    if n == 0 {
        return Err(
            string_of(
                &chars_of(
                    "tier: this world declares no components, so there is no extension to classify. An extension manifest lists what it ADDS over a baseline (see tests/golden/two-component/extensions/tier1.toml); an empty one answers nothing.",
                ),
            ),
        );
    }
    let ghost cs = world.components@;
    let mut host: Vec<String> = Vec::new();
    let mut i: usize = 0;
    assert(cs.take(0) =~= Seq::<(String, Component)>::empty());
    assert(host@.map_values(|s: String| s@) =~= Seq::<Seq<char>>::empty());
    while i < n
        invariant
            n == world.components@.len(),
            i <= n,
            cs == world.components@,
            host@.map_values(|s: String| s@) == host_components(cs.take(i as int)),
        decreases n - i,
    {
        assert(cs.take(i + 1).drop_last() =~= cs.take(i as int));
        assert(cs.take(i + 1).last() == cs[i as int]);
        let k = chars_of(world.components[i].1.kind.as_str());
        if same(&k, &chars_of("host")) || same(&k, &chars_of("driver")) {
            let c = string_of(&chars_of(world.components[i].0.as_str()));
            let ghost before = host@.map_values(|s: String| s@);
            host.push(c);
            assert(host@.map_values(|s: String| s@) =~= before.push(c@));
        }
        i += 1;
    }
    assert(cs.take(n as int) =~= cs);
    if host.len() == 0 {
        Ok((Tier::One, n))
    } else {
        Ok((Tier::Two(host), n))
    }
}

} // verus!
