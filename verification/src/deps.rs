//! `[deps]` expansion: what each dependency package offers is staged
//! before it touches the world, so that two dependencies providing one
//! thing is an error naming both rather than whichever came second; the
//! world's own entries then win over every staged one, by name.
use vstd::prelude::*;

use crate::manifest::{find_key, insert_keyed, key_index, lemma_find_key, table, well_keyed, Component, InterfaceRef, World};
use crate::text::{chars_of, decimal, dec, extend, join, join_exec, same, string_of, texts, views};

verus! {

/// How deep a chain of dependencies may go before it is taken for a cycle.
pub const MAX_DEPTH: usize = 16;

/// Staged entries: a key, its value, and the package that provides it.
pub type Entries<V> = Seq<(Seq<char>, V, Seq<char>)>;

pub open spec fn entries<V>(m: Seq<(String, V, String)>) -> Entries<V> {
    m.map_values(|e: (String, V, String)| (e.0@, e.1, e.2@))
}

/// Where `k` is among the entries from `from` on, or their number.
pub open spec fn key_pos<V>(m: Entries<V>, k: Seq<char>, from: int) -> int
    decreases m.len() - from,
{
    if from < 0 || from >= m.len() {
        m.len() as int
    } else if m[from].0 == k {
        from
    } else {
        key_pos(m, k, from + 1)
    }
}

pub proof fn lemma_key_pos<V>(m: Entries<V>, k: Seq<char>, from: int)
    requires
        0 <= from <= m.len(),
    ensures
        from <= key_pos(m, k, from) <= m.len(),
        key_pos(m, k, from) < m.len() ==> m[key_pos(m, k, from)].0 == k,
        forall|j: int| from <= j < key_pos(m, k, from) ==> m[j].0 != k,
    decreases m.len() - from,
{
    if from < m.len() && m[from].0 != k {
        lemma_key_pos(m, k, from + 1);
    }
}

/// No key is staged twice.
pub open spec fn keys_unique<V>(m: Entries<V>) -> bool {
    forall|i: int, j: int| 0 <= i < j < m.len() ==> m[i].0 != m[j].0
}

fn find_entry<V>(m: &Vec<(String, V, String)>, k: &str) -> (r: usize)
    ensures
        r == key_pos(entries(m@), k@, 0),
{
    let kc = chars_of(k);
    let ghost e = entries(m@);
    let mut i: usize = 0;
    while i < m.len()
        invariant
            i <= m@.len(),
            kc@ == k@,
            e == entries(m@),
            key_pos(e, k@, i as int) == key_pos(e, k@, 0),
        decreases m@.len() - i,
    {
        assert(e[i as int].0 == m@[i as int].0@);
        if same(&chars_of(m[i].0.as_str()), &kc) {
            return i;
        }
        i += 1;
    }
    i
}

pub open spec fn collision_msg(what: Seq<char>, key: Seq<char>, first: Seq<char>, pkg: Seq<char>) -> Seq<char> {
    "two dependencies provide the "@ + what + " `"@ + key + "`: `"@ + first + "` and `"@ + pkg
        + "`. Nothing here can choose between them — drop one, or name the one you want explicitly in world.toml, which overrides both."@
}

/// Stage `value` under `key` for the package `pkg`: an error naming both
/// packages when another one staged the key already.
pub open spec fn claim_spec<V>(m: Entries<V>, key: Seq<char>, value: V, pkg: Seq<char>, what: Seq<char>) -> Result<
    Entries<V>,
    Seq<char>,
> {
    let i = key_pos(m, key, 0);
    if i < m.len() {
        Err(collision_msg(what, key, m[i].2, pkg))
    } else {
        Ok(m.push((key, value, pkg)))
    }
}

pub fn claim<V>(m: &mut Vec<(String, V, String)>, key: &str, value: V, pkg: &str, what: &str) -> (r: Result<
    (),
    String,
>)
    ensures
        claim_spec(entries(old(m)@), key@, value, pkg@, what@) == match r {
            Ok(_) => Ok::<Entries<V>, Seq<char>>(entries(final(m)@)),
            Err(e) => Err::<Entries<V>, Seq<char>>(e@),
        },
        r is Err ==> final(m)@ == old(m)@,
        keys_unique(entries(old(m)@)) ==> keys_unique(entries(final(m)@)),
{
    let ghost e0 = entries(m@);
    let i = find_entry(m, key);
    proof {
        lemma_key_pos(e0, key@, 0);
    }
    if i < m.len() {
        let mut msg = chars_of("two dependencies provide the ");
        extend(&mut msg, &chars_of(what));
        extend(&mut msg, &chars_of(" `"));
        extend(&mut msg, &chars_of(key));
        extend(&mut msg, &chars_of("`: `"));
        extend(&mut msg, &chars_of(m[i].2.as_str()));
        extend(&mut msg, &chars_of("` and `"));
        extend(&mut msg, &chars_of(pkg));
        extend(
            &mut msg,
            &chars_of(
                "`. Nothing here can choose between them — drop one, or name the one you want explicitly in world.toml, which overrides both.",
            ),
        );
        return Err(string_of(&msg));
    }
    let entry = (string_of(&chars_of(key)), value, string_of(&chars_of(pkg)));
    m.push(entry);
    assert(entries(m@) =~= e0.push((key@, value, pkg@)));
    Ok(())
}

/// Stage every entry of `es` in turn for `pkg`; the first collision is
/// the error.
pub open spec fn claim_all<V>(m: Entries<V>, es: Seq<(Seq<char>, V)>, pkg: Seq<char>, what: Seq<char>) -> Result<
    Entries<V>,
    Seq<char>,
>
    decreases es.len(),
{
    if es.len() == 0 {
        Ok(m)
    } else {
        match claim_all(m, es.drop_last(), pkg, what) {
            Err(e) => Err(e),
            Ok(n) => claim_spec(n, es.last().0, es.last().1, pkg, what),
        }
    }
}

pub open spec fn pairs<V>(v: Seq<(String, V)>) -> Seq<(Seq<char>, V)> {
    v.map_values(|e: (String, V)| (e.0@, e.1))
}

proof fn lemma_claim_all_err<V>(m: Entries<V>, es: Seq<(Seq<char>, V)>, pkg: Seq<char>, what: Seq<char>, k: int)
    requires
        0 <= k <= es.len(),
        claim_all(m, es.take(k), pkg, what) is Err,
    ensures
        claim_all(m, es, pkg, what) == claim_all(m, es.take(k), pkg, what),
    decreases es.len() - k,
{
    if k < es.len() {
        assert(es.take(k + 1).drop_last() =~= es.take(k));
        lemma_claim_all_err(m, es, pkg, what, k + 1);
    } else {
        assert(es.take(k) =~= es);
    }
}

fn claim_each<V>(m: &mut Vec<(String, V, String)>, items: Vec<(String, V)>, pkg: &str, what: &str) -> (r: Result<
    (),
    String,
>)
    ensures
        claim_all(entries(old(m)@), pairs(items@), pkg@, what@) == match r {
            Ok(_) => Ok::<Entries<V>, Seq<char>>(entries(final(m)@)),
            Err(e) => Err::<Entries<V>, Seq<char>>(e@),
        },
        keys_unique(entries(old(m)@)) && r is Ok ==> keys_unique(entries(final(m)@)),
{
    let ghost m0 = entries(m@);
    let ghost ps = pairs(items@);
    let mut es = items;
    let ghost mut done: int = 0;
    assert(ps.take(0) =~= Seq::<(Seq<char>, V)>::empty());
    assert(pairs(es@) =~= ps.skip(0));
    while es.len() > 0
        invariant
            0 <= done <= ps.len(),
            m0 == entries(old(m)@),
            ps == pairs(items@),
            es@.len() == ps.len() - done,
            pairs(es@) == ps.skip(done as int),
            claim_all(m0, ps.take(done as int), pkg@, what@) == Ok::<Entries<V>, Seq<char>>(entries(m@)),
            keys_unique(m0) ==> keys_unique(entries(m@)),
        decreases es@.len(),
    {
        let ghost before = es@;
        let x = es.remove(0);
        proof {
            assert(pairs(before).len() == before.len());
            assert(done < ps.len());
            assert(pairs(before)[0] == (x.0@, x.1));
            assert(ps.skip(done as int)[0] == ps[done as int]);
            assert(ps[done as int] == (x.0@, x.1));
            assert(ps.take(done + 1).drop_last() =~= ps.take(done as int));
            assert forall|k: int| 0 <= k < es@.len() implies pairs(es@)[k] == ps.skip(done + 1)[k] by {
                assert(es@[k] == before[k + 1]);
                assert(pairs(before)[k + 1] == ps.skip(done as int)[k + 1]);
            }
            assert(pairs(es@) =~= ps.skip(done + 1));
            assert(ps.take(done + 1).last() == ps[done as int]);
        }
        let ghost mb = entries(m@);
        let r = claim(m, x.0.as_str(), x.1, pkg, what);
        match r {
            Ok(_) => {},
            Err(e) => {
                proof {
                    assert(claim_all(m0, ps.take(done + 1), pkg@, what@) == Err::<Entries<V>, Seq<char>>(e@));
                    lemma_claim_all_err(m0, ps, pkg@, what@, done + 1);
                }
                return Err(e);
            },
        }
        proof {
            done = done + 1;
        }
    }
    assert(ps.take(done as int) =~= ps);
    Ok(())
}

pub open spec fn alias_msg(alias: Seq<char>, first: Seq<char>, pkg: Seq<char>) -> Seq<char> {
    "two dependencies bind the Roc package alias `"@ + alias + "` to different URLs: `"@ + first + "` and `"@
        + pkg + "`. An alias is a single import name; rename one, or pin both to the same release."@
}

/// The aliases after `pkg` binds `alias` to `url`: an error naming both
/// packages when another bound it to a different URL.
pub open spec fn alias_spec(m: Entries<String>, alias: Seq<char>, url: String, pkg: Seq<char>) -> Result<
    Entries<String>,
    Seq<char>,
> {
    let i = key_pos(m, alias, 0);
    if i < m.len() && m[i].1@ != url@ {
        Err(alias_msg(alias, m[i].2, pkg))
    } else if i < m.len() {
        Ok(m.update(i, (alias, url, pkg)))
    } else {
        Ok(m.push((alias, url, pkg)))
    }
}

/// Bind every alias of `es` in turn.
pub open spec fn alias_all(m: Entries<String>, es: Seq<(Seq<char>, String)>, pkg: Seq<char>) -> Result<
    Entries<String>,
    Seq<char>,
>
    decreases es.len(),
{
    if es.len() == 0 {
        Ok(m)
    } else {
        match alias_all(m, es.drop_last(), pkg) {
            Err(e) => Err(e),
            Ok(n) => alias_spec(n, es.last().0, es.last().1, pkg),
        }
    }
}

proof fn lemma_alias_all_err(m: Entries<String>, es: Seq<(Seq<char>, String)>, pkg: Seq<char>, k: int)
    requires
        0 <= k <= es.len(),
        alias_all(m, es.take(k), pkg) is Err,
    ensures
        alias_all(m, es, pkg) == alias_all(m, es.take(k), pkg),
    decreases es.len() - k,
{
    if k < es.len() {
        assert(es.take(k + 1).drop_last() =~= es.take(k));
        lemma_alias_all_err(m, es, pkg, k + 1);
    } else {
        assert(es.take(k) =~= es);
    }
}

fn bind_alias(m: &mut Vec<(String, String, String)>, alias: String, url: String, pkg: &str) -> (r: Result<
    (),
    String,
>)
    ensures
        alias_spec(entries(old(m)@), alias@, url, pkg@) == match r {
            Ok(_) => Ok::<Entries<String>, Seq<char>>(entries(final(m)@)),
            Err(e) => Err::<Entries<String>, Seq<char>>(e@),
        },
        keys_unique(entries(old(m)@)) && r is Ok ==> keys_unique(entries(final(m)@)),
{
    let ghost e0 = entries(m@);
    let i = find_entry(m, alias.as_str());
    proof {
        lemma_key_pos(e0, alias@, 0);
    }
    if i < m.len() {
        if !same(&chars_of(m[i].1.as_str()), &chars_of(url.as_str())) {
            let mut msg = chars_of("two dependencies bind the Roc package alias `");
            extend(&mut msg, &chars_of(alias.as_str()));
            extend(&mut msg, &chars_of("` to different URLs: `"));
            extend(&mut msg, &chars_of(m[i].2.as_str()));
            extend(&mut msg, &chars_of("` and `"));
            extend(&mut msg, &chars_of(pkg));
            extend(&mut msg, &chars_of("`. An alias is a single import name; rename one, or pin both to the same release."));
            return Err(string_of(&msg));
        }
        let ghost a = alias@;
        m.set(i, (alias, url, string_of(&chars_of(pkg))));
        assert(entries(m@) =~= e0.update(i as int, (a, url, pkg@)));
        return Ok(());
    }
    let ghost a = alias@;
    m.push((alias, url, string_of(&chars_of(pkg))));
    assert(entries(m@) =~= e0.push((a, url, pkg@)));
    Ok(())
}

fn bind_each(m: &mut Vec<(String, String, String)>, items: Vec<(String, String)>, pkg: &str) -> (r: Result<
    (),
    String,
>)
    ensures
        alias_all(entries(old(m)@), pairs(items@), pkg@) == match r {
            Ok(_) => Ok::<Entries<String>, Seq<char>>(entries(final(m)@)),
            Err(e) => Err::<Entries<String>, Seq<char>>(e@),
        },
        keys_unique(entries(old(m)@)) && r is Ok ==> keys_unique(entries(final(m)@)),
{
    let ghost m0 = entries(m@);
    let ghost ps = pairs(items@);
    let mut es = items;
    let ghost mut done: int = 0;
    assert(ps.take(0) =~= Seq::<(Seq<char>, String)>::empty());
    assert(pairs(es@) =~= ps.skip(0));
    while es.len() > 0
        invariant
            0 <= done <= ps.len(),
            m0 == entries(old(m)@),
            ps == pairs(items@),
            es@.len() == ps.len() - done,
            pairs(es@) == ps.skip(done as int),
            alias_all(m0, ps.take(done as int), pkg@) == Ok::<Entries<String>, Seq<char>>(entries(m@)),
            keys_unique(m0) ==> keys_unique(entries(m@)),
        decreases es@.len(),
    {
        let ghost before = es@;
        let x = es.remove(0);
        proof {
            assert(pairs(before).len() == before.len());
            assert(pairs(before)[0] == (x.0@, x.1));
            assert(ps.skip(done as int)[0] == ps[done as int]);
            assert(ps.take(done + 1).drop_last() =~= ps.take(done as int));
            assert forall|k: int| 0 <= k < es@.len() implies pairs(es@)[k] == ps.skip(done + 1)[k] by {
                assert(es@[k] == before[k + 1]);
                assert(pairs(before)[k + 1] == ps.skip(done as int)[k + 1]);
            }
            assert(pairs(es@) =~= ps.skip(done + 1));
            assert(ps.take(done + 1).last() == ps[done as int]);
        }
        let r = bind_alias(m, x.0, x.1, pkg);
        match r {
            Ok(_) => {},
            Err(e) => {
                proof {
                    assert(alias_all(m0, ps.take(done + 1), pkg@) == Err::<Entries<String>, Seq<char>>(e@));
                    lemma_alias_all_err(m0, ps, pkg@, done + 1);
                }
                return Err(e);
            },
        }
        proof {
            done = done + 1;
        }
    }
    assert(ps.take(done as int) =~= ps);
    Ok(())
}

/// `xs` with each of `es` added in turn unless it is there already.
pub open spec fn union_all(xs: Seq<Seq<char>>, es: Seq<Seq<char>>) -> Seq<Seq<char>>
    decreases es.len(),
{
    if es.len() == 0 {
        xs
    } else {
        let u = union_all(xs, es.drop_last());
        if u.contains(es.last()) {
            u
        } else {
            u.push(es.last())
        }
    }
}

fn union_each(xs: &mut Vec<String>, es: &Vec<String>)
    ensures
        texts(final(xs)@) == union_all(texts(old(xs)@), texts(es@)),
{
    let ghost x0 = texts(xs@);
    let mut i: usize = 0;
    while i < es.len()
        invariant
            i <= es@.len(),
            texts(xs@) == union_all(x0, texts(es@).take(i as int)),
        decreases es@.len() - i,
    {
        assert(texts(es@).take(i + 1).drop_last() =~= texts(es@).take(i as int));
        assert(texts(es@).take(i + 1).last() == es@[i as int]@);
        let e = chars_of(es[i].as_str());
        let mut found = false;
        let mut j: usize = 0;
        while j < xs.len()
            invariant
                j <= xs@.len(),
                e@ == es@[i as int]@,
                !found ==> forall|k: int| 0 <= k < j ==> texts(xs@)[k] != e@,
                found ==> texts(xs@).contains(e@),
            decreases xs@.len() - j,
        {
            if same(&chars_of(xs[j].as_str()), &e) {
                assert(texts(xs@)[j as int] == e@);
                found = true;
            }
            j += 1;
        }
        if !found {
            let ghost before = texts(xs@);
            let v = string_of(&e);
            xs.push(v);
            assert(texts(xs@) =~= before.push(e@));
        }
        i += 1;
    }
    assert(texts(es@).take(es@.len() as int) =~= texts(es@));
}

/// One dependency package's offer, as its `package.toml` states it, each
/// component's path already made absolute under the package.
pub struct Offer {
    /// `[package] name`.
    pub name: String,
    pub components: Vec<(String, Component)>,
    /// Each interface with its directory in the package.
    pub interfaces: Vec<(String, String)>,
    /// `[provides]`: each interface with the component wired to it.
    pub provides: Vec<(String, String)>,
    pub exports: Vec<String>,
    /// `[packages]`: each Roc package alias with its URL.
    pub packages: Vec<(String, String)>,
    /// `provides_driver`.
    pub driver: Option<String>,
}

/// What the dependencies offer, staged: each entry with the package that
/// provides it.
pub struct Staged {
    interfaces: Vec<(String, String, String)>,
    components: Vec<(String, Component, String)>,
    wiring: Vec<(String, String, String)>,
    driver: Option<(String, String)>,
    exports: Vec<String>,
    packages: Vec<(String, String, String)>,
}

pub struct StagedV {
    pub interfaces: Entries<String>,
    pub components: Entries<Component>,
    pub wiring: Entries<String>,
    pub driver: Option<(Seq<char>, Seq<char>)>,
    pub exports: Seq<Seq<char>>,
    pub packages: Entries<String>,
}

impl View for Staged {
    type V = StagedV;

    closed spec fn view(&self) -> StagedV {
        StagedV {
            interfaces: entries(self.interfaces@),
            components: entries(self.components@),
            wiring: entries(self.wiring@),
            driver: match self.driver {
                Some(d) => Some((d.0@, d.1@)),
                None => None,
            },
            exports: texts(self.exports@),
            packages: entries(self.packages@),
        }
    }
}

/// No staged table holds a key twice.
pub open spec fn staged_wf(s: StagedV) -> bool {
    &&& keys_unique(s.interfaces)
    &&& keys_unique(s.components)
    &&& keys_unique(s.wiring)
    &&& keys_unique(s.packages)
}

pub open spec fn driver_msg(first: Seq<char>, first_pkg: Seq<char>, d: Seq<char>, pkg: Seq<char>) -> Seq<char> {
    "two dependencies provide a driver: `"@ + first + "` from `"@ + first_pkg + "` and `"@ + d + "` from `"@ + pkg
        + "`. A world has exactly one runtime provider — name the one you want with `[world] driver`."@
}

/// The staged driver after a package that may provide one: a second
/// driver is an error naming both.
pub open spec fn driver_spec(d: Option<(Seq<char>, Seq<char>)>, offered: Option<Seq<char>>, pkg: Seq<char>) -> Result<
    Option<(Seq<char>, Seq<char>)>,
    Seq<char>,
> {
    match offered {
        None => Ok(d),
        Some(o) => match d {
            Some((first, first_pkg)) => Err(driver_msg(first, first_pkg, o, pkg)),
            None => Ok(Some((o, pkg))),
        },
    }
}

/// What staging the package `o` does: its components, interfaces, wiring,
/// package aliases and driver, in that order, each an error at the first
/// collision with what another package staged; its exports are added.
pub open spec fn stage_spec(
    s: StagedV,
    name: Seq<char>,
    components: Seq<(Seq<char>, Component)>,
    interfaces: Seq<(Seq<char>, String)>,
    provides: Seq<(Seq<char>, String)>,
    exports: Seq<Seq<char>>,
    packages: Seq<(Seq<char>, String)>,
    driver: Option<Seq<char>>,
) -> Result<StagedV, Seq<char>> {
    match claim_all(s.components, components, name, "component"@) {
        Err(e) => Err(e),
        Ok(c) => match claim_all(s.interfaces, interfaces, name, "interface"@) {
            Err(e) => Err(e),
            Ok(i) => match claim_all(s.wiring, provides, name, "wiring for"@) {
                Err(e) => Err(e),
                Ok(w) => match alias_all(s.packages, packages, name) {
                    Err(e) => Err(e),
                    Ok(p) => match driver_spec(s.driver, driver, name) {
                        Err(e) => Err(e),
                        Ok(d) => Ok(
                            StagedV {
                                interfaces: i,
                                components: c,
                                wiring: w,
                                driver: d,
                                exports: union_all(s.exports, exports),
                                packages: p,
                            },
                        ),
                    },
                },
            },
        },
    }
}

pub open spec fn offer_spec(s: StagedV, o: Offer) -> Result<StagedV, Seq<char>> {
    stage_spec(
        s,
        o.name@,
        pairs(o.components@),
        pairs(o.interfaces@),
        pairs(o.provides@),
        texts(o.exports@),
        pairs(o.packages@),
        match o.driver {
            Some(d) => Some(d@),
            None => None,
        },
    )
}

impl Staged {
    pub fn new() -> (s: Self)
        ensures
            s@.interfaces.len() == 0 && s@.components.len() == 0 && s@.wiring.len() == 0,
            s@.driver is None && s@.exports.len() == 0 && s@.packages.len() == 0,
            staged_wf(s@),
    {
        Staged {
            interfaces: Vec::new(),
            components: Vec::new(),
            wiring: Vec::new(),
            driver: None,
            exports: Vec::new(),
            packages: Vec::new(),
        }
    }

    /// Stage one package's offer; the first collision with another
    /// package is the error.
    pub fn stage(&mut self, offer: Offer) -> (r: Result<(), String>)
        requires
            staged_wf(old(self)@),
        ensures
            offer_spec(old(self)@, offer) == match r {
                Ok(_) => Ok::<StagedV, Seq<char>>(final(self)@),
                Err(e) => Err::<StagedV, Seq<char>>(e@),
            },
            r is Ok ==> staged_wf(final(self)@),
            r is Ok ==> forall|e: Seq<char>| #[trigger] final(self)@.exports.contains(e) <==> (old(
                self,
            )@.exports.contains(e) || texts(offer.exports@).contains(e)),
    {
        let ghost s0 = self@;
        let ghost o = offer;
        let Offer { name, components, interfaces, provides, exports, packages, driver } = offer;
        match claim_each(&mut self.components, components, name.as_str(), "component") {
            Ok(_) => {},
            Err(e) => return Err(e),
        }
        match claim_each(&mut self.interfaces, interfaces, name.as_str(), "interface") {
            Ok(_) => {},
            Err(e) => return Err(e),
        }
        match claim_each(&mut self.wiring, provides, name.as_str(), "wiring for") {
            Ok(_) => {},
            Err(e) => return Err(e),
        }
        union_each(&mut self.exports, &exports);
        match bind_each(&mut self.packages, packages, name.as_str()) {
            Ok(_) => {},
            Err(e) => return Err(e),
        }
        match driver {
            None => {},
            Some(d) => {
                match &self.driver {
                    Some(first) => {
                        let mut msg = chars_of("two dependencies provide a driver: `");
                        extend(&mut msg, &chars_of(first.0.as_str()));
                        extend(&mut msg, &chars_of("` from `"));
                        extend(&mut msg, &chars_of(first.1.as_str()));
                        extend(&mut msg, &chars_of("` and `"));
                        extend(&mut msg, &chars_of(d.as_str()));
                        extend(&mut msg, &chars_of("` from `"));
                        extend(&mut msg, &chars_of(name.as_str()));
                        extend(
                            &mut msg,
                            &chars_of(
                                "`. A world has exactly one runtime provider — name the one you want with `[world] driver`.",
                            ),
                        );
                        return Err(string_of(&msg));
                    },
                    None => {
                        self.driver = Some((d, name));
                    },
                }
            },
        }
        proof {
            lemma_exports_gain(s0.exports, texts(o.exports@));
        }
        Ok(())
    }
}

pub open spec fn depth_msg(chain: Seq<Seq<char>>) -> Seq<char> {
    "dependency chain deeper than 16 — a cycle, most likely: "@ + join(chain, " -> "@)
}

/// A chain of dependencies longer than `MAX_DEPTH` is refused as the
/// cycle it most likely is, naming the chain.
pub fn depth_check(chain: &Vec<String>) -> (r: Result<(), String>)
    ensures
        r is Ok <==> chain@.len() <= MAX_DEPTH,
        r matches Err(e) ==> e@ == depth_msg(texts(chain@)),
{
    if chain.len() <= MAX_DEPTH {
        return Ok(());
    }
    let mut m = chars_of("dependency chain deeper than 16 — a cycle, most likely: ");
    extend(&mut m, &joined(chain));
    Err(string_of(&m))
}

fn joined(chain: &Vec<String>) -> (out: Vec<char>)
    ensures
        out@ == join(texts(chain@), " -> "@),
{
    let mut vs: Vec<Vec<char>> = Vec::new();
    let mut i: usize = 0;
    while i < chain.len()
        invariant
            i <= chain@.len(),
            views(vs@) == texts(chain@).take(i as int),
        decreases chain@.len() - i,
    {
        let x = chars_of(chain[i].as_str());
        let ghost before = views(vs@);
        vs.push(x);
        assert(views(vs@) =~= before.push(x@));
        assert(views(vs@) =~= texts(chain@).take(i + 1));
        i += 1;
    }
    assert(texts(chain@).take(chain@.len() as int) =~= texts(chain@));
    join_exec(&vs, &chars_of(" -> "))
}

pub open spec fn cycle_msg(chain: Seq<Seq<char>>, name: Seq<char>) -> Seq<char> {
    "dependency cycle: "@ + join(chain, " -> "@) + " -> "@ + name
}

/// A dependency already on the chain that reaches it is a cycle, reported
/// with the chain.
pub fn cycle_check(chain: &Vec<String>, name: &str) -> (r: Result<(), String>)
    ensures
        r is Ok <==> !texts(chain@).contains(name@),
        r matches Err(e) ==> e@ == cycle_msg(texts(chain@), name@),
{
    let n = chars_of(name);
    let mut i: usize = 0;
    while i < chain.len()
        invariant
            i <= chain@.len(),
            n@ == name@,
            forall|k: int| 0 <= k < i ==> texts(chain@)[k] != name@,
        decreases chain@.len() - i,
    {
        if same(&chars_of(chain[i].as_str()), &n) {
            assert(texts(chain@)[i as int] == name@);
            let mut m = chars_of("dependency cycle: ");
            extend(&mut m, &joined(chain));
            extend(&mut m, &chars_of(" -> "));
            extend(&mut m, &n);
            return Err(string_of(&m));
        }
        i += 1;
    }
    Ok(())
}

pub open spec fn two_places_msg(pkg: Seq<char>, first: Seq<char>, here: Seq<char>) -> Seq<char> {
    "package `"@ + pkg + "` comes from two places: "@ + first + " and "@ + here
        + ". Two copies of one package cannot be composed together — their components collide by name and nothing can choose between them."@
}

/// Where the package named `k` was first reached from, among `seen`.
pub open spec fn seen_pos(seen: Seq<(String, String)>, k: Seq<char>) -> int {
    crate::manifest::find_key(seen, k, 0)
}

/// Note that the package `pkg` is reached at the directory `here`: the
/// first time it is to be expanded (true); reached again at the same
/// directory it is a diamond and is not (false); reached at another
/// directory it is an error naming both.
pub fn first_visit(seen: &mut Vec<(String, String)>, pkg: &str, here: &str) -> (r: Result<bool, String>)
    ensures
        ({
            let i = seen_pos(old(seen)@, pkg@);
            if i < old(seen)@.len() {
                &&& final(seen)@ == old(seen)@
                &&& if crate::shipped_modules::same_file(old(seen)@[i].1@, here@) {
                    r == Ok::<bool, String>(false)
                } else {
                    r matches Err(e) && e@ == two_places_msg(pkg@, old(seen)@[i].1@, here@)
                }
            } else {
                &&& r == Ok::<bool, String>(true)
                &&& final(seen)@.len() == old(seen)@.len() + 1
                &&& final(seen)@.take(old(seen)@.len() as int) == old(seen)@
                &&& final(seen)@.last().0@ == pkg@
                &&& final(seen)@.last().1@ == here@
            }
        }),
{
    let i = crate::manifest::key_index(seen, pkg);
    proof {
        crate::manifest::lemma_find_key(seen@, pkg@, 0);
    }
    if i < seen.len() {
        if crate::shipped_modules::same_path(seen[i].1.as_str(), here) {
            return Ok(false);
        }
        let mut m = chars_of("package `");
        extend(&mut m, &chars_of(pkg));
        extend(&mut m, &chars_of("` comes from two places: "));
        extend(&mut m, &chars_of(seen[i].1.as_str()));
        extend(&mut m, &chars_of(" and "));
        extend(&mut m, &chars_of(here));
        extend(
            &mut m,
            &chars_of(
                ". Two copies of one package cannot be composed together — their components collide by name and nothing can choose between them.",
            ),
        );
        return Err(string_of(&m));
    }
    let ghost s0 = seen@;
    seen.push((string_of(&chars_of(pkg)), string_of(&chars_of(here))));
    assert(seen@.take(s0.len() as int) =~= s0);
    Ok(true)
}

/// The staged entries as a table: each key to its value.
pub open spec fn staged_table<V>(m: Entries<V>) -> Map<Seq<char>, V>
    decreases m.len(),
{
    if m.len() == 0 {
        Map::empty()
    } else {
        staged_table(m.drop_last()).insert(m.last().0, m.last().1)
    }
}

proof fn lemma_staged_dom<V>(m: Entries<V>, k: Seq<char>)
    ensures
        staged_table(m).dom().contains(k) <==> exists|j: int| 0 <= j < m.len() && m[j].0 == k,
    decreases m.len(),
{
    if m.len() > 0 {
        lemma_staged_dom(m.drop_last(), k);
        if exists|j: int| 0 <= j < m.len() && m[j].0 == k {
            let j = choose|j: int| 0 <= j < m.len() && m[j].0 == k;
            if j < m.len() - 1 {
                assert(m.drop_last()[j].0 == k);
            }
        }
        if exists|j: int| 0 <= j < m.len() - 1 && m.drop_last()[j].0 == k {
            let j = choose|j: int| 0 <= j < m.len() - 1 && m.drop_last()[j].0 == k;
            assert(m[j].0 == k);
        }
    }
}

/// Add each staged entry whose key the table lacks: what the table holds
/// wins, by key.
fn fill<V>(own: &mut Vec<(String, V)>, st: Vec<(String, V, String)>)
    requires
        well_keyed(old(own)@),
        keys_unique(entries(st@)),
    ensures
        well_keyed(final(own)@),
        table(final(own)@) == staged_table(entries(st@)).union_prefer_right(table(old(own)@)),
{
    let ghost t0 = table(own@);
    let ghost es = entries(st@);
    let mut rest = st;
    let ghost mut done: int = 0;
    assert(es.take(0) =~= Seq::<(Seq<char>, V, Seq<char>)>::empty());
    assert(table(own@) =~= staged_table(es.take(0)).union_prefer_right(t0));
    assert(entries(rest@) =~= es.skip(0));
    while rest.len() > 0
        invariant
            0 <= done <= es.len(),
            t0 == table(old(own)@),
            es == entries(st@),
            keys_unique(es),
            rest@.len() == es.len() - done,
            entries(rest@) == es.skip(done as int),
            well_keyed(own@),
            table(own@) == staged_table(es.take(done as int)).union_prefer_right(t0),
        decreases rest@.len(),
    {
        let ghost before = rest@;
        let x = rest.remove(0);
        proof {
            assert(entries(before)[0] == (x.0@, x.1, x.2@));
            assert(es.skip(done as int)[0] == es[done as int]);
            assert(es.take(done + 1).drop_last() =~= es.take(done as int));
            assert(es.take(done + 1).last() == es[done as int]);
            assert forall|k: int| 0 <= k < rest@.len() implies entries(rest@)[k] == es.skip(done + 1)[k] by {
                assert(rest@[k] == before[k + 1]);
                assert(entries(before)[k + 1] == es.skip(done as int)[k + 1]);
            }
            assert(entries(rest@) =~= es.skip(done + 1));
        }
        let pos = key_index(own, x.0.as_str());
        proof {
            lemma_find_key(own@, x.0@, 0);
        }
        if pos < own.len() {
            proof {
                let s = staged_table(es.take(done as int));
                if !t0.dom().contains(x.0@) {
                    assert(table(own@).dom().contains(x.0@));
                    assert(s.dom().contains(x.0@));
                    lemma_staged_dom(es.take(done as int), x.0@);
                    let j = choose|j: int| 0 <= j < done && es.take(done as int)[j].0 == x.0@;
                    assert(es[j].0 == es[done as int].0);
                }
                assert(staged_table(es.take(done + 1)).union_prefer_right(t0) =~= s.union_prefer_right(t0));
            }
        } else {
            let ghost k = x.0@;
            let ghost v = x.1;
            proof {
                assert(!table(own@).dom().contains(k));
            }
            insert_keyed(own, x.0, x.1);
            proof {
                let s = staged_table(es.take(done as int));
                assert(!t0.dom().contains(k));
                assert(table(own@) =~= staged_table(es.take(done + 1)).union_prefer_right(t0));
            }
        }
        proof {
            done = done + 1;
        }
    }
    assert(es.take(done as int) =~= es);
}

/// An interface entry as its source and directory.
pub open spec fn iface_view(r: InterfaceRef) -> (Seq<char>, Option<Seq<char>>) {
    (r.source@, match r.dir {
        Some(d) => Some(d@),
        None => None,
    })
}

/// The interfaces after the staged ones are merged: an interface the world
/// declares keeps its source, and its directory unless it has none, when a
/// dependency's is taken; one only a dependency provides is added with its
/// directory.
pub open spec fn merged_ifaces(
    own: Map<Seq<char>, (Seq<char>, Option<Seq<char>>)>,
    st: Map<Seq<char>, String>,
) -> Map<Seq<char>, (Seq<char>, Option<Seq<char>>)> {
    Map::new(
        |k: Seq<char>| own.dom().contains(k) || st.dom().contains(k),
        |k: Seq<char>|
            if own.dom().contains(k) {
                (own[k].0, if own[k].1 is None && st.dom().contains(k) {
                    Some(st[k]@)
                } else {
                    own[k].1
                })
            } else {
                (Seq::<char>::empty(), Some(st[k]@))
            },
    )
}

proof fn lemma_views_insert(m: Map<Seq<char>, InterfaceRef>, k: Seq<char>, v: InterfaceRef)
    ensures
        m.insert(k, v).map_values(|r: InterfaceRef| iface_view(r)) == m.map_values(|r: InterfaceRef| iface_view(r)).insert(
            k,
            iface_view(v),
        ),
{
    assert(m.insert(k, v).map_values(|r: InterfaceRef| iface_view(r)) =~= m.map_values(|r: InterfaceRef| iface_view(r)).insert(
        k,
        iface_view(v),
    ));
}

proof fn lemma_merged_step(
    t0: Map<Seq<char>, (Seq<char>, Option<Seq<char>>)>,
    s: Map<Seq<char>, String>,
    k: Seq<char>,
    v: String,
)
    requires
        !s.dom().contains(k),
    ensures
        merged_ifaces(t0, s.insert(k, v)) == (if t0.dom().contains(k) {
            if t0[k].1 is None {
                merged_ifaces(t0, s).insert(k, (t0[k].0, Some(v@)))
            } else {
                merged_ifaces(t0, s)
            }
        } else {
            merged_ifaces(t0, s).insert(k, (Seq::<char>::empty(), Some(v@)))
        }),
{
    let a = merged_ifaces(t0, s.insert(k, v));
    if t0.dom().contains(k) {
        if t0[k].1 is None {
            assert(a =~= merged_ifaces(t0, s).insert(k, (t0[k].0, Some(v@))));
        } else {
            assert(a =~= merged_ifaces(t0, s));
        }
    } else {
        assert(a =~= merged_ifaces(t0, s).insert(k, (Seq::<char>::empty(), Some(v@))));
    }
}

fn fill_ifaces(own: &mut Vec<(String, InterfaceRef)>, st: Vec<(String, String, String)>)
    requires
        well_keyed(old(own)@),
        keys_unique(entries(st@)),
    ensures
        well_keyed(final(own)@),
        table(final(own)@).map_values(|r: InterfaceRef| iface_view(r)) == merged_ifaces(
            table(old(own)@).map_values(|r: InterfaceRef| iface_view(r)),
            staged_table(entries(st@)),
        ),
{
    let ghost t0 = table(own@).map_values(|r: InterfaceRef| iface_view(r));
    let ghost es = entries(st@);
    let mut rest = st;
    let ghost mut done: int = 0;
    assert(es.take(0) =~= Seq::<(Seq<char>, String, Seq<char>)>::empty());
    assert(table(own@).map_values(|r: InterfaceRef| iface_view(r)) =~= merged_ifaces(
        t0,
        staged_table(es.take(0)),
    ));
    assert(entries(rest@) =~= es.skip(0));
    while rest.len() > 0
        invariant
            0 <= done <= es.len(),
            t0 == table(old(own)@).map_values(|r: InterfaceRef| iface_view(r)),
            es == entries(st@),
            keys_unique(es),
            rest@.len() == es.len() - done,
            entries(rest@) == es.skip(done as int),
            well_keyed(own@),
            table(own@).map_values(|r: InterfaceRef| iface_view(r)) == merged_ifaces(
                t0,
                staged_table(es.take(done as int)),
            ),
        decreases rest@.len(),
    {
        let ghost before = rest@;
        let x = rest.remove(0);
        let ghost s = staged_table(es.take(done as int));
        let ghost s1 = staged_table(es.take(done + 1));
        proof {
            assert(entries(before)[0] == (x.0@, x.1, x.2@));
            assert(es.skip(done as int)[0] == es[done as int]);
            assert(es.take(done + 1).drop_last() =~= es.take(done as int));
            assert(es.take(done + 1).last() == es[done as int]);
            assert forall|k: int| 0 <= k < rest@.len() implies entries(rest@)[k] == es.skip(done + 1)[k] by {
                assert(rest@[k] == before[k + 1]);
                assert(entries(before)[k + 1] == es.skip(done as int)[k + 1]);
            }
            assert(entries(rest@) =~= es.skip(done + 1));
            assert(s1 == s.insert(x.0@, x.1));
            if s.dom().contains(x.0@) {
                lemma_staged_dom(es.take(done as int), x.0@);
                let j = choose|j: int| 0 <= j < done && es.take(done as int)[j].0 == x.0@;
                assert(es[j].0 == es[done as int].0);
            }
            assert(!s.dom().contains(x.0@));
        }
        let pos = key_index(own, x.0.as_str());
        proof {
            lemma_find_key(own@, x.0@, 0);
        }
        if pos < own.len() {
            if own[pos].1.dir.is_none() {
                let ghost o = own@;
                let src = own[pos].1.source.clone();
                let name = own[pos].0.clone();
                own.set(pos, (name, InterfaceRef { source: src, dir: Some(x.1) }));
                proof {
                    let nv = own@;
                    assert(crate::manifest::keys_of(nv) =~= crate::manifest::keys_of(o));
                    assert forall|y: Seq<char>| find_key(nv, y, 0) == find_key(o, y, 0) by {
                        lemma_find_key(o, y, 0);
                        lemma_find_key(nv, y, 0);
                        let a = find_key(o, y, 0);
                        let b = find_key(nv, y, 0);
                        if a < b {
                            assert(nv[a].0@ == o[a].0@);
                        } else if b < a {
                            assert(nv[b].0@ == o[b].0@);
                        }
                    }
                    let cur = table(o).map_values(|r: InterfaceRef| iface_view(r));
                    assert(cur == merged_ifaces(t0, s));
                    assert(find_key(o, x.0@, 0) == pos);
                    assert(table(o).dom().contains(x.0@));
                    assert(t0.dom().contains(x.0@)) by {
                        if !t0.dom().contains(x.0@) {
                            assert(merged_ifaces(t0, s).dom().contains(x.0@));
                        }
                    }
                    assert(cur[x.0@] == merged_ifaces(t0, s)[x.0@]);
                    assert(t0[x.0@].1 is None);
                    assert(iface_view(nv[pos as int].1) == (t0[x.0@].0, Some(x.1@)));
                    assert(table(nv) =~= table(o).insert(x.0@, nv[pos as int].1)) by {
                        assert forall|y: Seq<char>| #[trigger] table(nv).dom().contains(y) == table(o).insert(
                            x.0@,
                            nv[pos as int].1,
                        ).dom().contains(y) by {}
                        assert forall|y: Seq<char>| table(nv).dom().contains(y) implies #[trigger] table(nv)[y]
                            == table(o).insert(x.0@, nv[pos as int].1)[y] by {
                            lemma_find_key(o, y, 0);
                            assert(find_key(nv, y, 0) == find_key(o, y, 0));
                            if y != x.0@ {
                                assert(find_key(nv, y, 0) != pos);
                                assert(nv[find_key(nv, y, 0)] == o[find_key(o, y, 0)]);
                            }
                        }
                    }
                    lemma_views_insert(table(o), x.0@, nv[pos as int].1);
                    lemma_merged_step(t0, s, x.0@, x.1);
                }
            } else {
                proof {
                    let cur = table(own@).map_values(|r: InterfaceRef| iface_view(r));
                    assert(find_key(own@, x.0@, 0) == pos);
                    assert(table(own@).dom().contains(x.0@));
                    assert(t0.dom().contains(x.0@)) by {
                        if !t0.dom().contains(x.0@) {
                            assert(merged_ifaces(t0, s).dom().contains(x.0@));
                        }
                    }
                    assert(cur[x.0@] == merged_ifaces(t0, s)[x.0@]);
                    assert(cur[x.0@].1 is Some);
                    lemma_merged_step(t0, s, x.0@, x.1);
                }
            }
        } else {
            let ghost k = x.0@;
            let ghost d = x.1;
            proof {
                assert(!table(own@).dom().contains(k));
            }
            let fresh = InterfaceRef { source: String::new(), dir: Some(x.1) };
            let ghost fv = iface_view(fresh);
            assert(fv == (Seq::<char>::empty(), Some(d@)));
            let ghost before_t = table(own@);
            insert_keyed(own, x.0, fresh);
            proof {
                assert(!t0.dom().contains(k)) by {
                    if t0.dom().contains(k) {
                        assert(merged_ifaces(t0, s).dom().contains(k));
                    }
                }
                assert(table(own@) == before_t.insert(k, fresh));
                lemma_views_insert(before_t, k, fresh);
                lemma_merged_step(t0, s, k, d);
            }
        }
        proof {
            done = done + 1;
        }
    }
    assert(es.take(done as int) =~= es);
}

/// One step of the walk over a world's dependencies, from the state of
/// the walk (what is staged, where each package was first reached, the
/// chain of names that led here) and the event of reaching dependency
/// `name`, whose package sits at `here` and offers `offer`. The answer is
/// what the walk does next: `Ok(true)`, the offer is staged and the
/// package's own dependencies come next, under `name`; `Ok(false)`, a
/// diamond (the package was reached before at the same place), nothing
/// changes and the walk goes on; an error ends the walk: `name` is already
/// on the chain (a cycle), the package comes from two places, or its offer
/// collides with what is staged.
pub fn visit(
    staged: &mut Staged,
    seen: &mut Vec<(String, String)>,
    chain: &Vec<String>,
    name: &str,
    here: &str,
    offer: Offer,
) -> (r: Result<bool, String>)
    requires
        staged_wf(old(staged)@),
    ensures
        ({
            let i = seen_pos(old(seen)@, offer.name@);
            if texts(chain@).contains(name@) {
                &&& r matches Err(e) && e@ == cycle_msg(texts(chain@), name@)
                &&& final(staged)@ == old(staged)@
                &&& final(seen)@ == old(seen)@
            } else if i < old(seen)@.len() {
                &&& final(staged)@ == old(staged)@
                &&& final(seen)@ == old(seen)@
                &&& if crate::shipped_modules::same_file(old(seen)@[i].1@, here@) {
                    r == Ok::<bool, String>(false)
                } else {
                    r matches Err(e) && e@ == two_places_msg(offer.name@, old(seen)@[i].1@, here@)
                }
            } else {
                &&& final(seen)@.len() == old(seen)@.len() + 1
                &&& final(seen)@.take(old(seen)@.len() as int) == old(seen)@
                &&& final(seen)@.last().0@ == offer.name@
                &&& final(seen)@.last().1@ == here@
                &&& offer_spec(old(staged)@, offer) == match r {
                    Ok(_) => Ok::<StagedV, Seq<char>>(final(staged)@),
                    Err(e) => Err::<StagedV, Seq<char>>(e@),
                }
                &&& r is Ok ==> r == Ok::<bool, String>(true) && staged_wf(final(staged)@)
            }
        }),
{
    match cycle_check(chain, name) {
        Err(e) => return Err(e),
        Ok(()) => {},
    }
    let pkg = string_of(&chars_of(offer.name.as_str()));
    match first_visit(seen, pkg.as_str(), here) {
        Err(e) => Err(e),
        Ok(false) => Ok(false),
        Ok(true) => match staged.stage(offer) {
            Ok(()) => Ok(true),
            Err(e) => Err(e),
        },
    }
}

/// Expand the world's `[deps]`: merge what the dependencies offer, staged,
/// into the world. The world's own entries win, by name and silently: that
/// is the override. Its exports gain the staged ones it lacks.
pub fn expand(world: &mut World, staged: Staged)
    requires
        old(world).wf(),
        staged_wf(staged@),
    ensures
        final(world).wf(),
        table(final(world).components@) == staged_table(staged@.components).union_prefer_right(
            table(old(world).components@),
        ),
        table(final(world).wiring@) == staged_table(staged@.wiring).union_prefer_right(table(old(world).wiring@)),
        table(final(world).packages@) == staged_table(staged@.packages).union_prefer_right(
            table(old(world).packages@),
        ),
        table(final(world).interfaces@).map_values(|r: InterfaceRef| iface_view(r)) == merged_ifaces(
            table(old(world).interfaces@).map_values(|r: InterfaceRef| iface_view(r)),
            staged_table(staged@.interfaces),
        ),
        texts(final(world).world.exports@) == union_all(texts(old(world).world.exports@), staged@.exports),
        forall|e: Seq<char>| #[trigger] texts(final(world).world.exports@).contains(e) <==> (texts(
            old(world).world.exports@,
        ).contains(e) || staged@.exports.contains(e)),
        texts(final(world).world.exports@).take(old(world).world.exports@.len() as int) == texts(
            old(world).world.exports@,
        ),
        no_repeats(texts(old(world).world.exports@)) ==> no_repeats(texts(final(world).world.exports@)),
        final(world).world.name == old(world).world.name,
        final(world).world.driver == old(world).world.driver,
{
    let Staged { interfaces, components, wiring, driver: _, exports, packages } = staged;
    fill(&mut world.components, components);
    fill(&mut world.wiring, wiring);
    fill(&mut world.packages, packages);
    fill_ifaces(&mut world.interfaces, interfaces);
    let ghost x0 = texts(world.world.exports@);
    union_each(&mut world.world.exports, &exports);
    proof {
        lemma_exports_gain(x0, texts(exports@));
    }
}

/// The driver after expansion: the world's own when it names one, else the
/// one a dependency provides, if any.
pub open spec fn driver_after(own: Option<Seq<char>>, staged: StagedV) -> Option<Seq<char>> {
    match own {
        Some(d) => Some(d),
        None => match staged.driver {
            Some((d, _)) => Some(d),
            None => None,
        },
    }
}

impl Staged {
    pub fn driver_of(&self, own: Option<String>) -> (r: Option<String>)
        ensures
            match r {
                Some(d) => driver_after(
                    match own {
                        Some(o) => Some(o@),
                        None => None,
                    },
                    self@,
                ) == Some(d@),
                None => driver_after(
                    match own {
                        Some(o) => Some(o@),
                        None => None,
                    },
                    self@,
                ) is None,
            },
    {
        match own {
            Some(d) => Some(d),
            None => match &self.driver {
                Some(d) => Some(d.0.clone()),
                None => None,
            },
        }
    }
}

/// The world's own entries win: a name the world declares keeps its own
/// value after the merge, whatever a dependency staged under it; a name only
/// a dependency provides gets the dependency's value.
pub proof fn lemma_world_wins<V>(own: Map<Seq<char>, V>, staged: Map<Seq<char>, V>, k: Seq<char>)
    ensures
        own.dom().contains(k) ==> staged.union_prefer_right(own).dom().contains(k) && staged.union_prefer_right(
            own,
        )[k] == own[k],
        !own.dom().contains(k) && staged.dom().contains(k) ==> staged.union_prefer_right(own)[k] == staged[k],
{
}

/// No text twice.
pub open spec fn no_repeats(xs: Seq<Seq<char>>) -> bool {
    forall|a: int, b: int| 0 <= a < b < xs.len() ==> xs[a] != xs[b]
}

/// Adding exports keeps every export there was, in its place and first,
/// gains every added one, holds nothing else, and repeats nothing that was
/// not repeated: the world's exports after `expand`
/// (`union_all(own, staged)`) and the staged exports after `stage`
/// (`union_all(staged, offered)`) are each the union of the two lists.
pub proof fn lemma_exports_gain(xs: Seq<Seq<char>>, es: Seq<Seq<char>>)
    ensures
        union_all(xs, es).len() >= xs.len(),
        union_all(xs, es).take(xs.len() as int) == xs,
        forall|e: Seq<char>| #[trigger] union_all(xs, es).contains(e) <==> (xs.contains(e) || es.contains(e)),
        no_repeats(xs) ==> no_repeats(union_all(xs, es)),
    decreases es.len(),
{
    if es.len() > 0 {
        let rest = es.drop_last();
        lemma_exports_gain(xs, rest);
        let u = union_all(xs, rest);
        let x = es.last();
        assert forall|e: Seq<char>| es.contains(e) <==> (rest.contains(e) || e == x) by {
            if es.contains(e) {
                let k = choose|k: int| 0 <= k < es.len() && es[k] == e;
                if k < rest.len() {
                    assert(rest[k] == e);
                }
            }
            if rest.contains(e) {
                let k = choose|k: int| 0 <= k < rest.len() && rest[k] == e;
                assert(es[k] == e);
            }
            if e == x {
                assert(es[es.len() - 1] == e);
            }
        }
        if !u.contains(x) {
            let v = u.push(x);
            assert(v.take(xs.len() as int) =~= u.take(xs.len() as int));
            assert forall|e: Seq<char>| #[trigger] v.contains(e) <==> (u.contains(e) || e == x) by {
                if v.contains(e) {
                    let k = choose|k: int| 0 <= k < v.len() && v[k] == e;
                    if k < u.len() {
                        assert(u[k] == e);
                    }
                }
                if u.contains(e) {
                    let k = choose|k: int| 0 <= k < u.len() && u[k] == e;
                    assert(v[k] == e);
                }
                if e == x {
                    assert(v[u.len() as int] == e);
                }
            }
            if no_repeats(xs) {
                assert forall|a: int, b: int| 0 <= a < b < v.len() implies v[a] != v[b] by {
                    if b == u.len() {
                        assert(u.contains(u[a]));
                    }
                }
            }
        }
    }
}

} // verus!
