//! The manifests as values: `world.toml`, each interface's `interface.toml`
//! and the driver's `driver.toml`. Tables keyed by name are held as
//! `(name, value)` lists in name order, each name once.
use vstd::prelude::*;

use crate::text::{chars_of, extend, lemma_text_lt_total, lemma_text_lt_trans, same, sorted_unique, string_of, text_lt};

verus! {

/// The names of a keyed table, in order.
pub open spec fn keys_of<T>(v: Seq<(String, T)>) -> Seq<Seq<char>> {
    v.map_values(|e: (String, T)| e.0@)
}

/// A table is in name order with no name twice.
pub open spec fn well_keyed<T>(v: Seq<(String, T)>) -> bool {
    sorted_unique(keys_of(v))
}

/// The entry named `k` in a table, if there is one: the first, and with each
/// name once, the only.
pub open spec fn find_key<T>(v: Seq<(String, T)>, k: Seq<char>, from: int) -> int
    decreases v.len() - from,
{
    if from < 0 || from >= v.len() {
        v.len() as int
    } else if v[from].0@ == k {
        from
    } else {
        find_key(v, k, from + 1)
    }
}

pub proof fn lemma_find_key<T>(v: Seq<(String, T)>, k: Seq<char>, from: int)
    requires
        0 <= from <= v.len(),
    ensures
        from <= find_key(v, k, from) <= v.len(),
        find_key(v, k, from) < v.len() ==> v[find_key(v, k, from)].0@ == k,
        forall|j: int| from <= j < find_key(v, k, from) ==> v[j].0@ != k,
    decreases v.len() - from,
{
    if from < v.len() && v[from].0@ != k {
        lemma_find_key(v, k, from + 1);
    }
}

/// A table as the map it stands for.
pub open spec fn table<T>(v: Seq<(String, T)>) -> Map<Seq<char>, T> {
    Map::new(|k: Seq<char>| find_key(v, k, 0) < v.len(), |k: Seq<char>| v[find_key(v, k, 0)].1)
}

/// In a well-keyed table a name is found where it stands.
pub proof fn lemma_find_key_at<T>(v: Seq<(String, T)>, j: int)
    requires
        well_keyed(v),
        0 <= j < v.len(),
    ensures
        find_key(v, v[j].0@, 0) == j,
{
    lemma_find_key(v, v[j].0@, 0);
    let f = find_key(v, v[j].0@, 0);
    if f < j {
        assert(keys_of(v)[f] == v[f].0@ && keys_of(v)[j] == v[j].0@);
        assert(text_lt(keys_of(v)[f], keys_of(v)[j]));
        lemma_text_lt_total(v[j].0@, v[j].0@);
    }
}

/// A name not in a table maps to nothing.
pub proof fn lemma_find_key_absent<T>(v: Seq<(String, T)>, k: Seq<char>)
    requires
        forall|j: int| 0 <= j < v.len() ==> v[j].0@ != k,
    ensures
        find_key(v, k, 0) == v.len(),
{
    lemma_find_key(v, k, 0);
}

/// Add the entry `k` = `x` to a table that lacks `k`, in its place by name.
pub fn insert_keyed<T>(v: &mut Vec<(String, T)>, k: String, x: T)
    requires
        well_keyed(old(v)@),
        !table(old(v)@).dom().contains(k@),
    ensures
        well_keyed(final(v)@),
        table(final(v)@) == table(old(v)@).insert(k@, x),
{
    let ghost ov = v@;
    let ghost kv = k@;
    proof {
        lemma_find_key(ov, kv, 0);
    }
    let kc = chars_of(k.as_str());
    let mut i: usize = 0;
    while i < v.len() && crate::text::text_less(&chars_of(v[i].0.as_str()), &kc)
        invariant
            v@ == ov,
            kc@ == kv,
            i <= ov.len(),
            forall|j: int| 0 <= j < i ==> text_lt(ov[j].0@, kv),
        decreases ov.len() - i,
    {
        i += 1;
    }
    proof {
        assert forall|j: int| 0 <= j < ov.len() implies ov[j].0@ != kv by {
            if ov[j].0@ == kv {
                lemma_find_key_at(ov, j);
            }
        }
        if i < ov.len() {
            lemma_text_lt_total(ov[i as int].0@, kv);
        }
    }
    v.insert(i, (k, x));
    proof {
        let nv = v@;
        let ok = keys_of(ov);
        let nk = keys_of(nv);
        assert forall|a: int, b: int| 0 <= a < b < nk.len() implies text_lt(nk[a], nk[b]) by {
            assert(nk[a] == nv[a].0@ && nk[b] == nv[b].0@);
            if b < i {
                assert(ok[a] == ov[a].0@ && ok[b] == ov[b].0@);
            } else if a < i && b == i {
            } else if a < i && b > i {
                assert(nv[b] == ov[b - 1]);
                assert(ok[b - 1] == ov[b - 1].0@);
                if b - 1 > i as int {
                    assert(ok[i as int] == ov[i as int].0@);
                    lemma_text_lt_trans(kv, ov[i as int].0@, ov[b - 1].0@);
                }
                lemma_text_lt_trans(ov[a].0@, kv, ov[b - 1].0@);
            } else if a == i {
                assert(nv[b] == ov[b - 1]);
                assert(ok[b - 1] == ov[b - 1].0@);
                if b - 1 > i as int {
                    assert(ok[i as int] == ov[i as int].0@);
                    lemma_text_lt_trans(kv, ov[i as int].0@, ov[b - 1].0@);
                }
            } else {
                assert(nv[a] == ov[a - 1] && nv[b] == ov[b - 1]);
                assert(ok[a - 1] == ov[a - 1].0@ && ok[b - 1] == ov[b - 1].0@);
            }
        }
        assert(well_keyed(nv));
        let t = table(ov).insert(kv, x);
        assert forall|y: Seq<char>| #[trigger] table(nv).dom().contains(y) == t.dom().contains(y) && (t.dom().contains(
            y,
        ) ==> table(nv)[y] == t[y]) by {
            if y == kv {
                lemma_find_key_at(nv, i as int);
            } else if exists|j: int| 0 <= j < ov.len() && ov[j].0@ == y {
                let j = choose|j: int| 0 <= j < ov.len() && ov[j].0@ == y;
                lemma_find_key_at(ov, j);
                if j < i {
                    assert(nv[j] == ov[j]);
                    lemma_find_key_at(nv, j);
                } else {
                    assert(nv[j + 1] == ov[j]);
                    lemma_find_key_at(nv, j + 1);
                }
            } else {
                lemma_find_key_absent(ov, y);
                assert forall|j: int| 0 <= j < nv.len() implies nv[j].0@ != y by {
                    if j < i {
                        assert(nv[j] == ov[j]);
                    } else if j > i {
                        assert(nv[j] == ov[j - 1]);
                    }
                }
                lemma_find_key_absent(nv, y);
            }
        }
        assert(table(nv) =~= t);
    }
}

/// The position of `k` in a table, or its length.
pub fn key_index<T>(v: &Vec<(String, T)>, k: &str) -> (r: usize)
    ensures
        r == find_key(v@, k@, 0),
{
    let kc = chars_of(k);
    let mut i: usize = 0;
    while i < v.len()
        invariant
            i <= v@.len(),
            kc@ == k@,
            find_key(v@, k@, i as int) == find_key(v@, k@, 0),
        decreases v@.len() - i,
    {
        let name = chars_of(v[i].0.as_str());
        if same(&name, &kc) {
            return i;
        }
        i += 1;
    }
    i
}

/// `[world]`: the world's own settings.
pub struct WorldMeta {
    pub name: String,
    pub driver: String,
    pub exports: Vec<String>,
    /// Symbols the world declares shared between components: exact names or
    /// trailing-`*` prefixes.
    pub shared_symbols: Vec<String>,
    pub cargo_root: Option<String>,
    /// Where the interfaces live, relative to the world's directory.
    pub interfaces_dir: Option<String>,
    pub wasm_size_correct: bool,
}

/// An entry of `[interfaces]`.
pub struct InterfaceRef {
    pub source: String,
    /// The interface's directory, when a dependency package supplies it.
    pub dir: Option<String>,
}

/// An entry of `[components]`.
pub struct Component {
    /// `host`, `roc` or `driver`.
    pub kind: String,
    pub lang: Option<String>,
    pub imports: Vec<String>,
    pub exports: Vec<String>,
    pub provides_runtime: bool,
    pub requires_uses: Vec<String>,
    pub features: Vec<String>,
    pub default_features: Option<bool>,
    pub test_only: bool,
    pub frameworks: Vec<String>,
    /// Where the component lives, relative to the world's directory.
    pub path: Option<String>,
}

/// `world.toml`.
pub struct World {
    pub world: WorldMeta,
    pub interfaces: Vec<(String, InterfaceRef)>,
    pub components: Vec<(String, Component)>,
    pub wiring: Vec<(String, String)>,
    pub packages: Vec<(String, String)>,
}

impl World {
    /// Every table in name order, each name once.
    pub open spec fn wf(&self) -> bool {
        &&& well_keyed(self.interfaces@)
        &&& well_keyed(self.components@)
        &&& well_keyed(self.wiring@)
        &&& well_keyed(self.packages@)
    }
}

/// A resource type an interface declares.
pub struct ResourceDecl {
    pub name: String,
}

/// A hosted leaf: its Roc name and the stem of its linker symbol.
pub struct HostedLeaf {
    pub leaf: String,
    pub symbol_stem: String,
}

/// `interface.toml`.
pub struct Interface {
    pub module: String,
    pub hosted: Vec<HostedLeaf>,
    pub resources: Vec<ResourceDecl>,
    /// `service`, or none for an ordinary hosted interface.
    pub kind: Option<String>,
    pub event_module: Option<String>,
    pub env_module: Option<String>,
}

impl Interface {
    pub open spec fn service(&self) -> bool {
        match self.kind {
            Some(k) => k@ == "service"@,
            None => false,
        }
    }

    pub fn is_service(&self) -> (r: bool)
        ensures
            r == self.service(),
    {
        match &self.kind {
            Some(k) => same(&chars_of(k.as_str()), &chars_of("service")),
            None => false,
        }
    }
}

/// One provided entrypoint: its linker symbol and its Roc function.
pub struct Provided {
    pub symbol: String,
    pub func: String,
}

/// `driver.toml`.
pub struct Driver {
    pub provides_symbol: Option<String>,
    pub provided_fn: Option<String>,
    pub provides: Vec<Provided>,
    pub requires_uses: Vec<String>,
    pub imports_extra: Vec<String>,
    pub requires: String,
    pub provided: String,
    pub contract_from: Option<String>,
    pub authored_host: bool,
    pub services_shim: bool,
    pub wasm_exports: Vec<String>,
}

pub open spec fn provided_pairs(p: Seq<Provided>) -> Seq<(Seq<char>, Seq<char>)> {
    p.map_values(|x: Provided| (x.symbol@, x.func@))
}

pub open spec fn string_pairs(v: Seq<(String, String)>) -> Seq<(Seq<char>, Seq<char>)> {
    v.map_values(|x: (String, String)| (x.0@, x.1@))
}

impl Driver {
    /// The provided entrypoints as (linker symbol, Roc function): the
    /// `provides` list when it has any, else the single pair when both halves
    /// are given, else none.
    pub open spec fn entries(&self) -> Seq<(Seq<char>, Seq<char>)> {
        if self.provides@.len() > 0 {
            provided_pairs(self.provides@)
        } else {
            match (self.provides_symbol, self.provided_fn) {
                (Some(s), Some(f)) => seq![(s@, f@)],
                _ => seq![],
            }
        }
    }

    pub fn provided_entries(&self) -> (r: Vec<(String, String)>)
        ensures
            string_pairs(r@) == self.entries(),
    {
        let mut out: Vec<(String, String)> = Vec::new();
        if self.provides.len() > 0 {
            let mut i: usize = 0;
            while i < self.provides.len()
                invariant
                    i <= self.provides@.len(),
                    string_pairs(out@) == provided_pairs(self.provides@).take(i as int),
                decreases self.provides@.len() - i,
            {
                let p = &self.provides[i];
                let s = string_of(&chars_of(p.symbol.as_str()));
                let f = string_of(&chars_of(p.func.as_str()));
                let ghost before = string_pairs(out@);
                out.push((s, f));
                assert(string_pairs(out@) =~= before.push((s@, f@)));
                assert(string_pairs(out@) =~= provided_pairs(self.provides@).take(i + 1));
                i += 1;
            }
            assert(provided_pairs(self.provides@).take(self.provides@.len() as int) =~= provided_pairs(
                self.provides@,
            ));
            out
        } else {
            match (&self.provides_symbol, &self.provided_fn) {
                (Some(s), Some(f)) => {
                    let s = string_of(&chars_of(s.as_str()));
                    let f = string_of(&chars_of(f.as_str()));
                    out.push((s, f));
                    assert(string_pairs(out@) =~= seq![(s@, f@)]);
                    out
                },
                _ => {
                    assert(string_pairs(out@) =~= Seq::<(Seq<char>, Seq<char>)>::empty());
                    out
                },
            }
        }
    }
}

// ---------------------------------------------------------------------------
// Where things live
// ---------------------------------------------------------------------------

/// `Path::join` on a Unix path: an absolute part replaces the base, and a
/// separator goes between the two unless the base is empty or already ends
/// in one.
pub open spec fn path_join(base: Seq<char>, part: Seq<char>) -> Seq<char> {
    if part.len() > 0 && part[0] == '/' {
        part
    } else if base.len() == 0 || base.last() == '/' {
        base + part
    } else {
        base + seq!['/'] + part
    }
}

pub fn join_path(base: &str, part: &str) -> (r: String)
    ensures
        r@ == path_join(base@, part@),
{
    let b = chars_of(base);
    let p = chars_of(part);
    if p.len() > 0 && p[0] == '/' {
        return string_of(&p);
    }
    let mut out = b;
    if !(out.len() == 0 || out[out.len() - 1] == '/') {
        out.push('/');
    }
    extend(&mut out, &p);
    string_of(&out)
}

/// A component's Roc module file: `<dir>/roc/<Module>.roc` when the
/// component keeps its Roc beside its Rust (`nested_exists` says whether that
/// file exists), else `<dir>/<Module>.roc`.
pub open spec fn module_path_spec(component_dir: Seq<char>, module: Seq<char>, nested_exists: bool) -> Seq<char> {
    if nested_exists {
        path_join(path_join(component_dir, "roc"@), module + ".roc"@)
    } else {
        path_join(component_dir, module + ".roc"@)
    }
}

/// Where a component's module `module` is, as `roc/<Module>.roc` under its
/// directory when that exists.
pub fn roc_module_path(component_dir: &str, module: &str, nested_exists: bool) -> (r: String)
    ensures
        r@ == module_path_spec(component_dir@, module@, nested_exists),
{
    let mut f = chars_of(module);
    extend(&mut f, &chars_of(".roc"));
    let file = string_of(&f);
    if nested_exists {
        join_path(join_path(component_dir, "roc").as_str(), file.as_str())
    } else {
        join_path(component_dir, file.as_str())
    }
}

/// The directory holding `<interface>/interface.toml` for a world:
/// `interfaces_dir` when the world sets it, else `interfaces`.
pub fn interfaces_dir(world_dir: &str, world: &World) -> (r: String)
    ensures
        r@ == path_join(
            world_dir@,
            match world.world.interfaces_dir {
                Some(d) => d@,
                None => "interfaces"@,
            },
        ),
{
    match &world.world.interfaces_dir {
        Some(d) => join_path(world_dir, d.as_str()),
        None => join_path(world_dir, "interfaces"),
    }
}

/// The directory a component's sources live in: its `path` if it has one,
/// else `components/<name>` under the world's directory.
pub fn component_dir(world_dir: &str, name: &str, c: &Component) -> (r: String)
    ensures
        r@ == match c.path {
            Some(p) => path_join(world_dir@, p@),
            None => path_join(path_join(world_dir@, "components"@), name@),
        },
{
    match &c.path {
        Some(p) => join_path(world_dir, p.as_str()),
        None => {
            let base = join_path(world_dir, "components");
            join_path(base.as_str(), name)
        },
    }
}

impl Driver {
    /// Take the contract another driver's `driver.toml` states (its
    /// `contract_from`): `requires`, `provided`, the provided entrypoints,
    /// `requires_uses` and `imports_extra`. What stays this driver's own is
    /// its host, its shim setting, its wasm exports and where it took the
    /// contract from.
    pub fn share_contract(&mut self, shared: Driver)
        ensures
            final(self).requires == shared.requires,
            final(self).provided == shared.provided,
            final(self).provides == shared.provides,
            final(self).provides_symbol == shared.provides_symbol,
            final(self).provided_fn == shared.provided_fn,
            final(self).requires_uses == shared.requires_uses,
            final(self).imports_extra == shared.imports_extra,
            final(self).contract_from == old(self).contract_from,
            final(self).authored_host == old(self).authored_host,
            final(self).services_shim == old(self).services_shim,
            final(self).wasm_exports == old(self).wasm_exports,
    {
        let Driver {
            provides_symbol,
            provided_fn,
            provides,
            requires_uses,
            imports_extra,
            requires: req,
            provided,
            contract_from: _,
            authored_host: _,
            services_shim: _,
            wasm_exports: _,
        } = shared;
        self.requires = req;
        self.provided = provided;
        self.provides = provides;
        self.provides_symbol = provides_symbol;
        self.provided_fn = provided_fn;
        self.requires_uses = requires_uses;
        self.imports_extra = imports_extra;
    }

    /// A driver states its contract, itself or through `contract_from`:
    /// `requires` and `provided` are not empty. `path` names its file.
    pub fn contract_check(&self, path: &str) -> (r: Result<(), String>)
        ensures
            r is Ok <==> self.requires@.len() > 0 && self.provided@.len() > 0,
            r matches Err(e) ==> e@ == path@ + ": `requires` and `provided` are required (or `contract_from`)"@,
    {
        if chars_of(self.requires.as_str()).len() == 0 || chars_of(self.provided.as_str()).len() == 0 {
            let mut m = chars_of(path);
            extend(&mut m, &chars_of(": `requires` and `provided` are required (or `contract_from`)"));
            return Err(string_of(&m));
        }
        Ok(())
    }
}

} // verus!
