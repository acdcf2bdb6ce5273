//! The project `add`, `update` and `remove` edit, a world or a package, and
//! what is said when an edit cannot be kept.
use vstd::prelude::*;

use crate::text::{chars_of, extend, same, string_of, texts, views};

verus! {

/// The project an edit applies to.
#[derive(PartialEq, Eq, Debug)]
pub enum Target {
    /// A world, by its manifest's file name.
    World(String),
    Package,
}

pub enum TargetV {
    World(Seq<char>),
    Package,
}

pub open spec fn target_view(t: Target) -> TargetV {
    match t {
        Target::World(w) => TargetV::World(w@),
        Target::Package => TargetV::Package,
    }
}

/// Which project a directory is: an explicit `--world` wins; then a
/// `package.toml` there; then a `world.toml` there. A directory with
/// neither is an error saying which.
pub open spec fn target_spec(
    world_flag: Option<Seq<char>>,
    has_package: bool,
    has_world: bool,
    is_dir: bool,
    dir: Seq<char>,
) -> Result<TargetV, Seq<char>> {
    match world_flag {
        Some(w) => Ok(TargetV::World(w)),
        None => if has_package {
            Ok(TargetV::Package)
        } else if has_world {
            Ok(TargetV::World("world.toml"@))
        } else if !is_dir {
            Err(dir + " does not exist"@)
        } else {
            Err(dir + " has neither a world.toml nor a package.toml"@)
        },
    }
}

/// The project in `dir`; `has_package` and `has_world` say whether the two
/// manifests are files there, `is_dir` whether `dir` is a directory.
pub fn target_of(world_flag: Option<&str>, has_package: bool, has_world: bool, is_dir: bool, dir: &str) -> (r: Result<
    Target,
    String,
>)
    ensures
        target_spec(
            match world_flag {
                Some(w) => Some(w@),
                None => None,
            },
            has_package,
            has_world,
            is_dir,
            dir@,
        ) == match r {
            Ok(t) => Ok::<TargetV, Seq<char>>(target_view(t)),
            Err(e) => Err::<TargetV, Seq<char>>(e@),
        },
{
    match world_flag {
        Some(w) => Ok(Target::World(string_of(&chars_of(w)))),
        None => {
            if has_package {
                return Ok(Target::Package);
            }
            if has_world {
                return Ok(Target::World(string_of(&chars_of("world.toml"))));
            }
            let mut m = chars_of(dir);
            if !is_dir {
                extend(&mut m, &chars_of(" does not exist"));
            } else {
                extend(&mut m, &chars_of(" has neither a world.toml nor a package.toml"));
            }
            Err(string_of(&m))
        },
    }
}

/// The manifest an edit of the project changes.
pub open spec fn manifest_spec(t: TargetV) -> Seq<char> {
    match t {
        TargetV::World(w) => w,
        TargetV::Package => "package.toml"@,
    }
}

impl Target {
    pub fn manifest(&self) -> (out: String)
        ensures
            out@ == manifest_spec(target_view(*self)),
    {
        match self {
            Target::World(w) => string_of(&chars_of(w.as_str())),
            Target::Package => string_of(&chars_of("package.toml")),
        }
    }
}

/// What an edit that could not be kept adds to its error: that the manifest
/// and the lock are unchanged, or that restoring them failed too.
pub open spec fn rollback_note_spec(manifest: Seq<char>, lock: Seq<char>, restored: Result<(), Seq<char>>) -> Seq<
    char,
> {
    match restored {
        Ok(_) => manifest + " and "@ + lock + " are unchanged"@,
        Err(r) => "AND restoring the previous files failed: "@ + r,
    }
}

pub fn refused_edit(e: &str, manifest: &str, lock: &str, restored: Result<(), String>) -> (out: String)
    ensures
        out@ == e@ + "\n("@ + rollback_note_spec(
            manifest@,
            lock@,
            match restored {
                Ok(_) => Ok::<(), Seq<char>>(()),
                Err(r) => Err::<(), Seq<char>>(r@),
            },
        ) + ")"@,
{
    let mut o = chars_of(e);
    extend(&mut o, &chars_of("\n("));
    match restored {
        Ok(_) => {
            extend(&mut o, &chars_of(manifest));
            extend(&mut o, &chars_of(" and "));
            extend(&mut o, &chars_of(lock));
            extend(&mut o, &chars_of(" are unchanged"));
        },
        Err(r) => {
            extend(&mut o, &chars_of("AND restoring the previous files failed: "));
            extend(&mut o, &chars_of(r.as_str()));
        },
    }
    extend(&mut o, &chars_of(")"));
    string_of(&o)
}

/// Why a package with no `[dev-deps]` and no driver in reach cannot be
/// composed to check a change to it.
pub open spec fn uncomposable_spec(name: Seq<char>) -> Seq<char> {
    "`"@ + name
        + "` has no [dev-deps] and nothing in its [deps] provides a driver, so it cannot be composed to check this change. Name the baseline it is used on under [dev-deps] (e.g. `base = { github = \"<org>/<repo>\" }`), `trantor update` to pin it, and run this again"@
}

pub fn uncomposable(name: &str) -> (out: String)
    ensures
        out@ == uncomposable_spec(name@),
{
    let mut o = chars_of("`");
    extend(&mut o, &chars_of(name));
    extend(
        &mut o,
        &chars_of(
            "` has no [dev-deps] and nothing in its [deps] provides a driver, so it cannot be composed to check this change. Name the baseline it is used on under [dev-deps] (e.g. `base = { github = \"<org>/<repo>\" }`), `trantor update` to pin it, and run this again",
        ),
    );
    string_of(&o)
}

/// The names the other manifests sharing the lock depend on, so that a pin
/// one of them uses is not the edit's to drop: those of every world there
/// but the edited one (`worlds` holds, per world manifest, whether it is the
/// edited one and the names under its `[deps]` and `[dev-deps]`), and,
/// when a world is edited, the package's.
pub open spec fn used_elsewhere_spec(
    t: TargetV,
    worlds: Seq<(bool, Seq<Seq<char>>)>,
    package: Seq<Seq<char>>,
) -> Set<Seq<char>> {
    Set::new(
        |n: Seq<char>|
            (exists|k: int| 0 <= k < worlds.len() && !(t is World && worlds[k].0) && #[trigger] worlds[k].1.contains(n))
                || (t is World && package.contains(n)),
    )
}

pub open spec fn world_names(v: Seq<(bool, Vec<String>)>) -> Seq<(bool, Seq<Seq<char>>)> {
    v.map_values(|w: (bool, Vec<String>)| (w.0, texts(w.1@)))
}

proof fn lemma_push_set(s: Seq<Seq<char>>, x: Seq<char>)
    ensures
        s.push(x).to_set() == s.to_set().insert(x),
{
    assert forall|y: Seq<char>| #[trigger] s.push(x).to_set().contains(y) == s.to_set().insert(x).contains(y) by {
        if s.push(x).contains(y) {
            let k = choose|k: int| 0 <= k < s.push(x).len() && s.push(x)[k] == y;
            if k < s.len() {
                assert(s[k] == y);
            }
        }
        if s.contains(y) {
            let k = choose|k: int| 0 <= k < s.len() && s[k] == y;
            assert(s.push(x)[k] == y);
        }
        if y == x {
            assert(s.push(x)[s.len() as int] == x);
        }
    }
    assert(s.push(x).to_set() =~= s.to_set().insert(x));
}

fn add_all(acc: &mut Vec<Vec<char>>, names: &Vec<String>)
    requires
        crate::text::sorted_unique(views(old(acc)@)),
    ensures
        crate::text::sorted_unique(views(final(acc)@)),
        views(final(acc)@).to_set() == views(old(acc)@).to_set() + texts(names@).to_set(),
{
    let ghost a0 = views(acc@).to_set();
    let mut i: usize = 0;
    while i < names.len()
        invariant
            i <= names@.len(),
            crate::text::sorted_unique(views(acc@)),
            views(acc@).to_set() == a0 + texts(names@).take(i as int).to_set(),
        decreases names@.len() - i,
    {
        let x = chars_of(names[i].as_str());
        crate::text::insert_sorted(acc, x);
        assert(texts(names@).take(i + 1) =~= texts(names@).take(i as int).push(names@[i as int]@));
        proof {
            lemma_push_set(texts(names@).take(i as int), names@[i as int]@);
        }
        assert(views(acc@).to_set() =~= a0 + texts(names@).take(i + 1).to_set());
        i += 1;
    }
    assert(texts(names@).take(names@.len() as int) =~= texts(names@));
}

/// A manifest as the `toml` crate reads it into a `toml::Table`: each
/// top-level key, and the keys of its value when that is a table (`None`
/// otherwise); the whole `None` when the text is not a TOML document.
pub uninterp spec fn toml_tables(text: Seq<char>) -> Option<Seq<(Seq<char>, Option<Seq<Seq<char>>>)>>;

pub open spec fn opt_tables(r: Option<Vec<(String, Option<Vec<String>>)>>) -> Option<
    Seq<(Seq<char>, Option<Seq<Seq<char>>>)>,
> {
    match r {
        Some(v) => Some(
            v@.map_values(
                |e: (String, Option<Vec<String>>)|
                    (
                        e.0@,
                        match e.1 {
                            Some(ks) => Some(texts(ks@)),
                            None => None,
                        },
                    ),
            ),
        ),
        None => None,
    }
}

/// `str::parse::<toml::Table>`, read back as each key and, where its value
/// is a table, that table's keys. The contract names the result; how TOML
/// is read is not restated here.
#[verifier::external_body]
fn toml_tables_of(text: &str) -> (r: Option<Vec<(String, Option<Vec<String>>)>>)
    ensures
        opt_tables(r) == toml_tables(text@),
{
    let table = text.parse::<toml::Table>().ok()?;
    Some(table.iter().map(|(k, v)| (k.clone(), v.as_table().map(|t| t.keys().cloned().collect()))).collect())
}

/// The keys of the table under `key`: those of the first entry named `key`,
/// when its value is a table, else none.
pub open spec fn table_keys(t: Seq<(Seq<char>, Option<Seq<Seq<char>>>)>, key: Seq<char>, from: int) -> Seq<Seq<char>>
    decreases t.len() - from,
{
    if from < 0 || from >= t.len() {
        seq![]
    } else if t[from].0 == key {
        match t[from].1 {
            Some(ks) => ks,
            None => seq![],
        }
    } else {
        table_keys(t, key, from + 1)
    }
}

/// The names a manifest depends on, read as plain TOML: the keys under
/// `[deps]`, then those under `[dev-deps]`; none when it does not parse.
pub open spec fn dep_names_spec(tables: Option<Seq<(Seq<char>, Option<Seq<Seq<char>>>)>>) -> Seq<Seq<char>> {
    match tables {
        Some(t) => table_keys(t, "deps"@, 0) + table_keys(t, "dev-deps"@, 0),
        None => seq![],
    }
}

fn copy_texts(v: &Vec<String>) -> (out: Vec<String>)
    ensures
        texts(out@) == texts(v@),
{
    let mut out: Vec<String> = Vec::new();
    let mut i: usize = 0;
    while i < v.len()
        invariant
            i <= v@.len(),
            texts(out@) == texts(v@).take(i as int),
        decreases v@.len() - i,
    {
        let ghost before = texts(out@);
        let x = string_of(&chars_of(v[i].as_str()));
        out.push(x);
        assert(texts(out@) =~= before.push(v@[i as int]@));
        assert(texts(out@) =~= texts(v@).take(i + 1));
        i += 1;
    }
    assert(texts(v@).take(v@.len() as int) =~= texts(v@));
    out
}

fn keys_under(t: &Vec<(String, Option<Vec<String>>)>, key: &str) -> (out: Vec<String>)
    ensures
        texts(out@) == table_keys(opt_tables(Some(*t))->Some_0, key@, 0),
{
    let ghost tv = opt_tables(Some(*t))->Some_0;
    let k = chars_of(key);
    let mut i: usize = 0;
    while i < t.len()
        invariant
            i <= t@.len(),
            tv == opt_tables(Some(*t))->Some_0,
            k@ == key@,
            table_keys(tv, key@, 0) == table_keys(tv, key@, i as int),
        decreases t@.len() - i,
    {
        assert(tv[i as int].0 == t@[i as int].0@);
        if same(&chars_of(t[i].0.as_str()), &k) {
            return match &t[i].1 {
                Some(ks) => copy_texts(ks),
                None => Vec::new(),
            };
        }
        i += 1;
    }
    Vec::new()
}

/// The names under a manifest's `[deps]` and `[dev-deps]`.
pub fn dep_names(text: &str) -> (r: Vec<String>)
    ensures
        texts(r@) == dep_names_spec(toml_tables(text@)),
{
    match toml_tables_of(text) {
        None => Vec::new(),
        Some(t) => {
            let mut a = keys_under(&t, "deps");
            let b = keys_under(&t, "dev-deps");
            let ghost a0 = texts(a@);
            let mut i: usize = 0;
            while i < b.len()
                invariant
                    i <= b@.len(),
                    texts(a@) == a0 + texts(b@).take(i as int),
                decreases b@.len() - i,
            {
                let x = string_of(&chars_of(b[i].as_str()));
                let ghost before = texts(a@);
                a.push(x);
                assert(texts(a@) =~= before.push(b@[i as int]@));
                assert(texts(a@) =~= a0 + texts(b@).take(i + 1));
                i += 1;
            }
            assert(texts(b@).take(b@.len() as int) =~= texts(b@));
            a
        },
    }
}

/// Whether a manifest names `name` under its `[deps]` or `[dev-deps]`.
pub fn has_dep(text: &str, name: &str) -> (b: bool)
    ensures
        b == dep_names_spec(toml_tables(text@)).contains(name@),
{
    let ns = dep_names(text);
    let n = chars_of(name);
    let mut i: usize = 0;
    while i < ns.len()
        invariant
            i <= ns@.len(),
            n@ == name@,
            texts(ns@) == dep_names_spec(toml_tables(text@)),
            forall|j: int| 0 <= j < i ==> texts(ns@)[j] != name@,
        decreases ns@.len() - i,
    {
        if same(&chars_of(ns[i].as_str()), &n) {
            assert(texts(ns@)[i as int] == name@);
            assert(dep_names_spec(toml_tables(text@))[i as int] == name@);
            return true;
        }
        i += 1;
    }
    false
}

/// A world manifest: a TOML document with a top-level `world` key.
pub open spec fn world_manifest_spec(text: Seq<char>) -> bool {
    toml_tables(text) matches Some(t) && exists|i: int| 0 <= i < t.len() && #[trigger] t[i].0 == "world"@
}

pub fn is_world_manifest(text: &str) -> (b: bool)
    ensures
        b == world_manifest_spec(text@),
{
    match toml_tables_of(text) {
        None => false,
        Some(t) => {
            let ghost tv = opt_tables(Some(t))->Some_0;
            let w = chars_of("world");
            let mut i: usize = 0;
            while i < t.len()
                invariant
                    i <= t@.len(),
                    tv == opt_tables(Some(t))->Some_0,
                    toml_tables(text@) == Some(tv),
                    w@ == "world"@,
                    forall|j: int| 0 <= j < i ==> tv[j].0 != "world"@,
                decreases t@.len() - i,
            {
                assert(tv[i as int].0 == t@[i as int].0@);
                if same(&chars_of(t[i].0.as_str()), &w) {
                    return true;
                }
                i += 1;
            }
            false
        },
    }
}

pub open spec fn world_texts(v: Seq<(bool, String)>) -> Seq<(bool, Seq<Seq<char>>)> {
    v.map_values(|w: (bool, String)| (w.0, dep_names_spec(toml_tables(w.1@))))
}

impl Target {
    /// The names the other manifests sharing the lock depend on: `worlds`
    /// holds, per world manifest there, whether it is the edited one and
    /// its text; `package` is the package manifest's text (empty when there
    /// is none). See `used_elsewhere_spec`; the names sorted, each once.
    pub fn names_used_elsewhere(&self, worlds: &Vec<(bool, String)>, package: &str) -> (out: Vec<String>)
        ensures
            crate::text::sorted_unique(texts(out@)),
            texts(out@).to_set() == used_elsewhere_spec(
                target_view(*self),
                world_texts(worlds@),
                dep_names_spec(toml_tables(package@)),
            ),
    {
        let mut named: Vec<(bool, Vec<String>)> = Vec::new();
        let mut i: usize = 0;
        while i < worlds.len()
            invariant
                i <= worlds@.len(),
                world_names(named@) == world_texts(worlds@).take(i as int),
            decreases worlds@.len() - i,
        {
            let e = (worlds[i].0, dep_names(worlds[i].1.as_str()));
            let ghost before = world_names(named@);
            named.push(e);
            assert(world_names(named@) =~= before.push((e.0, texts(e.1@))));
            assert(world_names(named@) =~= world_texts(worlds@).take(i + 1));
            i += 1;
        }
        assert(world_texts(worlds@).take(worlds@.len() as int) =~= world_texts(worlds@));
        let p = dep_names(package);
        self.names_from(&named, &p)
    }

    /// See `used_elsewhere_spec`; the names sorted, each once.
    fn names_from(&self, worlds: &Vec<(bool, Vec<String>)>, package: &Vec<String>) -> (out: Vec<String>)
        ensures
            crate::text::sorted_unique(texts(out@)),
            texts(out@).to_set() == used_elsewhere_spec(target_view(*self), world_names(worlds@), texts(package@)),
    {
        let is_world = match self {
            Target::World(_) => true,
            Target::Package => false,
        };
        let ghost wv = world_names(worlds@);
        let mut acc: Vec<Vec<char>> = Vec::new();
        let mut k: usize = 0;
        assert(views(acc@).to_set() =~= Set::<Seq<char>>::empty());
        while k < worlds.len()
            invariant
                k <= worlds@.len(),
                wv == world_names(worlds@),
                is_world == (target_view(*self) is World),
                crate::text::sorted_unique(views(acc@)),
                views(acc@).to_set() == Set::new(
                    |n: Seq<char>|
                        exists|j: int| 0 <= j < k && !(is_world && wv[j].0) && #[trigger] wv[j].1.contains(n),
                ),
            decreases worlds@.len() - k,
        {
            let ghost before = views(acc@).to_set();
            if !(is_world && worlds[k].0) {
                add_all(&mut acc, &worlds[k].1);
            }
            proof {
                assert(wv[k as int] == (worlds@[k as int].0, texts(worlds@[k as int].1@)));
                assert forall|n: Seq<char>| #[trigger] views(acc@).to_set().contains(n) == (exists|j: int|
                    0 <= j < k + 1 && !(is_world && wv[j].0) && #[trigger] wv[j].1.contains(n)) by {
                    if exists|j: int| 0 <= j < k + 1 && !(is_world && wv[j].0) && #[trigger] wv[j].1.contains(n) {
                        let j = choose|j: int| 0 <= j < k + 1 && !(is_world && wv[j].0) && #[trigger] wv[j].1.contains(n);
                        if j < k {
                            assert(before.contains(n));
                        } else {
                            assert(texts(worlds@[k as int].1@).to_set().contains(n));
                        }
                    }
                    if views(acc@).to_set().contains(n) && !before.contains(n) {
                        assert(wv[k as int].1.contains(n));
                    }
                }
                assert(views(acc@).to_set() =~= Set::new(
                    |n: Seq<char>|
                        exists|j: int| 0 <= j < k + 1 && !(is_world && wv[j].0) && #[trigger] wv[j].1.contains(n),
                ));
            }
            k += 1;
        }
        let ghost ws = views(acc@).to_set();
        if is_world {
            add_all(&mut acc, package);
        }
        let mut out: Vec<String> = Vec::new();
        let mut i: usize = 0;
        while i < acc.len()
            invariant
                i <= acc@.len(),
                texts(out@) == views(acc@).take(i as int),
            decreases acc@.len() - i,
        {
            let x = string_of(&acc[i]);
            let ghost b = texts(out@);
            out.push(x);
            assert(texts(out@) =~= b.push(x@));
            assert(texts(out@) =~= views(acc@).take(i + 1));
            i += 1;
        }
        assert(views(acc@).take(acc@.len() as int) =~= views(acc@));
        proof {
            let t = target_view(*self);
            assert(texts(out@).to_set() =~= used_elsewhere_spec(t, wv, texts(package@)));
        }
        out
    }
}

} // verus!
