//! Re-anchoring a copied component manifest's relative `path`
//! dependencies. A component is copied deeper into the generated
//! workspace than it lives, and cargo reads a relative path against the
//! manifest it finds it in; so every relative path is resolved where the
//! author wrote it, and one that no longer reaches the same place from the
//! copy becomes the absolute path it always meant. Paths are read
//! lexically, as cargo reads them.
use toml_edit::{DocumentMut, TableLike};
use vstd::prelude::*;

use crate::shipped_modules::named_parts;
use crate::text::{chars_of, extend, join, join_exec, same, split, split_exec, starts, starts_with, string_of, texts, views};

verus! {

/// The package name whose path dependency is meant to resolve in the
/// generated tree, beside which its crate is emitted: left alone.
pub const GENERATED_ABI: &'static str = "trantor-abi";

/// A path's components, as `Path::components` reads them and a `PathBuf`
/// collects them back: `/` for a root, `.` for a leading current
/// directory, then each named part (a `..` among them).
pub open spec fn comps(p: Seq<char>) -> Seq<Seq<char>> {
    let root = starts(p, "/"@);
    let cur = !root && (p == "."@ || starts(p, "./"@));
    (if root {
        seq!["/"@]
    } else {
        Seq::<Seq<char>>::empty()
    }) + (if cur {
        seq!["."@]
    } else {
        Seq::<Seq<char>>::empty()
    }) + named_parts(split(p, '/'))
}

/// A path's text from its components.
pub open spec fn render(cs: Seq<Seq<char>>) -> Seq<char> {
    if cs.len() > 0 && cs[0] == "/"@ {
        "/"@ + join(cs.skip(1), "/"@)
    } else {
        join(cs, "/"@)
    }
}

/// `rel`'s named parts applied to `out`: a `..` goes up one (never above
/// the first component), anything else goes down.
pub open spec fn apply(out: Seq<Seq<char>>, rel: Seq<Seq<char>>) -> Seq<Seq<char>>
    decreases rel.len(),
{
    if rel.len() == 0 {
        out
    } else {
        let o = apply(out, rel.drop_last());
        if rel.last() == ".."@ {
            if o.len() > 1 {
                o.drop_last()
            } else {
                o
            }
        } else {
            o.push(rel.last())
        }
    }
}

/// `rel` joined to `base` with every `..` resolved lexically.
pub open spec fn lexical(base: Seq<char>, rel: Seq<char>) -> Seq<Seq<char>> {
    apply(comps(base), named_parts(split(rel, '/')))
}

/// `from` is a leading run of `p`'s components.
pub open spec fn prefix_of(from: Seq<Seq<char>>, p: Seq<Seq<char>>) -> bool {
    from.len() <= p.len() && p.take(from.len() as int) == from
}

/// Where `meant` is in the generated tree: the copy of the first copied
/// tree it lies in, or itself.
pub open spec fn mapped(meant: Seq<Seq<char>>, trees: Seq<(Seq<char>, Seq<char>)>, k: int) -> Seq<Seq<char>>
    decreases trees.len() - k,
{
    if k < 0 || k >= trees.len() {
        meant
    } else if prefix_of(comps(trees[k].0), meant) {
        comps(trees[k].1) + meant.skip(comps(trees[k].0).len() as int)
    } else {
        mapped(meant, trees, k + 1)
    }
}

/// The absolute path `written` must become, or `None` when it is absolute
/// already or still reaches the right place from the copy. `origin` is the
/// component's source directory, `copy` the directory of the copied
/// manifest, `trees` each tree copied whole as (from, to).
pub open spec fn anchored_spec(
    written: Seq<char>,
    origin: Seq<char>,
    copy: Seq<char>,
    trees: Seq<(Seq<char>, Seq<char>)>,
) -> Option<Seq<char>> {
    if starts(written, "/"@) {
        None
    } else {
        let wanted = mapped(lexical(origin, written), trees, 0);
        if lexical(copy, written) == wanted {
            None
        } else {
            Some(render(wanted))
        }
    }
}

fn comps_exec(p: &str) -> (out: Vec<Vec<char>>)
    ensures
        views(out@) == comps(p@),
{
    let pc = chars_of(p);
    let root = starts_with(&pc, &chars_of("/"));
    let cur = !root && (same(&pc, &chars_of(".")) || starts_with(&pc, &chars_of("./")));
    let mut out: Vec<Vec<char>> = Vec::new();
    if root {
        out.push(chars_of("/"));
    }
    if cur {
        out.push(chars_of("."));
    }
    let ghost head = views(out@);
    assert(head =~= (if root {
        seq!["/"@]
    } else {
        Seq::<Seq<char>>::empty()
    }) + (if cur {
        seq!["."@]
    } else {
        Seq::<Seq<char>>::empty()
    }));
    let named = named_exec(&pc);
    let mut i: usize = 0;
    while i < named.len()
        invariant
            i <= named@.len(),
            views(out@) == head + views(named@).take(i as int),
        decreases named@.len() - i,
    {
        let ghost before = views(out@);
        let x = named[i].clone();
        out.push(x);
        assert(views(out@) =~= before.push(named@[i as int]@));
        assert(views(out@) =~= head + views(named@).take(i + 1));
        i += 1;
    }
    assert(views(named@).take(named@.len() as int) =~= views(named@));
    out
}

fn named_exec(p: &[char]) -> (out: Vec<Vec<char>>)
    ensures
        views(out@) == named_parts(split(p@, '/')),
{
    let ps = split_exec(p, '/');
    let ghost pv = views(ps@);
    let dot = chars_of(".");
    let mut out: Vec<Vec<char>> = Vec::new();
    let mut i: usize = 0;
    assert(pv.take(0) =~= Seq::<Seq<char>>::empty());
    assert(views(out@) =~= Seq::<Seq<char>>::empty());
    while i < ps.len()
        invariant
            i <= ps@.len(),
            pv == views(ps@),
            dot@ == "."@,
            views(out@) == named_parts(pv.take(i as int)),
        decreases ps@.len() - i,
    {
        assert(pv.take(i + 1).drop_last() =~= pv.take(i as int));
        assert(pv.take(i + 1).last() == ps@[i as int]@);
        if !(ps[i].len() == 0 || same(&ps[i], &dot)) {
            let ghost before = views(out@);
            let x = ps[i].clone();
            out.push(x);
            assert(views(out@) =~= before.push(ps@[i as int]@));
        }
        i += 1;
    }
    assert(pv.take(ps@.len() as int) =~= pv);
    out
}

fn lexical_exec(base: &str, rel: &str) -> (out: Vec<Vec<char>>)
    ensures
        views(out@) == lexical(base@, rel@),
{
    let mut out = comps_exec(base);
    let ghost o0 = views(out@);
    let parts = named_exec(&chars_of(rel));
    let ghost rv = views(parts@);
    let up = chars_of("..");
    let mut i: usize = 0;
    assert(rv.take(0) =~= Seq::<Seq<char>>::empty());
    while i < parts.len()
        invariant
            i <= parts@.len(),
            rv == views(parts@),
            up@ == ".."@,
            views(out@) == apply(o0, rv.take(i as int)),
        decreases parts@.len() - i,
    {
        assert(rv.take(i + 1).drop_last() =~= rv.take(i as int));
        assert(rv.take(i + 1).last() == parts@[i as int]@);
        let ghost before = views(out@);
        if same(&parts[i], &up) {
            if out.len() > 1 {
                out.pop();
                assert(views(out@) =~= before.drop_last());
            }
        } else {
            let x = parts[i].clone();
            out.push(x);
            assert(views(out@) =~= before.push(parts@[i as int]@));
        }
        i += 1;
    }
    assert(rv.take(parts@.len() as int) =~= rv);
    out
}

fn seq_same(a: &Vec<Vec<char>>, b: &Vec<Vec<char>>) -> (r: bool)
    ensures
        r == (views(a@) == views(b@)),
{
    if a.len() != b.len() {
        proof {
            assert(views(a@).len() != views(b@).len());
        }
        return false;
    }
    let mut i: usize = 0;
    while i < a.len()
        invariant
            i <= a@.len(),
            a@.len() == b@.len(),
            forall|k: int| 0 <= k < i ==> views(a@)[k] == views(b@)[k],
        decreases a@.len() - i,
    {
        if !same(&a[i], &b[i]) {
            assert(views(a@)[i as int] != views(b@)[i as int]);
            return false;
        }
        i += 1;
    }
    assert(views(a@) =~= views(b@));
    true
}

fn prefix_exec(from: &Vec<Vec<char>>, p: &Vec<Vec<char>>) -> (r: bool)
    ensures
        r == prefix_of(views(from@), views(p@)),
{
    if from.len() > p.len() {
        return false;
    }
    let mut i: usize = 0;
    while i < from.len()
        invariant
            i <= from@.len(),
            from@.len() <= p@.len(),
            forall|k: int| 0 <= k < i ==> views(from@)[k] == views(p@)[k],
        decreases from@.len() - i,
    {
        if !same(&from[i], &p[i]) {
            assert(views(from@)[i as int] != views(p@).take(from@.len() as int)[i as int]);
            return false;
        }
        i += 1;
    }
    assert(views(p@).take(from@.len() as int) =~= views(from@));
    true
}

pub open spec fn tree_views(v: Seq<(String, String)>) -> Seq<(Seq<char>, Seq<char>)> {
    v.map_values(|t: (String, String)| (t.0@, t.1@))
}

fn mapped_exec(meant: Vec<Vec<char>>, trees: &Vec<(String, String)>) -> (out: Vec<Vec<char>>)
    ensures
        views(out@) == mapped(views(meant@), tree_views(trees@), 0),
{
    let ghost mv = views(meant@);
    let ghost tv = tree_views(trees@);
    let mut k: usize = 0;
    while k < trees.len()
        invariant
            k <= trees@.len(),
            mv == views(meant@),
            tv == tree_views(trees@),
            mapped(mv, tv, k as int) == mapped(mv, tv, 0),
        decreases trees@.len() - k,
    {
        assert(tv[k as int] == (trees@[k as int].0@, trees@[k as int].1@));
        let from = comps_exec(trees[k].0.as_str());
        if prefix_exec(&from, &meant) {
            let mut out = comps_exec(trees[k].1.as_str());
            let ghost head = views(out@);
            let mut j: usize = from.len();
            assert(mv.skip(from@.len() as int).take(0) =~= Seq::<Seq<char>>::empty());
            while j < meant.len()
                invariant
                    from@.len() <= j <= meant@.len(),
                    mv == views(meant@),
                    views(out@) == head + mv.skip(from@.len() as int).take(j - from@.len()),
                decreases meant@.len() - j,
            {
                let ghost before = views(out@);
                let x = meant[j].clone();
                out.push(x);
                assert(views(out@) =~= before.push(mv[j as int]));
                assert(views(out@) =~= head + mv.skip(from@.len() as int).take(j + 1 - from@.len()));
                j += 1;
            }
            assert(mv.skip(from@.len() as int).take(meant@.len() - from@.len()) =~= mv.skip(from@.len() as int));
            return out;
        }
        k += 1;
    }
    meant
}

fn render_exec(cs: &Vec<Vec<char>>) -> (out: String)
    ensures
        out@ == render(views(cs@)),
{
    if cs.len() > 0 && same(&cs[0], &chars_of("/")) {
        let mut rest: Vec<Vec<char>> = Vec::new();
        let mut i: usize = 1;
        while i < cs.len()
            invariant
                1 <= i <= cs@.len(),
                views(rest@) == views(cs@).skip(1).take(i - 1),
            decreases cs@.len() - i,
        {
            let ghost before = views(rest@);
            let x = cs[i].clone();
            rest.push(x);
            assert(views(rest@) =~= before.push(cs@[i as int]@));
            assert(views(rest@) =~= views(cs@).skip(1).take(i as int));
            i += 1;
        }
        assert(views(cs@).skip(1).take(cs@.len() - 1) =~= views(cs@).skip(1));
        let mut o = chars_of("/");
        extend(&mut o, &join_exec(&rest, &chars_of("/")));
        string_of(&o)
    } else {
        proof {
            if cs@.len() > 0 {
                assert(views(cs@)[0] == cs@[0]@);
            }
        }
        string_of(&join_exec(cs, &chars_of("/")))
    }
}

/// A tree copied whole into the generated workspace: `from` is copied to
/// `to`.
pub struct CopiedTree {
    pub from: String,
    pub to: String,
}

/// Where one component's manifest came from and where its copy is.
pub struct Placement {
    /// The component's source directory.
    pub origin: String,
    /// The directory holding the copied manifest.
    pub copy: String,
    pub trees: Vec<CopiedTree>,
}

pub open spec fn copied_views(v: Seq<CopiedTree>) -> Seq<(Seq<char>, Seq<char>)> {
    v.map_values(|t: CopiedTree| (t.from@, t.to@))
}

/// The path a relative `path` dependency must be rewritten to for
/// `placement`; see `anchored_spec`.
pub fn anchored_path(written: &str, placement: &Placement) -> (r: Option<String>)
    ensures
        match r {
            Some(p) => anchored_spec(
                written@,
                placement.origin@,
                placement.copy@,
                copied_views(placement.trees@),
            ) == Some(p@),
            None => anchored_spec(written@, placement.origin@, placement.copy@, copied_views(placement.trees@)) is None,
        },
{
    if starts_with(&chars_of(written), &chars_of("/")) {
        return None;
    }
    let mut trees: Vec<(String, String)> = Vec::new();
    let mut i: usize = 0;
    while i < placement.trees.len()
        invariant
            i <= placement.trees@.len(),
            tree_views(trees@) == copied_views(placement.trees@).take(i as int),
        decreases placement.trees@.len() - i,
    {
        let t = &placement.trees[i];
        let x = (string_of(&chars_of(t.from.as_str())), string_of(&chars_of(t.to.as_str())));
        let ghost before = tree_views(trees@);
        trees.push(x);
        assert(tree_views(trees@) =~= before.push((t.from@, t.to@)));
        assert(tree_views(trees@) =~= copied_views(placement.trees@).take(i + 1));
        i += 1;
    }
    assert(copied_views(placement.trees@).take(placement.trees@.len() as int) =~= copied_views(placement.trees@));
    let origin = placement.origin.as_str();
    let copy = placement.copy.as_str();
    let trees = &trees;
    let meant = lexical_exec(origin, written);
    let wanted = mapped_exec(meant, trees);
    let here = lexical_exec(copy, written);
    if seq_same(&here, &wanted) {
        return None;
    }
    Some(render_exec(&wanted))
}

/// A dependency entry left as written: the generated abi, by its package
/// name (its key, unless it names another package).
pub open spec fn kept_entry(key: Seq<char>, package: Option<Seq<char>>) -> bool {
    match package {
        Some(p) => p == GENERATED_ABI@,
        None => key == GENERATED_ABI@,
    }
}

pub fn is_kept_entry(key: &str, package: Option<&str>) -> (r: bool)
    ensures
        r == kept_entry(
            key@,
            match package {
                Some(p) => Some(p@),
                None => None,
            },
        ),
{
    match package {
        Some(p) => same(&chars_of(p), &chars_of(GENERATED_ABI)),
        None => same(&chars_of(key), &chars_of(GENERATED_ABI)),
    }
}

/// The dependency tables of a manifest, at any level they can appear.
pub open spec fn dep_table(name: Seq<char>) -> bool {
    name == "dependencies"@ || name == "dev-dependencies"@ || name == "dev_dependencies"@ || name
        == "build-dependencies"@ || name == "build_dependencies"@
}

pub fn is_dep_table(name: &str) -> (r: bool)
    ensures
        r == dep_table(name@),
{
    let n = chars_of(name);
    same(&n, &chars_of("dependencies")) || same(&n, &chars_of("dev-dependencies")) || same(
        &n,
        &chars_of("dev_dependencies"),
    ) || same(&n, &chars_of("build-dependencies")) || same(&n, &chars_of("build_dependencies"))
}

/// Every entry of a manifest, as `toml_edit` reads it: for each key of each
/// table or inline table, at any depth, the keys of the tables above it,
/// the key, and its `package` and `path` strings when it has them; `None`
/// when the text is not a TOML document.
pub uninterp spec fn manifest_rows(text: Seq<char>) -> Option<
    Seq<(Seq<Seq<char>>, Seq<char>, Option<Seq<char>>, Option<Seq<char>>)>,
>;

/// The manifest `toml_edit` writes back after setting, for each edit
/// (tables above, key, new path), that entry's `path` to the new path; the
/// rest of the text is kept as it was. `None` when the text does not parse.
pub uninterp spec fn with_paths(text: Seq<char>, edits: Seq<(Seq<Seq<char>>, Seq<char>, Seq<char>)>) -> Option<Seq<char>>;

pub open spec fn opt_text(v: Option<String>) -> Option<Seq<char>> {
    match v {
        Some(s) => Some(s@),
        None => None,
    }
}

pub open spec fn row_views(v: Seq<(Vec<String>, String, Option<String>, Option<String>)>) -> Seq<
    (Seq<Seq<char>>, Seq<char>, Option<Seq<char>>, Option<Seq<char>>),
> {
    v.map_values(
        |r: (Vec<String>, String, Option<String>, Option<String>)|
            (texts(r.0@), r.1@, opt_text(r.2), opt_text(r.3)),
    )
}

pub open spec fn edit_views(v: Seq<(Vec<String>, String, String)>) -> Seq<(Seq<Seq<char>>, Seq<char>, Seq<char>)> {
    v.map_values(|e: (Vec<String>, String, String)| (texts(e.0@), e.1@, e.2@))
}

/// `toml_edit::DocumentMut`'s parse, read back as plain rows: the document
/// is walked table by table and each entry's `package` and `path` strings
/// are picked. The contract names the result; how TOML is read is not
/// restated here.
#[verifier::external_body]
fn manifest_rows_of(text: &str) -> (r: Option<Vec<(Vec<String>, String, Option<String>, Option<String>)>>)
    ensures
        match r {
            Some(v) => manifest_rows(text@) == Some(row_views(v@)),
            None => manifest_rows(text@) is None,
        },
{
    let doc = text.parse::<DocumentMut>().ok()?;
    let mut rows = Vec::new();
    let mut stack = vec![(vec![], doc.as_table() as &dyn TableLike)];
    while let Some((at, table)) = stack.pop() {
        for (key, item) in table.iter() {
            let field = |f: &str| item.get(f).and_then(|v| v.as_str()).map(String::from);
            rows.push((at.clone(), key.to_string(), field("package"), field("path")));
            if let Some(inner) = item.as_table_like() {
                stack.push(([at.clone(), vec![key.to_string()]].concat(), inner));
            }
        }
    }
    Some(rows)
}

/// `toml_edit::DocumentMut`'s parse, `Item::get_mut` down each edit's
/// tables and key, an assignment of the new `path` value, and the
/// document's `Display`. The contract names the result, and says that it
/// parses exactly when `manifest_rows_of` does (the same parse).
#[verifier::external_body]
fn set_paths(text: &str, edits: &Vec<(Vec<String>, String, String)>) -> (r: Option<String>)
    ensures
        opt_text(r) == with_paths(text@, edit_views(edits@)),
        (r is Some) == (manifest_rows(text@) is Some),
{
    let mut doc = text.parse::<DocumentMut>().ok()?;
    for (at, key, path) in edits {
        let mut item = Some(doc.as_item_mut());
        for k in at.iter().chain(std::iter::once(key)) {
            item = item.and_then(|i| i.get_mut(k.as_str()));
        }
        if let Some(entry) = item.and_then(|i| i.get_mut("path")) {
            *entry = toml_edit::value(path.as_str());
        }
    }
    Some(doc.to_string())
}

/// Where a dependency table stands: a dependency table at the top, any
/// `[patch.<source>]` table, or a dependency table under
/// `[target.<platform>]`.
pub open spec fn dep_position(at: Seq<Seq<char>>) -> bool {
    ||| at.len() == 1 && dep_table(at[0])
    ||| at.len() == 2 && at[0] == "patch"@
    ||| at.len() == 3 && at[0] == "target"@ && dep_table(at[2])
}

/// The edits an anchoring makes, in the order of the rows: each entry of a
/// dependency table that is not the generated abi and whose relative
/// `path` no longer reaches the same place from the copy.
pub open spec fn anchor_edits(
    rows: Seq<(Seq<Seq<char>>, Seq<char>, Option<Seq<char>>, Option<Seq<char>>)>,
    origin: Seq<char>,
    copy: Seq<char>,
    trees: Seq<(Seq<char>, Seq<char>)>,
) -> Seq<(Seq<Seq<char>>, Seq<char>, Seq<char>)>
    decreases rows.len(),
{
    if rows.len() == 0 {
        Seq::empty()
    } else {
        let before = anchor_edits(rows.drop_last(), origin, copy, trees);
        let (at, key, package, path) = rows.last();
        if dep_position(at) && !kept_entry(key, package) && path is Some && anchored_spec(
            path.unwrap(),
            origin,
            copy,
            trees,
        ) is Some {
            before.push((at, key, anchored_spec(path.unwrap(), origin, copy, trees).unwrap()))
        } else {
            before
        }
    }
}

/// The manifest with its relative path dependencies re-anchored, or `None`
/// when nothing needed changing or it is not a TOML document (which cargo
/// reports better), so a caller writes only what changed.
pub open spec fn anchor_spec(text: Seq<char>, origin: Seq<char>, copy: Seq<char>, trees: Seq<(Seq<char>, Seq<char>)>) -> Option<
    Seq<char>,
> {
    match manifest_rows(text) {
        None => None,
        Some(rows) => {
            let edits = anchor_edits(rows, origin, copy, trees);
            if edits.len() == 0 {
                None
            } else {
                with_paths(text, edits)
            }
        },
    }
}

fn is_dep_position(at: &Vec<String>) -> (r: bool)
    ensures
        r == dep_position(texts(at@)),
{
    if at.len() == 1 {
        is_dep_table(at[0].as_str())
    } else if at.len() == 2 {
        same(&chars_of(at[0].as_str()), &chars_of("patch"))
    } else if at.len() == 3 {
        same(&chars_of(at[0].as_str()), &chars_of("target")) && is_dep_table(at[2].as_str())
    } else {
        false
    }
}

fn copy_texts(v: &Vec<String>) -> (out: Vec<String>)
    ensures
        texts(out@) == texts(v@),
{
    let mut out: Vec<String> = Vec::new();
    let mut i: usize = 0;
    while i < v.len()
        invariant
            i <= v@.len(),
            texts(out@) == texts(v@).take(i as int),
        decreases v@.len() - i,
    {
        let ghost before = texts(out@);
        let x = string_of(&chars_of(v[i].as_str()));
        out.push(x);
        assert(texts(out@) =~= before.push(v@[i as int]@));
        assert(texts(out@) =~= texts(v@).take(i + 1));
        i += 1;
    }
    assert(texts(v@).take(v@.len() as int) =~= texts(v@));
    out
}

/// Rewrite a copied manifest's relative path dependencies for `placement`:
/// `None` when nothing needed changing or the text does not parse.
pub fn anchor(text: &str, placement: &Placement) -> (r: Option<String>)
    ensures
        opt_text(r) == anchor_spec(text@, placement.origin@, placement.copy@, copied_views(placement.trees@)),
{
    let ghost origin = placement.origin@;
    let ghost copy = placement.copy@;
    let ghost trees = copied_views(placement.trees@);
    let rows = match manifest_rows_of(text) {
        Some(rows) => rows,
        None => return None,
    };
    let mut edits: Vec<(Vec<String>, String, String)> = Vec::new();
    let mut i: usize = 0;
    while i < rows.len()
        invariant
            i <= rows@.len(),
            origin == placement.origin@,
            copy == placement.copy@,
            trees == copied_views(placement.trees@),
            edit_views(edits@) == anchor_edits(row_views(rows@).take(i as int), origin, copy, trees),
        decreases rows@.len() - i,
    {
        assert(row_views(rows@).take(i + 1).drop_last() =~= row_views(rows@).take(i as int));
        let row = &rows[i];
        assert(row_views(rows@).take(i + 1).last() == (texts(row.0@), row.1@, opt_text(row.2), opt_text(row.3)));
        if is_dep_position(&row.0) {
            let package = match &row.2 {
                Some(p) => Some(p.as_str()),
                None => None,
            };
            if !is_kept_entry(row.1.as_str(), package) {
                if let Some(written) = &row.3 {
                    if let Some(wanted) = anchored_path(written.as_str(), placement) {
                        let ghost before = edit_views(edits@);
                        let e = (copy_texts(&row.0), string_of(&chars_of(row.1.as_str())), wanted);
                        edits.push(e);
                        assert(edit_views(edits@) =~= before.push((texts(row.0@), row.1@, e.2@)));
                    }
                }
            }
        }
        i += 1;
    }
    assert(row_views(rows@).take(rows@.len() as int) =~= row_views(rows@));
    if edits.len() == 0 {
        return None;
    }
    set_paths(text, &edits)
}

/// How many directories below where it starts a path's parts end, each
/// `..` going up one and `.` or an empty part staying.
pub open spec fn part_depth(parts: Seq<Seq<char>>) -> int
    decreases parts.len(),
{
    if parts.len() == 0 {
        0
    } else {
        let d = part_depth(parts.drop_last());
        let p = parts.last();
        if p == ".."@ {
            d - 1
        } else if p == "."@ || p.len() == 0 {
            d
        } else {
            d + 1
        }
    }
}

/// Some leading run of the parts climbs above where they start.
pub open spec fn climbs_out(parts: Seq<Seq<char>>) -> bool
    decreases parts.len(),
{
    parts.len() > 0 && (climbs_out(parts.drop_last()) || part_depth(parts) < 0)
}

/// A package's component path stays inside the package: it is relative,
/// and no `..` in it climbs above the package's directory.
pub open spec fn confined_spec(rel: Seq<char>) -> bool {
    !starts(rel, "/"@) && !climbs_out(split(rel, '/'))
}

pub open spec fn unconfined_msg(what: Seq<char>, rel: Seq<char>, pkg: Seq<char>) -> Seq<char> {
    what + " `"@ + rel + "` of package `"@ + pkg + "` leaves the package's directory"@
}

/// The refusal of a path that leaves its package.
pub fn confined(rel: &str, what: &str, pkg: &str) -> (r: Result<(), String>)
    ensures
        match r {
            Ok(()) => confined_spec(rel@),
            Err(e) => !confined_spec(rel@) && e@ == unconfined_msg(what@, rel@, pkg@),
        },
{
    let cs = chars_of(rel);
    let mut ok = !starts_with(&cs, &chars_of("/"));
    if ok {
        let parts = split_exec(&cs, '/');
        let mut d: i128 = 0;
        let mut out = false;
        let mut i: usize = 0;
        while i < parts.len()
            invariant
                i <= parts@.len(),
                views(parts@) == split(rel@, '/'),
                d == part_depth(views(parts@).take(i as int)),
                -(i as int) <= d <= i as int,
                out == climbs_out(views(parts@).take(i as int)),
            decreases parts@.len() - i,
        {
            assert(views(parts@).take(i + 1).drop_last() =~= views(parts@).take(i as int));
            assert(views(parts@).take(i + 1).last() == parts@[i as int]@);
            let p = &parts[i];
            if same(p, &chars_of("..")) {
                d = d - 1;
            } else if !(same(p, &chars_of(".")) || p.len() == 0) {
                d = d + 1;
            }
            out = out || d < 0;
            i += 1;
        }
        assert(views(parts@).take(parts@.len() as int) =~= views(parts@));
        ok = !out;
    }
    if ok {
        Ok(())
    } else {
        let mut m = chars_of(what);
        extend(&mut m, &chars_of(" `"));
        extend(&mut m, &cs);
        extend(&mut m, &chars_of("` of package `"));
        extend(&mut m, &chars_of(pkg));
        extend(&mut m, &chars_of("` leaves the package's directory"));
        Err(string_of(&m))
    }
}

} // verus!
