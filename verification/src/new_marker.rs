//! The marker a running `trantor new` keeps in its directory: a line per
//! file it wrote, with the hash of what it wrote, and a line per directory
//! it created. A killed run is cleaned up from it, and only of what is
//! provably its own: a file that still holds exactly what was written.
use vstd::prelude::*;

use crate::publish::{fnv_spec, hex16, FNV_OFFSET};
use crate::text::{chars_of, extend, join, join_exec, lines, lines_of, same, split, split_exec, string_of, texts, views};

verus! {

/// The marker's file name.
pub const MARKER: &'static str = ".trantor-new";

/// The hash a marker records for a file's bytes: FNV-1a, as 16 hex digits.
pub open spec fn content_hash(bytes: Seq<u8>) -> Seq<char> {
    hex16(fnv_spec(bytes, FNV_OFFSET))
}

/// The marker line for the file `rel`, written with `bytes`.
pub open spec fn file_line_spec(rel: Seq<char>, bytes: Seq<u8>) -> Seq<char> {
    "file\t"@ + rel + "\t"@ + content_hash(bytes) + "\n"@
}

pub fn file_line(rel: &str, bytes: &[u8]) -> (out: String)
    ensures
        out@ == file_line_spec(rel@, bytes@),
{
    let mut o = chars_of("file\t");
    extend(&mut o, &chars_of(rel));
    extend(&mut o, &chars_of("\t"));
    extend(&mut o, &chars_of(crate::publish::hex16_exec(crate::publish::fnv1a(bytes, FNV_OFFSET)).as_str()));
    extend(&mut o, &chars_of("\n"));
    string_of(&o)
}

/// The marker line for the directory `path`, which the run creates.
pub open spec fn dir_line_spec(path: Seq<char>) -> Seq<char> {
    "dir\t"@ + path + "\n"@
}

pub fn dir_line(path: &str) -> (out: String)
    ensures
        out@ == dir_line_spec(path@),
{
    let mut o = chars_of("dir\t");
    extend(&mut o, &chars_of(path));
    extend(&mut o, &chars_of("\n"));
    string_of(&o)
}

/// The file entries without `rel`'s.
pub open spec fn without(fs: Seq<(Seq<char>, Seq<char>)>, rel: Seq<char>) -> Seq<(Seq<char>, Seq<char>)>
    decreases fs.len(),
{
    if fs.len() == 0 {
        fs
    } else {
        let w = without(fs.drop_last(), rel);
        if fs.last().0 == rel {
            w
        } else {
            w.push(fs.last())
        }
    }
}

/// What a marker's lines record: each file the run wrote, once, with the
/// hash it was last written with, in the order of their last lines; and each
/// directory it created, in order. Other lines are passed over.
pub open spec fn marker_spec(ls: Seq<Seq<char>>) -> (Seq<(Seq<char>, Seq<char>)>, Seq<Seq<char>>)
    decreases ls.len(),
{
    if ls.len() == 0 {
        (Seq::empty(), Seq::empty())
    } else {
        let (fs, ds) = marker_spec(ls.drop_last());
        let parts = split(ls.last(), '\t');
        if parts.len() == 3 && parts[0] == "file"@ {
            (without(fs, parts[1]).push((parts[1], parts[2])), ds)
        } else if parts.len() == 2 && parts[0] == "dir"@ {
            (fs, ds.push(parts[1]))
        } else {
            (fs, ds)
        }
    }
}

pub open spec fn file_views(v: Seq<(String, String)>) -> Seq<(Seq<char>, Seq<char>)> {
    v.map_values(|e: (String, String)| (e.0@, e.1@))
}

fn drop_file(fs: &mut Vec<(String, String)>, rel: &[char])
    ensures
        file_views(final(fs)@) == without(file_views(old(fs)@), rel@),
{
    let ghost f0 = file_views(fs@);
    let mut out: Vec<(String, String)> = Vec::new();
    let mut rest: Vec<(String, String)> = Vec::new();
    std::mem::swap(&mut rest, fs);
    let ghost mut done: int = 0;
    assert(file_views(rest@) =~= f0.skip(0));
    assert(f0.take(0) =~= Seq::<(Seq<char>, Seq<char>)>::empty());
    assert(file_views(out@) =~= without(f0.take(0), rel@));
    while rest.len() > 0
        invariant
            0 <= done <= f0.len(),
            rest@.len() == f0.len() - done,
            file_views(rest@) == f0.skip(done),
            file_views(out@) == without(f0.take(done), rel@),
        decreases rest@.len(),
    {
        let ghost before = rest@;
        let e = rest.remove(0);
        proof {
            assert(file_views(before)[0] == (e.0@, e.1@));
            assert(f0.skip(done)[0] == f0[done]);
            assert(f0.take(done + 1).drop_last() =~= f0.take(done));
            assert(f0.take(done + 1).last() == f0[done]);
            assert forall|k: int| 0 <= k < rest@.len() implies file_views(rest@)[k] == f0.skip(done + 1)[k] by {
                assert(rest@[k] == before[k + 1]);
                assert(file_views(before)[k + 1] == f0.skip(done)[k + 1]);
            }
            assert(file_views(rest@) =~= f0.skip(done + 1));
        }
        if !same(&chars_of(e.0.as_str()), rel) {
            let ghost b = file_views(out@);
            let ghost ev = (e.0@, e.1@);
            out.push(e);
            assert(file_views(out@) =~= b.push(ev));
        }
        proof {
            done = done + 1;
        }
    }
    assert(f0.take(done) =~= f0);
    *fs = out;
}

/// The files and directories a marker's text records; see `marker_spec`.
pub fn marker_entries(text: &str) -> (r: (Vec<(String, String)>, Vec<String>))
    ensures
        (file_views(r.0@), texts(r.1@)) == marker_spec(lines(text@)),
{
    let ls = lines_of(&chars_of(text));
    let ghost lv = lines(text@);
    let mut files: Vec<(String, String)> = Vec::new();
    let mut dirs: Vec<String> = Vec::new();
    let mut i: usize = 0;
    assert(lv.take(0) =~= Seq::<Seq<char>>::empty());
    assert(file_views(files@) =~= Seq::<(Seq<char>, Seq<char>)>::empty());
    assert(texts(dirs@) =~= Seq::<Seq<char>>::empty());
    while i < ls.len()
        invariant
            i <= ls@.len(),
            views(ls@) == lv,
            (file_views(files@), texts(dirs@)) == marker_spec(lv.take(i as int)),
        decreases ls@.len() - i,
    {
        assert(lv.take(i + 1).drop_last() =~= lv.take(i as int));
        assert(lv.take(i + 1).last() == ls@[i as int]@);
        let parts = split_exec(&ls[i], '\t');
        assert(views(parts@) == split(ls@[i as int]@, '\t'));
        if parts.len() == 3 && same(&parts[0], &chars_of("file")) {
            assert(views(parts@)[0] == parts@[0]@ && views(parts@)[1] == parts@[1]@ && views(parts@)[2]
                == parts@[2]@);
            drop_file(&mut files, &parts[1]);
            let ghost b = file_views(files@);
            let e = (string_of(&parts[1]), string_of(&parts[2]));
            let ghost ev = (e.0@, e.1@);
            files.push(e);
            assert(file_views(files@) =~= b.push(ev));
        } else if parts.len() == 2 && same(&parts[0], &chars_of("dir")) {
            assert(views(parts@)[0] == parts@[0]@ && views(parts@)[1] == parts@[1]@);
            let ghost b = texts(dirs@);
            let d = string_of(&parts[1]);
            dirs.push(d);
            assert(texts(dirs@) =~= b.push(parts@[1]@));
        } else {
            proof {
                if parts@.len() == 3 {
                    assert(views(parts@)[0] == parts@[0]@);
                }
                if parts@.len() == 2 {
                    assert(views(parts@)[0] == parts@[0]@);
                }
            }
        }
        i += 1;
    }
    assert(lv.take(ls@.len() as int) =~= lv);
    (files, dirs)
}

/// A file still holds exactly the bytes the run wrote: its hash is the one
/// recorded.
pub fn unchanged(bytes: &[u8], hash: &str) -> (r: bool)
    ensures
        r == (content_hash(bytes@) == hash@),
{
    let h = crate::publish::hex16_exec(crate::publish::fnv1a(bytes, FNV_OFFSET));
    same(&chars_of(h.as_str()), &chars_of(hash))
}

/// Why a killed run's leftovers were kept: the files changed since.
pub open spec fn changed_msg(dir: Seq<char>, changed: Seq<Seq<char>>, marker: Seq<char>) -> Seq<char> {
    "an interrupted `trantor new` in "@ + dir + " wrote "@ + join(changed, ", "@)
        + ", which changed since, so they were kept. Delete them to start over, or delete "@ + marker
        + " to keep the project as it is"@
}

pub fn changed_error(dir: &str, changed: &Vec<String>, marker: &str) -> (out: String)
    ensures
        out@ == changed_msg(dir@, texts(changed@), marker@),
{
    let mut vs: Vec<Vec<char>> = Vec::new();
    let mut i: usize = 0;
    while i < changed.len()
        invariant
            i <= changed@.len(),
            views(vs@) == texts(changed@).take(i as int),
        decreases changed@.len() - i,
    {
        let x = chars_of(changed[i].as_str());
        let ghost before = views(vs@);
        vs.push(x);
        assert(views(vs@) =~= before.push(x@));
        assert(views(vs@) =~= texts(changed@).take(i + 1));
        i += 1;
    }
    assert(texts(changed@).take(changed@.len() as int) =~= texts(changed@));
    let mut o = chars_of("an interrupted `trantor new` in ");
    extend(&mut o, &chars_of(dir));
    extend(&mut o, &chars_of(" wrote "));
    extend(&mut o, &join_exec(&vs, &chars_of(", ")));
    extend(&mut o, &chars_of(", which changed since, so they were kept. Delete them to start over, or delete "));
    extend(&mut o, &chars_of(marker));
    extend(&mut o, &chars_of(" to keep the project as it is"));
    string_of(&o)
}

} // verus!
