//! Edits to a project's manifest and lock that survive being interrupted:
//! the old bytes are saved in `.trantor-edit/` first, and the next command
//! puts them back when an edit was left half done. These are the decisions
//! of that recovery.
use vstd::prelude::*;

use crate::text::{chars_of, decimal, dec, extend, join, join_exec, lines, lines_of, string_of, texts, trim, trimmed, views};

verus! {

pub const JOURNAL_DIR: &'static str = ".trantor-edit";

/// The suffix of the entry that records a file as absent before the edit.
pub const ABSENT: &'static str = ".absent";

/// The entry that holds the editing process's id.
pub const OWNER: &'static str = ".pid";

/// The process an owner file names: its trimmed text as a `u32`.
pub open spec fn owner_spec(text: Seq<char>) -> Option<int> {
    match crate::symbols::parse_u64_spec(trim(text)) {
        Some(n) => if n <= u32::MAX {
            Some(n)
        } else {
            None
        },
        None => None,
    }
}

pub fn owner_of(text: &str) -> (r: Option<u32>)
    ensures
        match r {
            Some(n) => owner_spec(text@) == Some(n as int),
            None => owner_spec(text@) is None,
        },
{
    match crate::symbols::parse_u64(&trimmed(&chars_of(text))) {
        Some(n) => if n <= 0xffff_ffff {
            Some(n as u32)
        } else {
            None
        },
        None => None,
    }
}

pub open spec fn busy_msg(pid: int, project: Seq<char>) -> Seq<char> {
    "another trantor (pid "@ + dec(pid as nat) + ") is editing "@ + project + " — wait for it to finish"@
}

/// A journal whose owner is another process that is still alive is not
/// rolled back under it; `alive` says whether the owner is.
pub fn owner_check(owner: Option<u32>, me: u32, alive: bool, project: &str) -> (r: Result<(), String>)
    ensures
        match owner {
            Some(p) if p != me && alive => r matches Err(e) && e@ == busy_msg(p as int, project@),
            _ => r is Ok,
        },
{
    match owner {
        Some(p) => {
            if p != me && alive {
                let mut m = chars_of("another trantor (pid ");
                extend(&mut m, &decimal(p as usize));
                extend(&mut m, &chars_of(") is editing "));
                extend(&mut m, &chars_of(project));
                extend(&mut m, &chars_of(" — wait for it to finish"));
                return Err(string_of(&m));
            }
            Ok(())
        },
        None => Ok(()),
    }
}

/// The entry that lists the journaled files, one per line. A journal
/// without it cannot say what it holds, so it is never rolled back.
pub const FILES: &'static str = ".files";

/// The suffix of the entry that holds what the edit wrote to a file, once
/// it was written.
pub const WRITTEN: &'static str = ".written";

/// The files a journal lists: the non-empty lines of its list.
pub open spec fn listed_spec(ls: Seq<Seq<char>>) -> Seq<Seq<char>>
    decreases ls.len(),
{
    if ls.len() == 0 {
        Seq::empty()
    } else if ls.last().len() == 0 {
        listed_spec(ls.drop_last())
    } else {
        listed_spec(ls.drop_last()).push(ls.last())
    }
}

pub fn listed_files(list: &str) -> (out: Vec<String>)
    ensures
        texts(out@) == listed_spec(lines(list@)),
{
    let ls = lines_of(&chars_of(list));
    let mut out: Vec<String> = Vec::new();
    let mut i: usize = 0;
    while i < ls.len()
        invariant
            i <= ls@.len(),
            views(ls@) == lines(list@),
            texts(out@) == listed_spec(views(ls@).take(i as int)),
        decreases ls@.len() - i,
    {
        assert(views(ls@).take(i + 1).drop_last() =~= views(ls@).take(i as int));
        assert(views(ls@).take(i + 1).last() == ls@[i as int]@);
        if ls[i].len() > 0 {
            let ghost before = texts(out@);
            let x = string_of(&ls[i]);
            out.push(x);
            assert(texts(out@) =~= before.push(ls@[i as int]@));
        }
        i += 1;
    }
    assert(views(ls@).take(ls@.len() as int) =~= views(ls@));
    out
}

/// What recovery does with one journaled file.
#[derive(PartialEq, Eq, Structural, Clone, Copy, Debug)]
pub enum Restore {
    /// It did not exist before the edit and the edit left it: remove it.
    Remove,
    /// It is as it was before the edit: leave it, so a restore that changes
    /// nothing needs no write permission.
    Keep,
    /// The edit left it: write the saved bytes back.
    Write,
    /// It changed after the edit was written, so someone else changed it:
    /// keep it as it is, and keep the journal.
    Conflict,
}

/// How a file is restored. `was_absent` when the journal records it as
/// absent before the edit; `exists` whether it exists now; `current` what
/// it holds now, when readable; `saved` what it held before; `written` what
/// the edit wrote to it, once the edit recorded that (none when the edit
/// was interrupted before it finished writing).
pub open spec fn restore_spec(
    was_absent: bool,
    exists: bool,
    current: Option<Seq<u8>>,
    saved: Seq<u8>,
    written: Option<Seq<u8>>,
) -> Restore {
    let as_before = if was_absent {
        !exists
    } else {
        exists && current == Some(saved)
    };
    if as_before {
        Restore::Keep
    } else if written is Some && !(exists && current == written) {
        Restore::Conflict
    } else if was_absent {
        Restore::Remove
    } else {
        Restore::Write
    }
}

/// Whether two byte strings are equal.
pub fn same_bytes(a: &[u8], b: &[u8]) -> (r: bool)
    ensures
        r == (a@ == b@),
{
    if a.len() != b.len() {
        return false;
    }
    let mut i: usize = 0;
    while i < a.len()
        invariant
            i <= a@.len(),
            a@.len() == b@.len(),
            forall|k: int| 0 <= k < i ==> a@[k] == b@[k],
        decreases a@.len() - i,
    {
        if a[i] != b[i] {
            return false;
        }
        i += 1;
    }
    assert(a@ =~= b@);
    true
}

pub open spec fn opt_bytes(v: Option<&[u8]>) -> Option<Seq<u8>> {
    match v {
        Some(c) => Some(c@),
        None => None,
    }
}

pub fn restore_action(was_absent: bool, exists: bool, current: Option<&[u8]>, saved: &[u8], written: Option<&[u8]>) -> (r: Restore)
    ensures
        r == restore_spec(was_absent, exists, opt_bytes(current), saved@, opt_bytes(written)),
{
    let as_before = if was_absent {
        !exists
    } else {
        exists && match current {
            Some(c) => same_bytes(c, saved),
            None => false,
        }
    };
    if as_before {
        return Restore::Keep;
    }
    let ours = match written {
        None => true,
        Some(w) => exists && match current {
            Some(c) => same_bytes(c, w),
            None => false,
        },
    };
    if !ours {
        Restore::Conflict
    } else if was_absent {
        Restore::Remove
    } else {
        Restore::Write
    }
}

/// The files whose restore is a conflict, in order.
pub open spec fn conflicted_spec(files: Seq<Seq<char>>, acts: Seq<Restore>) -> Seq<Seq<char>>
    decreases files.len(),
{
    if files.len() == 0 {
        Seq::empty()
    } else if acts[files.len() - 1] == Restore::Conflict {
        conflicted_spec(files.drop_last(), acts).push(files.last())
    } else {
        conflicted_spec(files.drop_last(), acts)
    }
}

/// The files that changed after the edit was written. Recovery restores
/// nothing while there is one, so a manifest and its lock stay together.
pub fn conflicted(files: &Vec<String>, acts: &Vec<Restore>) -> (out: Vec<String>)
    requires
        files@.len() == acts@.len(),
    ensures
        texts(out@) == conflicted_spec(texts(files@), acts@),
{
    let mut out: Vec<String> = Vec::new();
    let mut i: usize = 0;
    while i < files.len()
        invariant
            i <= files@.len(),
            files@.len() == acts@.len(),
            texts(out@) == conflicted_spec(texts(files@).take(i as int), acts@),
        decreases files@.len() - i,
    {
        assert(texts(files@).take(i + 1).drop_last() =~= texts(files@).take(i as int));
        assert(texts(files@).take(i + 1).last() == files@[i as int]@);
        if acts[i] == Restore::Conflict {
            let ghost before = texts(out@);
            let x = string_of(&chars_of(files[i].as_str()));
            out.push(x);
            assert(texts(out@) =~= before.push(files@[i as int]@));
        }
        i += 1;
    }
    assert(texts(files@).take(files@.len() as int) =~= texts(files@));
    out
}

/// What the next command says when it keeps a journal because files in it
/// changed after the edit was written.
pub open spec fn conflict_spec(project: Seq<char>, files: Seq<Seq<char>>) -> Seq<char> {
    "an interrupted `trantor add`/`update`/`remove` in "@ + project + " was not undone: "@ + join(files, " and "@)
        + " changed after it wrote them, so nothing was restored. The previous files are in "@
        + JOURNAL_DIR@ + "; restore what you want from there, then delete it"@
}

pub fn conflict_note(project: &str, files: &Vec<String>) -> (out: String)
    ensures
        out@ == conflict_spec(project@, texts(files@)),
{
    let vs = views_of(files);
    let mut o = chars_of("an interrupted `trantor add`/`update`/`remove` in ");
    extend(&mut o, &chars_of(project));
    extend(&mut o, &chars_of(" was not undone: "));
    extend(&mut o, &join_exec(&vs, &chars_of(" and ")));
    extend(&mut o, &chars_of(" changed after it wrote them, so nothing was restored. The previous files are in "));
    extend(&mut o, &chars_of(JOURNAL_DIR));
    extend(&mut o, &chars_of("; restore what you want from there, then delete it"));
    string_of(&o)
}

/// What the next command says of a journal that does not list its files.
pub open spec fn unlisted_spec(project: Seq<char>) -> Seq<char> {
    "an interrupted `trantor add`/`update`/`remove` in "@ + project + " left "@ + JOURNAL_DIR@
        + " without a list of its files, so it was kept as it is; restore what you want from there, then delete it"@
}

pub fn unlisted_note(project: &str) -> (out: String)
    ensures
        out@ == unlisted_spec(project@),
{
    let mut o = chars_of("an interrupted `trantor add`/`update`/`remove` in ");
    extend(&mut o, &chars_of(project));
    extend(&mut o, &chars_of(" left "));
    extend(&mut o, &chars_of(JOURNAL_DIR));
    extend(&mut o, &chars_of(" without a list of its files, so it was kept as it is; restore what you want from there, then delete it"));
    string_of(&o)
}

fn views_of(files: &Vec<String>) -> (vs: Vec<Vec<char>>)
    ensures
        views(vs@) == texts(files@),
{
    let mut vs: Vec<Vec<char>> = Vec::new();
    let mut i: usize = 0;
    while i < files.len()
        invariant
            i <= files@.len(),
            views(vs@) == texts(files@).take(i as int),
        decreases files@.len() - i,
    {
        let x = chars_of(files[i].as_str());
        let ghost before = views(vs@);
        vs.push(x);
        assert(views(vs@) =~= before.push(x@));
        assert(views(vs@) =~= texts(files@).take(i + 1));
        i += 1;
    }
    assert(texts(files@).take(files@.len() as int) =~= texts(files@));
    vs
}

/// The temporary sibling a file is written to before it is renamed over
/// the file.
pub open spec fn tmp_name_spec(name: Seq<char>, pid: int) -> Seq<char> {
    "."@ + name + ".trantor-tmp-"@ + dec(pid as nat)
}

pub fn tmp_name(name: &str, pid: u32) -> (out: String)
    ensures
        out@ == tmp_name_spec(name@, pid as int),
{
    let mut o = chars_of(".");
    extend(&mut o, &chars_of(name));
    extend(&mut o, &chars_of(".trantor-tmp-"));
    extend(&mut o, &decimal(pid as usize));
    string_of(&o)
}

/// What the next command says after undoing an interrupted edit.
pub open spec fn recovered_spec(project: Seq<char>, files: Seq<Seq<char>>) -> Seq<char> {
    "an interrupted `trantor add`/`update`/`remove` in "@ + project + " was undone: "@ + join(files, " and "@)
        + " restored"@
}

pub fn recovered_note(project: &str, files: &Vec<String>) -> (out: String)
    ensures
        out@ == recovered_spec(project@, texts(files@)),
{
    let vs = views_of(files);
    let mut o = chars_of("an interrupted `trantor add`/`update`/`remove` in ");
    extend(&mut o, &chars_of(project));
    extend(&mut o, &chars_of(" was undone: "));
    extend(&mut o, &join_exec(&vs, &chars_of(" and ")));
    extend(&mut o, &chars_of(" restored"));
    string_of(&o)
}

/// Recovery puts a file back as it was before the edit, or leaves it as
/// it is: a file absent before ends absent, any other ends with its saved
/// bytes, unless it changed after the edit wrote it. Such a file is a
/// conflict and is never overwritten; only a file that holds neither what
/// it held before nor what the edit wrote is one.
pub proof fn lemma_restore_puts_back(
    was_absent: bool,
    exists: bool,
    current: Option<Seq<u8>>,
    saved: Seq<u8>,
    written: Option<Seq<u8>>,
)
    ensures
        ({
            let a = restore_spec(was_absent, exists, current, saved, written);
            &&& was_absent && a != Restore::Conflict ==> (a == Restore::Remove) == exists
            &&& !was_absent && a == Restore::Keep ==> exists && current == Some(saved)
            &&& !was_absent ==> a != Restore::Remove
            &&& was_absent ==> a != Restore::Write
            &&& a == Restore::Conflict <==> (written is Some && !(exists && current == written) && !(if was_absent {
                !exists
            } else {
                exists && current == Some(saved)
            }))
            &&& (a == Restore::Write || a == Restore::Remove) ==> (written is None || (exists && current
                == written))
        }),
{
}

} // verus!
