//! Which component put each `platform/<Module>.roc` there: one module, one
//! source, and a second source for a module is an error naming both.
use vstd::prelude::*;

use crate::text::{chars_of, extend, same, split, split_exec, starts, string_of, views};

verus! {

/// A path's parts as `Path` compares them: whether it is absolute, whether
/// it starts with a `.` of its own, and its named parts, with empty parts
/// and every other `.` left out.
pub open spec fn path_key(p: Seq<char>) -> (bool, bool, Seq<Seq<char>>) {
    let absolute = starts(p, "/"@);
    let cur = !absolute && (p == "."@ || starts(p, "./"@));
    (absolute, cur, named_parts(split(p, '/')))
}

/// The parts that are neither empty nor `.`.
pub open spec fn named_parts(ps: Seq<Seq<char>>) -> Seq<Seq<char>>
    decreases ps.len(),
{
    if ps.len() == 0 {
        Seq::<Seq<char>>::empty()
    } else {
        let rest = named_parts(ps.drop_last());
        let p = ps.last();
        if p.len() == 0 || p == "."@ {
            rest
        } else {
            rest.push(p)
        }
    }
}

fn path_key_exec(p: &[char]) -> (r: (bool, bool, Vec<Vec<char>>))
    ensures
        (r.0, r.1, views(r.2@)) == path_key(p@),
{
    let absolute = crate::text::starts_with(p, &chars_of("/"));
    let cur = !absolute && (same(p, &chars_of(".")) || crate::text::starts_with(p, &chars_of("./")));
    let ps = split_exec(p, '/');
    let ghost pv = views(ps@);
    let dot = chars_of(".");
    let mut out: Vec<Vec<char>> = Vec::new();
    let mut i: usize = 0;
    assert(pv.take(0) =~= Seq::<Seq<char>>::empty());
    assert(views(out@) =~= Seq::<Seq<char>>::empty());
    while i < ps.len()
        invariant
            i <= ps@.len(),
            pv == views(ps@),
            dot@ == "."@,
            views(out@) == named_parts(pv.take(i as int)),
        decreases ps@.len() - i,
    {
        assert(pv.take(i + 1).drop_last() =~= pv.take(i as int));
        assert(pv.take(i + 1).last() == ps@[i as int]@);
        if !(ps[i].len() == 0 || same(&ps[i], &dot)) {
            let ghost before = views(out@);
            out.push(ps[i].clone());
            assert(views(out@) =~= before.push(ps@[i as int]@));
        }
        i += 1;
    }
    assert(pv.take(ps@.len() as int) =~= pv);
    (absolute, cur, out)
}

/// Two paths name one file, as `Path` equality sees it.
pub open spec fn same_file(a: Seq<char>, b: Seq<char>) -> bool {
    path_key(a) == path_key(b)
}

pub fn same_path(a: &str, b: &str) -> (r: bool)
    ensures
        r == same_file(a@, b@),
{
    let ka = path_key_exec(&chars_of(a));
    let kb = path_key_exec(&chars_of(b));
    assert(path_key(a@) == (ka.0, ka.1, views(ka.2@)));
    assert(path_key(b@) == (kb.0, kb.1, views(kb.2@)));
    if ka.0 != kb.0 || ka.1 != kb.1 || ka.2.len() != kb.2.len() {
        proof {
            if ka.2.len() != kb.2.len() {
                assert(views(ka.2@).len() != views(kb.2@).len());
            }
            assert(!same_file(a@, b@));
        }
        return false;
    }
    let mut i: usize = 0;
    while i < ka.2.len()
        invariant
            i <= ka.2@.len(),
            ka.2@.len() == kb.2@.len(),
            path_key(a@) == (ka.0, ka.1, views(ka.2@)),
            path_key(b@) == (kb.0, kb.1, views(kb.2@)),
            forall|j: int| 0 <= j < i ==> views(ka.2@)[j] == views(kb.2@)[j],
        decreases ka.2@.len() - i,
    {
        if !same(&ka.2[i], &kb.2[i]) {
            assert(views(ka.2@)[i as int] != views(kb.2@)[i as int]);
            assert(views(ka.2@) != views(kb.2@));
            assert(!same_file(a@, b@));
            return false;
        }
        i += 1;
    }
    assert(views(ka.2@) =~= views(kb.2@));
    assert(same_file(a@, b@));
    true
}

/// The modules claimed so far: each module, the file it came from, and who
/// shipped it.
pub struct Shipped {
    seen: Vec<(String, String, String)>,
}

/// Where module `m` is among the claims, from `i` on, or the number of
/// claims.
pub open spec fn claim_index(v: Seq<(Seq<char>, Seq<char>, Seq<char>)>, m: Seq<char>, i: int) -> int
    decreases v.len() - i,
{
    if i < 0 || i >= v.len() {
        v.len() as int
    } else if v[i].0 == m {
        i
    } else {
        claim_index(v, m, i + 1)
    }
}

/// No module is claimed twice.
pub open spec fn one_source(v: Seq<(Seq<char>, Seq<char>, Seq<char>)>) -> bool {
    forall|i: int, j: int| 0 <= i < j < v.len() ==> v[i].0 != v[j].0
}

pub open spec fn two_sources_msg(module: Seq<char>, first: Seq<char>, path: Seq<char>, who: Seq<char>, from: Seq<char>) -> Seq<char> {
    "two sources for the platform module `"@ + module + "`: "@ + first + " ("@ + path + ") and "@ + who
        + " ("@ + from
        + "). A module name can come from one place only — rename one, or leave one out of the world"@
}

impl View for Shipped {
    type V = Seq<(Seq<char>, Seq<char>, Seq<char>)>;

    closed spec fn view(&self) -> Seq<(Seq<char>, Seq<char>, Seq<char>)> {
        self.seen@.map_values(|c: (String, String, String)| (c.0@, c.1@, c.2@))
    }
}

impl Default for Shipped {
    fn default() -> (s: Self)
        ensures
            s@ == Seq::<(Seq<char>, Seq<char>, Seq<char>)>::empty(),
    {
        Shipped::new()
    }
}

impl Shipped {
    pub fn new() -> (s: Self)
        ensures
            s@ == Seq::<(Seq<char>, Seq<char>, Seq<char>)>::empty(),
    {
        let s = Shipped { seen: Vec::new() };
        assert(s@ =~= Seq::<(Seq<char>, Seq<char>, Seq<char>)>::empty());
        s
    }

    /// Claim `module` for the file `from`, shipped by `who`: the same file
    /// claimed again is one source; another file for a claimed module is
    /// an error naming both, and changes nothing.
    pub fn claim(&mut self, module: &str, from: &str, who: &str) -> (r: Result<(), String>)
        ensures
            one_source(old(self)@) ==> one_source(final(self)@),
            ({
                let k = claim_index(old(self)@, module@, 0);
                if k < old(self)@.len() {
                    &&& final(self)@ == old(self)@
                    &&& match r {
                        Ok(_) => same_file(old(self)@[k].1, from@),
                        Err(e) => !same_file(old(self)@[k].1, from@) && e@ == two_sources_msg(
                            module@,
                            old(self)@[k].2,
                            old(self)@[k].1,
                            who@,
                            from@,
                        ),
                    }
                } else {
                    &&& r is Ok
                    &&& final(self)@ == old(self)@.push((module@, from@, who@))
                }
            }),
    {
        let ghost v = self@;
        let m = chars_of(module);
        let mut i: usize = 0;
        while i < self.seen.len()
            invariant
                i <= self.seen@.len(),
                v == self@,
                m@ == module@,
                claim_index(v, module@, i as int) == claim_index(v, module@, 0),
            decreases self.seen@.len() - i,
        {
            assert(v[i as int].0 == self.seen@[i as int].0@);
            if same(&chars_of(self.seen[i].0.as_str()), &m) {
                assert(claim_index(v, module@, i as int) == i);
                if same_path(self.seen[i].1.as_str(), from) {
                    return Ok(());
                }
                let mut e = chars_of("two sources for the platform module `");
                extend(&mut e, &m);
                extend(&mut e, &chars_of("`: "));
                extend(&mut e, &chars_of(self.seen[i].2.as_str()));
                extend(&mut e, &chars_of(" ("));
                extend(&mut e, &chars_of(self.seen[i].1.as_str()));
                extend(&mut e, &chars_of(") and "));
                extend(&mut e, &chars_of(who));
                extend(&mut e, &chars_of(" ("));
                extend(&mut e, &chars_of(from));
                extend(
                    &mut e,
                    &chars_of(
                        "). A module name can come from one place only — rename one, or leave one out of the world",
                    ),
                );
                return Err(string_of(&e));
            }
            i += 1;
        }
        assert(forall|j: int| 0 <= j < v.len() ==> v[j].0 != module@) by {
            lemma_claim_index_absent(v, module@, 0);
        }
        let entry = (string_of(&m), string_of(&chars_of(from)), string_of(&chars_of(who)));
        self.seen.push(entry);
        assert(self@ =~= v.push((module@, from@, who@)));
        Ok(())
    }
}

proof fn lemma_claim_index_absent(v: Seq<(Seq<char>, Seq<char>, Seq<char>)>, m: Seq<char>, i: int)
    requires
        0 <= i <= v.len(),
        claim_index(v, m, i) >= v.len(),
    ensures
        forall|j: int| i <= j < v.len() ==> v[j].0 != m,
    decreases v.len() - i,
{
    if i < v.len() {
        lemma_claim_index_absent(v, m, i + 1);
    }
}

} // verus!
