//! Resolution: the wiring's chains, the mangled hosted-symbol map, the
//! archive order (driver first, then topologically), and the compose-time
//! checks the linker will not do: exactly one runtime provider, and no hosted
//! symbol owned twice.
use vstd::prelude::*;

use crate::manifest::{find_key, key_index, lemma_find_key, Component, Driver, Interface, World, well_keyed, keys_of};
use crate::splice::{check_spliceable, spliceable_spec};
use crate::text::{
    ascii_alnum, char_index, char_index_exec, chars_of, debug_list, debug_list_exec, dec, decimal,
    extend, has_text, is_ascii_alnum, join, lemma_char_index, lemma_text_lt_total, lemma_trim_len,
    same, slice_of, sorted_unique, string_of, text_less, text_lt, trim, trimmed, views,
};

verus! {

/// A component name as the identifier segment of a linker symbol: every
/// character that is not an ASCII letter, digit or `_` becomes `_`.
pub open spec fn sanitized(name: Seq<char>) -> Seq<char> {
    name.map_values(|c: char| if is_ascii_alnum(c) || c == '_' { c } else { '_' })
}

pub fn sanitize(name: &str) -> (out: String)
    ensures
        out@ == sanitized(name@),
{
    let cs = chars_of(name);
    let mut out: Vec<char> = Vec::new();
    let mut i: usize = 0;
    while i < cs.len()
        invariant
            i <= cs@.len(),
            cs@ == name@,
            out@ == sanitized(name@).take(i as int),
        decreases cs@.len() - i,
    {
        let c = cs[i];
        if ascii_alnum(c) || c == '_' {
            out.push(c);
        } else {
            out.push('_');
        }
        assert(out@ =~= sanitized(name@).take(i + 1));
        i += 1;
    }
    assert(out@ =~= sanitized(name@));
    string_of(&out)
}

/// One service component and the modules it ships: the command union, and
/// the event union and ambient block when it has them.
pub struct Service {
    pub component: String,
    pub module: String,
    pub event_module: Option<String>,
    pub env_module: Option<String>,
}

/// `trantor__<component>__`, the prefix of a component's symbols.
pub open spec fn symbol_prefix_of(component: Seq<char>) -> Seq<char> {
    "trantor__"@ + sanitized(component) + "__"@
}

impl Service {
    /// The mangled prefix of the component's contract symbols.
    pub fn symbol_prefix(&self) -> (out: String)
        ensures
            out@ == symbol_prefix_of(self.component@),
    {
        let mut p = chars_of("trantor__");
        extend(&mut p, &chars_of(sanitize(self.component.as_str()).as_str()));
        extend(&mut p, &chars_of("__"));
        string_of(&p)
    }
}

/// A wiring expression as its chain, head first: `audit(capstdfs)` is
/// `[audit, capstdfs]`, `stdio` is `[stdio]`.
pub open spec fn chain_of(expr: Seq<char>) -> Seq<Seq<char>>
    decreases expr.len(),
{
    let e = trim(expr);
    let k = char_index(e, '(', 0);
    if k >= e.len() {
        seq![e]
    } else {
        let inner = close_trimmed(e.skip(k + 1));
        proof {
            lemma_trim_len(expr);
            lemma_char_index(e, '(', 0);
            lemma_close_trimmed(e.skip(k + 1));
        }
        seq![trim(e.take(k))] + chain_of(inner)
    }
}

/// `s` without its trailing `)`s.
pub open spec fn close_trimmed(s: Seq<char>) -> Seq<char>
    decreases s.len(),
{
    if s.len() > 0 && s.last() == ')' {
        close_trimmed(s.drop_last())
    } else {
        s
    }
}

pub proof fn lemma_close_trimmed(s: Seq<char>)
    ensures
        close_trimmed(s).len() <= s.len(),
        close_trimmed(s) =~= s.take(close_trimmed(s).len() as int),
    decreases s.len(),
{
    if s.len() > 0 && s.last() == ')' {
        lemma_close_trimmed(s.drop_last());
    }
}

pub proof fn lemma_chain_nonempty(expr: Seq<char>)
    ensures
        chain_of(expr).len() >= 1,
    decreases expr.len(),
{
    let e = trim(expr);
    let k = char_index(e, '(', 0);
    if k < e.len() {
        lemma_trim_len(expr);
        lemma_char_index(e, '(', 0);
        lemma_close_trimmed(e.skip(k + 1));
        lemma_chain_nonempty(close_trimmed(e.skip(k + 1)));
    }
}

pub fn close_trimmed_exec(s: &[char]) -> (out: Vec<char>)
    ensures
        out@ == close_trimmed(s@),
{
    let mut k = s.len();
    assert(s@.take(s@.len() as int) =~= s@);
    while k > 0 && s[k - 1] == ')'
        invariant
            k <= s@.len(),
            close_trimmed(s@.take(k as int)) == close_trimmed(s@),
        decreases k,
    {
        assert(s@.take(k as int).drop_last() =~= s@.take(k - 1));
        k -= 1;
    }
    let out = slice_of(s, 0, k);
    assert(out@ =~= s@.take(k as int));
    out
}

fn chain_chars(expr: &[char]) -> (out: Vec<Vec<char>>)
    ensures
        views(out@) == chain_of(expr@),
    decreases expr@.len(),
{
    let e = trimmed(expr);
    let k = char_index_exec(&e, '(', 0);
    proof {
        lemma_char_index(e@, '(', 0);
    }
    let mut out: Vec<Vec<char>> = Vec::new();
    if k >= e.len() {
        out.push(e);
        assert(views(out@) =~= seq![trim(expr@)]);
        return out;
    }
    let head = slice_of(&e, 0, k);
    let after = slice_of(&e, k + 1, e.len());
    assert(after@ =~= e@.skip(k + 1));
    assert(head@ =~= e@.take(k as int));
    let inner = close_trimmed_exec(&after);
    proof {
        lemma_trim_len(expr@);
        lemma_close_trimmed(after@);
    }
    let rest = chain_chars(&inner);
    out.push(trimmed(&head));
    let mut i: usize = 0;
    while i < rest.len()
        invariant
            i <= rest@.len(),
            views(out@) == seq![trim(head@)] + views(rest@).take(i as int),
        decreases rest@.len() - i,
    {
        let ghost before = views(out@);
        out.push(rest[i].clone());
        assert(views(out@) =~= before.push(rest@[i as int]@));
        assert(views(out@) =~= seq![trim(head@)] + views(rest@).take(i + 1));
        i += 1;
    }
    assert(views(rest@).take(rest@.len() as int) =~= views(rest@));
    out
}

pub open spec fn texts(v: Seq<String>) -> Seq<Seq<char>> {
    v.map_values(|s: String| s@)
}

/// The chain of a wiring expression, head first.
pub fn parse_chain(expr: &str) -> (out: Vec<String>)
    ensures
        texts(out@) == chain_of(expr@),
{
    let cs = chain_chars(&chars_of(expr));
    let mut out: Vec<String> = Vec::new();
    let mut i: usize = 0;
    while i < cs.len()
        invariant
            i <= cs@.len(),
            texts(out@) == views(cs@).take(i as int),
        decreases cs@.len() - i,
    {
        let s = string_of(&cs[i]);
        let ghost before = texts(out@);
        out.push(s);
        assert(texts(out@) =~= before.push(s@));
        assert(texts(out@) =~= views(cs@).take(i + 1));
        i += 1;
    }
    assert(views(cs@).take(cs@.len() as int) =~= views(cs@));
    out
}

/// One resolved hosted symbol: its mangled linker name and the Roc
/// `Module.leaf` it binds to.
pub struct HostedBinding {
    pub symbol: String,
    pub module: String,
    pub leaf: String,
}


/// One wired interface as the world's files gave it: the interface, or why
/// it could not be read; and for a service, its union modules' texts.
pub struct Loaded {
    pub iface: Result<Interface, String>,
    pub unions: Vec<UnionText>,
}

/// A union module of a service interface: its name, where it lives, and its
/// text or why it could not be read.
pub struct UnionText {
    pub module: String,
    pub path: String,
    pub text: Result<String, String>,
}

/// The modules of a service interface that must be spliceable unions: its
/// command union, and its event union when it has one.
pub fn union_modules(iface: &Interface) -> (out: Vec<String>)
    ensures
        texts(out@) == seq![iface.module@] + match iface.event_module {
            Some(e) => seq![e@],
            None => Seq::<Seq<char>>::empty(),
        },
{
    let mut out: Vec<String> = Vec::new();
    out.push(string_of(&chars_of(iface.module.as_str())));
    match &iface.event_module {
        Some(e) => {
            out.push(string_of(&chars_of(e.as_str())));
        },
        None => {},
    }
    assert(texts(out@) =~= seq![iface.module@] + match iface.event_module {
        Some(e) => seq![e@],
        None => Seq::<Seq<char>>::empty(),
    });
    out
}

pub struct Resolved {
    /// Hosted bindings, in interface-name order.
    pub hosted: Vec<HostedBinding>,
    /// The driver first, then the host components topologically.
    pub archive_order: Vec<String>,
    /// Roc modules the composed `main.roc` imports.
    pub imports: Vec<String>,
    pub driver: String,
    /// Interface name and its shipped Roc module, in name order.
    pub interface_modules: Vec<(String, String)>,
    /// Roc-implemented wiring points: (module, providing component).
    pub roc_impls: Vec<(String, String)>,
    /// Service components, in interface-name order.
    pub services: Vec<Service>,
    /// A service's event and env modules: (interface name, module).
    pub extra_modules: Vec<(String, String)>,
}

pub struct ServiceV {
    pub component: Seq<char>,
    pub module: Seq<char>,
    pub event_module: Option<Seq<char>>,
    pub env_module: Option<Seq<char>>,
}

pub open spec fn opt_text(o: Option<String>) -> Option<Seq<char>> {
    match o {
        Some(s) => Some(s@),
        None => None,
    }
}

pub open spec fn service_view(s: Service) -> ServiceV {
    ServiceV {
        component: s.component@,
        module: s.module@,
        event_module: opt_text(s.event_module),
        env_module: opt_text(s.env_module),
    }
}

pub open spec fn binding_view(b: HostedBinding) -> (Seq<char>, Seq<char>, Seq<char>) {
    (b.symbol@, b.module@, b.leaf@)
}

pub open spec fn pairs(v: Seq<(String, String)>) -> Seq<(Seq<char>, Seq<char>)> {
    v.map_values(|p: (String, String)| (p.0@, p.1@))
}

/// What resolution found, as values.
pub struct ResolvedV {
    pub hosted: Seq<(Seq<char>, Seq<char>, Seq<char>)>,
    pub archive_order: Seq<Seq<char>>,
    pub imports: Seq<Seq<char>>,
    pub driver: Seq<char>,
    pub interface_modules: Seq<(Seq<char>, Seq<char>)>,
    pub roc_impls: Seq<(Seq<char>, Seq<char>)>,
    pub services: Seq<ServiceV>,
    pub extra_modules: Seq<(Seq<char>, Seq<char>)>,
}

pub open spec fn resolved_view(r: Resolved) -> ResolvedV {
    ResolvedV {
        hosted: r.hosted@.map_values(|b: HostedBinding| binding_view(b)),
        archive_order: texts(r.archive_order@),
        imports: texts(r.imports@),
        driver: r.driver@,
        interface_modules: pairs(r.interface_modules@),
        roc_impls: pairs(r.roc_impls@),
        services: r.services@.map_values(|s: Service| service_view(s)),
        extra_modules: pairs(r.extra_modules@),
    }
}

// ---------------------------------------------------------------------------
// The wiring
// ---------------------------------------------------------------------------

/// What the wiring has given so far.
pub struct Wired {
    pub hosted: Seq<(Seq<char>, Seq<char>, Seq<char>)>,
    pub modules: Seq<(Seq<char>, Seq<char>)>,
    pub roc_impls: Seq<(Seq<char>, Seq<char>)>,
    pub services: Seq<ServiceV>,
    pub extra: Seq<(Seq<char>, Seq<char>)>,
}

/// The kind of the component named `head`: `host` when it is not declared.
pub open spec fn head_kind(world: World, head: Seq<char>) -> Seq<char> {
    let k = find_key(world.components@, head, 0);
    if k < world.components@.len() {
        world.components@[k].1.kind@
    } else {
        "host"@
    }
}

/// The first error among a service's union texts: one that could not be
/// read, or one that is not a spliceable union.
pub open spec fn unions_error(name: Seq<char>, us: Seq<UnionText>) -> Option<Seq<char>>
    decreases us.len(),
{
    if us.len() == 0 {
        None
    } else {
        match us[0].text {
            Err(e) => Some(e@),
            Ok(t) => match spliceable_spec(t@, us[0].module@) {
                Err(e) => Some("service `"@ + name + "`: "@ + e + " (in "@ + us[0].path@ + ")"@),
                Ok(_) => unions_error(name, us.drop_first()),
            },
        }
    }
}

/// The hosted symbols an interface's leaves get, implemented by `head`.
pub open spec fn leaf_bindings(head: Seq<char>, iface: Interface) -> Seq<(Seq<char>, Seq<char>, Seq<char>)> {
    iface.hosted@.map_values(
        |l: crate::manifest::HostedLeaf|
            ("trantor__"@ + sanitized(head) + "__"@ + l.symbol_stem@, iface.module@, l.leaf@),
    )
}

/// A service's event and env modules, paired with its interface's name.
pub open spec fn extra_of(name: Seq<char>, iface: Interface) -> Seq<(Seq<char>, Seq<char>)> {
    (match iface.event_module {
        Some(e) => seq![(name, e@)],
        None => seq![],
    }) + match iface.env_module {
        Some(e) => seq![(name, e@)],
        None => seq![],
    }
}

/// One wiring entry added.
pub open spec fn wire_step(world: World, name: Seq<char>, expr: Seq<char>, ld: Loaded, acc: Wired) -> Result<
    Wired,
    Seq<char>,
> {
    let chain = chain_of(expr);
    let head = chain[0];
    match ld.iface {
        Err(e) => Err(e@),
        Ok(iface) => {
            let modules = acc.modules.push((name, iface.module@));
            let kind = head_kind(world, head);
            if iface.service() {
                if kind != "host"@ || chain.len() != 1 {
                    Err("service interface `"@ + name
                        + "` must be wired to exactly one host component (got `"@ + expr + "`)"@)
                } else {
                    match unions_error(name, ld.unions@) {
                        Some(e) => Err(e),
                        None => Ok(
                            Wired {
                                modules,
                                extra: acc.extra + extra_of(name, iface),
                                services: acc.services.push(
                                    ServiceV {
                                        component: head,
                                        module: iface.module@,
                                        event_module: opt_text(iface.event_module),
                                        env_module: opt_text(iface.env_module),
                                    },
                                ),
                                ..acc
                            },
                        ),
                    }
                }
            } else if kind == "roc"@ {
                Ok(Wired { modules, roc_impls: acc.roc_impls.push((iface.module@, head)), ..acc })
            } else {
                Ok(Wired { modules, hosted: acc.hosted + leaf_bindings(head, iface), ..acc })
            }
        },
    }
}

/// The first `k` wiring entries added, in name order.
pub open spec fn wire_fold(world: World, loaded: Seq<Loaded>, k: int) -> Result<Wired, Seq<char>>
    decreases k,
{
    if k <= 0 {
        Ok(
            Wired {
                hosted: seq![],
                modules: seq![],
                roc_impls: seq![],
                services: seq![],
                extra: seq![],
            },
        )
    } else {
        match wire_fold(world, loaded, k - 1) {
            Err(e) => Err(e),
            Ok(acc) => wire_step(
                world,
                world.wiring@[k - 1].0@,
                world.wiring@[k - 1].1@,
                loaded[k - 1],
                acc,
            ),
        }
    }
}

// ---------------------------------------------------------------------------
// Interface modules
// ---------------------------------------------------------------------------

/// The interfaces of `[interfaces]` that the wiring did not name, with the
/// module each ships when its manifest could be read.
pub open spec fn shared_extra(
    names: Seq<Seq<char>>,
    shared: Seq<Option<Interface>>,
    wired: Seq<Seq<char>>,
    k: int,
) -> Seq<(Seq<char>, Seq<char>)>
    decreases k,
{
    if k <= 0 {
        seq![]
    } else {
        let rest = shared_extra(names, shared, wired, k - 1);
        if !wired.contains(names[k - 1]) && shared[k - 1] is Some {
            rest.push((names[k - 1], shared[k - 1].unwrap().module@))
        } else {
            rest
        }
    }
}

/// Two name-ordered lists merged in name order.
pub open spec fn merge(a: Seq<(Seq<char>, Seq<char>)>, b: Seq<(Seq<char>, Seq<char>)>) -> Seq<
    (Seq<char>, Seq<char>),
>
    decreases a.len() + b.len(),
{
    if a.len() == 0 {
        b
    } else if b.len() == 0 {
        a
    } else if text_lt(a[0].0, b[0].0) {
        seq![a[0]] + merge(a.drop_first(), b)
    } else {
        seq![b[0]] + merge(a, b.drop_first())
    }
}

// ---------------------------------------------------------------------------
// The checks
// ---------------------------------------------------------------------------

/// The first of `uses` that `exports` lacks, or `uses.len()`.
pub open spec fn unexposed(uses: Seq<Seq<char>>, exports: Seq<Seq<char>>, i: int) -> int
    decreases uses.len() - i,
{
    if i < 0 || i >= uses.len() {
        uses.len() as int
    } else if !exports.contains(uses[i]) {
        i
    } else {
        unexposed(uses, exports, i + 1)
    }
}

pub open spec fn unexposed_msg(used: Seq<char>, exports: Seq<Seq<char>>) -> Seq<char> {
    "driver `requires` names `"@ + used + "` (requires_uses) but it is not in the world's exposes "@
        + debug_list(exports) + "; roc build would SEGFAULT on this (H1b, fault 0x138c). Add `"@ + used
        + "` to [world].exports."@
}

/// The components that set `provides_runtime`, in name order.
pub open spec fn providers(cs: Seq<(String, Component)>) -> Seq<Seq<char>>
    decreases cs.len(),
{
    if cs.len() == 0 {
        seq![]
    } else {
        let rest = providers(cs.drop_last());
        if cs.last().1.provides_runtime {
            rest.push(cs.last().0@)
        } else {
            rest
        }
    }
}

pub open spec fn providers_msg(ps: Seq<Seq<char>>) -> Seq<char> {
    "exactly one component must set provides_runtime = true (found "@ + dec(ps.len()) + ": "@
        + debug_list(ps) + "); the linker would silently first-wins duplicate roc_alloc (H0c)"@
}

/// The first symbol that an earlier one repeats, or `syms.len()`.
pub open spec fn first_repeat(syms: Seq<Seq<char>>, i: int) -> int
    decreases syms.len() - i,
{
    if i < 0 || i >= syms.len() {
        syms.len() as int
    } else if syms.take(i).contains(syms[i]) {
        i
    } else {
        first_repeat(syms, i + 1)
    }
}


// ---------------------------------------------------------------------------
// Executing the wiring
// ---------------------------------------------------------------------------

pub open spec fn wired_view(
    hosted: Seq<HostedBinding>,
    modules: Seq<(String, String)>,
    roc_impls: Seq<(String, String)>,
    services: Seq<Service>,
    extra: Seq<(String, String)>,
) -> Wired {
    Wired {
        hosted: hosted.map_values(|b: HostedBinding| binding_view(b)),
        modules: pairs(modules),
        roc_impls: pairs(roc_impls),
        services: services.map_values(|s: Service| service_view(s)),
        extra: pairs(extra),
    }
}

fn copy_text(s: &String) -> (out: String)
    ensures
        out@ == s@,
{
    string_of(&chars_of(s.as_str()))
}

fn copy_opt(o: &Option<String>) -> (out: Option<String>)
    ensures
        opt_text(out) == opt_text(*o),
{
    match o {
        Some(s) => Some(copy_text(s)),
        None => None,
    }
}

fn kind_of(world: &World, head: &str) -> (r: String)
    ensures
        r@ == head_kind(*world, head@),
{
    let k = key_index(&world.components, head);
    if k < world.components.len() {
        copy_text(&world.components[k].1.kind)
    } else {
        string_of(&chars_of("host"))
    }
}

fn unions_check(name: &str, us: &Vec<UnionText>) -> (r: Option<String>)
    ensures
        match r {
            Some(e) => unions_error(name@, us@) == Some(e@),
            None => unions_error(name@, us@) is None,
        },
{
    let mut i: usize = 0;
    assert(us@.skip(0) =~= us@);
    while i < us.len()
        invariant
            i <= us@.len(),
            unions_error(name@, us@.skip(i as int)) == unions_error(name@, us@),
        decreases us@.len() - i,
    {
        assert(us@.skip(i as int)[0] == us@[i as int]);
        assert(us@.skip(i as int).drop_first() =~= us@.skip(i + 1));
        let u = &us[i];
        match &u.text {
            Err(e) => {
                return Some(copy_text(e));
            },
            Ok(t) => match check_spliceable(t.as_str(), u.module.as_str()) {
                Err(e) => {
                    let mut m = chars_of("service `");
                    extend(&mut m, &chars_of(name));
                    extend(&mut m, &chars_of("`: "));
                    extend(&mut m, &chars_of(e.as_str()));
                    extend(&mut m, &chars_of(" (in "));
                    extend(&mut m, &chars_of(u.path.as_str()));
                    extend(&mut m, &chars_of(")"));
                    return Some(string_of(&m));
                },
                Ok(_) => {},
            },
        }
        i += 1;
    }
    assert(us@.skip(us@.len() as int) =~= Seq::<UnionText>::empty());
    None
}

fn push_pair(v: &mut Vec<(String, String)>, a: &str, b: &str)
    ensures
        pairs(final(v)@) == pairs(old(v)@).push((a@, b@)),
{
    let ghost before = pairs(v@);
    let x = string_of(&chars_of(a));
    let y = string_of(&chars_of(b));
    v.push((x, y));
    assert(pairs(v@) =~= before.push((a@, b@)));
}

proof fn lemma_wire_err(world: World, loaded: Seq<Loaded>, k: int, n: int)
    requires
        0 <= k <= n,
        wire_fold(world, loaded, k) is Err,
    ensures
        wire_fold(world, loaded, n) == wire_fold(world, loaded, k),
    decreases n - k,
{
    if k < n {
        lemma_wire_err(world, loaded, k, n - 1);
    }
}

/// The wiring, in name order: each interface's module, and its hosted
/// symbols, Roc implementation or service.
fn wire(world: &World, loaded: &Vec<Loaded>) -> (r: Result<
    (Vec<HostedBinding>, Vec<(String, String)>, Vec<(String, String)>, Vec<Service>, Vec<(String, String)>),
    String,
>)
    requires
        loaded@.len() == world.wiring@.len(),
    ensures
        match r {
            Ok((h, m, ri, sv, ex)) => wire_fold(*world, loaded@, world.wiring@.len() as int) == Ok::<
                Wired,
                Seq<char>,
            >(wired_view(h@, m@, ri@, sv@, ex@)),
            Err(e) => wire_fold(*world, loaded@, world.wiring@.len() as int) == Err::<
                Wired,
                Seq<char>,
            >(e@),
        },
{
    let mut hosted: Vec<HostedBinding> = Vec::new();
    let mut modules: Vec<(String, String)> = Vec::new();
    let mut roc_impls: Vec<(String, String)> = Vec::new();
    let mut services: Vec<Service> = Vec::new();
    let mut extra: Vec<(String, String)> = Vec::new();
    let mut w: usize = 0;
    assert(hosted@.map_values(|b: HostedBinding| binding_view(b)) =~= Seq::<(Seq<char>, Seq<char>, Seq<char>)>::empty());
    assert(pairs(modules@) =~= Seq::<(Seq<char>, Seq<char>)>::empty());
    assert(pairs(roc_impls@) =~= Seq::<(Seq<char>, Seq<char>)>::empty());
    assert(pairs(extra@) =~= Seq::<(Seq<char>, Seq<char>)>::empty());
    assert(services@.map_values(|s: Service| service_view(s)) =~= Seq::<ServiceV>::empty());
    assert(wired_view(hosted@, modules@, roc_impls@, services@, extra@) == Wired {
        hosted: seq![],
        modules: seq![],
        roc_impls: seq![],
        services: seq![],
        extra: seq![],
    });
    while w < world.wiring.len()
        invariant
            w <= world.wiring@.len(),
            loaded@.len() == world.wiring@.len(),
            wire_fold(*world, loaded@, w as int) == Ok::<Wired, Seq<char>>(
                wired_view(hosted@, modules@, roc_impls@, services@, extra@),
            ),
        decreases world.wiring@.len() - w,
    {
        let name = &world.wiring[w].0;
        let expr = &world.wiring[w].1;
        let chain = parse_chain(expr.as_str());
        proof {
            lemma_chain_nonempty(expr@);
        }
        let head = &chain[0];
        let ld = &loaded[w];
        let ghost acc = wired_view(hosted@, modules@, roc_impls@, services@, extra@);
        let iface = match &ld.iface {
            Err(e) => {
                proof {
                    lemma_wire_err(*world, loaded@, w + 1, world.wiring@.len() as int);
                }
                return Err(copy_text(e));
            },
            Ok(i) => i,
        };
        push_pair(&mut modules, name.as_str(), iface.module.as_str());
        let kind = kind_of(world, head.as_str());
        if iface.is_service() {
            if !same(&chars_of(kind.as_str()), &chars_of("host")) || chain.len() != 1 {
                let mut m = chars_of("service interface `");
                extend(&mut m, &chars_of(name.as_str()));
                extend(&mut m, &chars_of("` must be wired to exactly one host component (got `"));
                extend(&mut m, &chars_of(expr.as_str()));
                extend(&mut m, &chars_of("`)"));
                assert(wire_fold(*world, loaded@, w + 1) == Err::<Wired, Seq<char>>(m@));
                proof {
                    lemma_wire_err(*world, loaded@, w + 1, world.wiring@.len() as int);
                }
                return Err(string_of(&m));
            }
            match unions_check(name.as_str(), &ld.unions) {
                Some(e) => {
                    assert(wire_fold(*world, loaded@, w + 1) == Err::<Wired, Seq<char>>(e@));
                    proof {
                        lemma_wire_err(*world, loaded@, w + 1, world.wiring@.len() as int);
                    }
                    return Err(e);
                },
                None => {},
            }
            let ghost ex0 = pairs(extra@);
            match &iface.event_module {
                Some(e) => push_pair(&mut extra, name.as_str(), e.as_str()),
                None => {},
            }
            match &iface.env_module {
                Some(e) => push_pair(&mut extra, name.as_str(), e.as_str()),
                None => {},
            }
            assert(pairs(extra@) =~= ex0 + extra_of(name@, *iface));
            let sv = Service {
                component: copy_text(head),
                module: copy_text(&iface.module),
                event_module: copy_opt(&iface.event_module),
                env_module: copy_opt(&iface.env_module),
            };
            let ghost s0 = services@.map_values(|s: Service| service_view(s));
            services.push(sv);
            assert(services@.map_values(|s: Service| service_view(s)) =~= s0.push(service_view(sv)));
        } else if same(&chars_of(kind.as_str()), &chars_of("roc")) {
            push_pair(&mut roc_impls, iface.module.as_str(), head.as_str());
        } else {
            let prefix = sanitize(head.as_str());
            let ghost h0 = hosted@.map_values(|b: HostedBinding| binding_view(b));
            let mut k: usize = 0;
            while k < iface.hosted.len()
                invariant
                    k <= iface.hosted@.len(),
                    prefix@ == sanitized(head@),
                    hosted@.map_values(|b: HostedBinding| binding_view(b)) == h0 + leaf_bindings(
                        head@,
                        *iface,
                    ).take(k as int),
                decreases iface.hosted@.len() - k,
            {
                let leaf = &iface.hosted[k];
                let mut sym = chars_of("trantor__");
                extend(&mut sym, &chars_of(prefix.as_str()));
                extend(&mut sym, &chars_of("__"));
                extend(&mut sym, &chars_of(leaf.symbol_stem.as_str()));
                let b = HostedBinding {
                    symbol: string_of(&sym),
                    module: copy_text(&iface.module),
                    leaf: copy_text(&leaf.leaf),
                };
                let ghost before = hosted@.map_values(|b: HostedBinding| binding_view(b));
                hosted.push(b);
                assert(hosted@.map_values(|b: HostedBinding| binding_view(b)) =~= before.push(binding_view(b)));
                assert(leaf_bindings(head@, *iface).take(k + 1) =~= leaf_bindings(head@, *iface).take(
                    k as int,
                ).push(binding_view(b)));
                k += 1;
            }
            assert(leaf_bindings(head@, *iface).take(iface.hosted@.len() as int) =~= leaf_bindings(
                head@,
                *iface,
            ));
        }
        w += 1;
    }
    Ok((hosted, modules, roc_impls, services, extra))
}


// ---------------------------------------------------------------------------
// Archive order
// ---------------------------------------------------------------------------

/// The host and driver components other than the driver, in name order.
pub open spec fn host_like(cs: Seq<(String, Component)>, driver: Seq<char>) -> Seq<Seq<char>>
    decreases cs.len(),
{
    if cs.len() == 0 {
        seq![]
    } else {
        let rest = host_like(cs.drop_last(), driver);
        if cs.last().1.kind@ != "roc"@ && cs.last().0@ != driver {
            rest.push(cs.last().0@)
        } else {
            rest
        }
    }
}

/// What follows `name` in a chain, up to position `i`.
pub open spec fn chain_follow(chain: Seq<Seq<char>>, name: Seq<char>, i: int) -> Seq<Seq<char>>
    decreases i,
{
    if i <= 0 {
        seq![]
    } else {
        let rest = chain_follow(chain, name, i - 1);
        if i < chain.len() && chain[i - 1] == name {
            rest.push(chain[i])
        } else {
            rest
        }
    }
}

/// What follows `name` in the first `w` wiring chains.
pub open spec fn wiring_follow(world: World, name: Seq<char>, w: int) -> Seq<Seq<char>>
    decreases w,
{
    if w <= 0 {
        seq![]
    } else {
        let chain = chain_of(world.wiring@[w - 1].1@);
        wiring_follow(world, name, w - 1) + chain_follow(chain, name, chain.len() as int)
    }
}

/// The heads of the chains of the first `j` interfaces component `c`
/// imports, where the chain does not hold `name`.
pub open spec fn import_heads(world: World, c: int, name: Seq<char>, j: int) -> Seq<Seq<char>>
    decreases j,
{
    if j <= 0 {
        seq![]
    } else {
        let rest = import_heads(world, c, name, j - 1);
        let k = find_key(world.wiring@, world.components@[c].1.imports@[j - 1]@, 0);
        if k < world.wiring@.len() && !chain_of(world.wiring@[k].1@).contains(name) {
            rest.push(chain_of(world.wiring@[k].1@)[0])
        } else {
            rest
        }
    }
}

/// The components `name`'s archive goes after: what follows it in a wiring
/// chain, and the head of the chain of each interface it imports whose
/// chain does not hold it.
pub open spec fn deps_of(world: World, name: Seq<char>) -> Seq<Seq<char>> {
    let c = find_key(world.components@, name, 0);
    wiring_follow(world, name, world.wiring@.len() as int) + if c < world.components@.len() {
        import_heads(world, c, name, world.components@[c].1.imports@.len() as int)
    } else {
        seq![]
    }
}

pub open spec fn depends(world: World, name: Seq<char>, d: Seq<char>) -> bool {
    deps_of(world, name).contains(d)
}

/// Every dependency of `name` among `hl` is placed.
pub open spec fn ready(world: World, hl: Seq<Seq<char>>, name: Seq<char>, placed: Seq<Seq<char>>) -> bool {
    forall|d: Seq<char>| #[trigger] depends(world, name, d) && hl.contains(d) ==> placed.contains(d)
}

/// One round over `hl` from `i`: each unplaced name whose dependencies are
/// placed is placed, in turn.
pub open spec fn round(world: World, hl: Seq<Seq<char>>, placed: Seq<Seq<char>>, i: int) -> Seq<Seq<char>>
    decreases hl.len() - i,
{
    if i < 0 || i >= hl.len() {
        placed
    } else {
        let n = hl[i];
        let p2 = if !placed.contains(n) && ready(world, hl, n, placed) {
            placed.push(n)
        } else {
            placed
        };
        round(world, hl, p2, i + 1)
    }
}

pub proof fn lemma_round_grows(world: World, hl: Seq<Seq<char>>, placed: Seq<Seq<char>>, i: int)
    ensures
        round(world, hl, placed, i).len() >= placed.len(),
    decreases hl.len() - i,
{
    if 0 <= i < hl.len() {
        let n = hl[i];
        let p2 = if !placed.contains(n) && ready(world, hl, n, placed) {
            placed.push(n)
        } else {
            placed
        };
        lemma_round_grows(world, hl, p2, i + 1);
    }
}

/// Rounds until every name is placed, or `None` when a round places none:
/// a cycle.
pub open spec fn kahn(world: World, hl: Seq<Seq<char>>, placed: Seq<Seq<char>>) -> Option<Seq<Seq<char>>>
    decreases hl.len() - placed.len(),
{
    if placed.len() >= hl.len() {
        Some(placed)
    } else {
        let p2 = round(world, hl, placed, 0);
        proof {
            lemma_round_grows(world, hl, placed, 0);
        }
        if p2.len() == placed.len() {
            None
        } else if p2.len() >= hl.len() {
            Some(p2)
        } else {
            kahn(world, hl, p2)
        }
    }
}

/// `xs` with each text kept at its first place only.
pub open spec fn first_occ(xs: Seq<Seq<char>>, k: int) -> Seq<Seq<char>>
    decreases k,
{
    if k <= 0 {
        seq![]
    } else {
        let r = first_occ(xs, k - 1);
        if r.contains(xs[k - 1]) {
            r
        } else {
            r.push(xs[k - 1])
        }
    }
}

pub open spec fn strings_of(v: Seq<String>) -> Seq<Seq<char>> {
    v.map_values(|s: String| s@)
}

// ---------------------------------------------------------------------------
// Resolution
// ---------------------------------------------------------------------------

/// What a world resolves to, or why it does not: the driver must be a
/// declared component; the wiring must load, with each service wired to one
/// host component and its unions spliceable; every type the driver's
/// `requires` names must be exposed; exactly one component provides the
/// runtime; no hosted symbol is owned twice; the host imports have no
/// cycle.
pub open spec fn resolve_spec(
    world: World,
    driver: Driver,
    loaded: Seq<Loaded>,
    shared: Seq<Option<Interface>>,
) -> Result<ResolvedV, Seq<char>> {
    let dn = world.world.driver@;
    if find_key(world.components@, dn, 0) >= world.components@.len() {
        Err("[world].driver `"@ + dn + "` is not a declared component"@)
    } else {
        match wire_fold(world, loaded, world.wiring@.len() as int) {
            Err(e) => Err(e),
            Ok(w) => {
                let mods = merge(
                    w.modules,
                    shared_extra(
                        keys_of(world.interfaces@),
                        shared,
                        keys_of(world.wiring@),
                        world.interfaces@.len() as int,
                    ),
                );
                let uses = strings_of(driver.requires_uses@);
                let ex = strings_of(world.world.exports@);
                let u = unexposed(uses, ex, 0);
                if u < uses.len() {
                    Err(unexposed_msg(uses[u], ex))
                } else {
                    let ps = providers(world.components@);
                    if ps.len() != 1 {
                        Err(providers_msg(ps))
                    } else {
                        let syms = w.hosted.map_values(|h: (Seq<char>, Seq<char>, Seq<char>)| h.0);
                        let r = first_repeat(syms, 0);
                        if r < syms.len() {
                            Err("hosted symbol "@ + syms[r] + " owned by more than one component"@)
                        } else {
                            let hl = host_like(world.components@, dn);
                            match kahn(world, hl, seq![]) {
                                None => Err("cycle in host component imports among "@ + debug_list(hl)),
                                Some(order) => {
                                    let all = w.hosted.map_values(
                                        |h: (Seq<char>, Seq<char>, Seq<char>)| h.1,
                                    ) + ex + strings_of(driver.imports_extra@);
                                    Ok(
                                        ResolvedV {
                                            hosted: w.hosted,
                                            archive_order: seq![dn] + order,
                                            imports: first_occ(all, all.len() as int),
                                            driver: dn,
                                            interface_modules: mods,
                                            roc_impls: w.roc_impls,
                                            services: w.services,
                                            extra_modules: w.extra,
                                        },
                                    )
                                },
                            }
                        }
                    }
                }
            },
        }
    }
}


// ---------------------------------------------------------------------------
// Executing the rest
// ---------------------------------------------------------------------------

fn texts_of(v: &Vec<String>) -> (out: Vec<Vec<char>>)
    ensures
        views(out@) == strings_of(v@),
{
    let mut out: Vec<Vec<char>> = Vec::new();
    let mut i: usize = 0;
    while i < v.len()
        invariant
            i <= v@.len(),
            views(out@) == strings_of(v@).take(i as int),
        decreases v@.len() - i,
    {
        let c = chars_of(v[i].as_str());
        let ghost before = views(out@);
        out.push(c);
        assert(views(out@) =~= before.push(c@));
        assert(views(out@) =~= strings_of(v@).take(i + 1));
        i += 1;
    }
    assert(strings_of(v@).take(v@.len() as int) =~= strings_of(v@));
    out
}

proof fn lemma_key_contains<T>(v: Seq<(String, T)>, k: Seq<char>)
    ensures
        (find_key(v, k, 0) < v.len()) == keys_of(v).contains(k),
{
    lemma_find_key(v, k, 0);
    if keys_of(v).contains(k) {
        let j = choose|j: int| 0 <= j < keys_of(v).len() && keys_of(v)[j] == k;
        assert(v[j].0@ == k);
    }
    if find_key(v, k, 0) < v.len() {
        assert(keys_of(v)[find_key(v, k, 0)] == k);
    }
}

fn shared_extra_exec(world: &World, shared: &Vec<Option<Interface>>) -> (out: Vec<(String, String)>)
    requires
        shared@.len() == world.interfaces@.len(),
    ensures
        pairs(out@) == shared_extra(
            keys_of(world.interfaces@),
            shared@,
            keys_of(world.wiring@),
            world.interfaces@.len() as int,
        ),
{
    let mut out: Vec<(String, String)> = Vec::new();
    let mut i: usize = 0;
    while i < world.interfaces.len()
        invariant
            i <= world.interfaces@.len(),
            shared@.len() == world.interfaces@.len(),
            pairs(out@) == shared_extra(
                keys_of(world.interfaces@),
                shared@,
                keys_of(world.wiring@),
                i as int,
            ),
        decreases world.interfaces@.len() - i,
    {
        let name = &world.interfaces[i].0;
        assert(keys_of(world.interfaces@)[i as int] == name@);
        let k = key_index(&world.wiring, name.as_str());
        proof {
            lemma_key_contains(world.wiring@, name@);
        }
        if k >= world.wiring.len() {
            match &shared[i] {
                Some(iface) => push_pair(&mut out, name.as_str(), iface.module.as_str()),
                None => {},
            }
        }
        i += 1;
    }
    out
}

fn merge_exec(a: &Vec<(String, String)>, b: &Vec<(String, String)>) -> (out: Vec<(String, String)>)
    ensures
        pairs(out@) == merge(pairs(a@), pairs(b@)),
{
    let mut out: Vec<(String, String)> = Vec::new();
    let mut i: usize = 0;
    let mut j: usize = 0;
    assert(pairs(a@).skip(0) =~= pairs(a@));
    assert(pairs(b@).skip(0) =~= pairs(b@));
    assert(pairs(out@) =~= Seq::<(Seq<char>, Seq<char>)>::empty());
    while i < a.len() || j < b.len()
        invariant
            i <= a@.len(),
            j <= b@.len(),
            pairs(out@) + merge(pairs(a@).skip(i as int), pairs(b@).skip(j as int)) == merge(
                pairs(a@),
                pairs(b@),
            ),
        decreases a@.len() - i + b@.len() - j,
    {
        let ghost sa = pairs(a@).skip(i as int);
        let ghost sb = pairs(b@).skip(j as int);
        let take_a = if i >= a.len() {
            false
        } else if j >= b.len() {
            true
        } else {
            text_less(&chars_of(a[i].0.as_str()), &chars_of(b[j].0.as_str()))
        };
        if take_a {
            assert(sa[0] == pairs(a@)[i as int]);
            assert(sa.drop_first() =~= pairs(a@).skip(i + 1));
            if j >= b.len() {
                assert(sb.len() == 0);
                assert(merge(sa, sb) == sa);
                assert(sa =~= seq![sa[0]] + sa.drop_first());
                assert(merge(sa.drop_first(), sb) == sa.drop_first());
            }
            push_pair(&mut out, a[i].0.as_str(), a[i].1.as_str());
            assert(pairs(out@) + merge(sa.drop_first(), sb) =~= (pairs(out@).drop_last()) + (seq![
                sa[0],
            ] + merge(sa.drop_first(), sb)));
            i += 1;
        } else {
            assert(sb[0] == pairs(b@)[j as int]);
            assert(sb.drop_first() =~= pairs(b@).skip(j + 1));
            if i >= a.len() {
                assert(sa.len() == 0);
                assert(merge(sa, sb) == sb);
                assert(sb =~= seq![sb[0]] + sb.drop_first());
                assert(merge(sa, sb.drop_first()) == sb.drop_first());
            }
            push_pair(&mut out, b[j].0.as_str(), b[j].1.as_str());
            assert(pairs(out@) + merge(sa, sb.drop_first()) =~= (pairs(out@).drop_last()) + (seq![
                sb[0],
            ] + merge(sa, sb.drop_first())));
            j += 1;
        }
    }
    assert(pairs(a@).skip(i as int) =~= Seq::<(Seq<char>, Seq<char>)>::empty());
    assert(pairs(b@).skip(j as int) =~= Seq::<(Seq<char>, Seq<char>)>::empty());
    assert(pairs(out@) + Seq::<(Seq<char>, Seq<char>)>::empty() =~= pairs(out@));
    out
}

fn unexposed_exec(uses: &Vec<Vec<char>>, exports: &Vec<Vec<char>>) -> (r: usize)
    ensures
        r == unexposed(views(uses@), views(exports@), 0),
{
    let mut i: usize = 0;
    while i < uses.len()
        invariant
            i <= uses@.len(),
            unexposed(views(uses@), views(exports@), i as int) == unexposed(views(uses@), views(exports@), 0),
        decreases uses@.len() - i,
    {
        assert(views(uses@)[i as int] == uses@[i as int]@);
        if !has_text(exports, &uses[i]) {
            return i;
        }
        i += 1;
    }
    i
}

fn providers_exec(cs: &Vec<(String, Component)>) -> (out: Vec<Vec<char>>)
    ensures
        views(out@) == providers(cs@),
{
    let mut out: Vec<Vec<char>> = Vec::new();
    let mut i: usize = 0;
    assert(cs@.take(0) =~= Seq::<(String, Component)>::empty());
    assert(views(out@) =~= Seq::<Seq<char>>::empty());
    while i < cs.len()
        invariant
            i <= cs@.len(),
            views(out@) == providers(cs@.take(i as int)),
        decreases cs@.len() - i,
    {
        assert(cs@.take(i + 1).drop_last() =~= cs@.take(i as int));
        assert(cs@.take(i + 1).last() == cs@[i as int]);
        if cs[i].1.provides_runtime {
            let c = chars_of(cs[i].0.as_str());
            let ghost before = views(out@);
            out.push(c);
            assert(views(out@) =~= before.push(c@));
        }
        i += 1;
    }
    assert(cs@.take(cs@.len() as int) =~= cs@);
    out
}

fn first_repeat_exec(syms: &Vec<Vec<char>>) -> (r: usize)
    ensures
        r == first_repeat(views(syms@), 0),
{
    let mut i: usize = 0;
    while i < syms.len()
        invariant
            i <= syms@.len(),
            first_repeat(views(syms@), i as int) == first_repeat(views(syms@), 0),
        decreases syms@.len() - i,
    {
        let mut j: usize = 0;
        let mut seen = false;
        while j < i
            invariant
                j <= i < syms@.len(),
                seen == views(syms@).take(j as int).contains(views(syms@)[i as int]),
            decreases i - j,
        {
            if !seen && same(&syms[j], &syms[i]) {
                seen = true;
            }
            proof {
                let t1 = views(syms@).take(j + 1);
                let t0 = views(syms@).take(j as int);
                assert(t1 =~= t0.push(views(syms@)[j as int]));
                if t1.contains(views(syms@)[i as int]) {
                    let k = choose|k: int| 0 <= k < t1.len() && t1[k] == views(syms@)[i as int];
                    if k < t0.len() {
                        assert(t0[k] == t1[k]);
                    }
                }
                if seen && !t0.contains(views(syms@)[i as int]) {
                    assert(t1[j as int] == views(syms@)[i as int]);
                }
                if t0.contains(views(syms@)[i as int]) {
                    let k = choose|k: int| 0 <= k < t0.len() && t0[k] == views(syms@)[i as int];
                    assert(t1[k] == t0[k]);
                }
            }
            j += 1;
        }
        if seen {
            return i;
        }
        i += 1;
    }
    i
}

fn host_like_exec(cs: &Vec<(String, Component)>, driver: &str) -> (out: Vec<Vec<char>>)
    ensures
        views(out@) == host_like(cs@, driver@),
{
    let d = chars_of(driver);
    let roc = chars_of("roc");
    let mut out: Vec<Vec<char>> = Vec::new();
    let mut i: usize = 0;
    assert(cs@.take(0) =~= Seq::<(String, Component)>::empty());
    assert(views(out@) =~= Seq::<Seq<char>>::empty());
    while i < cs.len()
        invariant
            i <= cs@.len(),
            d@ == driver@,
            roc@ == "roc"@,
            views(out@) == host_like(cs@.take(i as int), driver@),
        decreases cs@.len() - i,
    {
        assert(cs@.take(i + 1).drop_last() =~= cs@.take(i as int));
        assert(cs@.take(i + 1).last() == cs@[i as int]);
        let name = chars_of(cs[i].0.as_str());
        if !same(&chars_of(cs[i].1.kind.as_str()), &roc) && !same(&name, &d) {
            let ghost before = views(out@);
            out.push(name);
            assert(views(out@) =~= before.push(cs@[i as int].0@));
        }
        i += 1;
    }
    assert(cs@.take(cs@.len() as int) =~= cs@);
    out
}

fn deps_exec(world: &World, name: &[char]) -> (out: Vec<Vec<char>>)
    ensures
        views(out@) == deps_of(*world, name@),
{
    let mut out: Vec<Vec<char>> = Vec::new();
    let mut w: usize = 0;
    assert(views(out@) =~= Seq::<Seq<char>>::empty());
    while w < world.wiring.len()
        invariant
            w <= world.wiring@.len(),
            views(out@) == wiring_follow(*world, name@, w as int),
        decreases world.wiring@.len() - w,
    {
        let chain = chain_chars(&chars_of(world.wiring[w].1.as_str()));
        let ghost base = views(out@);
        let ghost cv = views(chain@);
        let mut i: usize = 0;
        assert(base + chain_follow(cv, name@, 0) =~= base);
        while i < chain.len()
            invariant
                i <= chain@.len(),
                cv == views(chain@),
                views(out@) == base + chain_follow(cv, name@, i as int),
            decreases chain@.len() - i,
        {
            if i + 1 < chain.len() && same(&chain[i], name) {
                let c = chain[i + 1].clone();
                let ghost before = views(out@);
                out.push(c);
                assert(views(out@) =~= before.push(cv[i + 1]));
            }
            assert(cv[i as int] == chain@[i as int]@);
            i += 1;
        }
        w += 1;
    }
    let nm = slice_of(name, 0, name.len());
    assert(nm@ =~= name@);
    let c = key_index(&world.components, string_of(&nm).as_str());
    if c < world.components.len() {
        let imports = &world.components[c].1.imports;
        let ghost base = views(out@);
        let mut j: usize = 0;
        assert(base + import_heads(*world, c as int, name@, 0) =~= base);
        while j < imports.len()
            invariant
                j <= imports@.len(),
                c < world.components@.len(),
                imports@ == world.components@[c as int].1.imports@,
                views(out@) == base + import_heads(*world, c as int, name@, j as int),
            decreases imports@.len() - j,
        {
            let k = key_index(&world.wiring, imports[j].as_str());
            if k < world.wiring.len() {
                let chain = chain_chars(&chars_of(world.wiring[k].1.as_str()));
                proof {
                    lemma_chain_nonempty(world.wiring@[k as int].1@);
                }
                let mut holds = false;
                let mut i: usize = 0;
                while i < chain.len()
                    invariant
                        i <= chain@.len(),
                        holds == views(chain@).take(i as int).contains(name@),
                    decreases chain@.len() - i,
                {
                    proof {
                        let t1 = views(chain@).take(i + 1);
                        let t0 = views(chain@).take(i as int);
                        assert(t1 =~= t0.push(chain@[i as int]@));
                        assert(t1.contains(name@) <==> (t0.contains(name@) || chain@[i as int]@ == name@)) by {
                            if t1.contains(name@) {
                                let q = choose|q: int| 0 <= q < t1.len() && t1[q] == name@;
                                if q < t0.len() {
                                    assert(t0[q] == t1[q]);
                                }
                            }
                            if t0.contains(name@) {
                                let q = choose|q: int| 0 <= q < t0.len() && t0[q] == name@;
                                assert(t1[q] == t0[q]);
                            }
                            if chain@[i as int]@ == name@ {
                                assert(t1[i as int] == name@);
                            }
                        }
                    }
                    if same(&chain[i], name) {
                        holds = true;
                    }
                    i += 1;
                }
                assert(views(chain@).take(chain@.len() as int) =~= views(chain@));
                if !holds {
                    let h = chain[0].clone();
                    let ghost before = views(out@);
                    out.push(h);
                    assert(views(out@) =~= before.push(h@));
                }
            }
            j += 1;
        }
    }
    proof {
        let cc = find_key(world.components@, name@, 0);
        if cc >= world.components@.len() {
            assert(views(out@) =~= views(out@) + Seq::<Seq<char>>::empty());
        }
    }
    out
}

fn ready_exec(world: &World, hl: &Vec<Vec<char>>, name: &[char], placed: &Vec<Vec<char>>) -> (r: bool)
    ensures
        r == ready(*world, views(hl@), name@, views(placed@)),
{
    let deps = deps_exec(world, name);
    let mut i: usize = 0;
    while i < deps.len()
        invariant
            i <= deps@.len(),
            views(deps@) == deps_of(*world, name@),
            forall|k: int|
                0 <= k < i ==> (views(hl@).contains(#[trigger] views(deps@)[k]) ==> views(placed@).contains(
                    views(deps@)[k],
                )),
        decreases deps@.len() - i,
    {
        if has_text(hl, &deps[i]) && !has_text(placed, &deps[i]) {
            assert(depends(*world, name@, views(deps@)[i as int]));
            return false;
        }
        i += 1;
    }
    proof {
        assert forall|d: Seq<char>| #[trigger] depends(*world, name@, d) && views(hl@).contains(d) implies views(
            placed@,
        ).contains(d) by {
            let k = choose|k: int| 0 <= k < views(deps@).len() && views(deps@)[k] == d;
        }
    }
    true
}

fn kahn_exec(world: &World, hl: &Vec<Vec<char>>) -> (r: Option<Vec<Vec<char>>>)
    ensures
        match r {
            Some(o) => kahn(*world, views(hl@), seq![]) == Some(views(o@)),
            None => kahn(*world, views(hl@), seq![]) is None,
        },
{
    let mut ordered: Vec<Vec<char>> = Vec::new();
    assert(views(ordered@) =~= Seq::<Seq<char>>::empty());
    while ordered.len() < hl.len()
        invariant
            kahn(*world, views(hl@), views(ordered@)) == kahn(*world, views(hl@), seq![]),
        decreases hl@.len() - ordered@.len(),
    {
        let ghost start = views(ordered@);
        let before = ordered.len();
        let mut i: usize = 0;
        while i < hl.len()
            invariant
                i <= hl@.len(),
                round(*world, views(hl@), views(ordered@), i as int) == round(
                    *world,
                    views(hl@),
                    start,
                    0,
                ),
            decreases hl@.len() - i,
        {
            let n = &hl[i];
            assert(views(hl@)[i as int] == n@);
            if !has_text(&ordered, n) && ready_exec(world, hl, n, &ordered) {
                let ghost b2 = views(ordered@);
                ordered.push(n.clone());
                assert(views(ordered@) =~= b2.push(n@));
            }
            i += 1;
        }
        proof {
            lemma_round_grows(*world, views(hl@), start, 0);
        }
        if ordered.len() == before {
            return None;
        }
        if ordered.len() >= hl.len() {
            return Some(ordered);
        }
    }
    Some(ordered)
}

fn first_occ_exec(xs: &Vec<Vec<char>>) -> (out: Vec<Vec<char>>)
    ensures
        views(out@) == first_occ(views(xs@), xs@.len() as int),
{
    let mut out: Vec<Vec<char>> = Vec::new();
    let mut i: usize = 0;
    assert(views(out@) =~= Seq::<Seq<char>>::empty());
    while i < xs.len()
        invariant
            i <= xs@.len(),
            views(out@) == first_occ(views(xs@), i as int),
        decreases xs@.len() - i,
    {
        assert(views(xs@)[i as int] == xs@[i as int]@);
        if !has_text(&out, &xs[i]) {
            let ghost before = views(out@);
            out.push(xs[i].clone());
            assert(views(out@) =~= before.push(xs@[i as int]@));
        }
        i += 1;
    }
    out
}

fn strings_from(v: &Vec<Vec<char>>) -> (out: Vec<String>)
    ensures
        texts(out@) == views(v@),
{
    let mut out: Vec<String> = Vec::new();
    let mut i: usize = 0;
    while i < v.len()
        invariant
            i <= v@.len(),
            texts(out@) == views(v@).take(i as int),
        decreases v@.len() - i,
    {
        let s = string_of(&v[i]);
        let ghost before = texts(out@);
        out.push(s);
        assert(texts(out@) =~= before.push(s@));
        assert(texts(out@) =~= views(v@).take(i + 1));
        i += 1;
    }
    assert(views(v@).take(v@.len() as int) =~= views(v@));
    out
}


fn append_texts(a: &mut Vec<Vec<char>>, b: &Vec<Vec<char>>)
    ensures
        views(final(a)@) == views(old(a)@) + views(b@),
{
    let ghost a0 = views(a@);
    let mut i: usize = 0;
    while i < b.len()
        invariant
            i <= b@.len(),
            views(a@) == a0 + views(b@).take(i as int),
        decreases b@.len() - i,
    {
        let ghost before = views(a@);
        a.push(b[i].clone());
        assert(views(a@) =~= before.push(b@[i as int]@));
        assert(views(b@).take(i + 1) =~= views(b@).take(i as int).push(b@[i as int]@));
        i += 1;
    }
    assert(views(b@).take(b@.len() as int) =~= views(b@));
}

/// The symbols and the modules of the hosted bindings, in order.
fn binding_parts(hosted: &Vec<HostedBinding>) -> (r: (Vec<Vec<char>>, Vec<Vec<char>>))
    ensures
        views(r.0@) == hosted@.map_values(|b: HostedBinding| binding_view(b)).map_values(
            |h: (Seq<char>, Seq<char>, Seq<char>)| h.0,
        ),
        views(r.1@) == hosted@.map_values(|b: HostedBinding| binding_view(b)).map_values(
            |h: (Seq<char>, Seq<char>, Seq<char>)| h.1,
        ),
{
    let ghost hv = hosted@.map_values(|b: HostedBinding| binding_view(b));
    let mut syms: Vec<Vec<char>> = Vec::new();
    let mut mods: Vec<Vec<char>> = Vec::new();
    let mut i: usize = 0;
    while i < hosted.len()
        invariant
            i <= hosted@.len(),
            hv == hosted@.map_values(|b: HostedBinding| binding_view(b)),
            views(syms@) == hv.map_values(|h: (Seq<char>, Seq<char>, Seq<char>)| h.0).take(i as int),
            views(mods@) == hv.map_values(|h: (Seq<char>, Seq<char>, Seq<char>)| h.1).take(i as int),
        decreases hosted@.len() - i,
    {
        let ghost s0 = views(syms@);
        let ghost m0 = views(mods@);
        let s = chars_of(hosted[i].symbol.as_str());
        let m = chars_of(hosted[i].module.as_str());
        syms.push(s);
        mods.push(m);
        assert(views(syms@) =~= s0.push(s@));
        assert(views(mods@) =~= m0.push(m@));
        assert(hv[i as int] == binding_view(hosted@[i as int]));
        assert(views(syms@) =~= hv.map_values(|h: (Seq<char>, Seq<char>, Seq<char>)| h.0).take(i + 1));
        assert(views(mods@) =~= hv.map_values(|h: (Seq<char>, Seq<char>, Seq<char>)| h.1).take(i + 1));
        i += 1;
    }
    assert(hv.map_values(|h: (Seq<char>, Seq<char>, Seq<char>)| h.0).take(hosted@.len() as int)
        =~= hv.map_values(|h: (Seq<char>, Seq<char>, Seq<char>)| h.0));
    assert(hv.map_values(|h: (Seq<char>, Seq<char>, Seq<char>)| h.1).take(hosted@.len() as int)
        =~= hv.map_values(|h: (Seq<char>, Seq<char>, Seq<char>)| h.1));
    (syms, mods)
}

/// Resolves a world: `loaded` holds, for each wiring entry in name order,
/// what its interface's files gave; `shared` holds, for each entry of
/// `[interfaces]` in name order, its interface when its manifest could be
/// read. The result, or the first error, is `resolve_spec`.
pub fn resolve(
    world: &World,
    driver: &Driver,
    loaded: &Vec<Loaded>,
    shared: &Vec<Option<Interface>>,
) -> (r: Result<Resolved, String>)
    requires
        loaded@.len() == world.wiring@.len(),
        shared@.len() == world.interfaces@.len(),
    ensures
        match r {
            Ok(res) => resolve_spec(*world, *driver, loaded@, shared@) == Ok::<ResolvedV, Seq<char>>(
                resolved_view(res),
            ),
            Err(e) => resolve_spec(*world, *driver, loaded@, shared@) == Err::<ResolvedV, Seq<char>>(
                e@,
            ),
        },
{
    let dn = copy_text(&world.world.driver);
    if key_index(&world.components, dn.as_str()) >= world.components.len() {
        let mut m = chars_of("[world].driver `");
        extend(&mut m, &chars_of(dn.as_str()));
        extend(&mut m, &chars_of("` is not a declared component"));
        return Err(string_of(&m));
    }
    let (hosted, modules, roc_impls, services, extra) = match wire(world, loaded) {
        Err(e) => {
            return Err(e);
        },
        Ok(t) => t,
    };
    let ghost w = wired_view(hosted@, modules@, roc_impls@, services@, extra@);
    let se = shared_extra_exec(world, shared);
    let mods = merge_exec(&modules, &se);
    let uses = texts_of(&driver.requires_uses);
    let ex = texts_of(&world.world.exports);
    let u = unexposed_exec(&uses, &ex);
    if u < uses.len() {
        let mut m = chars_of("driver `requires` names `");
        extend(&mut m, &uses[u]);
        extend(&mut m, &chars_of("` (requires_uses) but it is not in the world's exposes "));
        extend(&mut m, &debug_list_exec(&ex));
        extend(&mut m, &chars_of("; roc build would SEGFAULT on this (H1b, fault 0x138c). Add `"));
        extend(&mut m, &uses[u]);
        extend(&mut m, &chars_of("` to [world].exports."));
        assert(views(uses@)[u as int] == uses@[u as int]@);
        return Err(string_of(&m));
    }
    let ps = providers_exec(&world.components);
    if ps.len() != 1 {
        let mut m = chars_of("exactly one component must set provides_runtime = true (found ");
        extend(&mut m, &decimal(ps.len()));
        extend(&mut m, &chars_of(": "));
        extend(&mut m, &debug_list_exec(&ps));
        extend(
            &mut m,
            &chars_of("); the linker would silently first-wins duplicate roc_alloc (H0c)"),
        );
        return Err(string_of(&m));
    }
    let (syms, bmods) = binding_parts(&hosted);
    let k = first_repeat_exec(&syms);
    if k < syms.len() {
        let mut m = chars_of("hosted symbol ");
        extend(&mut m, &syms[k]);
        extend(&mut m, &chars_of(" owned by more than one component"));
        assert(views(syms@)[k as int] == syms@[k as int]@);
        return Err(string_of(&m));
    }
    let hl = host_like_exec(&world.components, dn.as_str());
    let order = match kahn_exec(world, &hl) {
        None => {
            let mut m = chars_of("cycle in host component imports among ");
            extend(&mut m, &debug_list_exec(&hl));
            return Err(string_of(&m));
        },
        Some(o) => o,
    };
    let mut ao: Vec<Vec<char>> = Vec::new();
    ao.push(chars_of(dn.as_str()));
    assert(views(ao@) =~= seq![dn@]);
    append_texts(&mut ao, &order);
    let mut all = bmods;
    append_texts(&mut all, &ex);
    let extra_imports = texts_of(&driver.imports_extra);
    append_texts(&mut all, &extra_imports);
    let imports = first_occ_exec(&all);
    let res = Resolved {
        hosted,
        archive_order: strings_from(&ao),
        imports: strings_from(&imports),
        driver: dn,
        interface_modules: mods,
        roc_impls,
        services,
        extra_modules: extra,
    };
    proof {
        let rv = resolved_view(res);
        assert(rv.hosted == w.hosted);
        assert(rv.roc_impls == w.roc_impls);
        assert(rv.services == w.services);
        assert(rv.extra_modules == w.extra);
    }
    Ok(res)
}

proof fn lemma_no_repeat(syms: Seq<Seq<char>>, i: int)
    requires
        0 <= i <= syms.len(),
        first_repeat(syms, i) >= syms.len(),
    ensures
        forall|a: int, b: int| 0 <= a < b < syms.len() && i <= b ==> syms[a] != syms[b],
    decreases syms.len() - i,
{
    if i < syms.len() {
        assert(!syms.take(i).contains(syms[i]));
        assert forall|a: int| 0 <= a < i implies syms[a] != syms[i] by {
            assert(syms.take(i)[a] == syms[a]);
        }
        lemma_no_repeat(syms, i + 1);
    }
}

proof fn lemma_all_exposed(uses: Seq<Seq<char>>, exports: Seq<Seq<char>>, i: int)
    requires
        0 <= i <= uses.len(),
        unexposed(uses, exports, i) >= uses.len(),
    ensures
        forall|k: int| i <= k < uses.len() ==> exports.contains(#[trigger] uses[k]),
    decreases uses.len() - i,
{
    if i < uses.len() {
        lemma_all_exposed(uses, exports, i + 1);
    }
}

/// What every resolution holds: the driver's archive comes first; no
/// hosted symbol is owned twice; every name the driver's contract uses is
/// one the world exports; and exactly one component provides the runtime.
pub proof fn lemma_resolution(world: World, driver: Driver, loaded: Seq<Loaded>, shared: Seq<Option<Interface>>)
    requires
        resolve_spec(world, driver, loaded, shared) is Ok,
    ensures
        ({
            let r = resolve_spec(world, driver, loaded, shared)->Ok_0;
            &&& r.archive_order.len() > 0
            &&& r.archive_order[0] == r.driver
            &&& r.driver == world.world.driver@
            &&& forall|a: int, b: int| 0 <= a < b < r.hosted.len() ==> r.hosted[a].0 != r.hosted[b].0
            &&& forall|k: int|
                0 <= k < driver.requires_uses@.len() ==> strings_of(world.world.exports@).contains(
                    #[trigger] strings_of(driver.requires_uses@)[k],
                )
            &&& providers(world.components@).len() == 1
        }),
{
    let r = resolve_spec(world, driver, loaded, shared)->Ok_0;
    let w = wire_fold(world, loaded, world.wiring@.len() as int)->Ok_0;
    let uses = strings_of(driver.requires_uses@);
    let ex = strings_of(world.world.exports@);
    lemma_all_exposed(uses, ex, 0);
    let syms = w.hosted.map_values(|h: (Seq<char>, Seq<char>, Seq<char>)| h.0);
    lemma_no_repeat(syms, 0);
    assert forall|a: int, b: int| 0 <= a < b < r.hosted.len() implies r.hosted[a].0 != r.hosted[b].0 by {
        assert(syms[a] == r.hosted[a].0 && syms[b] == r.hosted[b].0);
    }
}

/// `placed` is a topological order of names from `hl`: each is one of
/// `hl`, none is placed twice, and every dependency of a name that is in
/// `hl` is placed before it.
pub open spec fn topological(world: World, hl: Seq<Seq<char>>, placed: Seq<Seq<char>>) -> bool {
    &&& forall|i: int| 0 <= i < placed.len() ==> hl.contains(#[trigger] placed[i])
    &&& forall|i: int, j: int| 0 <= i < j < placed.len() ==> placed[i] != placed[j]
    &&& forall|i: int, d: Seq<char>|
        0 <= i < placed.len() && #[trigger] depends(world, placed[i], d) && hl.contains(d) ==> placed.take(
            i,
        ).contains(d)
}

proof fn lemma_round_topological(world: World, hl: Seq<Seq<char>>, placed: Seq<Seq<char>>, i: int)
    requires
        topological(world, hl, placed),
    ensures
        topological(world, hl, round(world, hl, placed, i)),
    decreases hl.len() - i,
{
    if 0 <= i < hl.len() {
        let n = hl[i];
        if !placed.contains(n) && ready(world, hl, n, placed) {
            let p2 = placed.push(n);
            assert forall|k: int| 0 <= k < placed.len() implies p2.take(k) =~= placed.take(k) by {}
            assert(p2.take(placed.len() as int) =~= placed);
            assert forall|k: int, d: Seq<char>|
                0 <= k < p2.len() && #[trigger] depends(world, p2[k], d) && hl.contains(d) implies p2.take(
                    k,
                ).contains(d) by {
                if k < placed.len() {
                    assert(p2[k] == placed[k]);
                    assert(p2.take(k) =~= placed.take(k));
                } else {
                    assert(p2[k] == n);
                }
            }
            assert forall|a: int, b: int| 0 <= a < b < p2.len() implies p2[a] != p2[b] by {
                if b == placed.len() {
                    assert(placed.contains(placed[a]));
                }
            }
            assert forall|k: int| 0 <= k < p2.len() implies hl.contains(#[trigger] p2[k]) by {
                if k == placed.len() {
                    assert(hl[i] == p2[k]);
                } else {
                    assert(p2[k] == placed[k]);
                }
            }
            lemma_round_topological(world, hl, p2, i + 1);
        } else {
            lemma_round_topological(world, hl, placed, i + 1);
        }
    }
}

proof fn lemma_kahn_topological(world: World, hl: Seq<Seq<char>>, placed: Seq<Seq<char>>)
    requires
        topological(world, hl, placed),
        kahn(world, hl, placed) is Some,
    ensures
        topological(world, hl, kahn(world, hl, placed)->Some_0),
        kahn(world, hl, placed)->Some_0.len() >= hl.len(),
    decreases hl.len() - placed.len(),
{
    if placed.len() < hl.len() {
        let p2 = round(world, hl, placed, 0);
        lemma_round_grows(world, hl, placed, 0);
        lemma_round_topological(world, hl, placed, 0);
        if p2.len() != placed.len() && p2.len() < hl.len() {
            lemma_kahn_topological(world, hl, p2);
        }
    }
}

/// The archive order of every resolution is the driver, then the world's
/// host components (each component not in Roc, but the driver) in an order
/// where each comes after every host component it depends on (what follows
/// it in a wiring chain, and the heads of the chains it imports); none
/// twice, and as many as there are host components.
pub proof fn lemma_archive_order(world: World, driver: Driver, loaded: Seq<Loaded>, shared: Seq<Option<Interface>>)
    requires
        resolve_spec(world, driver, loaded, shared) is Ok,
    ensures
        ({
            let r = resolve_spec(world, driver, loaded, shared)->Ok_0;
            let hl = host_like(world.components@, world.world.driver@);
            let order = r.archive_order.drop_first();
            &&& r.archive_order[0] == r.driver
            &&& topological(world, hl, order)
            &&& order.len() >= hl.len()
        }),
{
    let hl = host_like(world.components@, world.world.driver@);
    let r = resolve_spec(world, driver, loaded, shared)->Ok_0;
    assert(topological(world, hl, seq![]));
    lemma_kahn_topological(world, hl, seq![]);
    let o = kahn(world, hl, seq![])->Some_0;
    assert(r.archive_order.drop_first() =~= o);
}

/// Text that can stand in a linker symbol: ASCII letters, digits and `_`.
pub open spec fn ident_text(s: Seq<char>) -> bool {
    forall|i: int| 0 <= i < s.len() ==> is_ascii_alnum(#[trigger] s[i]) || s[i] == '_'
}

/// A component's symbol prefix is `trantor__`, the component's name with
/// every character that could not stand in a symbol replaced, and `__`: it
/// holds only identifier characters, and it keeps the name's length, so
/// two names of different lengths never share a prefix.
pub proof fn lemma_symbol_prefix_ident(c: Seq<char>)
    ensures
        ident_text(symbol_prefix_of(c)),
        symbol_prefix_of(c).len() == c.len() + 11,
        forall|i: int| 0 <= i < c.len() && (is_ascii_alnum(c[i]) || c[i] == '_') ==> #[trigger] symbol_prefix_of(c)[9 + i] == c[i],
{
    reveal_strlit("trantor__");
    reveal_strlit("__");
    let p = symbol_prefix_of(c);
    let sc = sanitized(c);
    assert forall|i: int| 0 <= i < p.len() implies is_ascii_alnum(#[trigger] p[i]) || p[i] == '_' by {
        if i < 9 {
            assert(p[i] == "trantor__"@[i]);
        } else if i < 9 + c.len() {
            assert(p[i] == sc[i - 9]);
        } else {
            assert(p[i] == '_');
        }
    }
    assert forall|i: int| 0 <= i < c.len() && (is_ascii_alnum(c[i]) || c[i] == '_') implies #[trigger] p[9 + i] == c[i] by {
        assert(p[9 + i] == sc[i]);
    }
}

/// Whether `h` binds leaf `m` of the interface wired at entry `k`: its
/// symbol is the symbol prefix of the component that heads the entry's
/// chain followed by the leaf's stem, with the interface's module and the
/// leaf's name.
pub open spec fn binds_leaf(world: World, loaded: Seq<Loaded>, k: int, m: int, h: (Seq<char>, Seq<char>, Seq<char>)) -> bool {
    &&& 0 <= k < world.wiring@.len()
    &&& k < loaded.len()
    &&& loaded[k].iface is Ok
    &&& 0 <= m < loaded[k].iface->Ok_0.hosted@.len()
    &&& h == (
        symbol_prefix_of(chain_of(world.wiring@[k].1@)[0]) + loaded[k].iface->Ok_0.hosted@[m].symbol_stem@,
        loaded[k].iface->Ok_0.module@,
        loaded[k].iface->Ok_0.hosted@[m].leaf@,
    )
}

proof fn lemma_wire_hosted(world: World, loaded: Seq<Loaded>, n: int, j: int)
    requires
        0 <= n <= world.wiring@.len(),
        loaded.len() == world.wiring@.len(),
        wire_fold(world, loaded, n) is Ok,
        0 <= j < wire_fold(world, loaded, n)->Ok_0.hosted.len(),
    ensures
        exists|k: int, m: int| #[trigger] binds_leaf(world, loaded, k, m, wire_fold(world, loaded, n)->Ok_0.hosted[j]),
    decreases n,
{
    if n <= 0 {
        assert(wire_fold(world, loaded, n)->Ok_0.hosted.len() == 0);
    } else {
        let acc = wire_fold(world, loaded, n - 1)->Ok_0;
        let w = wire_fold(world, loaded, n)->Ok_0;
        let k = n - 1;
        let head = chain_of(world.wiring@[k].1@)[0];
        let iface = loaded[k].iface->Ok_0;
        assert(loaded[k].iface is Ok);
        let bound = !iface.service() && head_kind(world, head) != "roc"@;
        if bound {
            assert(w.hosted == acc.hosted + leaf_bindings(head, iface));
        } else {
            assert(w.hosted == acc.hosted);
        }
        if j < acc.hosted.len() {
            lemma_wire_hosted(world, loaded, n - 1, j);
            assert(w.hosted[j] == acc.hosted[j]);
            let (k2, m) = choose|k2: int, m: int| #[trigger] binds_leaf(world, loaded, k2, m, acc.hosted[j]);
            assert(binds_leaf(world, loaded, k2, m, w.hosted[j]));
        } else {
            let m = j - acc.hosted.len();
            let l = iface.hosted@[m];
            assert(w.hosted[j] == leaf_bindings(head, iface)[m]);
            assert("trantor__"@ + sanitized(head) + "__"@ + l.symbol_stem@ == symbol_prefix_of(head) + l.symbol_stem@);
            assert(binds_leaf(world, loaded, k, m, w.hosted[j]));
        }
    }
}

/// Every hosted binding a resolution makes is a leaf of an interface the
/// world wires, bound to the symbol that the component heading that
/// entry's chain defines: the component's symbol prefix (`trantor__`, its
/// name as an identifier, `__`; what `Service::symbol_prefix` gives and
/// the stub names) followed by the leaf's stem. So a hosted symbol holds
/// only identifier characters wherever the stems do.
pub proof fn lemma_hosted_symbols(world: World, driver: Driver, loaded: Seq<Loaded>, shared: Seq<Option<Interface>>, j: int)
    requires
        resolve_spec(world, driver, loaded, shared) is Ok,
        loaded.len() == world.wiring@.len(),
        0 <= j < resolve_spec(world, driver, loaded, shared)->Ok_0.hosted.len(),
    ensures
        exists|k: int, m: int| #[trigger] binds_leaf(world, loaded, k, m, resolve_spec(world, driver, loaded, shared)->Ok_0.hosted[j]),
        (forall|k: int, m: int|
            0 <= k < loaded.len() && loaded[k].iface is Ok && 0 <= m < loaded[k].iface->Ok_0.hosted@.len()
                ==> ident_text(#[trigger] loaded[k].iface->Ok_0.hosted@[m].symbol_stem@)) ==> ident_text(
            resolve_spec(world, driver, loaded, shared)->Ok_0.hosted[j].0,
        ),
{
    let w = wire_fold(world, loaded, world.wiring@.len() as int)->Ok_0;
    assert(resolve_spec(world, driver, loaded, shared)->Ok_0.hosted == w.hosted);
    lemma_wire_hosted(world, loaded, world.wiring@.len() as int, j);
    let h = resolve_spec(world, driver, loaded, shared)->Ok_0.hosted[j];
    assert(h == w.hosted[j]);
    let (k, m) = choose|k: int, m: int| #[trigger] binds_leaf(world, loaded, k, m, w.hosted[j]);
    assert(binds_leaf(world, loaded, k, m, h));
    if forall|k: int, m: int|
        0 <= k < loaded.len() && loaded[k].iface is Ok && 0 <= m < loaded[k].iface->Ok_0.hosted@.len()
            ==> ident_text(#[trigger] loaded[k].iface->Ok_0.hosted@[m].symbol_stem@) {
        let head = chain_of(world.wiring@[k].1@)[0];
        let stem = loaded[k].iface->Ok_0.hosted@[m].symbol_stem@;
        lemma_symbol_prefix_ident(head);
        let p = symbol_prefix_of(head);
        assert(h.0 == p + stem);
        assert(ident_text(stem));
        assert forall|i: int| 0 <= i < (p + stem).len() implies is_ascii_alnum(#[trigger] (p + stem)[i]) || (p
            + stem)[i] == '_' by {
            if i < p.len() {
                assert((p + stem)[i] == p[i]);
            } else {
                assert((p + stem)[i] == stem[i - p.len()]);
            }
        }
    }
}

} // verus!
