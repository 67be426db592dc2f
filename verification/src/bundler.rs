//! The bundler facade: configuration, the host interfaces (resolver and
//! loader, supplied as data), the load-transformed driver, and `bundle`.
//!
//! The driver turns a file identity into a fully analyzed registry entry,
//! including its transitive dependencies, with a single-production
//! guarantee: every path is loaded at most once, recorded in the load log.
//! Resolve and load failures are accumulated and reported in one batch;
//! bundling proceeds only when every edge resolved.

use vstd::prelude::*;
use crate::ast::{FileName, FileNameV, Mark, Module, ModuleV, RawImports, Specifier, Target};
use crate::registry::{
    export_mark_spec, flags_le, local_mark_spec, reg_wf, spec_find, spec_id_for, ModuleRecordV,
    Registry,
};
use crate::strutil::{copy_filename, filename_eq, string_eq};
use crate::analyze::analyze;
use crate::chunk::{
    chunk, chunk_rel, published, Bundle, BundleV, EntryPoint, EntryPointV,
};
use crate::finalize::{finalize_body, finalize_module};

verus! {

/// The kind of module emitted for each bundle.
#[derive(Clone, Copy, Debug, PartialEq, Eq, Structural)]
pub enum ModuleType {
    /// A bare ECMAScript module.
    Es,
    /// A body wrapped by the printer in `(function(){ ... })()`, with the
    /// hoisted imports threaded into the parameter list.
    Iife,
}

impl Default for ModuleType {
    fn default() -> (r: Self)
        ensures
            r == ModuleType::Es,
    {
        ModuleType::Es
    }
}

/// Bundler configuration.
#[derive(Debug)]
pub struct Config {
    /// When true, the analyzer searches for `require` calls.
    pub require: bool,
    /// Keeps the synthesized linking temporaries, mainly for testing; by
    /// default inlining removes them.
    pub disable_inliner: bool,
    /// Specifiers that are never followed and stay imports at the bundle
    /// boundary.
    pub external_modules: Vec<String>,
    /// The output framing.
    pub module: ModuleType,
}

pub struct ConfigV {
    pub require: bool,
    pub disable_inliner: bool,
    pub external_modules: Seq<Seq<char>>,
    pub module: ModuleType,
}

impl View for Config {
    type V = ConfigV;

    open spec fn view(&self) -> ConfigV {
        ConfigV {
            require: self.require,
            disable_inliner: self.disable_inliner,
            external_modules: Seq::new(
                self.external_modules@.len(),
                |i: int| self.external_modules@[i]@,
            ),
            module: self.module,
        }
    }
}

/// One resolver fact: from `base`, the specifier leads to `target`.
pub struct Resolution {
    pub base: FileName,
    pub specifier: String,
    pub target: FileName,
}

pub struct ResolutionV {
    pub base: FileNameV,
    pub specifier: Seq<char>,
    pub target: FileNameV,
}

impl View for Resolution {
    type V = ResolutionV;

    open spec fn view(&self) -> ResolutionV {
        ResolutionV { base: self.base@, specifier: self.specifier@, target: self.target@ }
    }
}

/// One loadable source: the parsed module of a path.  The source moves out
/// on its single load.
pub struct HostModule {
    pub path: FileName,
    pub source: Option<Module>,
}

pub struct HostModuleV {
    pub path: FileNameV,
    pub source: Option<ModuleV>,
}

impl View for HostModule {
    type V = HostModuleV;

    open spec fn view(&self) -> HostModuleV {
        HostModuleV {
            path: self.path@,
            source: match &self.source {
                Some(m) => Some(m@),
                None => None,
            },
        }
    }
}

/// The host capabilities handed to the bundler as data: the resolver's graph
/// and the loader's parsed sources.
pub struct Host {
    pub resolutions: Vec<Resolution>,
    pub modules: Vec<HostModule>,
}

pub struct HostV {
    pub resolutions: Seq<ResolutionV>,
    pub modules: Seq<HostModuleV>,
}

impl View for Host {
    type V = HostV;

    open spec fn view(&self) -> HostV {
        HostV {
            resolutions: Seq::new(self.resolutions@.len(), |i: int| self.resolutions@[i]@),
            modules: Seq::new(self.modules@.len(), |i: int| self.modules@[i]@),
        }
    }
}

/// The resolver's answer: the target of the first matching fact.
pub open spec fn resolve_spec(rs: Seq<ResolutionV>, base: FileNameV, specifier: Seq<char>) -> Option<
    FileNameV,
>
    decreases rs.len(),
{
    if rs.len() == 0 {
        None
    } else if rs[0].base == base && rs[0].specifier == specifier {
        Some(rs[0].target)
    } else {
        resolve_spec(rs.drop_first(), base, specifier)
    }
}

proof fn lemma_resolve_at(rs: Seq<ResolutionV>, base: FileNameV, sp: Seq<char>, k: int)
    requires
        0 <= k < rs.len(),
        rs[k].base == base && rs[k].specifier == sp,
        forall|j: int| 0 <= j < k ==> !((#[trigger] rs[j]).base == base && rs[j].specifier == sp),
    ensures
        resolve_spec(rs, base, sp) == Some(rs[k].target),
    decreases k,
{
    if k == 0 {
    } else {
        let rest = rs.drop_first();
        assert(rest[k - 1] == rs[k]);
        assert forall|j: int|
            0 <= j < k - 1 implies !((#[trigger] rest[j]).base == base && rest[j].specifier
            == sp) by {
            assert(rest[j] == rs[j + 1]);
        }
        lemma_resolve_at(rest, base, sp, k - 1);
    }
}

proof fn lemma_resolve_none(rs: Seq<ResolutionV>, base: FileNameV, sp: Seq<char>)
    requires
        forall|j: int| 0 <= j < rs.len() ==> !((#[trigger] rs[j]).base == base && rs[j].specifier
            == sp),
    ensures
        resolve_spec(rs, base, sp) is None,
    decreases rs.len(),
{
    if rs.len() > 0 {
        let rest = rs.drop_first();
        assert forall|j: int|
            0 <= j < rest.len() implies !((#[trigger] rest[j]).base == base && rest[j].specifier
            == sp) by {
            assert(rest[j] == rs[j + 1]);
        }
        lemma_resolve_none(rest, base, sp);
    }
}

/// The first host entry registered for a path, if any: the one the loader
/// consults.
pub open spec fn first_module_index(ms: Seq<HostModuleV>, p: FileNameV) -> Option<int>
    decreases ms.len(),
{
    if ms.len() == 0 {
        None
    } else if ms[0].path == p {
        Some(0int)
    } else {
        match first_module_index(ms.drop_first(), p) {
            Some(k) => Some(k + 1),
            None => None,
        }
    }
}

pub proof fn lemma_first_module_props(ms: Seq<HostModuleV>, p: FileNameV)
    ensures
        match first_module_index(ms, p) {
            Some(k) => 0 <= k < ms.len() && ms[k].path == p && forall|j: int|
                0 <= j < k ==> (#[trigger] ms[j]).path != p,
            None => forall|j: int| 0 <= j < ms.len() ==> (#[trigger] ms[j]).path != p,
        },
    decreases ms.len(),
{
    if ms.len() == 0 {
    } else if ms[0].path == p {
    } else {
        let rest = ms.drop_first();
        lemma_first_module_props(rest, p);
        match first_module_index(rest, p) {
            Some(k) => {
                assert(rest[k] == ms[k + 1]);
                assert forall|j: int| 0 <= j < k + 1 implies (#[trigger] ms[j]).path != p by {
                    if j > 0 {
                        assert(rest[j - 1] == ms[j]);
                    }
                }
            },
            None => {
                assert forall|j: int| 0 <= j < ms.len() implies (#[trigger] ms[j]).path != p by {
                    if j > 0 {
                        assert(rest[j - 1] == ms[j]);
                    }
                }
            },
        }
    }
}

proof fn lemma_first_module_at(ms: Seq<HostModuleV>, p: FileNameV, k: int)
    requires
        0 <= k < ms.len(),
        ms[k].path == p,
        forall|j: int| 0 <= j < k ==> (#[trigger] ms[j]).path != p,
    ensures
        first_module_index(ms, p) == Some(k),
{
    lemma_first_module_props(ms, p);
    match first_module_index(ms, p) {
        Some(i) => {
            if i < k {
                assert(ms[i].path != p);
            } else if i > k {
                assert(ms[k].path != p);
            }
        },
        None => {
            assert(ms[k].path != p);
        },
    }
}

proof fn lemma_first_module_same_paths(ms1: Seq<HostModuleV>, ms2: Seq<HostModuleV>, p: FileNameV)
    requires
        ms1.len() == ms2.len(),
        forall|i: int| 0 <= i < ms1.len() ==> (#[trigger] ms2[i]).path == ms1[i].path,
    ensures
        first_module_index(ms2, p) == first_module_index(ms1, p),
    decreases ms1.len(),
{
    if ms1.len() > 0 {
        if ms1[0].path != p {
            let r1 = ms1.drop_first();
            let r2 = ms2.drop_first();
            assert(forall|i: int| 0 <= i < r1.len() ==> (#[trigger] r2[i]).path == r1[i].path) by {
                assert(forall|i: int|
                    0 <= i < r1.len() ==> #[trigger] r1[i] == ms1[i + 1] && r2[i] == ms2[i + 1]);
            }
            lemma_first_module_same_paths(r1, r2, p);
        }
    }
}

/// Consuming sources never creates one: availability only shrinks.
pub proof fn lemma_consume_monotone(ms1: Seq<HostModuleV>, ms2: Seq<HostModuleV>)
    requires
        ms1.len() == ms2.len(),
        forall|i: int| 0 <= i < ms1.len() ==> (#[trigger] ms2[i]).path == ms1[i].path,
        forall|i: int|
            0 <= i < ms1.len() ==> ((#[trigger] ms2[i]).source == ms1[i].source || ms2[i].source
                is None),
    ensures
        forall|p: FileNameV| #[trigger] host_has_source(ms2, p) ==> host_has_source(ms1, p),
{
    assert forall|p: FileNameV| #[trigger] host_has_source(ms2, p) implies host_has_source(
        ms1,
        p,
    ) by {
        lemma_first_module_same_paths(ms1, ms2, p);
        lemma_first_module_props(ms2, p);
        match first_module_index(ms2, p) {
            Some(k) => {
                assert(0 <= k < ms2.len());
                assert(ms2[k].source == ms1[k].source || ms2[k].source is None);
            },
            None => {},
        }
    }
}

/// The loader will hand out a source for this path: its first entry is
/// present and not yet consumed.
pub open spec fn host_has_source(ms: Seq<HostModuleV>, p: FileNameV) -> bool {
    match first_module_index(ms, p) {
        Some(k) => ms[k].source is Some,
        None => false,
    }
}

/// The source the loader hands out for the path.
pub open spec fn host_source(ms: Seq<HostModuleV>, p: FileNameV) -> ModuleV {
    ms[first_module_index(ms, p).unwrap()].source.unwrap()
}

/// Every logged path has had its source consumed: loading is single-shot.
pub open spec fn loads_consumed(ms: Seq<HostModuleV>, loads: Seq<FileName>) -> bool {
    forall|k: int| 0 <= k < loads.len() ==> !host_has_source(ms, (#[trigger] loads[k])@)
}

/// The registered module of the path is flagged as requiring wrapping.
pub open spec fn path_wrapping(reg: Seq<ModuleRecordV>, p: FileNameV) -> bool {
    match spec_find(reg, p) {
        Some(i) => reg[i].wrapping_required,
        None => false,
    }
}

/// Registrations that only grow, keep their paths, and never clear the
/// wrapping flag still carry every recorded verdict.
proof fn lemma_path_wrapping_extend(reg1: Seq<ModuleRecordV>, reg2: Seq<ModuleRecordV>, q: FileNameV)
    requires
        path_wrapping(reg1, q),
        reg2.len() >= reg1.len(),
        forall|i: int| 0 <= i < reg1.len() ==> (#[trigger] reg2[i]).path == reg1[i].path,
        forall|i: int|
            0 <= i < reg1.len() ==> (reg1[i].wrapping_required ==> (#[trigger] reg2[i]).wrapping_required),
    ensures
        path_wrapping(reg2, q),
{
    crate::registry::lemma_find_props(reg1, q);
    match spec_find(reg1, q) {
        Some(i) => {
            assert forall|j: int| 0 <= j < i implies (#[trigger] reg2[j]).path != q by {
                assert(reg1[j].path != q);
            }
            crate::registry::lemma_find_first(reg2, q, i);
        },
        None => {},
    }
}

/// The path is registered and its analyzed module currently published.
pub open spec fn path_published(reg: Seq<ModuleRecordV>, p: FileNameV) -> bool {
    match spec_find(reg, p) {
        Some(i) => reg[i].content is Some,
        None => false,
    }
}

/// Everything that was ever loaded is published: no attempt is lost.
pub open spec fn all_logged_published(reg: Seq<ModuleRecordV>, loads: Seq<FileName>) -> bool {
    forall|k: int| 0 <= k < loads.len() ==> path_published(reg, (#[trigger] loads[k])@)
}

/// The error names a genuine defect of the host: a specifier that is
/// neither configured external nor answered by the resolver, or a path the
/// loader has no source for.
pub open spec fn error_genuine(e: BundleErrorV, host: HostV, externals: Seq<Seq<char>>) -> bool {
    match e {
        BundleErrorV::Resolve { from, specifier } => !externals.contains(specifier)
            && resolve_spec(host.resolutions, from, specifier) is None,
        BundleErrorV::Load { path } => !host_has_source(host.modules, path),
    }
}

/// The edge either stays at the bundle boundary, or leads to a path whose
/// source is still available or already loaded.
pub open spec fn edge_ok(
    host: HostV,
    externals: Seq<Seq<char>>,
    base: FileNameV,
    src: Seq<char>,
    loads: Seq<FileName>,
) -> bool {
    externals.contains(src) || (match resolve_spec(host.resolutions, base, src) {
        Some(t) => host_has_source(host.modules, t) || load_logged(loads, t),
        None => false,
    })
}

/// The edges a loadable host entry will produce under analysis.
pub open spec fn module_source_edges(hm: HostModuleV, supports_cjs: bool) -> Seq<Seq<char>> {
    match hm.source {
        Some(m) => crate::analyze::edges_of(m.body, supports_cjs),
        None => Seq::empty(),
    }
}

/// The host is complete: every edge of every still-loadable module either
/// is external, or resolves to a path that is loadable or already loaded.
/// Under this, the driver owes success.
pub open spec fn host_complete(
    host: HostV,
    externals: Seq<Seq<char>>,
    supports_cjs: bool,
    loads: Seq<FileName>,
) -> bool {
    forall|k: int, j: int|
        0 <= k < host.modules.len() && 0 <= j < module_source_edges(
            host.modules[k],
            supports_cjs,
        ).len() ==> edge_ok(
            host,
            externals,
            host.modules[k].path,
            #[trigger] module_source_edges(host.modules[k], supports_cjs)[j],
            loads,
        )
}

/// How one published specifier is tagged, against the resolver and the
/// configured externals: the source and bindings of its untagged form, and
/// the target external exactly when configured, else the resolver's answer
/// as a registered identity whose path was attempted (or is still pending
/// on the traversal stack), else unresolvable.
pub open spec fn specifier_from(
    reg: Seq<ModuleRecordV>,
    host: HostV,
    externals: Seq<Seq<char>>,
    loads: Seq<FileName>,
    pending: Seq<FileName>,
    base: FileNameV,
    s0: crate::ast::SpecifierV,
    s: crate::ast::SpecifierV,
) -> bool {
    &&& s.src == s0.src
    &&& s.bindings == s0.bindings
    &&& (if externals.contains(s0.src) {
        s.target == Target::External
    } else {
        match resolve_spec(host.resolutions, base, s0.src) {
            Some(t) => s.target matches Target::Internal { id } && spec_find(reg, t) == Some(
                id as int,
            ) && (load_logged(loads, t) || load_logged(pending, t)),
            None => s.target == Target::Unresolvable,
        }
    })
}

/// The published content of a loaded path is the analysis of its host
/// source: the body is the analyzer's rewrite under the module's own marks,
/// the deglob records are sound, complete and distinct for that source, and
/// the specifiers are the rewritten body's records with every target
/// tagged.
pub open spec fn published_from_source(
    reg: Seq<ModuleRecordV>,
    host: HostV,
    externals: Seq<Seq<char>>,
    supports_cjs: bool,
    loads: Seq<FileName>,
    pending: Seq<FileName>,
    p: FileNameV,
) -> bool {
    match spec_find(reg, p) {
        Some(i) => match reg[i].content {
            Some(c) => {
                let src_mod = host_source(host.modules, p);
                let cx = crate::analyze::spec_ctx(
                    src_mod,
                    local_mark_spec(i) as Mark,
                    export_mark_spec(i) as Mark,
                    supports_cjs,
                );
                let degs = c.imports.idents_to_deglob;
                &&& c.module.body.len() == src_mod.body.len()
                &&& (forall|k: int|
                    0 <= k < src_mod.body.len() ==> c.module.body[k]
                        == crate::analyze::rewrite_item(
                        #[trigger] src_mod.body[k],
                        cx,
                        degs,
                        supports_cjs,
                    ))
                &&& (forall|k: int|
                    0 <= k < degs.len() ==> crate::analyze::deglob_record_ok(
                        src_mod,
                        #[trigger] degs[k],
                    ))
                &&& (forall|s2: Seq<char>|
                    crate::analyze::eligible(src_mod, s2) ==> exists|k: int|
                        0 <= k < degs.len() && (#[trigger] degs[k]).ns == s2)
                &&& (forall|k1: int, k2: int|
                    0 <= k1 < k2 < degs.len() ==> degs[k1].ns != degs[k2].ns)
                &&& c.imports.specifiers.len() == crate::analyze::specs_of(c.module.body).len()
                &&& (forall|j: int|
                    0 <= j < c.imports.specifiers.len() ==> specifier_from(
                        reg,
                        host,
                        externals,
                        loads,
                        pending,
                        p,
                        crate::analyze::specs_of(c.module.body)[j],
                        #[trigger] c.imports.specifiers[j],
                    ))
            },
            None => false,
        },
        None => false,
    }
}

/// The publication relation is stable: registrations only grow with their
/// paths and published contents kept, the log only grows, and a pending
/// path either stays pending or becomes logged.
proof fn lemma_published_from_source_extend(
    reg1: Seq<ModuleRecordV>,
    reg2: Seq<ModuleRecordV>,
    host: HostV,
    externals: Seq<Seq<char>>,
    supports_cjs: bool,
    loads1: Seq<FileName>,
    loads2: Seq<FileName>,
    pend1: Seq<FileName>,
    pend2: Seq<FileName>,
    p: FileNameV,
)
    requires
        published_from_source(reg1, host, externals, supports_cjs, loads1, pend1, p),
        reg2.len() >= reg1.len(),
        forall|i: int| 0 <= i < reg1.len() ==> (#[trigger] reg2[i]).path == reg1[i].path,
        forall|i: int|
            0 <= i < reg1.len() && reg1[i].content is Some ==> (#[trigger] reg2[i]).content
                == reg1[i].content,
        loads2.len() >= loads1.len(),
        forall|k: int| 0 <= k < loads1.len() ==> loads2[k] == loads1[k],
        forall|t: FileNameV|
            #[trigger] load_logged(pend1, t) ==> load_logged(loads2, t) || load_logged(pend2, t),
    ensures
        published_from_source(reg2, host, externals, supports_cjs, loads2, pend2, p),
{
    crate::registry::lemma_find_props(reg1, p);
    match spec_find(reg1, p) {
        Some(i) => {
            assert forall|j: int| 0 <= j < i implies (#[trigger] reg2[j]).path != p by {
                assert(reg1[j].path != p);
            }
            crate::registry::lemma_find_first(reg2, p, i);
            let c = reg1[i].content.unwrap();
            assert(reg2[i].content == reg1[i].content);
            assert forall|j: int|
                0 <= j < c.imports.specifiers.len() implies specifier_from(
                reg2,
                host,
                externals,
                loads2,
                pend2,
                p,
                crate::analyze::specs_of(c.module.body)[j],
                #[trigger] c.imports.specifiers[j],
            ) by {
                let s0 = crate::analyze::specs_of(c.module.body)[j];
                let s = c.imports.specifiers[j];
                assert(specifier_from(reg1, host, externals, loads1, pend1, p, s0, s));
                if !externals.contains(s0.src) {
                    match resolve_spec(host.resolutions, p, s0.src) {
                        Some(t) => {
                            let id2 = s.target->Internal_id;
                            crate::registry::lemma_find_props(reg1, t);
                            assert forall|w: int|
                                0 <= w < id2 implies (#[trigger] reg2[w]).path != t by {
                                assert(reg1[w].path != t);
                            }
                            crate::registry::lemma_find_first(reg2, t, id2 as int);
                            if load_logged(loads1, t) {
                                lemma_logged_grow(loads1, loads2, t);
                            }
                        },
                        None => {},
                    }
                }
            }
        },
        None => {},
    }
}

/// The publication relation only reads the host's resolver facts and the
/// one source it describes, so it transfers between host states that agree
/// on those.
proof fn lemma_published_from_source_host(
    reg: Seq<ModuleRecordV>,
    host_a: HostV,
    host_b: HostV,
    externals: Seq<Seq<char>>,
    supports_cjs: bool,
    loads: Seq<FileName>,
    pending: Seq<FileName>,
    p: FileNameV,
)
    requires
        published_from_source(reg, host_a, externals, supports_cjs, loads, pending, p),
        host_b.resolutions == host_a.resolutions,
        host_source(host_b.modules, p) == host_source(host_a.modules, p),
    ensures
        published_from_source(reg, host_b, externals, supports_cjs, loads, pending, p),
{
    match spec_find(reg, p) {
        Some(i) => {
            let c = reg[i].content.unwrap();
            assert forall|j: int|
                0 <= j < c.imports.specifiers.len() implies specifier_from(
                reg,
                host_b,
                externals,
                loads,
                pending,
                p,
                crate::analyze::specs_of(c.module.body)[j],
                #[trigger] c.imports.specifiers[j],
            ) by {
                assert(specifier_from(
                    reg,
                    host_a,
                    externals,
                    loads,
                    pending,
                    p,
                    crate::analyze::specs_of(c.module.body)[j],
                    c.imports.specifiers[j],
                ));
            }
        },
        None => {},
    }
}

/// One tagged specifier stays tagged as registrations grow and pending
/// paths become logged.
proof fn lemma_specifier_from_extend(
    reg1: Seq<ModuleRecordV>,
    reg2: Seq<ModuleRecordV>,
    host: HostV,
    externals: Seq<Seq<char>>,
    loads1: Seq<FileName>,
    loads2: Seq<FileName>,
    pend1: Seq<FileName>,
    pend2: Seq<FileName>,
    base: FileNameV,
    s0: crate::ast::SpecifierV,
    s: crate::ast::SpecifierV,
)
    requires
        specifier_from(reg1, host, externals, loads1, pend1, base, s0, s),
        reg2.len() >= reg1.len(),
        forall|i: int| 0 <= i < reg1.len() ==> (#[trigger] reg2[i]).path == reg1[i].path,
        loads2.len() >= loads1.len(),
        forall|k: int| 0 <= k < loads1.len() ==> loads2[k] == loads1[k],
        forall|t: FileNameV|
            #[trigger] load_logged(pend1, t) ==> load_logged(loads2, t) || load_logged(pend2, t),
    ensures
        specifier_from(reg2, host, externals, loads2, pend2, base, s0, s),
{
    if !externals.contains(s0.src) {
        match resolve_spec(host.resolutions, base, s0.src) {
            Some(t) => {
                let id2 = s.target->Internal_id;
                crate::registry::lemma_find_props(reg1, t);
                assert forall|w: int| 0 <= w < id2 implies (#[trigger] reg2[w]).path != t by {
                    assert(reg1[w].path != t);
                }
                crate::registry::lemma_find_first(reg2, t, id2 as int);
                if load_logged(loads1, t) {
                    lemma_logged_grow(loads1, loads2, t);
                }
            },
            None => {},
        }
    }
}

/// The source of a never-attempted path is untouched.
proof fn lemma_source_preserved_unlogged(
    host0: HostV,
    host1: HostV,
    loads1: Seq<FileName>,
    p: FileNameV,
)
    requires
        host_has_source(host0.modules, p),
        !load_logged(loads1, p),
        host1.modules.len() == host0.modules.len(),
        forall|i: int| 0 <= i < host0.modules.len() ==> (#[trigger] host1.modules[i]).path == host0.modules[i].path,
        forall|i: int|
            0 <= i < host0.modules.len() ==> ((#[trigger] host1.modules[i]).source
                == host0.modules[i].source || (host1.modules[i].source is None && load_logged(
                loads1,
                host1.modules[i].path,
            ))),
    ensures
        host_has_source(host1.modules, p),
        host_source(host1.modules, p) == host_source(host0.modules, p),
{
    lemma_first_module_same_paths(host0.modules, host1.modules, p);
    lemma_first_module_props(host0.modules, p);
    let k = first_module_index(host0.modules, p).unwrap();
    assert(host0.modules[k].path == p);
    assert(host1.modules[k].source == host0.modules[k].source) by {
        if host1.modules[k].source != host0.modules[k].source {
            assert(host1.modules[k].source is None && load_logged(
                loads1,
                host1.modules[k].path,
            ));
        }
    }
}

/// An error collected by the driver.
#[derive(Debug)]
pub enum BundleError {
    /// A specifier could not be located.
    Resolve { from: FileName, specifier: String },
    /// A resolved path could not be loaded.
    Load { path: FileName },
}

pub enum BundleErrorV {
    Resolve { from: FileNameV, specifier: Seq<char> },
    Load { path: FileNameV },
}

impl View for BundleError {
    type V = BundleErrorV;

    open spec fn view(&self) -> BundleErrorV {
        match self {
            BundleError::Resolve { from, specifier } => BundleErrorV::Resolve {
                from: from@,
                specifier: specifier@,
            },
            BundleError::Load { path } => BundleErrorV::Load { path: path@ },
        }
    }
}

/// One bundling root handed to `bundle`.
pub struct EntryRequest {
    pub name: String,
    pub path: FileName,
}

/// No path is loaded twice.
pub open spec fn loads_distinct(v: Seq<FileName>) -> bool {
    forall|i: int, j: int| 0 <= i < j < v.len() ==> (#[trigger] v[i])@ != (#[trigger] v[j])@
}

pub open spec fn load_logged(v: Seq<FileName>, p: FileNameV) -> bool {
    exists|k: int| 0 <= k < v.len() && (#[trigger] v[k])@ == p
}

/// The bundler's well-formedness: a well-formed registry, a duplicate-free
/// load log covering every published module, and every published module's
/// specifiers fully tagged: never left unresolved, external exactly for the
/// configured external specifiers, and internal targets valid identities.
pub open spec fn bundler_wf(
    reg: Seq<ModuleRecordV>,
    loads: Seq<FileName>,
    externals: Seq<Seq<char>>,
) -> bool {
    &&& reg_wf(reg)
    &&& loads_distinct(loads)
    &&& (forall|i: usize|
        #[trigger] published(reg, i) ==> load_logged(loads, reg[i as int].path))
    &&& (forall|i: usize, j: int|
        published(reg, i) && 0 <= j < crate::chunk::content_of(reg, i).imports.specifiers.len()
            ==> spec_tagged(
            reg,
            #[trigger] crate::chunk::content_of(reg, i).imports.specifiers[j],
            externals,
        ))
}

/// One specifier record is fully tagged.
pub open spec fn spec_tagged(
    reg: Seq<ModuleRecordV>,
    s: crate::ast::SpecifierV,
    externals: Seq<Seq<char>>,
) -> bool {
    &&& s.target != Target::Unresolved
    &&& ((s.target == Target::External) <==> externals.contains(s.src))
    &&& (s.target matches Target::Internal { id } ==> id < reg.len())
}

/// The bundler: configuration, host, module registry (scope), and the load
/// log.
pub struct Bundler {
    pub config: Config,
    pub host: Host,
    pub scope: Registry,
    pub loads: Vec<FileName>,
}

impl Bundler {
    pub open spec fn wf(self) -> bool {
        &&& bundler_wf(self.scope@, self.loads@, self.config@.external_modules)
        &&& loads_consumed(self.host@.modules, self.loads@)
    }

    pub fn new(config: Config, host: Host) -> (r: Bundler)
        ensures
            r.wf(),
            r.scope@.len() == 0,
            r.loads@.len() == 0,
            r.config@ == config@,
            r.host@ == host@,
    {
        Bundler { config, host, scope: Registry::new(), loads: Vec::new() }
    }

    /// Whether a specifier is configured as external.
    pub fn is_external_module(&self, specifier: &String) -> (r: bool)
        ensures
            r == self.config@.external_modules.contains(specifier@),
    {
        let mut k: usize = 0;
        let n = self.config.external_modules.len();
        while k < n
            invariant
                k <= n,
                n == self.config.external_modules@.len(),
                forall|j: int|
                    0 <= j < k ==> (#[trigger] self.config.external_modules@[j])@ != specifier@,
            decreases n - k,
        {
            if string_eq(&self.config.external_modules[k], specifier) {
                proof {
                    assert(self.config@.external_modules[k as int] == specifier@);
                }
                return true;
            }
            k = k + 1;
        }
        proof {
            if self.config@.external_modules.contains(specifier@) {
                let j = choose|j: int|
                    0 <= j < self.config@.external_modules.len()
                        && self.config@.external_modules[j] == specifier@;
                assert(self.config.external_modules@[j]@ != specifier@);
            }
        }
        false
    }

    /// Whether the analyzer recognizes CommonJS `require` calls.
    pub fn supports_cjs(&self) -> (r: bool)
        ensures
            r == self.config@.require,
    {
        self.config.require
    }

    /// The analyzer-facing resolver lookup; it never fails, only answers
    /// `None`.
    pub fn resolve(&self, from: &FileName, src: &String) -> (r: Option<FileName>)
        ensures
            match r {
                Some(t) => resolve_spec(self.host@.resolutions, from@, src@) == Some(t@) && exists|
                    j: int,
                |
                    0 <= j < self.host@.resolutions.len() && (#[trigger] self.host@.resolutions[j]).target
                        == t@,
                None => resolve_spec(self.host@.resolutions, from@, src@) is None,
            },
    {
        let mut k: usize = 0;
        let n = self.host.resolutions.len();
        while k < n
            invariant
                k <= n,
                n == self.host.resolutions@.len(),
                forall|j: int|
                    0 <= j < k ==> !((#[trigger] self.host@.resolutions[j]).base == from@
                        && self.host@.resolutions[j].specifier == src@),
            decreases n - k,
        {
            let res = &self.host.resolutions[k];
            if filename_eq(&res.base, from) && string_eq(&res.specifier, src) {
                proof {
                    lemma_resolve_at(self.host@.resolutions, from@, src@, k as int);
                    assert(self.host@.resolutions[k as int].target == res.target@);
                }
                return Some(copy_filename(&res.target));
            }
            k = k + 1;
        }
        proof {
            lemma_resolve_none(self.host@.resolutions, from@, src@);
        }
        None
    }

    /// The idempotent registry query: the identity and mark pair of a path.
    pub fn get_module_info(&mut self, path: &FileName) -> (r: (usize, Mark, Mark))
        requires
            old(self).wf(),
        ensures
            final(self).wf(),
            final(self).scope@ == spec_id_for(old(self).scope@, path@).0,
            r.0 as int == spec_id_for(old(self).scope@, path@).1,
            r.1 as int == crate::registry::local_mark_spec(r.0 as int),
            r.2 as int == crate::registry::export_mark_spec(r.0 as int),
            final(self).loads@ == old(self).loads@,
            final(self).config@ == old(self).config@,
            final(self).host@ == old(self).host@,
            flags_le(old(self).scope@, final(self).scope@),
    {
        let ghost reg0 = self.scope@;
        let r = self.scope.id_for(path);
        proof {
            lemma_extend_wf(reg0, self.scope@, self.loads@, self.config@.external_modules);
        }
        r
    }

    /// Monotone flag setter.
    pub fn mark_as_cjs(&mut self, id: usize)
        requires
            old(self).wf(),
            id < old(self).scope@.len(),
        ensures
            final(self).wf(),
            flags_le(old(self).scope@, final(self).scope@),
            final(self).scope@ =~= old(self).scope@.update(
                id as int,
                ModuleRecordV { is_cjs: true, ..old(self).scope@[id as int] },
            ),
            final(self).scope@.len() == old(self).scope@.len(),
            forall|i: int|
                0 <= i < old(self).scope@.len() ==> (#[trigger] final(self).scope@[i]).content
                    == old(self).scope@[i].content && final(self).scope@[i].path
                    == old(self).scope@[i].path,
            final(self).loads@ == old(self).loads@,
            final(self).config@ == old(self).config@,
            final(self).host@ == old(self).host@,
    {
        let ghost reg0 = self.scope@;
        self.scope.mark_as_cjs(id);
        proof {
            lemma_flagset_wf(reg0, self.scope@, self.loads@, self.config@.external_modules);
        }
    }

    /// Monotone flag setter.
    pub fn mark_as_wrapping_required(&mut self, id: usize)
        requires
            old(self).wf(),
            id < old(self).scope@.len(),
        ensures
            final(self).wf(),
            flags_le(old(self).scope@, final(self).scope@),
            final(self).scope@ =~= old(self).scope@.update(
                id as int,
                ModuleRecordV { wrapping_required: true, ..old(self).scope@[id as int] },
            ),
            final(self).scope@.len() == old(self).scope@.len(),
            forall|i: int|
                0 <= i < old(self).scope@.len() ==> (#[trigger] final(self).scope@[i]).content
                    == old(self).scope@[i].content && final(self).scope@[i].path
                    == old(self).scope@[i].path,
            final(self).loads@ == old(self).loads@,
            final(self).config@ == old(self).config@,
            final(self).host@ == old(self).host@,
    {
        let ghost reg0 = self.scope@;
        self.scope.mark_as_wrapping_required(id);
        proof {
            lemma_flagset_wf(reg0, self.scope@, self.loads@, self.config@.external_modules);
        }
    }

    /// The single-shot loader: hands out the parsed module of the first
    /// entry for the path and consumes it; a second load of the same path,
    /// or a load of an unknown path, comes back empty.
    fn host_load(&mut self, path: &FileName) -> (r: Option<Module>)
        ensures
            final(self).scope@ == old(self).scope@,
            final(self).loads@ == old(self).loads@,
            final(self).config@ == old(self).config@,
            final(self).host@.resolutions == old(self).host@.resolutions,
            match r {
                Some(m) => ({
                    &&& host_has_source(old(self).host@.modules, path@)
                    &&& m@ == host_source(old(self).host@.modules, path@)
                    &&& final(self).host@.modules =~= old(self).host@.modules.update(
                        first_module_index(old(self).host@.modules, path@).unwrap(),
                        HostModuleV {
                            source: None,
                            ..old(self).host@.modules[first_module_index(
                                old(self).host@.modules,
                                path@,
                            ).unwrap()]
                        },
                    )
                }),
                None => ({
                    &&& !host_has_source(old(self).host@.modules, path@)
                    &&& final(self).host@ == old(self).host@
                }),
            },
            !host_has_source(final(self).host@.modules, path@),
    {
        let n = self.host.modules.len();
        let mut k: usize = 0;
        while k < n
            invariant
                k <= n,
                n == self.host.modules@.len(),
                self == old(self),
                forall|j: int| 0 <= j < k ==> (#[trigger] self.host@.modules[j]).path != path@,
            decreases n - k,
        {
            if filename_eq(&self.host.modules[k].path, path) {
                proof {
                    lemma_first_module_at(old(self).host@.modules, path@, k as int);
                }
                let mut hm = self.host.modules.remove(k);
                let src = hm.source;
                hm.source = None;
                self.host.modules.insert(k, hm);
                proof {
                    assert(self.host@.resolutions =~= old(self).host@.resolutions);
                    assert(first_module_index(self.host@.modules, path@) == Some(k as int)) by {
                        assert(forall|j: int|
                            0 <= j < self.host@.modules.len() ==> (
                            #[trigger] self.host@.modules[j]).path == old(
                                self,
                            ).host@.modules[j].path);
                        lemma_first_module_at(self.host@.modules, path@, k as int);
                    }
                }
                match src {
                    Some(module) => {
                        proof {
                            assert(self.host@.modules =~= old(self).host@.modules.update(
                                k as int,
                                HostModuleV {
                                    source: None,
                                    ..old(self).host@.modules[k as int]
                                },
                            ));
                        }
                        return Some(module);
                    },
                    None => {
                        proof {
                            assert(self.host@.modules =~= old(self).host@.modules);
                            assert(self.host@ == old(self).host@);
                        }
                        return None;
                    },
                }
            }
            k = k + 1;
        }
        proof {
            lemma_first_module_props(old(self).host@.modules, path@);
            match first_module_index(old(self).host@.modules, path@) {
                Some(j) => {
                    assert(old(self).host@.modules[j].path != path@);
                },
                None => {},
            }
        }
        None
    }
}

proof fn lemma_driver_consumed(
    pre: HostV,
    post: HostV,
    loads_before: Seq<FileName>,
    loads_now: Seq<FileName>,
    p: FileNameV,
)
    requires
        loads_consumed(pre.modules, loads_before),
        loads_now.len() == loads_before.len() + 1,
        forall|k: int| 0 <= k < loads_before.len() ==> loads_now[k] == loads_before[k],
        loads_now[loads_now.len() - 1]@ == p,
        !host_has_source(post.modules, p),
        post.modules.len() == pre.modules.len(),
        forall|i: int| 0 <= i < pre.modules.len() ==> (#[trigger] post.modules[i]).path == pre.modules[i].path,
        forall|i: int|
            0 <= i < pre.modules.len() ==> ((#[trigger] post.modules[i]).source == pre.modules[i].source
                || post.modules[i].source is None),
    ensures
        loads_consumed(post.modules, loads_now),
{
    lemma_consume_monotone(pre.modules, post.modules);
    assert forall|k: int|
        0 <= k < loads_now.len() implies !host_has_source(post.modules, (#[trigger] loads_now[k])@) by {
        if k < loads_before.len() {
            assert(!host_has_source(pre.modules, loads_before[k]@));
        }
    }
}

/// A still-available source other than the consumed one stays available.
proof fn lemma_has_source_after_consume(
    pre: Seq<HostModuleV>,
    cur: Seq<HostModuleV>,
    consumed: FileNameV,
    p: FileNameV,
)
    requires
        host_has_source(pre, p),
        p != consumed,
        cur.len() == pre.len(),
        forall|i: int| 0 <= i < pre.len() ==> (#[trigger] cur[i]).path == pre[i].path,
        forall|i: int|
            0 <= i < pre.len() ==> ((#[trigger] cur[i]).source == pre[i].source || pre[i].path
                == consumed),
    ensures
        host_has_source(cur, p),
{
    lemma_first_module_same_paths(pre, cur, p);
    lemma_first_module_props(pre, p);
    let k = first_module_index(pre, p).unwrap();
    assert(pre[k].path == p);
    assert(cur[k].source == pre[k].source);
}

/// A logged path stays logged when the log grows.
proof fn lemma_logged_grow(l1: Seq<FileName>, l2: Seq<FileName>, p: FileNameV)
    requires
        load_logged(l1, p),
        l2.len() >= l1.len(),
        forall|k: int| 0 <= k < l1.len() ==> l2[k] == l1[k],
    ensures
        load_logged(l2, p),
{
    let k = choose|k: int| 0 <= k < l1.len() && (#[trigger] l1[k])@ == p;
    assert(l2[k]@ == p);
}

/// A path other than the popped one stays on the stack.
proof fn lemma_logged_pop(st: Seq<FileName>, p: FileNameV)
    requires
        load_logged(st, p),
        st.len() > 0,
        st[st.len() - 1]@ != p,
    ensures
        load_logged(st.drop_last(), p),
{
    let k = choose|k: int| 0 <= k < st.len() && (#[trigger] st[k])@ == p;
    assert(st.drop_last()[k]@ == p);
}

/// An edge that was fine before one source was consumed is still fine: the
/// consumed path is logged, every other source survives, and the log only
/// grows.
proof fn lemma_edge_ok_after_consume(
    pre: HostV,
    cur: HostV,
    loads_pre: Seq<FileName>,
    loads_cur: Seq<FileName>,
    consumed: FileNameV,
    base: FileNameV,
    src: Seq<char>,
    externals: Seq<Seq<char>>,
)
    requires
        edge_ok(pre, externals, base, src, loads_pre),
        cur.resolutions == pre.resolutions,
        cur.modules.len() == pre.modules.len(),
        forall|i: int| 0 <= i < pre.modules.len() ==> (#[trigger] cur.modules[i]).path == pre.modules[i].path,
        forall|i: int|
            0 <= i < pre.modules.len() ==> ((#[trigger] cur.modules[i]).source == pre.modules[i].source
                || pre.modules[i].path == consumed),
        load_logged(loads_cur, consumed),
        loads_cur.len() >= loads_pre.len(),
        forall|k: int| 0 <= k < loads_pre.len() ==> loads_cur[k] == loads_pre[k],
    ensures
        edge_ok(cur, externals, base, src, loads_cur),
{
    if !externals.contains(src) {
        match resolve_spec(pre.resolutions, base, src) {
            Some(t) => {
                if host_has_source(pre.modules, t) {
                    if t == consumed {
                    } else {
                        lemma_first_module_same_paths(pre.modules, cur.modules, t);
                        lemma_first_module_props(pre.modules, t);
                        let k = first_module_index(pre.modules, t).unwrap();
                        assert(pre.modules[k].path == t);
                        assert(cur.modules[k].source == pre.modules[k].source);
                        assert(host_has_source(cur.modules, t));
                    }
                } else {
                    let k = choose|k: int|
                        0 <= k < loads_pre.len() && (#[trigger] loads_pre[k])@ == t;
                    assert(loads_cur[k]@ == t);
                }
            },
            None => {},
        }
    }
}

/// Registrations that only grow, keep their paths, and keep published
/// content still cover every logged path.
proof fn lemma_all_logged_published_extend(
    reg1: Seq<ModuleRecordV>,
    reg2: Seq<ModuleRecordV>,
    loads: Seq<FileName>,
)
    requires
        all_logged_published(reg1, loads),
        reg2.len() >= reg1.len(),
        forall|i: int| 0 <= i < reg1.len() ==> (#[trigger] reg2[i]).path == reg1[i].path,
        forall|i: int|
            0 <= i < reg1.len() ==> (reg1[i].content is Some ==> (#[trigger] reg2[i]).content
                == reg1[i].content),
    ensures
        all_logged_published(reg2, loads),
{
    assert forall|k: int|
        0 <= k < loads.len() implies path_published(reg2, (#[trigger] loads[k])@) by {
        let p = loads[k]@;
        assert(path_published(reg1, p));
        crate::registry::lemma_find_props(reg1, p);
        match spec_find(reg1, p) {
            Some(i) => {
                assert forall|j: int| 0 <= j < i implies (#[trigger] reg2[j]).path != p by {
                    assert(reg1[j].path != p);
                }
                crate::registry::lemma_find_first(reg2, p, i);
            },
            None => {},
        }
    }
}

/// Extending the registry with a fresh, unpublished record keeps the
/// bundler well-formed.
proof fn lemma_extend_wf(
    reg0: Seq<ModuleRecordV>,
    reg1: Seq<ModuleRecordV>,
    loads: Seq<FileName>,
    externals: Seq<Seq<char>>,
)
    requires
        bundler_wf(reg0, loads, externals),
        reg_wf(reg1),
        reg0.len() <= reg1.len(),
        forall|i: int| 0 <= i < reg0.len() ==> reg1[i] == reg0[i],
        forall|i: int| reg0.len() <= i < reg1.len() ==> reg1[i].content is None,
    ensures
        bundler_wf(reg1, loads, externals),
{
    assert forall|i: usize| #[trigger] published(reg1, i) implies load_logged(
        loads,
        reg1[i as int].path,
    ) by {
        assert(i < reg0.len());
        assert(published(reg0, i));
    }
    assert forall|i: usize, j: int|
        published(reg1, i) && 0 <= j < crate::chunk::content_of(reg1, i).imports.specifiers.len()
        implies spec_tagged(
        reg1,
        #[trigger] crate::chunk::content_of(reg1, i).imports.specifiers[j],
        externals,
    ) by {
        assert(i < reg0.len());
        assert(published(reg0, i));
        assert(crate::chunk::content_of(reg1, i) == crate::chunk::content_of(reg0, i));
        assert(spec_tagged(reg0, crate::chunk::content_of(reg0, i).imports.specifiers[j], externals));
    }
}

/// Setting a flag keeps the bundler well-formed: contents and paths are
/// untouched.
proof fn lemma_flagset_wf(
    reg0: Seq<ModuleRecordV>,
    reg1: Seq<ModuleRecordV>,
    loads: Seq<FileName>,
    externals: Seq<Seq<char>>,
)
    requires
        bundler_wf(reg0, loads, externals),
        reg1.len() == reg0.len(),
        forall|i: int|
            0 <= i < reg0.len() ==> (#[trigger] reg1[i]).path == reg0[i].path && reg1[i].content
                == reg0[i].content,
    ensures
        bundler_wf(reg1, loads, externals),
{
    assert forall|i: int, j: int| 0 <= i < j < reg1.len() implies reg1[i].path != reg1[j].path by {
        assert(reg0[i].path != reg0[j].path);
    }
    assert forall|i: usize| #[trigger] published(reg1, i) implies load_logged(
        loads,
        reg1[i as int].path,
    ) by {
        assert(published(reg0, i));
    }
    assert forall|i: usize, j: int|
        published(reg1, i) && 0 <= j < crate::chunk::content_of(reg1, i).imports.specifiers.len()
        implies spec_tagged(
        reg1,
        #[trigger] crate::chunk::content_of(reg1, i).imports.specifiers[j],
        externals,
    ) by {
        assert(published(reg0, i));
        assert(crate::chunk::content_of(reg1, i) == crate::chunk::content_of(reg0, i));
        assert(spec_tagged(reg0, crate::chunk::content_of(reg0, i).imports.specifiers[j], externals));
    }
}

/// Membership in the load log.
fn loads_contains(v: &Vec<FileName>, p: &FileName) -> (r: bool)
    ensures
        r == load_logged(v@, p@),
{
    let mut k: usize = 0;
    let n = v.len();
    while k < n
        invariant
            k <= n,
            n == v@.len(),
            forall|j: int| 0 <= j < k ==> (#[trigger] v@[j])@ != p@,
        decreases n - k,
    {
        if filename_eq(&v[k], p) {
            proof {
                assert(v@[k as int]@ == p@);
            }
            return true;
        }
        k = k + 1;
    }
    false
}

/// The first index of a path in the universe table.
fn universe_index(u: &Vec<FileName>, p: &FileName) -> (r: Option<usize>)
    ensures
        match r {
            Some(i) => i < u@.len() && u@[i as int]@ == p@,
            None => forall|j: int| 0 <= j < u@.len() ==> (#[trigger] u@[j])@ != p@,
        },
{
    let mut k: usize = 0;
    let n = u.len();
    while k < n
        invariant
            k <= n,
            n == u@.len(),
            forall|j: int| 0 <= j < k ==> (#[trigger] u@[j])@ != p@,
        decreases n - k,
    {
        if filename_eq(&u[k], p) {
            return Some(k);
        }
        k = k + 1;
    }
    None
}

impl Bundler {
    /// The load-transformed driver: turns a file identity into a fully
    /// analyzed registry entry, including its transitive dependencies.
    /// Every path is loaded at most once (the load log stays free of
    /// duplicates); resolve and load failures are appended to `errors` and
    /// do not abort the traversal.  The entry is always attempted; unless
    /// an error was appended, everything attempted is published; every
    /// appended error names a fact the host genuinely lacks; and over a
    /// complete host the traversal cannot fail at all.
    #[verifier::loop_isolation(false)]
    #[verifier::rlimit(100)]
    pub fn load_transformed(&mut self, entry: &FileName, errors: &mut Vec<BundleError>)
        requires
            old(self).wf(),
        ensures
            final(self).wf(),
            flags_le(old(self).scope@, final(self).scope@),
            final(self).config@ == old(self).config@,
            final(self).loads@.len() >= old(self).loads@.len(),
            forall|k: int|
                0 <= k < old(self).loads@.len() ==> final(self).loads@[k] == old(self).loads@[k],
            final(errors)@.len() >= old(errors)@.len(),
            forall|k: int|
                0 <= k < old(errors)@.len() ==> final(errors)@[k] == old(errors)@[k],
            // the host is only ever consumed: resolver facts and paths stay,
            // and a source disappears only for a logged path
            final(self).host@.resolutions == old(self).host@.resolutions,
            final(self).host@.modules.len() == old(self).host@.modules.len(),
            forall|k: int|
                0 <= k < old(self).host@.modules.len() ==> (
                #[trigger] final(self).host@.modules[k]).path == old(self).host@.modules[k].path,
            forall|k: int|
                0 <= k < old(self).host@.modules.len() ==> ((
                #[trigger] final(self).host@.modules[k]).source
                    == old(self).host@.modules[k].source || (final(self).host@.modules[k].source
                    is None && load_logged(final(self).loads@, final(self).host@.modules[k].path))),
            // the entry is always attempted
            load_logged(final(self).loads@, entry@),
            // no attempt is lost: without a new error, everything ever
            // logged is published
            (final(errors)@ == old(errors)@ && all_logged_published(
                old(self).scope@,
                old(self).loads@,
            )) ==> all_logged_published(final(self).scope@, final(self).loads@),
            // every new error names a genuine defect of the host
            forall|k: int|
                old(errors)@.len() <= k < final(errors)@.len() ==> error_genuine(
                    (#[trigger] final(errors)@[k])@,
                    final(self).host@,
                    old(self).config@.external_modules,
                ),
            // the analyzer's wrapping verdict reaches the registry: a
            // module loaded by this call whose source needs wrapping is
            // flagged
            forall|p: FileNameV|
                (!load_logged(old(self).loads@, p) && #[trigger] load_logged(
                    final(self).loads@,
                    p,
                ) && host_has_source(old(self).host@.modules, p)
                    && crate::analyze::module_wrapping(
                    host_source(old(self).host@.modules, p),
                    old(self).config@.require,
                )) ==> path_wrapping(final(self).scope@, p),
            // published contents never change
            forall|i: int|
                0 <= i < old(self).scope@.len() && old(self).scope@[i].content is Some ==> (
                #[trigger] final(self).scope@[i]).content == old(self).scope@[i].content,
            // what this call publishes is the analysis of the host's sources
            forall|p: FileNameV|
                (!load_logged(old(self).loads@, p) && #[trigger] load_logged(
                    final(self).loads@,
                    p,
                ) && host_has_source(old(self).host@.modules, p)) ==> published_from_source(
                    final(self).scope@,
                    old(self).host@,
                    old(self).config@.external_modules,
                    old(self).config@.require,
                    final(self).loads@,
                    Seq::empty(),
                    p,
                ),
            // success is owed: a complete host with a loadable (or already
            // loaded) entry yields no error at all
            (host_complete(
                old(self).host@,
                old(self).config@.external_modules,
                old(self).config@.require,
                old(self).loads@,
            ) && (host_has_source(old(self).host@.modules, entry@) || load_logged(
                old(self).loads@,
                entry@,
            ))) ==> (final(errors)@ == old(errors)@ && host_complete(
                final(self).host@,
                old(self).config@.external_modules,
                old(self).config@.require,
                final(self).loads@,
            )),
    {
        let ghost externals = self.config@.external_modules;
        let ghost cjs = self.config@.require;
        let ghost reg00 = old(self).scope@;
        let ghost loads00 = old(self).loads@;
        let ghost errs00 = errors@;
        let ghost host00 = old(self).host@;
        let ghost okc = host_complete(host00, externals, cjs, loads00) && (host_has_source(
            host00.modules,
            entry@,
        ) || load_logged(loads00, entry@));
        // The finite universe of paths this traversal can reach: the entry
        // and every resolver target.
        let mut universe: Vec<FileName> = Vec::new();
        universe.push(copy_filename(entry));
        let mut t: usize = 0;
        let rn = self.host.resolutions.len();
        while t < rn
            invariant
                t <= rn,
                universe@.len() == t + 1,
                self.host@ == old(self).host@,
                universe@[0]@ == entry@,
                forall|j: int|
                    1 <= j < universe@.len() ==> (#[trigger] universe@[j])@
                        == self.host@.resolutions[j - 1].target,
            decreases rn - t,
        {
            universe.push(copy_filename(&self.host.resolutions[t].target));
            t = t + 1;
        }
        let mut done: Vec<bool> = Vec::new();
        let mut t2: usize = 0;
        let un = universe.len();
        while t2 < un
            invariant
                t2 <= un,
                done@.len() == t2,
                forall|j: int| 0 <= j < t2 ==> !done@[j],
            decreases un - t2,
        {
            done.push(false);
            t2 = t2 + 1;
        }
        proof {
            crate::chunk::lemma_count_le_len(done@);
        }
        let mut stack: Vec<FileName> = Vec::new();
        stack.push(copy_filename(entry));
        proof {
            assert(stack@[0]@ == entry@);
            assert(load_logged(stack@, entry@));
        }
        while stack.len() > 0
            invariant
                self.wf(),
                flags_le(old(self).scope@, self.scope@),
                self.config@ == old(self).config@,
                externals == self.config@.external_modules,
                cjs == self.config@.require,
                universe@.len() == done@.len(),
                self.loads@.len() >= loads00.len(),
                forall|k: int| 0 <= k < loads00.len() ==> self.loads@[k] == loads00[k],
                errors@.len() >= errs00.len(),
                forall|k: int| 0 <= k < errs00.len() ==> errors@[k] == errs00[k],
                forall|k: int|
                    0 <= k < stack@.len() ==> exists|j: int|
                        0 <= j < universe@.len() && (#[trigger] universe@[j])@ == (
                        #[trigger] stack@[k])@,
                universe@.len() == self.host@.resolutions.len() + 1,
                forall|j: int|
                    1 <= j < universe@.len() ==> (#[trigger] universe@[j])@
                        == self.host@.resolutions[j - 1].target,
                crate::chunk::count_marked(done@) <= done@.len(),
                // host frame
                self.host@.resolutions == host00.resolutions,
                self.host@.modules.len() == host00.modules.len(),
                forall|k: int|
                    0 <= k < host00.modules.len() ==> (#[trigger] self.host@.modules[k]).path
                        == host00.modules[k].path,
                forall|k: int|
                    0 <= k < host00.modules.len() ==> ((#[trigger] self.host@.modules[k]).source
                        == host00.modules[k].source || (self.host@.modules[k].source is None
                        && load_logged(self.loads@, self.host@.modules[k].path))),
                // attempted paths
                forall|j: int|
                    0 <= j < done@.len() ==> (done@[j] ==> load_logged(
                        self.loads@,
                        (#[trigger] universe@[j])@,
                    )),
                load_logged(self.loads@, entry@) || load_logged(stack@, entry@),
                // no attempt lost
                (errors@ == errs00 && all_logged_published(reg00, loads00))
                    ==> all_logged_published(self.scope@, self.loads@),
                // genuine errors
                forall|k: int|
                    errs00.len() <= k < errors@.len() ==> error_genuine(
                        (#[trigger] errors@[k])@,
                        self.host@,
                        externals,
                    ),
                // under a complete host nothing fails
                okc ==> errors@ == errs00,
                okc ==> host_complete(self.host@, externals, cjs, self.loads@),
                okc ==> (forall|k: int|
                    0 <= k < stack@.len() ==> (host_has_source(
                        self.host@.modules,
                        (#[trigger] stack@[k])@,
                    ) || load_logged(self.loads@, stack@[k]@))),
                // recorded wrapping verdicts
                forall|p: FileNameV|
                    (!load_logged(loads00, p) && #[trigger] load_logged(self.loads@, p)
                        && host_has_source(host00.modules, p) && crate::analyze::module_wrapping(
                        host_source(host00.modules, p),
                        cjs,
                    )) ==> path_wrapping(self.scope@, p),
                // published contents never change
                forall|i: int|
                    0 <= i < reg00.len() && reg00[i].content is Some ==> (
                    #[trigger] self.scope@[i]).content == reg00[i].content,
                // published records are the analyses of their sources
                forall|p: FileNameV|
                    (!load_logged(loads00, p) && #[trigger] load_logged(self.loads@, p)
                        && host_has_source(host00.modules, p)) ==> published_from_source(
                        self.scope@,
                        host00,
                        externals,
                        cjs,
                        self.loads@,
                        stack@,
                        p,
                    ),
            decreases
                    done@.len() - crate::chunk::count_marked(done@),
                    stack@.len(),
        {
            let ghost stack_entry = stack@;
            let path = match stack.pop() {
                Some(p) => p,
                None => {
                    proof {
                        assert(false);
                    }
                    loop
                        invariant
                            false,
                        decreases 0int,
                    {
                    }
                },
            };
            let ghost pathv = path@;
            proof {
                assert(stack_entry[stack_entry.len() - 1] == path);
            }
            let ui = match universe_index(&universe, &path) {
                Some(i) => i,
                None => {
                    proof {
                        assert(false);
                    }
                    loop
                        invariant
                            false,
                        decreases 0int,
                    {
                    }
                },
            };
            let ghost loads_entry = self.loads@;
            let ghost done_entry = done@;
            if !done[ui] {
                proof {
                    crate::chunk::lemma_count_update_true(done@, ui as int);
                }
                done.set(ui, true);
                proof {
                    crate::chunk::lemma_count_le_len(done@);
                }
                if !loads_contains(&self.loads, &path) {
                    proof {
                        if okc {
                            assert(host_has_source(self.host@.modules, path@) || load_logged(
                                self.loads@,
                                path@,
                            ));
                        }
                    }
                    let ghost reg_before = self.scope@;
                    let info = self.scope.id_for(&path);
                    let id = info.0;
                    let lm = info.1;
                    let em = info.2;
                    proof {
                        lemma_extend_wf(reg_before, self.scope@, self.loads@, externals);
                        // an unlogged path is unpublished
                        assert(self.scope@[id as int].content is None) by {
                            if self.scope@[id as int].content is Some {
                                assert(published(self.scope@, id));
                                assert(load_logged(self.loads@, self.scope@[id as int].path));
                            }
                        }
                    }
                    let ghost loads_before = self.loads@;
                    self.loads.push(copy_filename(&path));
                    proof {
                        assert(self.loads@[self.loads@.len() - 1]@ == path@);
                        assert(loads_distinct(self.loads@)) by {
                            assert forall|i: int, j: int|
                                0 <= i < j < self.loads@.len() implies (#[trigger] self.loads@[i])@
                                != (#[trigger] self.loads@[j])@ by {
                                if j == self.loads@.len() - 1 {
                                    assert(self.loads@[i] == loads_before[i]);
                                    assert(!load_logged(loads_before, path@));
                                }
                            }
                        }
                        assert(bundler_wf(self.scope@, self.loads@, externals)) by {
                            assert forall|i: usize| #[trigger] published(self.scope@, i)
                                implies load_logged(
                                self.loads@,
                                self.scope@[i as int].path,
                            ) by {
                                assert(load_logged(loads_before, self.scope@[i as int].path));
                                let k = choose|k: int|
                                    0 <= k < loads_before.len() && (#[trigger] loads_before[k])@
                                        == self.scope@[i as int].path;
                                assert(self.loads@[k]@ == self.scope@[i as int].path);
                            }
                        }
                    }
                    let ghost host_pre = self.host@;
                    let ghost loads_now = self.loads@;
                    match self.host_load(&path) {
                        None => {
                            proof {
                                if okc {
                                    assert(host_has_source(host_pre.modules, path@));
                                    assert(false);
                                }
                                lemma_driver_consumed(
                                    host_pre,
                                    self.host@,
                                    loads_before,
                                    loads_now,
                                    path@,
                                );
                                assert(self.wf());
                                assert(!host_has_source(host00.modules, pathv)) by {
                                    if host_has_source(host00.modules, pathv) {
                                        lemma_first_module_props(host00.modules, pathv);
                                        lemma_first_module_same_paths(
                                            host00.modules,
                                            host_pre.modules,
                                            pathv,
                                        );
                                        let k0 = first_module_index(
                                            host00.modules,
                                            pathv,
                                        ).unwrap();
                                        assert(host00.modules[k0].path == pathv);
                                        assert(host_pre.modules[k0].source
                                            == host00.modules[k0].source || (
                                        host_pre.modules[k0].source is None && load_logged(
                                            loads_before,
                                            host_pre.modules[k0].path,
                                        )));
                                        lemma_first_module_same_paths(
                                            host_pre.modules,
                                            host00.modules,
                                            pathv,
                                        );
                                        assert(host_has_source(host_pre.modules, pathv));
                                    }
                                }
                                assert forall|p2: FileNameV|
                                    (!load_logged(loads00, p2) && #[trigger] load_logged(
                                        self.loads@,
                                        p2,
                                    ) && host_has_source(host00.modules, p2)
                                        && crate::analyze::module_wrapping(
                                        host_source(host00.modules, p2),
                                        cjs,
                                    )) implies path_wrapping(self.scope@, p2) by {
                                    if p2 != pathv {
                                        assert(load_logged(loads_before, p2)) by {
                                            let w = choose|w: int|
                                                0 <= w < self.loads@.len() && (
                                                #[trigger] self.loads@[w])@ == p2;
                                            if w == self.loads@.len() - 1 {
                                                assert(self.loads@[w]@ == pathv);
                                            } else {
                                                assert(self.loads@[w] == loads_before[w]);
                                            }
                                        }
                                        assert(path_wrapping(reg_before, p2));
                                        lemma_path_wrapping_extend(reg_before, self.scope@, p2);
                                    }
                                }
                                // the host frame, attempted paths and entry
                                // bookkeeping survive the log growth
                                assert forall|k: int|
                                    0 <= k < host00.modules.len() implies ((
                                #[trigger] self.host@.modules[k]).source
                                    == host00.modules[k].source || (self.host@.modules[k].source
                                    is None && load_logged(
                                    self.loads@,
                                    self.host@.modules[k].path,
                                ))) by {
                                    if self.host@.modules[k].source != host00.modules[k].source {
                                        if host_pre.modules[k].source
                                            == host00.modules[k].source {
                                            assert(self.host@.modules[k].source is None);
                                            assert(host_pre.modules[k].path == pathv);
                                            assert(load_logged(self.loads@, pathv));
                                        } else {
                                            assert(host_pre.modules[k].source is None);
                                            assert(load_logged(
                                                loads_before,
                                                host_pre.modules[k].path,
                                            ));
                                            lemma_logged_grow(
                                                loads_before,
                                                self.loads@,
                                                host_pre.modules[k].path,
                                            );
                                            assert(self.host@.modules[k].source is None);
                                        }
                                    }
                                }
                                assert forall|j: int|
                                    0 <= j < done@.len() && done@[j] implies load_logged(
                                    self.loads@,
                                    (#[trigger] universe@[j])@,
                                ) by {
                                    if j == ui {
                                        assert(universe@[j]@ == pathv);
                                    } else {
                                        assert(done@[j] == done_entry[j]);
                                        lemma_logged_grow(
                                            loads_before,
                                            self.loads@,
                                            universe@[j]@,
                                        );
                                    }
                                }
                                if stack_entry[stack_entry.len() - 1]@ == entry@ {
                                    assert(pathv == entry@);
                                    assert(load_logged(self.loads@, entry@));
                                } else if load_logged(loads_before, entry@) {
                                    lemma_logged_grow(loads_before, self.loads@, entry@);
                                } else {
                                    lemma_logged_pop(stack_entry, entry@);
                                }
                                assert forall|t: FileNameV|
                                    #[trigger] load_logged(stack_entry, t) implies load_logged(
                                    self.loads@,
                                    t,
                                ) || load_logged(stack@, t) by {
                                    if t == pathv {
                                        assert(load_logged(self.loads@, pathv));
                                    } else {
                                        lemma_logged_pop(stack_entry, t);
                                    }
                                }
                                assert forall|p2: FileNameV|
                                    (!load_logged(loads00, p2) && #[trigger] load_logged(
                                        self.loads@,
                                        p2,
                                    ) && host_has_source(host00.modules, p2))
                                    implies published_from_source(
                                    self.scope@,
                                    host00,
                                    externals,
                                    cjs,
                                    self.loads@,
                                    stack@,
                                    p2,
                                ) by {
                                    if p2 != pathv {
                                        assert(load_logged(loads_before, p2)) by {
                                            let w = choose|w: int|
                                                0 <= w < self.loads@.len() && (
                                                #[trigger] self.loads@[w])@ == p2;
                                            if w == self.loads@.len() - 1 {
                                                assert(self.loads@[w]@ == pathv);
                                            } else {
                                                assert(self.loads@[w] == loads_before[w]);
                                            }
                                        }
                                        assert(published_from_source(
                                            reg_before,
                                            host00,
                                            externals,
                                            cjs,
                                            loads_before,
                                            stack_entry,
                                            p2,
                                        ));
                                        lemma_published_from_source_extend(
                                            reg_before,
                                            self.scope@,
                                            host00,
                                            externals,
                                            cjs,
                                            loads_before,
                                            self.loads@,
                                            stack_entry,
                                            stack@,
                                            p2,
                                        );
                                    }
                                }
                            }
                            let ghost errs_pre = errors@;
                            errors.push(BundleError::Load { path });
                            proof {
                                assert forall|k: int|
                                    errs00.len() <= k < errors@.len() implies error_genuine(
                                    (#[trigger] errors@[k])@,
                                    self.host@,
                                    externals,
                                ) by {
                                    if k < errs_pre.len() {
                                        assert(errors@[k] == errs_pre[k]);
                                        assert(error_genuine(errs_pre[k]@, self.host@, externals));
                                    } else {
                                        assert(!host_has_source(self.host@.modules, path@));
                                    }
                                }
                            }
                        },
                        Some(m) => {
                            let ghost mv = m@;
                            proof {
                                lemma_first_module_props(host_pre.modules, path@);
                                lemma_driver_consumed(
                                    host_pre,
                                    self.host@,
                                    loads_before,
                                    loads_now,
                                    path@,
                                );
                                assert(self.wf());
                                // the source seen at call start is the loaded module
                                if host_has_source(host00.modules, pathv) {
                                    let k0 = first_module_index(host_pre.modules, pathv).unwrap();
                                    assert(host_pre.modules[k0].source
                                        == host00.modules[k0].source) by {
                                        if host_pre.modules[k0].source
                                            != host00.modules[k0].source {
                                            assert(host_pre.modules[k0].source is None
                                                && load_logged(
                                                loads_before,
                                                host_pre.modules[k0].path,
                                            ));
                                        }
                                    }
                                    lemma_first_module_same_paths(
                                        host_pre.modules,
                                        host00.modules,
                                        pathv,
                                    );
                                    assert(host_source(host00.modules, pathv) == mv);
                                }
                                // previously recorded errors stay genuine
                                lemma_consume_monotone(host_pre.modules, self.host@.modules);
                                assert forall|k: int|
                                    errs00.len() <= k < errors@.len() implies error_genuine(
                                    (#[trigger] errors@[k])@,
                                    self.host@,
                                    externals,
                                ) by {
                                    assert(error_genuine(errors@[k]@, host_pre, externals));
                                }
                                // the host frame, attempted paths and entry
                                // bookkeeping survive the log growth
                                assert forall|k: int|
                                    0 <= k < host00.modules.len() implies ((
                                #[trigger] self.host@.modules[k]).source
                                    == host00.modules[k].source || (self.host@.modules[k].source
                                    is None && load_logged(
                                    self.loads@,
                                    self.host@.modules[k].path,
                                ))) by {
                                    if self.host@.modules[k].source != host00.modules[k].source {
                                        if host_pre.modules[k].source
                                            == host00.modules[k].source {
                                            assert(self.host@.modules[k].source is None);
                                            assert(host_pre.modules[k].path == pathv);
                                            assert(load_logged(self.loads@, pathv));
                                        } else {
                                            assert(host_pre.modules[k].source is None);
                                            assert(load_logged(
                                                loads_before,
                                                host_pre.modules[k].path,
                                            ));
                                            lemma_logged_grow(
                                                loads_before,
                                                self.loads@,
                                                host_pre.modules[k].path,
                                            );
                                            assert(self.host@.modules[k].source is None);
                                        }
                                    }
                                }
                                assert forall|j: int|
                                    0 <= j < done@.len() && done@[j] implies load_logged(
                                    self.loads@,
                                    (#[trigger] universe@[j])@,
                                ) by {
                                    if j == ui {
                                        assert(universe@[j]@ == pathv);
                                    } else {
                                        assert(done@[j] == done_entry[j]);
                                        lemma_logged_grow(
                                            loads_before,
                                            self.loads@,
                                            universe@[j]@,
                                        );
                                    }
                                }
                                if stack_entry[stack_entry.len() - 1]@ == entry@ {
                                    assert(pathv == entry@);
                                    assert(load_logged(self.loads@, entry@));
                                } else if load_logged(loads_before, entry@) {
                                    lemma_logged_grow(loads_before, self.loads@, entry@);
                                } else {
                                    lemma_logged_pop(stack_entry, entry@);
                                }

                                if okc {
                                    assert forall|k: int|
                                        0 <= k < stack@.len() implies (host_has_source(
                                        self.host@.modules,
                                        (#[trigger] stack@[k])@,
                                    ) || load_logged(self.loads@, stack@[k]@)) by {
                                        assert(stack@[k] == stack_entry[k]);
                                        if load_logged(loads_before, stack_entry[k]@) {
                                            lemma_logged_grow(
                                                loads_before,
                                                self.loads@,
                                                stack_entry[k]@,
                                            );
                                        } else if stack_entry[k]@ == pathv {
                                            assert(load_logged(self.loads@, pathv));
                                        } else {
                                            lemma_has_source_after_consume(
                                                host_pre.modules,
                                                self.host@.modules,
                                                pathv,
                                                stack_entry[k]@,
                                            );
                                        }
                                    }
                                }
                            }
                            let ghost edges = crate::analyze::edges_of(mv.body, cjs);
                            proof {
                                if okc {
                                    // every edge of the loaded module is covered
                                    let k0 = first_module_index(host_pre.modules, path@).unwrap();
                                    assert(host_pre.modules[k0].source == Some(mv));
                                    assert(module_source_edges(host_pre.modules[k0], cjs)
                                        == edges);
                                    assert(host_pre.modules[k0].path == path@);
                                    assert forall|j: int|
                                        0 <= j < edges.len() implies edge_ok(
                                        self.host@,
                                        externals,
                                        path@,
                                        #[trigger] edges[j],
                                        self.loads@,
                                    ) by {
                                        assert(edge_ok(
                                            host_pre,
                                            externals,
                                            path@,
                                            module_source_edges(host_pre.modules[k0], cjs)[j],
                                            loads_before,
                                        ));
                                        lemma_edge_ok_after_consume(
                                            host_pre,
                                            self.host@,
                                            loads_before,
                                            self.loads@,
                                            path@,
                                            path@,
                                            edges[j],
                                            externals,
                                        );
                                    }
                                    // and the host stays complete
                                    assert forall|k: int, j: int|
                                        0 <= k < self.host@.modules.len() && 0 <= j
                                            < module_source_edges(
                                            self.host@.modules[k],
                                            cjs,
                                        ).len() implies edge_ok(
                                        self.host@,
                                        externals,
                                        self.host@.modules[k].path,
                                        #[trigger] module_source_edges(
                                            self.host@.modules[k],
                                            cjs,
                                        )[j],
                                        self.loads@,
                                    ) by {
                                        if self.host@.modules[k].source is Some {
                                            assert(self.host@.modules[k].source
                                                == host_pre.modules[k].source);
                                            assert(edge_ok(
                                                host_pre,
                                                externals,
                                                host_pre.modules[k].path,
                                                module_source_edges(
                                                    host_pre.modules[k],
                                                    cjs,
                                                )[j],
                                                loads_before,
                                            ));
                                            lemma_edge_ok_after_consume(
                                                host_pre,
                                                self.host@,
                                                loads_before,
                                                self.loads@,
                                                path@,
                                                host_pre.modules[k].path,
                                                module_source_edges(host_pre.modules[k], cjs)[j],
                                                externals,
                                            );
                                        }
                                    }
                                    assert(host_complete(self.host@, externals, cjs, self.loads@));
                                }
                            }
                            let analyzed = analyze(&m, lm, em, self.config.require);
                            let m2 = analyzed.0;
                            let raw = analyzed.1;
                            let wrap = analyzed.2;
                            proof {
                                crate::analyze::lemma_rewrite_edges(
                                    mv.body,
                                    m2@.body,
                                    crate::analyze::spec_ctx(mv, lm, em, cjs),
                                    raw@.idents_to_deglob,
                                    cjs,
                                );
                                assert(crate::analyze::srcs_of(raw@.specifiers) == edges);
                            }
                            if wrap {
                                self.mark_as_wrapping_required(id);
                            }
                            proof {
                                if errors@ == errs00 && all_logged_published(reg00, loads00) {
                                    lemma_all_logged_published_extend(
                                        reg_before,
                                        self.scope@,
                                        loads_before,
                                    );
                                }
                                assert(flags_le(reg_before, self.scope@));
                                assert forall|t: FileNameV|
                                    #[trigger] load_logged(stack_entry, t) implies load_logged(
                                    self.loads@,
                                    t,
                                ) || load_logged(stack@, t) by {
                                    if t == pathv {
                                        assert(load_logged(self.loads@, pathv));
                                    } else {
                                        lemma_logged_pop(stack_entry, t);
                                    }
                                }
                                assert forall|p2: FileNameV|
                                    (!load_logged(loads00, p2) && #[trigger] load_logged(
                                        loads_before,
                                        p2,
                                    ) && host_has_source(host00.modules, p2))
                                    implies published_from_source(
                                    self.scope@,
                                    host00,
                                    externals,
                                    cjs,
                                    self.loads@,
                                    stack@,
                                    p2,
                                ) by {
                                    assert(load_logged(loads_now, p2)) by {
                                        lemma_logged_grow(loads_before, loads_now, p2);
                                    }
                                    assert(published_from_source(
                                        reg_before,
                                        host00,
                                        externals,
                                        cjs,
                                        loads_before,
                                        stack_entry,
                                        p2,
                                    ));
                                    lemma_published_from_source_extend(
                                        reg_before,
                                        self.scope@,
                                        host00,
                                        externals,
                                        cjs,
                                        loads_before,
                                        self.loads@,
                                        stack_entry,
                                        stack@,
                                        p2,
                                    );
                                }
                            }
                            // Tag each specifier and queue the internal ones.
                            let ghost rawv = raw@.specifiers;
                            let mut specs2: Vec<Specifier> = Vec::new();
                            let mut rawspecs = raw.specifiers;
                            proof {
                                assert(rawv.len() == rawspecs@.len());
                                assert(forall|j: int|
                                    0 <= j < rawspecs@.len() ==> (#[trigger] rawspecs@[j])@
                                        == rawv[j]);
                            }
                            while rawspecs.len() > 0
                                invariant
                                    self.wf(),
                                    flags_le(old(self).scope@, self.scope@),
                                    self.config@ == old(self).config@,
                                    externals == self.config@.external_modules,
                                    cjs == self.config@.require,
                                    universe@.len() == done@.len(),
                                    id < self.scope@.len(),
                                    self.scope@[id as int].content is None,
                                    self.scope@[id as int].path == path@,
                                    self.loads@.len() >= loads00.len(),
                                    forall|k: int|
                                        0 <= k < loads00.len() ==> self.loads@[k] == loads00[k],
                                    self.loads@ == loads_now,
                                    load_logged(self.loads@, path@),
                                    flags_le(reg_before, self.scope@),
                                    wrap ==> self.scope@[id as int].wrapping_required,
                                    forall|i: int|
                                        0 <= i < reg_before.len() ==> (
                                        #[trigger] self.scope@[i]).content
                                            == reg_before[i].content,
                                    forall|p2: FileNameV|
                                        (!load_logged(loads00, p2) && #[trigger] load_logged(
                                            loads_before,
                                            p2,
                                        ) && host_has_source(host00.modules, p2))
                                            ==> published_from_source(
                                            self.scope@,
                                            host00,
                                            externals,
                                            cjs,
                                            self.loads@,
                                            stack@,
                                            p2,
                                        ),
                                    forall|j: int|
                                        0 <= j < specs2@.len() ==> specifier_from(
                                            self.scope@,
                                            host00,
                                            externals,
                                            self.loads@,
                                            stack@,
                                            pathv,
                                            rawv[j],
                                            (#[trigger] specs2@[j])@,
                                        ),
                                    errors@.len() >= errs00.len(),
                                    forall|k: int|
                                        0 <= k < errs00.len() ==> errors@[k] == errs00[k],
                                    forall|k: int|
                                        0 <= k < stack@.len() ==> exists|j: int|
                                            0 <= j < universe@.len() && (
                                            #[trigger] universe@[j])@ == (#[trigger] stack@[k])@,
                                    universe@.len() == self.host@.resolutions.len() + 1,
                                    forall|j: int|
                                        1 <= j < universe@.len() ==> (#[trigger] universe@[j])@
                                            == self.host@.resolutions[j - 1].target,
                                    // host untouched while tagging
                                    self.host@.resolutions == host00.resolutions,
                                    self.host@.modules.len() == host00.modules.len(),
                                    forall|k: int|
                                        0 <= k < host00.modules.len() ==> (
                                        #[trigger] self.host@.modules[k]).path
                                            == host00.modules[k].path,
                                    forall|k: int|
                                        0 <= k < host00.modules.len() ==> ((
                                        #[trigger] self.host@.modules[k]).source
                                            == host00.modules[k].source || (
                                        self.host@.modules[k].source is None && load_logged(
                                            self.loads@,
                                            self.host@.modules[k].path,
                                        ))),
                                    forall|j: int|
                                        0 <= j < done@.len() ==> (done@[j] ==> load_logged(
                                            self.loads@,
                                            (#[trigger] universe@[j])@,
                                        )),
                                    load_logged(self.loads@, entry@) || load_logged(
                                        stack@,
                                        entry@,
                                    ),
                                    // no attempt lost so far
                                    (errors@ == errs00 && all_logged_published(reg00, loads00))
                                        ==> all_logged_published(self.scope@, loads_before),
                                    // genuine errors
                                    forall|k: int|
                                        errs00.len() <= k < errors@.len() ==> error_genuine(
                                            (#[trigger] errors@[k])@,
                                            self.host@,
                                            externals,
                                        ),
                                    // specifier bookkeeping
                                    specs2@.len() + rawspecs@.len() == rawv.len(),
                                    forall|j: int|
                                        0 <= j < rawspecs@.len() ==> (#[trigger] rawspecs@[j])@
                                            == rawv[specs2@.len() + j],
                                    forall|j: int|
                                        0 <= j < specs2@.len() ==> (#[trigger] specs2@[j])@.src
                                            == rawv[j].src,
                                    forall|k: int|
                                        0 <= k < specs2@.len() ==> spec_tagged(
                                            self.scope@,
                                            (#[trigger] specs2@[k])@,
                                            externals,
                                        ),
                                    crate::analyze::srcs_of(rawv) == edges,
                                    // under a complete host nothing fails
                                    okc ==> errors@ == errs00,
                                    okc ==> host_complete(self.host@, externals, cjs, self.loads@),
                                    okc ==> (forall|j: int|
                                        0 <= j < edges.len() ==> edge_ok(
                                            self.host@,
                                            externals,
                                            path@,
                                            #[trigger] edges[j],
                                            self.loads@,
                                        )),
                                    okc ==> (forall|k: int|
                                        0 <= k < stack@.len() ==> (host_has_source(
                                            self.host@.modules,
                                            (#[trigger] stack@[k])@,
                                        ) || load_logged(self.loads@, stack@[k]@))),
                                decreases rawspecs@.len(),
                            {
                                let ghost sidx = specs2@.len();
                                let mut s = rawspecs.remove(0);
                                proof {
                                    assert(s@ == rawv[sidx as int]);
                                    assert(forall|j: int|
                                        0 <= j < rawspecs@.len() ==> (#[trigger] rawspecs@[j])@
                                            == rawv[sidx + 1 + j]);
                                    assert(s@.src == edges[sidx as int]);
                                }
                                if self.is_external_module(&s.src) {
                                    s.target = Target::External;
                                    proof {
                                        assert(s@.src == rawv[sidx as int].src);
                                        assert(s@.bindings == rawv[sidx as int].bindings);
                                        assert(specifier_from(
                                            self.scope@,
                                            host00,
                                            externals,
                                            self.loads@,
                                            stack@,
                                            pathv,
                                            rawv[sidx as int],
                                            s@,
                                        ));
                                    }
                                } else {
                                    match self.resolve(&path, &s.src) {
                                        Some(child) => {
                                            let ghost reg_b2 = self.scope@;
                                            let cinfo = self.scope.id_for(&child);
                                            proof {
                                                lemma_extend_wf(
                                                    reg_b2,
                                                    self.scope@,
                                                    self.loads@,
                                                    externals,
                                                );
                                                if errors@ == errs00 && all_logged_published(
                                                    reg00,
                                                    loads00,
                                                ) {
                                                    lemma_all_logged_published_extend(
                                                        reg_b2,
                                                        self.scope@,
                                                        loads_before,
                                                    );
                                                }
                                                crate::registry::lemma_flags_monotone(
                                                    reg_before,
                                                    reg_b2,
                                                    self.scope@,
                                                );
                                            }
                                            s.target = Target::Internal { id: cinfo.0 };
                                            proof {
                                                assert(reg_b2.len() <= self.scope@.len());
                                                assert forall|k: int|
                                                    0 <= k < specs2@.len() implies spec_tagged(
                                                    self.scope@,
                                                    (#[trigger] specs2@[k])@,
                                                    externals,
                                                ) by {
                                                    assert(spec_tagged(
                                                        reg_b2,
                                                        specs2@[k]@,
                                                        externals,
                                                    ));
                                                }
                                                let j = choose|j: int|
                                                    0 <= j < self.host@.resolutions.len() && (
                                                    #[trigger] self.host@.resolutions[j]).target
                                                        == child@;
                                                assert(universe@[j + 1]@ == child@);
                                            }
                                            let ghost stack_pre = stack@;
                                            stack.push(child);
                                            proof {
                                                if load_logged(stack_pre, entry@) {
                                                    lemma_logged_grow(stack_pre, stack@, entry@);
                                                }
                                                assert forall|t: FileNameV|
                                                    #[trigger] load_logged(stack_pre, t)
                                                    implies load_logged(self.loads@, t)
                                                    || load_logged(stack@, t) by {
                                                    lemma_logged_grow(stack_pre, stack@, t);
                                                }
                                                assert forall|p2: FileNameV|
                                                    (!load_logged(loads00, p2)
                                                        && #[trigger] load_logged(
                                                        loads_before,
                                                        p2,
                                                    ) && host_has_source(host00.modules, p2))
                                                    implies published_from_source(
                                                    self.scope@,
                                                    host00,
                                                    externals,
                                                    cjs,
                                                    self.loads@,
                                                    stack@,
                                                    p2,
                                                ) by {
                                                    assert(published_from_source(
                                                        reg_b2,
                                                        host00,
                                                        externals,
                                                        cjs,
                                                        self.loads@,
                                                        stack_pre,
                                                        p2,
                                                    ));
                                                    lemma_published_from_source_extend(
                                                        reg_b2,
                                                        self.scope@,
                                                        host00,
                                                        externals,
                                                        cjs,
                                                        self.loads@,
                                                        self.loads@,
                                                        stack_pre,
                                                        stack@,
                                                        p2,
                                                    );
                                                }
                                                assert forall|j: int|
                                                    0 <= j < specs2@.len()
                                                    implies specifier_from(
                                                    self.scope@,
                                                    host00,
                                                    externals,
                                                    self.loads@,
                                                    stack@,
                                                    pathv,
                                                    rawv[j],
                                                    (#[trigger] specs2@[j])@,
                                                ) by {
                                                    assert(specifier_from(
                                                        reg_b2,
                                                        host00,
                                                        externals,
                                                        self.loads@,
                                                        stack_pre,
                                                        pathv,
                                                        rawv[j],
                                                        specs2@[j]@,
                                                    ));
                                                    lemma_specifier_from_extend(
                                                        reg_b2,
                                                        self.scope@,
                                                        host00,
                                                        externals,
                                                        self.loads@,
                                                        self.loads@,
                                                        stack_pre,
                                                        stack@,
                                                        pathv,
                                                        rawv[j],
                                                        specs2@[j]@,
                                                    );
                                                }
                                                // the freshly tagged specifier
                                                assert(s@.src == rawv[sidx as int].src);
                                                assert(s@.bindings == rawv[sidx as int].bindings);
                                                assert(spec_find(self.scope@, child@) == Some(
                                                    cinfo.0 as int,
                                                )) by {
                                                    assert(self.scope@[cinfo.0 as int].path
                                                        == child@);
                                                    assert forall|w: int|
                                                        0 <= w < cinfo.0 implies (
                                                    #[trigger] self.scope@[w]).path != child@ by {
                                                        assert(reg_wf(self.scope@));
                                                    }
                                                    crate::registry::lemma_find_first(
                                                        self.scope@,
                                                        child@,
                                                        cinfo.0 as int,
                                                    );
                                                }
                                                assert(stack@[stack@.len() - 1]@ == child@);
                                                assert(load_logged(stack@, child@));
                                                assert(specifier_from(
                                                    self.scope@,
                                                    host00,
                                                    externals,
                                                    self.loads@,
                                                    stack@,
                                                    pathv,
                                                    rawv[sidx as int],
                                                    s@,
                                                ));
                                            }
                                        },
                                        None => {
                                            proof {
                                                if okc {
                                                    assert(edge_ok(
                                                        self.host@,
                                                        externals,
                                                        path@,
                                                        edges[sidx as int],
                                                        self.loads@,
                                                    ));
                                                    assert(false);
                                                }
                                            }
                                            s.target = Target::Unresolvable;
                                            proof {
                                                assert(s@.src == rawv[sidx as int].src);
                                                assert(s@.bindings == rawv[sidx as int].bindings);
                                                assert(specifier_from(
                                                    self.scope@,
                                                    host00,
                                                    externals,
                                                    self.loads@,
                                                    stack@,
                                                    pathv,
                                                    rawv[sidx as int],
                                                    s@,
                                                ));
                                            }
                                            let ghost errs_pre = errors@;
                                            errors.push(
                                                BundleError::Resolve {
                                                    from: copy_filename(&path),
                                                    specifier: s.src.clone(),
                                                },
                                            );
                                            proof {
                                                assert forall|k: int|
                                                    errs00.len() <= k < errors@.len()
                                                    implies error_genuine(
                                                    (#[trigger] errors@[k])@,
                                                    self.host@,
                                                    externals,
                                                ) by {
                                                    if k < errs_pre.len() {
                                                        assert(errors@[k] == errs_pre[k]);
                                                        assert(error_genuine(
                                                            errs_pre[k]@,
                                                            self.host@,
                                                            externals,
                                                        ));
                                                    }
                                                }
                                            }
                                        },
                                    }
                                }
                                proof {
                                    assert(spec_tagged(self.scope@, s@, externals));
                                }
                                specs2.push(s);
                            }
                            let raw2 = RawImports {
                                specifiers: specs2,
                                idents_to_deglob: raw.idents_to_deglob,
                            };
                            let ghost reg_b3 = self.scope@;
                            let ghost raw2v = raw2@;
                            self.scope.insert_module(id, m2, raw2);
                            proof {
                                assert(bundler_wf(self.scope@, self.loads@, externals)) by {
                                    lemma_publish_wf(
                                        reg_b3,
                                        self.scope@,
                                        self.loads@,
                                        externals,
                                        id,
                                        raw2v,
                                    );
                                }
                                // the just-published path joins the record
                                if errors@ == errs00 && all_logged_published(reg00, loads00) {
                                    lemma_all_logged_published_extend(
                                        reg_b3,
                                        self.scope@,
                                        loads_before,
                                    );
                                    assert(path_published(self.scope@, path@)) by {
                                        assert(self.scope@[id as int].path == path@);
                                        assert(self.scope@[id as int].content is Some);
                                        assert forall|j: int|
                                            0 <= j < id implies (#[trigger] self.scope@[j]).path
                                            != path@ by {
                                            assert(reg_wf(self.scope@));
                                        }
                                        crate::registry::lemma_find_first(
                                            self.scope@,
                                            path@,
                                            id as int,
                                        );
                                    }
                                    assert forall|k: int|
                                        0 <= k < self.loads@.len() implies path_published(
                                        self.scope@,
                                        (#[trigger] self.loads@[k])@,
                                    ) by {
                                        if k < loads_before.len() {
                                            assert(self.loads@[k] == loads_before[k]);
                                        } else {
                                            assert(self.loads@[k]@ == path@);
                                        }
                                    }
                                }
                                // wrapping verdicts survive to the iteration end
                                crate::registry::lemma_flags_monotone(
                                    reg_before,
                                    reg_b3,
                                    self.scope@,
                                );
                                assert forall|p2: FileNameV|
                                    (!load_logged(loads00, p2) && #[trigger] load_logged(
                                        self.loads@,
                                        p2,
                                    ) && host_has_source(host00.modules, p2)
                                        && crate::analyze::module_wrapping(
                                        host_source(host00.modules, p2),
                                        cjs,
                                    )) implies path_wrapping(self.scope@, p2) by {
                                    if p2 == pathv {
                                        lemma_first_module_same_paths(
                                            host00.modules,
                                            host_pre.modules,
                                            pathv,
                                        );
                                        lemma_first_module_props(host_pre.modules, pathv);
                                        let k0 = first_module_index(
                                            host_pre.modules,
                                            pathv,
                                        ).unwrap();
                                        assert(host_pre.modules[k0].source
                                            == host00.modules[k0].source) by {
                                            if host_pre.modules[k0].source
                                                != host00.modules[k0].source {
                                                assert(host_pre.modules[k0].source is None
                                                    && load_logged(
                                                    loads_before,
                                                    host_pre.modules[k0].path,
                                                ));
                                            }
                                        }
                                        lemma_first_module_same_paths(
                                            host_pre.modules,
                                            host00.modules,
                                            pathv,
                                        );
                                        assert(host_source(host00.modules, pathv) == mv);
                                        assert(wrap);
                                        assert(self.scope@[id as int].wrapping_required);
                                        assert(self.scope@[id as int].path == pathv);
                                        assert forall|j: int|
                                            0 <= j < id implies (#[trigger] self.scope@[j]).path
                                            != pathv by {
                                            assert(reg_wf(self.scope@));
                                        }
                                        crate::registry::lemma_find_first(
                                            self.scope@,
                                            pathv,
                                            id as int,
                                        );
                                    } else {
                                        assert(load_logged(loads_before, p2)) by {
                                            let w = choose|w: int|
                                                0 <= w < self.loads@.len() && (
                                                #[trigger] self.loads@[w])@ == p2;
                                            if w == self.loads@.len() - 1 {
                                                assert(self.loads@[w]@ == pathv);
                                            } else {
                                                assert(self.loads@[w] == loads_before[w]);
                                            }
                                        }
                                        assert(path_wrapping(reg_before, p2));
                                        lemma_path_wrapping_extend(reg_before, self.scope@, p2);
                                    }
                                }
                                // publication content: the new record is the
                                // analysis of its source, and the earlier
                                // records carry over
                                assert(spec_find(self.scope@, pathv) == Some(id as int)) by {
                                    assert(self.scope@[id as int].path == pathv);
                                    assert forall|j: int|
                                        0 <= j < id implies (#[trigger] self.scope@[j]).path
                                        != pathv by {
                                        assert(reg_wf(self.scope@));
                                    }
                                    crate::registry::lemma_find_first(
                                        self.scope@,
                                        pathv,
                                        id as int,
                                    );
                                }
                                assert forall|p2: FileNameV|
                                    (!load_logged(loads00, p2) && #[trigger] load_logged(
                                        self.loads@,
                                        p2,
                                    ) && host_has_source(host00.modules, p2))
                                    implies published_from_source(
                                    self.scope@,
                                    host00,
                                    externals,
                                    cjs,
                                    self.loads@,
                                    stack@,
                                    p2,
                                ) by {
                                    if p2 == pathv {
                                        let c = self.scope@[id as int].content.unwrap();
                                        assert(c.module == m2@);
                                        assert(c.imports == raw2v);
                                        assert(host_source(host00.modules, pathv) == mv);
                                        assert(lm == local_mark_spec(id as int) as Mark);
                                        assert(em == export_mark_spec(id as int) as Mark);
                                        assert(raw2v.idents_to_deglob == raw@.idents_to_deglob);
                                        assert(rawv == crate::analyze::specs_of(m2@.body));
                                        assert(c.imports.specifiers.len() == rawv.len());
                                        assert forall|j: int|
                                            0 <= j < c.imports.specifiers.len()
                                            implies specifier_from(
                                            self.scope@,
                                            host00,
                                            externals,
                                            self.loads@,
                                            stack@,
                                            pathv,
                                            crate::analyze::specs_of(c.module.body)[j],
                                            #[trigger] c.imports.specifiers[j],
                                        ) by {
                                            assert(c.imports.specifiers[j] == specs2@[j]@);
                                            assert(specifier_from(
                                                reg_b3,
                                                host00,
                                                externals,
                                                self.loads@,
                                                stack@,
                                                pathv,
                                                rawv[j],
                                                specs2@[j]@,
                                            ));
                                            lemma_specifier_from_extend(
                                                reg_b3,
                                                self.scope@,
                                                host00,
                                                externals,
                                                self.loads@,
                                                self.loads@,
                                                stack@,
                                                stack@,
                                                pathv,
                                                rawv[j],
                                                specs2@[j]@,
                                            );
                                        }
                                        assert(published_from_source(
                                            self.scope@,
                                            host00,
                                            externals,
                                            cjs,
                                            self.loads@,
                                            stack@,
                                            pathv,
                                        ));
                                    } else {
                                        assert(load_logged(loads_before, p2)) by {
                                            let w = choose|w: int|
                                                0 <= w < self.loads@.len() && (
                                                #[trigger] self.loads@[w])@ == p2;
                                            if w == self.loads@.len() - 1 {
                                                assert(self.loads@[w]@ == pathv);
                                            } else {
                                                assert(self.loads@[w] == loads_before[w]);
                                            }
                                        }
                                        assert(published_from_source(
                                            reg_b3,
                                            host00,
                                            externals,
                                            cjs,
                                            self.loads@,
                                            stack@,
                                            p2,
                                        ));
                                        lemma_published_from_source_extend(
                                            reg_b3,
                                            self.scope@,
                                            host00,
                                            externals,
                                            cjs,
                                            self.loads@,
                                            self.loads@,
                                            stack@,
                                            stack@,
                                            p2,
                                        );
                                    }
                                }
                                assert forall|i: int|
                                    0 <= i < reg00.len() && reg00[i].content is Some implies (
                                #[trigger] self.scope@[i]).content == reg00[i].content by {
                                    if i == id {
                                        assert(reg_before[i].content == reg00[i].content);
                                    } else {
                                        assert(self.scope@[i].content == reg_b3[i].content);
                                        assert(reg_b3[i].content == reg_before[i].content);
                                    }
                                }
                            }
                        },
                    }
                } else {
                    // already loaded in an earlier traversal: nothing to do
                    proof {
                        assert(load_logged(self.loads@, path@));
                        if stack_entry[stack_entry.len() - 1]@ == entry@ {
                        } else if load_logged(loads_entry, entry@) {
                        } else {
                            lemma_logged_pop(stack_entry, entry@);
                        }
                        assert forall|t: FileNameV|
                            #[trigger] load_logged(stack_entry, t) implies load_logged(
                            self.loads@,
                            t,
                        ) || load_logged(stack@, t) by {
                            if t == pathv {
                            } else {
                                lemma_logged_pop(stack_entry, t);
                            }
                        }
                        assert forall|p2: FileNameV|
                            (!load_logged(loads00, p2) && #[trigger] load_logged(self.loads@, p2)
                                && host_has_source(host00.modules, p2))
                            implies published_from_source(
                            self.scope@,
                            host00,
                            externals,
                            cjs,
                            self.loads@,
                            stack@,
                            p2,
                        ) by {
                            lemma_published_from_source_extend(
                                self.scope@,
                                self.scope@,
                                host00,
                                externals,
                                cjs,
                                self.loads@,
                                self.loads@,
                                stack_entry,
                                stack@,
                                p2,
                            );
                        }
                    }
                }
            } else {
                // a second stack occurrence of an already handled path
                proof {
                    assert(load_logged(self.loads@, universe@[ui as int]@));
                    assert(load_logged(self.loads@, path@));
                    if stack_entry[stack_entry.len() - 1]@ == entry@ {
                    } else if load_logged(loads_entry, entry@) {
                    } else {
                        lemma_logged_pop(stack_entry, entry@);
                    }
                    assert forall|t: FileNameV|
                        #[trigger] load_logged(stack_entry, t) implies load_logged(
                        self.loads@,
                        t,
                    ) || load_logged(stack@, t) by {
                        if t == pathv {
                        } else {
                            lemma_logged_pop(stack_entry, t);
                        }
                    }
                    assert forall|p2: FileNameV|
                        (!load_logged(loads00, p2) && #[trigger] load_logged(self.loads@, p2)
                            && host_has_source(host00.modules, p2)) implies published_from_source(
                        self.scope@,
                        host00,
                        externals,
                        cjs,
                        self.loads@,
                        stack@,
                        p2,
                    ) by {
                        lemma_published_from_source_extend(
                            self.scope@,
                            self.scope@,
                            host00,
                            externals,
                            cjs,
                            self.loads@,
                            self.loads@,
                            stack_entry,
                            stack@,
                            p2,
                        );
                    }
                }
            }
        }
        proof {
            assert(load_logged(self.loads@, entry@)) by {
                if !load_logged(self.loads@, entry@) {
                    assert(load_logged(stack@, entry@));
                    let k = choose|k: int|
                        0 <= k < stack@.len() && (#[trigger] stack@[k])@ == entry@;
                }
            }
        }
    }

}

/// Publishing a module with fully tagged specifiers keeps the bundler
/// well-formed.
proof fn lemma_publish_wf(
    reg0: Seq<ModuleRecordV>,
    reg1: Seq<ModuleRecordV>,
    loads: Seq<FileName>,
    externals: Seq<Seq<char>>,
    id: usize,
    raw: crate::ast::RawImportsV,
)
    requires
        bundler_wf(reg0, loads, externals),
        id < reg0.len(),
        reg1.len() == reg0.len(),
        forall|i: int| 0 <= i < reg0.len() && i != id ==> #[trigger] reg1[i] == reg0[i],
        reg1[id as int].path == reg0[id as int].path,
        reg1[id as int].content matches Some(c) && c.imports == raw,
        load_logged(loads, reg0[id as int].path),
        forall|j: int|
            0 <= j < raw.specifiers.len() ==> spec_tagged(
                reg1,
                #[trigger] raw.specifiers[j],
                externals,
            ),
    ensures
        bundler_wf(reg1, loads, externals),
{
    assert forall|i: int, j: int| 0 <= i < j < reg1.len() implies reg1[i].path != reg1[j].path by {
        assert(reg0[i].path != reg0[j].path);
        assert(reg1[i].path == reg0[i].path);
        assert(reg1[j].path == reg0[j].path);
    }
    assert forall|i: usize| #[trigger] published(reg1, i) implies load_logged(
        loads,
        reg1[i as int].path,
    ) by {
        if i != id {
            assert(published(reg0, i));
        }
    }
    assert forall|i: usize, j: int|
        published(reg1, i) && 0 <= j < crate::chunk::content_of(reg1, i).imports.specifiers.len()
        implies spec_tagged(
        reg1,
        #[trigger] crate::chunk::content_of(reg1, i).imports.specifiers[j],
        externals,
    ) by {
        if i == id {
            assert(crate::chunk::content_of(reg1, i).imports == raw);
            assert(spec_tagged(reg1, raw.specifiers[j], externals));
        } else {
            assert(published(reg0, i));
            assert(crate::chunk::content_of(reg1, i) == crate::chunk::content_of(reg0, i));
            let s = crate::chunk::content_of(reg0, i).imports.specifiers[j];
            assert(spec_tagged(reg0, s, externals));
        }
    }
}

/// A genuine error stays genuine as the host is consumed: resolver facts
/// never change, and a missing source never reappears.
proof fn lemma_error_stays_genuine(
    pre: HostV,
    cur: HostV,
    e: BundleErrorV,
    externals: Seq<Seq<char>>,
)
    requires
        error_genuine(e, pre, externals),
        cur.resolutions == pre.resolutions,
        cur.modules.len() == pre.modules.len(),
        forall|i: int| 0 <= i < pre.modules.len() ==> (#[trigger] cur.modules[i]).path == pre.modules[i].path,
        forall|i: int|
            0 <= i < pre.modules.len() ==> ((#[trigger] cur.modules[i]).source
                == pre.modules[i].source || cur.modules[i].source is None),
    ensures
        error_genuine(e, cur, externals),
{
    match e {
        BundleErrorV::Load { path } => {
            if host_has_source(cur.modules, path) {
                lemma_consume_monotone(pre.modules, cur.modules);
            }
        },
        BundleErrorV::Resolve { from, specifier } => {},
    }
}

/// A source that was available is available still, or its path was logged
/// while being consumed.
proof fn lemma_has_source_or_logged(
    pre: HostV,
    cur: HostV,
    loads_cur: Seq<FileName>,
    p: FileNameV,
)
    requires
        host_has_source(pre.modules, p),
        cur.modules.len() == pre.modules.len(),
        forall|i: int| 0 <= i < pre.modules.len() ==> (#[trigger] cur.modules[i]).path == pre.modules[i].path,
        forall|i: int|
            0 <= i < pre.modules.len() ==> ((#[trigger] cur.modules[i]).source
                == pre.modules[i].source || (cur.modules[i].source is None && load_logged(
                loads_cur,
                cur.modules[i].path,
            ))),
    ensures
        host_has_source(cur.modules, p) || load_logged(loads_cur, p),
{
    lemma_first_module_same_paths(pre.modules, cur.modules, p);
    lemma_first_module_props(pre.modules, p);
    let k = first_module_index(pre.modules, p).unwrap();
    assert(pre.modules[k].path == p);
    assert(cur.modules[k].source == pre.modules[k].source || (cur.modules[k].source is None
        && load_logged(loads_cur, cur.modules[k].path)));
}

/// Chunking only moves module contents out: lengths, paths and flags are
/// untouched, and every still-published record is unchanged.
proof fn lemma_chunk_rel_preserves(
    reg: Seq<ModuleRecordV>,
    es: Seq<EntryPointV>,
    bs: Seq<BundleV>,
    out: Seq<ModuleRecordV>,
)
    requires
        chunk_rel(reg, es, bs, out),
        reg.len() <= usize::MAX,
    ensures
        out.len() == reg.len(),
        forall|i: int|
            0 <= i < reg.len() ==> (#[trigger] out[i] == reg[i] || out[i] == (ModuleRecordV {
                content: None,
                ..reg[i]
            })),
    decreases es.len(),
{
    if es.len() == 0 {
    } else {
        let mid = choose|m1: Seq<ModuleRecordV>|
            #[trigger] crate::chunk::chunk_step(reg, es[0], bs[0], m1) && chunk_rel(
                m1,
                es.drop_first(),
                bs.drop_first(),
                out,
            );
        let r_set = choose|s: Set<usize>|
            #[trigger] crate::chunk::reach_char(reg, es[0].id, s) && {
                let ord = crate::chunk::merge_order(reg, s);
                bs[0].kind == (crate::chunk::BundleKindV::Named { name: es[0].name })
                    && bs[0].id == es[0].id && bs[0].module.body == crate::chunk::merged_body(
                    reg,
                    ord,
                ) && mid == crate::chunk::reg_after(reg, ord)
            };
        crate::chunk::lemma_reg_after_props(reg, crate::chunk::merge_order(reg, r_set));
        assert(mid.len() == reg.len());
        lemma_chunk_rel_preserves(mid, es.drop_first(), bs.drop_first(), out);
        assert forall|i: int|
            0 <= i < reg.len() implies (#[trigger] out[i] == reg[i] || out[i] == (ModuleRecordV {
                content: None,
                ..reg[i]
            })) by {
            let ord = crate::chunk::merge_order(reg, r_set);
            if ord.contains(i as usize) {
                assert(mid[i] == (ModuleRecordV { content: None, ..reg[i] }));
            } else {
                assert(mid[i] == reg[i]);
            }
        }
    }
}

impl Bundler {
    /// Bundles the given entries: loads and analyzes every transitive
    /// dependency (collecting all resolve and load failures in one batch),
    /// then forms one finalized bundle per entry.  On success the output is
    /// exactly the chunking of the loaded registry followed by
    /// finalization; on failure the collected errors come back, each naming
    /// a fact the host genuinely lacks, and no bundle is produced.  Success
    /// is owed: a fresh bundler over a complete host with loadable entries
    /// bundles them.
    #[verifier::loop_isolation(false)]
    pub fn bundle(&mut self, entries: &Vec<EntryRequest>) -> (r: Result<
        Vec<Bundle>,
        Vec<BundleError>,
    >)
        requires
            old(self).wf(),
        ensures
            final(self).wf(),
            final(self).config@ == old(self).config@,
            loads_distinct(final(self).loads@),
            flags_le(old(self).scope@, final(self).scope@),
            match r {
                Ok(bundles) => exists|
                    mid: Seq<ModuleRecordV>,
                    pre: Seq<BundleV>,
                    eps: Seq<EntryPointV>,
                |
                    {
                        &&& #[trigger] chunk_rel(mid, eps, pre, final(self).scope@)
                        &&& mid.len() >= old(self).scope@.len()
                        &&& (forall|i: int|
                            0 <= i < old(self).scope@.len() && old(self).scope@[i].content
                                is Some ==> (#[trigger] mid[i]).content
                                == old(self).scope@[i].content)
                        &&& (forall|p: FileNameV|
                            (!load_logged(old(self).loads@, p) && #[trigger] load_logged(
                                final(self).loads@,
                                p,
                            ) && host_has_source(old(self).host@.modules, p))
                                ==> published_from_source(
                                mid,
                                old(self).host@,
                                old(self).config@.external_modules,
                                old(self).config@.require,
                                final(self).loads@,
                                Seq::empty(),
                                p,
                            ))
                        &&& eps.len() == entries@.len()
                        &&& (forall|i: int|
                            0 <= i < entries@.len() ==> (#[trigger] eps[i]).name
                                == entries@[i].name@ && spec_find(mid, entries@[i].path@) == Some(
                                eps[i].id as int,
                            ) && published(mid, eps[i].id))
                        &&& bundles@.len() == pre.len()
                        &&& (forall|i: int|
                            0 <= i < pre.len() ==> (#[trigger] bundles@[i])@.kind == pre[i].kind
                                && bundles@[i]@.id == pre[i].id && bundles@[i]@.module.body
                                == finalize_body(
                                pre[i].module.body,
                                old(self).config@.disable_inliner,
                                old(self).config@.module == ModuleType::Iife,
                            ))
                    },
                Err(es) => es@.len() > 0 && (forall|k: int|
                    0 <= k < es@.len() ==> error_genuine(
                        (#[trigger] es@[k])@,
                        final(self).host@,
                        old(self).config@.external_modules,
                    )),
            },
            // success is owed: a fresh bundler over a complete host with
            // loadable entries bundles them
            (old(self).loads@.len() == 0 && host_complete(
                old(self).host@,
                old(self).config@.external_modules,
                old(self).config@.require,
                old(self).loads@,
            ) && (forall|i: int|
                0 <= i < entries@.len() ==> host_has_source(
                    old(self).host@.modules,
                    (#[trigger] entries@[i]).path@,
                ))) ==> r is Ok,
    {
        let ghost externals = self.config@.external_modules;
        let ghost cjs = self.config@.require;
        let ghost host00 = old(self).host@;
        let ghost loads00 = old(self).loads@;
        let ghost okb = loads00.len() == 0 && host_complete(host00, externals, cjs, loads00) && (
        forall|i: int|
            0 <= i < entries@.len() ==> host_has_source(
                host00.modules,
                (#[trigger] entries@[i]).path@,
            ));
        let ghost reg_start = self.scope@;
        let mut errors: Vec<BundleError> = Vec::new();
        let mut i: usize = 0;
        let n = entries.len();
        while i < n
            invariant
                i <= n,
                self.wf(),
                flags_le(reg_start, self.scope@),
                self.config@ == old(self).config@,
                externals == self.config@.external_modules,
                cjs == self.config@.require,
                self.host@.resolutions == host00.resolutions,
                self.host@.modules.len() == host00.modules.len(),
                forall|k2: int|
                    0 <= k2 < host00.modules.len() ==> (#[trigger] self.host@.modules[k2]).path
                        == host00.modules[k2].path,
                forall|k2: int|
                    0 <= k2 < host00.modules.len() ==> ((#[trigger] self.host@.modules[k2]).source
                        == host00.modules[k2].source || (self.host@.modules[k2].source is None
                        && load_logged(self.loads@, self.host@.modules[k2].path))),
                self.loads@.len() >= loads00.len(),
                forall|k2: int| 0 <= k2 < loads00.len() ==> self.loads@[k2] == loads00[k2],
                forall|j: int|
                    0 <= j < i ==> load_logged(self.loads@, (#[trigger] entries@[j]).path@),
                forall|k2: int|
                    0 <= k2 < errors@.len() ==> error_genuine(
                        (#[trigger] errors@[k2])@,
                        self.host@,
                        externals,
                    ),
                okb ==> errors@.len() == 0,
                okb ==> host_complete(self.host@, externals, cjs, self.loads@),
                okb ==> all_logged_published(self.scope@, self.loads@),
                okb ==> (forall|j: int|
                    0 <= j < entries@.len() ==> (host_has_source(
                        self.host@.modules,
                        (#[trigger] entries@[j]).path@,
                    ) || load_logged(self.loads@, entries@[j].path@))),
                forall|i2: int|
                    0 <= i2 < reg_start.len() && reg_start[i2].content is Some ==> (
                    #[trigger] self.scope@[i2]).content == reg_start[i2].content,
                forall|p: FileNameV|
                    (!load_logged(loads00, p) && #[trigger] load_logged(self.loads@, p)
                        && host_has_source(host00.modules, p)) ==> published_from_source(
                        self.scope@,
                        host00,
                        externals,
                        cjs,
                        self.loads@,
                        Seq::empty(),
                        p,
                    ),
            decreases n - i,
        {
            let ghost host_pre2 = self.host@;
            let ghost loads_pre2 = self.loads@;
            let ghost errs_pre2 = errors@;
            let ghost scope_pre2 = self.scope@;
            self.load_transformed(&entries[i].path, &mut errors);
            proof {
                assert forall|j: int|
                    0 <= j <= i implies load_logged(
                    self.loads@,
                    (#[trigger] entries@[j]).path@,
                ) by {
                    if j < i {
                        lemma_logged_grow(loads_pre2, self.loads@, entries@[j].path@);
                    }
                }
                assert forall|k2: int|
                    0 <= k2 < errors@.len() implies error_genuine(
                    (#[trigger] errors@[k2])@,
                    self.host@,
                    externals,
                ) by {
                    if k2 < errs_pre2.len() {
                        assert(errors@[k2] == errs_pre2[k2]);
                        lemma_error_stays_genuine(host_pre2, self.host@, errs_pre2[k2]@, externals);
                    }
                }
                assert forall|k2: int|
                    0 <= k2 < host00.modules.len() implies ((
                #[trigger] self.host@.modules[k2]).source == host00.modules[k2].source || (
                self.host@.modules[k2].source is None && load_logged(
                    self.loads@,
                    self.host@.modules[k2].path,
                ))) by {
                    if self.host@.modules[k2].source != host00.modules[k2].source {
                        if self.host@.modules[k2].source == host_pre2.modules[k2].source {
                            assert(host_pre2.modules[k2].source is None && load_logged(
                                loads_pre2,
                                host_pre2.modules[k2].path,
                            ));
                            lemma_logged_grow(
                                loads_pre2,
                                self.loads@,
                                host_pre2.modules[k2].path,
                            );
                        }
                    }
                }
                assert forall|i2: int|
                    0 <= i2 < reg_start.len() && reg_start[i2].content is Some implies (
                #[trigger] self.scope@[i2]).content == reg_start[i2].content by {
                    assert(scope_pre2[i2].content == reg_start[i2].content);
                    assert(scope_pre2[i2].content is Some);
                }
                assert forall|p: FileNameV|
                    (!load_logged(loads00, p) && #[trigger] load_logged(self.loads@, p)
                        && host_has_source(host00.modules, p)) implies published_from_source(
                    self.scope@,
                    host00,
                    externals,
                    cjs,
                    self.loads@,
                    Seq::empty(),
                    p,
                ) by {
                    if load_logged(loads_pre2, p) {
                        assert(published_from_source(
                            scope_pre2,
                            host00,
                            externals,
                            cjs,
                            loads_pre2,
                            Seq::empty(),
                            p,
                        ));
                        lemma_published_from_source_extend(
                            scope_pre2,
                            self.scope@,
                            host00,
                            externals,
                            cjs,
                            loads_pre2,
                            self.loads@,
                            Seq::empty(),
                            Seq::empty(),
                            p,
                        );
                    } else {
                        lemma_source_preserved_unlogged(host00, host_pre2, loads_pre2, p);
                        assert(published_from_source(
                            self.scope@,
                            host_pre2,
                            externals,
                            cjs,
                            self.loads@,
                            Seq::empty(),
                            p,
                        ));
                        lemma_published_from_source_host(
                            self.scope@,
                            host_pre2,
                            host00,
                            externals,
                            cjs,
                            self.loads@,
                            Seq::empty(),
                            p,
                        );
                    }
                }
                if okb {
                    assert(host_has_source(host_pre2.modules, entries@[i as int].path@)
                        || load_logged(loads_pre2, entries@[i as int].path@));
                    assert(errors@ == errs_pre2);
                    assert(errors@.len() == 0);
                    assert(all_logged_published(self.scope@, self.loads@));
                    assert forall|j: int|
                        0 <= j < entries@.len() implies (host_has_source(
                        self.host@.modules,
                        (#[trigger] entries@[j]).path@,
                    ) || load_logged(self.loads@, entries@[j].path@)) by {
                        if host_has_source(host_pre2.modules, entries@[j].path@) {
                            lemma_has_source_or_logged(
                                host_pre2,
                                self.host@,
                                self.loads@,
                                entries@[j].path@,
                            );
                        } else {
                            assert(load_logged(loads_pre2, entries@[j].path@));
                            lemma_logged_grow(loads_pre2, self.loads@, entries@[j].path@);
                        }
                    }
                }
            }
            i = i + 1;
        }
        if errors.len() > 0 {
            return Err(errors);
        }
        let ghost mid = self.scope@;
        let mut eps: Vec<EntryPoint> = Vec::new();
        let mut k: usize = 0;
        while k < n
            invariant
                k <= n,
                self.scope@ == mid,
                self.wf(),
                errors@.len() == 0,
                eps@.len() == k,
                forall|j: int|
                    0 <= j < k ==> (#[trigger] eps@[j]).name@ == entries@[j].name@ && spec_find(
                        mid,
                        entries@[j].path@,
                    ) == Some(eps@[j].id as int) && published(mid, eps@[j].id),
            decreases n - k,
        {
            match self.scope.find(&entries[k].path) {
                Some(id) => {
                    proof {
                        crate::registry::lemma_find_props(mid, entries@[k as int].path@);
                    }
                    if self.scope.is_published(id) {
                        eps.push(EntryPoint { name: entries[k].name.clone(), id });
                    } else {
                        proof {
                            if okb {
                                assert(load_logged(self.loads@, entries@[k as int].path@));
                                assert(path_published(mid, entries@[k as int].path@));
                                assert(false);
                            }
                            let w = choose|w: int|
                                0 <= w < self.loads@.len() && (#[trigger] self.loads@[w])@
                                    == entries@[k as int].path@;
                            assert(!host_has_source(self.host@.modules, self.loads@[w]@));
                        }
                        errors.push(
                            BundleError::Load { path: copy_filename(&entries[k].path) },
                        );
                        return Err(errors);
                    }
                },
                None => {
                    proof {
                        if okb {
                            assert(load_logged(self.loads@, entries@[k as int].path@));
                            assert(path_published(mid, entries@[k as int].path@));
                            assert(false);
                        }
                        let w = choose|w: int|
                            0 <= w < self.loads@.len() && (#[trigger] self.loads@[w])@
                                == entries@[k as int].path@;
                        assert(!host_has_source(self.host@.modules, self.loads@[w]@));
                    }
                    errors.push(BundleError::Load { path: copy_filename(&entries[k].path) });
                    return Err(errors);
                },
            }
            k = k + 1;
        }
        let ghost epsv = crate::chunk::entries_view(eps@);
        proof {
            assert forall|j: int|
                0 <= j < entries@.len() implies (#[trigger] epsv[j]).name == entries@[j].name@
                && spec_find(mid, entries@[j].path@) == Some(epsv[j].id as int) && published(
                mid,
                epsv[j].id,
            ) by {
                assert(epsv[j].name == eps@[j].name@);
                assert(epsv[j].id == eps@[j].id);
            }
            assert forall|j: int|
                0 <= j < eps@.len() implies (#[trigger] eps@[j]).id < self.scope@.len() by {
                assert(published(mid, eps@[j].id));
            }
        }
        let reg_len = self.scope.len();
        proof {
            assert(mid.len() <= usize::MAX);
        }
        let bundles0 = chunk(&mut self.scope, &eps);
        let ghost pre = crate::chunk::bundles_view(bundles0@);
        proof {
            lemma_chunk_rel_preserves(mid, epsv, pre, self.scope@);
            let externals = self.config@.external_modules;
            assert(bundler_wf(self.scope@, self.loads@, externals)) by {
                assert forall|a: int, b: int|
                    0 <= a < b < self.scope@.len() implies self.scope@[a].path
                    != self.scope@[b].path by {
                    assert(mid[a].path != mid[b].path);
                    assert(self.scope@[a].path == mid[a].path);
                    assert(self.scope@[b].path == mid[b].path);
                }
                assert forall|a: usize| #[trigger] published(self.scope@, a) implies load_logged(
                    self.loads@,
                    self.scope@[a as int].path,
                ) by {
                    assert(self.scope@[a as int] == mid[a as int]);
                    assert(published(mid, a));
                }
                assert forall|a: usize, j: int|
                    published(self.scope@, a) && 0 <= j < crate::chunk::content_of(
                        self.scope@,
                        a,
                    ).imports.specifiers.len() implies spec_tagged(
                    self.scope@,
                    #[trigger] crate::chunk::content_of(self.scope@, a).imports.specifiers[j],
                    externals,
                ) by {
                    assert(self.scope@[a as int] == mid[a as int]);
                    assert(published(mid, a));
                    assert(crate::chunk::content_of(self.scope@, a) == crate::chunk::content_of(
                        mid,
                        a,
                    ));
                    assert(spec_tagged(
                        mid,
                        crate::chunk::content_of(mid, a).imports.specifiers[j],
                        externals,
                    ));
                    assert(self.scope@.len() == mid.len());
                }
            }
            assert(flags_le(mid, self.scope@)) by {
                assert forall|a: int|
                    0 <= a < mid.len() implies (#[trigger] self.scope@[a].path == mid[a].path) && (
                mid[a].is_cjs ==> self.scope@[a].is_cjs) && (mid[a].wrapping_required
                    ==> self.scope@[a].wrapping_required) by {
                    assert(self.scope@[a] == mid[a] || self.scope@[a] == (ModuleRecordV {
                        content: None,
                        ..mid[a]
                    }));
                }
            }
        }
        let dis = self.config.disable_inliner;
        let iife = match self.config.module {
            ModuleType::Iife => true,
            ModuleType::Es => false,
        };
        let mut out: Vec<Bundle> = Vec::new();
        let mut bs = bundles0;
        let ghost total = pre.len();
        while bs.len() > 0
            invariant
                bs@.len() <= total,
                total == pre.len(),
                forall|j: int|
                    0 <= j < bs@.len() ==> pre[total - bs@.len() + j] == (#[trigger] bs@[j])@,
                out@.len() == total - bs@.len(),
                forall|j: int|
                    0 <= j < out@.len() ==> (#[trigger] out@[j])@.kind == pre[j].kind
                        && out@[j]@.id == pre[j].id && out@[j]@.module.body == finalize_body(
                        pre[j].module.body,
                        dis,
                        iife,
                    ),
            decreases bs@.len(),
        {
            let ghost p = total - bs@.len();
            let b = bs.remove(0);
            proof {
                assert(b@ == pre[p]);
                assert(forall|j: int|
                    0 <= j < bs@.len() ==> pre[total - bs@.len() + j] == (#[trigger] bs@[j])@);
            }
            let m2 = finalize_module(b.module, dis, iife);
            out.push(Bundle { kind: b.kind, id: b.id, module: m2 });
        }
        proof {
            assert(chunk_rel(mid, epsv, pre, self.scope@));
        }
        Ok(out)
    }
}

} // verus!
