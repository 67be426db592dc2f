//! The chunker: given entries and a fully populated registry, it forms one
//! bundle per entry by merging the entry's reachable modules into a single
//! body.
//!
//! The merge order is deterministic: repeatedly take the lowest-numbered
//! remaining module whose internal dependencies inside the remaining set are
//! all merged; if a dependency cycle leaves none ready, take the
//! lowest-numbered remaining module.  Within each module, item order is
//! preserved.  Internal imports are replaced by synthesized links from the
//! importer's marked local to the exporter's export-marked name; namespace
//! and `require` bindings materialize a namespace object; external imports
//! and re-exports survive verbatim at the bundle boundary.

use vstd::prelude::*;
use crate::ast::{
    Ident, IdentV, ImportBinding, ImportBindingV, Item, ItemV, Mark, Module, ModuleV,
    NsField, NsFieldV, Specifier, SpecifierV, Target,
};
use crate::registry::{ModuleContentV, ModuleRecordV, Registry, export_mark_spec};
use crate::analyze::{items_view, member_views, specs_view};
use crate::strutil::{copy_ident, string_eq};

verus! {

// ---------------------------------------------------------------------------
// Registry helpers (specification layer)
// ---------------------------------------------------------------------------

/// The module is registered and currently holds its analyzed content.
pub open spec fn published(reg: Seq<ModuleRecordV>, id: usize) -> bool {
    id < reg.len() && reg[id as int].content is Some
}

pub open spec fn content_of(reg: Seq<ModuleRecordV>, id: usize) -> ModuleContentV {
    reg[id as int].content.unwrap()
}

/// The export mark of a module, as the registry allocates it.
pub open spec fn export_mark_of(id: usize) -> Mark {
    export_mark_spec(id as int) as Mark
}

/// Module `id` has an import edge to module `d`.
pub open spec fn dep_of(reg: Seq<ModuleRecordV>, id: usize, d: usize) -> bool {
    published(reg, id) && exists|j: int|
        0 <= j < content_of(reg, id).imports.specifiers.len()
            && (#[trigger] content_of(reg, id).imports.specifiers[j]).target == (Target::Internal {
            id: d,
        })
}

/// A set of modules closed under following internal edges to published
/// modules.
pub open spec fn closed(reg: Seq<ModuleRecordV>, s: Set<usize>) -> bool {
    forall|id: usize, d: usize|
        s.contains(id) && #[trigger] dep_of(reg, id, d) && published(reg, d) ==> s.contains(d)
}

/// `s` is the reachable set of `entry`: the least set of published modules
/// containing the entry and closed under internal edges.  An unpublished
/// entry reaches nothing.
pub open spec fn reach_char(reg: Seq<ModuleRecordV>, entry: usize, s: Set<usize>) -> bool {
    &&& (forall|id: usize| #[trigger] s.contains(id) ==> published(reg, id))
    &&& (published(reg, entry) ==> s.contains(entry))
    &&& (!published(reg, entry) ==> s =~= Set::empty())
    &&& closed(reg, s)
    &&& (forall|t: Set<usize>|
        #[trigger] closed(reg, t) && t.contains(entry) ==> s.subset_of(t))
}

/// The reachable set is unique.
pub proof fn lemma_reach_unique(reg: Seq<ModuleRecordV>, entry: usize, s1: Set<usize>, s2: Set<usize>)
    requires
        reach_char(reg, entry, s1),
        reach_char(reg, entry, s2),
    ensures
        s1 == s2,
{
    if published(reg, entry) {
        assert(s1.subset_of(s2));
        assert(s2.subset_of(s1));
        assert(s1 =~= s2);
    } else {
        assert(s1 =~= s2);
    }
}

// ---------------------------------------------------------------------------
// Merge order (specification layer)
// ---------------------------------------------------------------------------

/// How many modules are still waiting to be merged.
pub open spec fn count_marked(rem: Seq<bool>) -> nat
    decreases rem.len(),
{
    if rem.len() == 0 {
        0
    } else {
        count_marked(rem.drop_last()) + if rem.last() {
            1nat
        } else {
            0nat
        }
    }
}

/// Clearing a set flag decreases the count by one.
pub proof fn lemma_count_update_false(rem: Seq<bool>, i: int)
    requires
        0 <= i < rem.len(),
        rem[i],
    ensures
        count_marked(rem.update(i, false)) + 1 == count_marked(rem),
    decreases rem.len(),
{
    let rem2 = rem.update(i, false);
    if i == rem.len() - 1 {
        assert(rem2.drop_last() =~= rem.drop_last());
    } else {
        assert(rem2.drop_last() =~= rem.drop_last().update(i, false));
        assert(rem2.last() == rem.last());
        lemma_count_update_false(rem.drop_last(), i);
    }
}

/// Module `id` is ready to merge: it remains, and every remaining internal
/// dependency other than itself is already merged.
pub open spec fn ready(reg: Seq<ModuleRecordV>, rem: Seq<bool>, id: usize) -> bool {
    id < rem.len() && rem[id as int] && (forall|d: usize|
        #[trigger] dep_of(reg, id, d) && d < rem.len() && rem[d as int] ==> d == id)
}

/// The lowest-numbered ready module at or after `i`.
pub open spec fn first_ready_from(reg: Seq<ModuleRecordV>, rem: Seq<bool>, i: int) -> Option<usize>
    decreases rem.len() - i,
{
    if i < 0 || i >= rem.len() {
        None
    } else if ready(reg, rem, i as usize) {
        Some(i as usize)
    } else {
        first_ready_from(reg, rem, i + 1)
    }
}

/// The module has not been merged yet.
pub open spec fn still_marked(rem: Seq<bool>, id: usize) -> bool {
    id < rem.len() && rem[id as int]
}

/// The lowest-numbered remaining module at or after `i`.
pub open spec fn first_marked_from(rem: Seq<bool>, i: int) -> Option<usize>
    decreases rem.len() - i,
{
    if i < 0 || i >= rem.len() {
        None
    } else if still_marked(rem, i as usize) {
        Some(i as usize)
    } else {
        first_marked_from(rem, i + 1)
    }
}

/// The next module to merge: the lowest ready one, or, when a cycle leaves
/// none ready, the lowest remaining one.
pub open spec fn pick_next(reg: Seq<ModuleRecordV>, rem: Seq<bool>) -> Option<usize> {
    match first_ready_from(reg, rem, 0) {
        Some(id) => Some(id),
        None => first_marked_from(rem, 0),
    }
}

pub proof fn lemma_first_ready_props(reg: Seq<ModuleRecordV>, rem: Seq<bool>, i: int)
    requires
        0 <= i,
        rem.len() <= usize::MAX,
    ensures
        match first_ready_from(reg, rem, i) {
            Some(id) => i <= id < rem.len() && ready(reg, rem, id) && (forall|j: usize|
                i <= j < id ==> !ready(reg, rem, j)),
            None => forall|j: usize| i <= j < rem.len() ==> !ready(reg, rem, j),
        },
    decreases rem.len() - i,
{
    if i < rem.len() {
        if ready(reg, rem, i as usize) {
        } else {
            lemma_first_ready_props(reg, rem, i + 1);
            match first_ready_from(reg, rem, i + 1) {
                Some(id) => {
                    assert(first_ready_from(reg, rem, i) == Some(id));
                    assert forall|j: usize| i <= j < id implies !ready(reg, rem, j) by {
                        if j == i {
                            assert(!ready(reg, rem, i as usize));
                        } else {
                            assert(i + 1 <= j < id);
                        }
                    }
                },
                None => {
                    assert(first_ready_from(reg, rem, i) is None);
                    assert forall|j: usize| i <= j < rem.len() implies !ready(reg, rem, j) by {
                        if j == i {
                            assert(!ready(reg, rem, i as usize));
                        } else {
                            assert(i + 1 <= j);
                        }
                    }
                },
            }
        }
    }
}

pub proof fn lemma_first_marked_props(rem: Seq<bool>, i: int)
    requires
        0 <= i,
        rem.len() <= usize::MAX,
    ensures
        match first_marked_from(rem, i) {
            Some(id) => i <= id < rem.len() && rem[id as int] && (forall|j: int|
                i <= j < id ==> !rem[j]),
            None => forall|j: int| i <= j < rem.len() ==> !rem[j],
        },
    decreases rem.len() - i,
{
    if i < rem.len() {
        if rem[i] {
        } else {
            lemma_first_marked_props(rem, i + 1);
        }
    }
}

proof fn lemma_first_ready_is_marked(reg: Seq<ModuleRecordV>, rem: Seq<bool>, i: int)
    ensures
        first_ready_from(reg, rem, i) matches Some(id) ==> still_marked(rem, id),
    decreases rem.len() - i,
{
    if i < 0 || i >= rem.len() {
    } else if ready(reg, rem, i as usize) {
    } else {
        lemma_first_ready_is_marked(reg, rem, i + 1);
    }
}

proof fn lemma_first_marked_is_marked(rem: Seq<bool>, i: int)
    ensures
        first_marked_from(rem, i) matches Some(id) ==> still_marked(rem, id),
    decreases rem.len() - i,
{
    if i < 0 || i >= rem.len() {
    } else if still_marked(rem, i as usize) {
    } else {
        lemma_first_marked_is_marked(rem, i + 1);
    }
}

/// Whatever is picked is a remaining module.
pub proof fn lemma_pick_next_marked(reg: Seq<ModuleRecordV>, rem: Seq<bool>)
    ensures
        pick_next(reg, rem) matches Some(id) ==> still_marked(rem, id),
{
    lemma_first_ready_is_marked(reg, rem, 0);
    lemma_first_marked_is_marked(rem, 0);
}

/// The merge order over a remaining-set: repeatedly pick and remove.
pub open spec fn merge_order_rem(reg: Seq<ModuleRecordV>, rem: Seq<bool>) -> Seq<usize>
    decreases count_marked(rem),
    via merge_order_rem_decreases
{
    match pick_next(reg, rem) {
        None => Seq::empty(),
        Some(id) => seq![id] + merge_order_rem(reg, rem.update(id as int, false)),
    }
}

#[via_fn]
proof fn merge_order_rem_decreases(reg: Seq<ModuleRecordV>, rem: Seq<bool>) {
    match pick_next(reg, rem) {
        None => {},
        Some(id) => {
            lemma_pick_next_marked(reg, rem);
            lemma_count_update_false(rem, id as int);
        },
    }
}

/// The remaining-set vector of a reachable set.
pub open spec fn rem_of(s: Set<usize>, len: nat) -> Seq<bool> {
    Seq::new(len, |i: int| s.contains(i as usize))
}

/// The merge order of a reachable set.
pub open spec fn merge_order(reg: Seq<ModuleRecordV>, s: Set<usize>) -> Seq<usize> {
    merge_order_rem(reg, rem_of(s, reg.len()))
}

// ---------------------------------------------------------------------------
// Merging one module (specification layer)
// ---------------------------------------------------------------------------

/// The target recorded for a source specifier: that of the first specifier
/// record with this source string.
pub open spec fn spec_target(sp: Seq<SpecifierV>, src: Seq<char>) -> Target
    decreases sp.len(),
{
    if sp.len() == 0 {
        Target::Unresolved
    } else if sp[0].src == src {
        sp[0].target
    } else {
        spec_target(sp.drop_first(), src)
    }
}

/// The exported names of a module body, in declaration order.
pub open spec fn export_names(body: Seq<ItemV>) -> Seq<Seq<char>>
    decreases body.len(),
{
    if body.len() == 0 {
        Seq::empty()
    } else {
        export_names(body.drop_last()) + (match body.last() {
            ItemV::Var { name, init, exported } => if exported {
                seq![name.sym]
            } else {
                Seq::empty()
            },
            ItemV::Func { name, body: b, exported } => if exported {
                seq![name.sym]
            } else {
                Seq::empty()
            },
            _ => Seq::empty(),
        })
    }
}

/// The exported names of a registered module; a module already taken into an
/// earlier bundle contributes none.
pub open spec fn exports_table(reg: Seq<ModuleRecordV>, b: usize) -> Seq<Seq<char>> {
    if published(reg, b) {
        export_names(content_of(reg, b).module.body)
    } else {
        Seq::empty()
    }
}

/// The fields of a materialized namespace object: one per exported name,
/// resolving to the exporter's export-marked identifier.
pub open spec fn ns_fields_for(names: Seq<Seq<char>>, em: Mark) -> Seq<NsFieldV> {
    Seq::new(names.len(), |i: int| NsFieldV { export: names[i], target: IdentV { sym: names[i], ctxt: em } })
}

/// The items that replace one binding of an internal import: named and
/// default bindings become links to the exporter's export-marked name;
/// namespace and `require` bindings materialize a namespace object.
pub open spec fn binding_links(reg: Seq<ModuleRecordV>, b: ImportBindingV, target: usize) -> Seq<
    ItemV,
> {
    let em = export_mark_of(target);
    match b {
        ImportBindingV::Named { imported, local } => seq![
            ItemV::Link { local, target: IdentV { sym: imported, ctxt: em } },
        ],
        ImportBindingV::Default { local } => seq![
            ItemV::Link { local, target: IdentV { sym: "default"@, ctxt: em } },
        ],
        ImportBindingV::Namespace { local } => seq![
            ItemV::Namespace { name: local, fields: ns_fields_for(exports_table(reg, target), em) },
        ],
        ImportBindingV::Require { local } => seq![
            ItemV::Namespace { name: local, fields: ns_fields_for(exports_table(reg, target), em) },
        ],
    }
}

pub open spec fn bindings_links(
    reg: Seq<ModuleRecordV>,
    bs: Seq<ImportBindingV>,
    target: usize,
) -> Seq<ItemV>
    decreases bs.len(),
{
    if bs.len() == 0 {
        Seq::empty()
    } else {
        bindings_links(reg, bs.drop_last(), target) + binding_links(reg, bs.last(), target)
    }
}

/// The links that expand an internal re-export: one per exported name of the
/// source, from this module's export-marked name to the source's.
pub open spec fn reexport_links(names: Seq<Seq<char>>, self_em: Mark, target_em: Mark) -> Seq<
    ItemV,
> {
    Seq::new(
        names.len(),
        |i: int|
            ItemV::Link {
                local: IdentV { sym: names[i], ctxt: self_em },
                target: IdentV { sym: names[i], ctxt: target_em },
            },
    )
}

/// What one item of a merged module becomes: external imports and re-exports
/// survive verbatim, internal ones turn into links, and everything else is
/// kept in place.
pub open spec fn chunk_item(
    reg: Seq<ModuleRecordV>,
    self_em: Mark,
    sp: Seq<SpecifierV>,
    it: ItemV,
) -> Seq<ItemV> {
    match it {
        ItemV::Import(d) => match spec_target(sp, d.src) {
            Target::Internal { id } => bindings_links(reg, d.bindings, id),
            _ => seq![it],
        },
        ItemV::ExportStar { src } => match spec_target(sp, src) {
            Target::Internal { id } => reexport_links(exports_table(reg, id), self_em, export_mark_of(id)),
            _ => seq![it],
        },
        _ => seq![it],
    }
}

pub open spec fn chunk_items(
    reg: Seq<ModuleRecordV>,
    self_em: Mark,
    sp: Seq<SpecifierV>,
    body: Seq<ItemV>,
) -> Seq<ItemV>
    decreases body.len(),
{
    if body.len() == 0 {
        Seq::empty()
    } else {
        chunk_items(reg, self_em, sp, body.drop_last()) + chunk_item(reg, self_em, sp, body.last())
    }
}

/// The contribution of one module to the merged body.
pub open spec fn chunk_module(reg: Seq<ModuleRecordV>, id: usize) -> Seq<ItemV> {
    if published(reg, id) {
        chunk_items(
            reg,
            export_mark_of(id),
            content_of(reg, id).imports.specifiers,
            content_of(reg, id).module.body,
        )
    } else {
        Seq::empty()
    }
}

/// The merged body: the modules' contributions in merge order.
pub open spec fn merged_body(reg: Seq<ModuleRecordV>, ord: Seq<usize>) -> Seq<ItemV>
    decreases ord.len(),
{
    if ord.len() == 0 {
        Seq::empty()
    } else {
        merged_body(reg, ord.drop_last()) + chunk_module(reg, ord.last())
    }
}

/// The registry after the chunker has taken the modules in `ord`.
pub open spec fn reg_after(reg: Seq<ModuleRecordV>, ord: Seq<usize>) -> Seq<ModuleRecordV>
    decreases ord.len(),
{
    if ord.len() == 0 {
        reg
    } else {
        let prev = reg_after(reg, ord.drop_last());
        let id = ord.last();
        if id < prev.len() {
            prev.update(id as int, ModuleRecordV { content: None, ..prev[id as int] })
        } else {
            prev
        }
    }
}

// ---------------------------------------------------------------------------
// Bundles
// ---------------------------------------------------------------------------

/// What kind of bundle an entry produces.  This core builds only `Named`
/// bundles: dynamic-import rewriting is an acknowledged open end, and no
/// interface designates a module as a shared library; the other kinds are
/// carried for the callers that consume bundles.
#[derive(Debug)]
pub enum BundleKind {
    /// A user-provided entry.
    Named { name: String },
    /// An auto-generated entry created by an import expression.
    Dynamic,
    /// A lazy-loaded shared library.
    Lib { name: String },
}

pub enum BundleKindV {
    Named { name: Seq<char> },
    Dynamic,
    Lib { name: Seq<char> },
}

impl View for BundleKind {
    type V = BundleKindV;

    open spec fn view(&self) -> BundleKindV {
        match self {
            BundleKind::Named { name } => BundleKindV::Named { name: name@ },
            BundleKind::Dynamic => BundleKindV::Dynamic,
            BundleKind::Lib { name } => BundleKindV::Lib { name: name@ },
        }
    }
}

/// A built bundle: its kind, the identity of its entry module, and the
/// merged module.
#[derive(Debug)]
pub struct Bundle {
    pub kind: BundleKind,
    pub id: usize,
    pub module: Module,
}

pub struct BundleV {
    pub kind: BundleKindV,
    pub id: usize,
    pub module: ModuleV,
}

impl View for Bundle {
    type V = BundleV;

    open spec fn view(&self) -> BundleV {
        BundleV { kind: self.kind@, id: self.id, module: self.module@ }
    }
}

/// One bundling root: its user-visible name and its module identity.
#[derive(Debug)]
pub struct EntryPoint {
    pub name: String,
    pub id: usize,
}

pub struct EntryPointV {
    pub name: Seq<char>,
    pub id: usize,
}

impl View for EntryPoint {
    type V = EntryPointV;

    open spec fn view(&self) -> EntryPointV {
        EntryPointV { name: self.name@, id: self.id }
    }
}

/// What one chunking step does: the bundle body is the merged body of the
/// entry's reachable set, in merge order, and exactly those modules are
/// taken out of the registry.
pub open spec fn chunk_step(
    reg: Seq<ModuleRecordV>,
    entry: EntryPointV,
    b: BundleV,
    regout: Seq<ModuleRecordV>,
) -> bool {
    exists|r: Set<usize>|
        #[trigger] reach_char(reg, entry.id, r) && {
            let ord = merge_order(reg, r);
            &&& b.kind == (BundleKindV::Named { name: entry.name })
            &&& b.id == entry.id
            &&& b.module.body == merged_body(reg, ord)
            &&& regout == reg_after(reg, ord)
        }
}

/// The chunker's overall behavior: one bundle per entry, each merged against
/// the registry as the preceding entries left it.
pub open spec fn chunk_rel(
    reg: Seq<ModuleRecordV>,
    entries: Seq<EntryPointV>,
    bundles: Seq<BundleV>,
    regout: Seq<ModuleRecordV>,
) -> bool
    decreases entries.len(),
{
    if entries.len() == 0 {
        bundles.len() == 0 && regout == reg
    } else {
        bundles.len() == entries.len() && exists|mid: Seq<ModuleRecordV>|
            #[trigger] chunk_step(reg, entries[0], bundles[0], mid) && chunk_rel(
                mid,
                entries.drop_first(),
                bundles.drop_first(),
                regout,
            )
    }
}

/// Deterministic merge order: a chunking step is a function of the registry,
/// so identical registries produce identical bundles.
pub proof fn lemma_chunk_deterministic(
    reg: Seq<ModuleRecordV>,
    entry: EntryPointV,
    b1: BundleV,
    r1: Seq<ModuleRecordV>,
    b2: BundleV,
    r2: Seq<ModuleRecordV>,
)
    requires
        chunk_step(reg, entry, b1, r1),
        chunk_step(reg, entry, b2, r2),
    ensures
        b1.module.body == b2.module.body,
        b1 =~= b2,
        r1 == r2,
{
    let s1 = choose|s: Set<usize>|
        #[trigger] reach_char(reg, entry.id, s) && {
            let ord = merge_order(reg, s);
            b1.kind == (BundleKindV::Named { name: entry.name }) && b1.id == entry.id
                && b1.module.body == merged_body(reg, ord) && r1 == reg_after(reg, ord)
        };
    let s2 = choose|s: Set<usize>|
        #[trigger] reach_char(reg, entry.id, s) && {
            let ord = merge_order(reg, s);
            b2.kind == (BundleKindV::Named { name: entry.name }) && b2.id == entry.id
                && b2.module.body == merged_body(reg, ord) && r2 == reg_after(reg, ord)
        };
    lemma_reach_unique(reg, entry.id, s1, s2);
    assert(b1.module =~= b2.module);
}

// ---------------------------------------------------------------------------
// Merge order (executable layer)
// ---------------------------------------------------------------------------

/// The merge order lists remaining modules, each once.
pub proof fn lemma_merge_order_props(reg: Seq<ModuleRecordV>, rem: Seq<bool>)
    ensures
        ({
            let ord = merge_order_rem(reg, rem);
            &&& (forall|k: int| 0 <= k < ord.len() ==> still_marked(rem, #[trigger] ord[k]))
            &&& (forall|k1: int, k2: int| 0 <= k1 < k2 < ord.len() ==> ord[k1] != ord[k2])
        }),
    decreases count_marked(rem),
{
    let ord = merge_order_rem(reg, rem);
    match pick_next(reg, rem) {
        None => {},
        Some(id) => {
            lemma_pick_next_marked(reg, rem);
            let rem2 = rem.update(id as int, false);
            lemma_count_update_false(rem, id as int);
            lemma_merge_order_props(reg, rem2);
            let rest = merge_order_rem(reg, rem2);
            assert(ord == seq![id] + rest);
            assert(ord[0] == id);
            assert(forall|k: int| 1 <= k < ord.len() ==> ord[k] == rest[k - 1]);
            assert forall|k: int| 0 <= k < ord.len() implies still_marked(rem, #[trigger] ord[k]) by {
                if k > 0 {
                    assert(still_marked(rem2, rest[k - 1]));
                }
            }
            assert forall|k1: int, k2: int| 0 <= k1 < k2 < ord.len() implies ord[k1] != ord[k2] by {
                if k1 == 0 {
                    assert(still_marked(rem2, rest[k2 - 1]));
                    assert(rest[k2 - 1] != id);
                }
            }
        },
    }
}

// ---------------------------------------------------------------------------
// Specifier target lookup (executable layer)
// ---------------------------------------------------------------------------

proof fn lemma_spec_target_at(sp: Seq<SpecifierV>, src: Seq<char>, i: int)
    requires
        0 <= i < sp.len(),
        sp[i].src == src,
        forall|j: int| 0 <= j < i ==> (#[trigger] sp[j]).src != src,
    ensures
        spec_target(sp, src) == sp[i].target,
    decreases i,
{
    if i == 0 {
    } else {
        let rest = sp.drop_first();
        assert(rest[i - 1] == sp[i]);
        assert forall|j: int| 0 <= j < i - 1 implies (#[trigger] rest[j]).src != src by {
            assert(rest[j] == sp[j + 1]);
        }
        lemma_spec_target_at(rest, src, i - 1);
    }
}

proof fn lemma_spec_target_none(sp: Seq<SpecifierV>, src: Seq<char>)
    requires
        forall|j: int| 0 <= j < sp.len() ==> (#[trigger] sp[j]).src != src,
    ensures
        spec_target(sp, src) == Target::Unresolved,
    decreases sp.len(),
{
    if sp.len() > 0 {
        let rest = sp.drop_first();
        assert forall|j: int| 0 <= j < rest.len() implies (#[trigger] rest[j]).src != src by {
            assert(rest[j] == sp[j + 1]);
        }
        lemma_spec_target_none(rest, src);
    }
}

/// The recorded target of a source specifier.
fn target_of_exec(sp: &Vec<Specifier>, src: &String) -> (t: Target)
    ensures
        t == spec_target(specs_view(sp@), src@),
{
    let mut i: usize = 0;
    let n = sp.len();
    while i < n
        invariant
            i <= n,
            n == sp@.len(),
            forall|j: int| 0 <= j < i ==> (#[trigger] sp@[j])@.src != src@,
        decreases n - i,
    {
        if string_eq(&sp[i].src, src) {
            proof {
                let spv = specs_view(sp@);
                assert(forall|j: int| 0 <= j < i ==> (#[trigger] spv[j]).src != src@);
                lemma_spec_target_at(spv, src@, i as int);
            }
            return sp[i].target;
        }
        i = i + 1;
    }
    proof {
        let spv = specs_view(sp@);
        assert(forall|j: int| 0 <= j < spv.len() ==> (#[trigger] spv[j]).src != src@);
        lemma_spec_target_none(spv, src@);
    }
    Target::Unresolved
}

// ---------------------------------------------------------------------------
// Export tables (executable layer)
// ---------------------------------------------------------------------------

/// The exported names of a published module, in declaration order.
fn exports_of_exec(reg: &Registry, id: usize) -> (r: Vec<String>)
    requires
        published(reg@, id),
    ensures
        member_views(r@) == exports_table(reg@, id),
{
    let content = reg.module_ref(id);
    let body = &content.module.body;
    let ghost bv = content_of(reg@, id).module.body;
    proof {
        assert(bv.len() == body@.len());
        assert(forall|j: int| 0 <= j < body@.len() ==> bv[j] == (#[trigger] body@[j])@);
    }
    let mut out: Vec<String> = Vec::new();
    let mut k: usize = 0;
    let n = body.len();
    proof {
        assert(member_views(out@) =~= export_names(bv.take(0)));
    }
    while k < n
        invariant
            k <= n,
            n == body@.len(),
            bv.len() == body@.len(),
            forall|j: int| 0 <= j < body@.len() ==> bv[j] == (#[trigger] body@[j])@,
            member_views(out@) == export_names(bv.take(k as int)),
        decreases n - k,
    {
        match &body[k] {
            Item::Var { name, init, exported } => {
                if *exported {
                    out.push(name.sym.clone());
                }
            },
            Item::Func { name, body: fb, exported } => {
                if *exported {
                    out.push(name.sym.clone());
                }
            },
            _ => {},
        }
        proof {
            assert(bv.take(k + 1).drop_last() =~= bv.take(k as int));
            assert(bv.take(k + 1).last() == bv[k as int]);
            assert(member_views(out@) =~= export_names(bv.take(k + 1)));
        }
        k = k + 1;
    }
    proof {
        assert(bv.take(n as int) =~= bv);
    }
    out
}

// ---------------------------------------------------------------------------
// Reachability (executable layer)
// ---------------------------------------------------------------------------

/// The set of modules whose flag is set.
pub open spec fn marked_set(s: Seq<bool>) -> Set<usize> {
    Set::new(|i: usize| i < s.len() && s[i as int])
}

/// The count never exceeds the length.
pub proof fn lemma_count_le_len(rem: Seq<bool>)
    ensures
        count_marked(rem) <= rem.len(),
    decreases rem.len(),
{
    if rem.len() > 0 {
        lemma_count_le_len(rem.drop_last());
    }
}

/// Setting a clear flag increases the count by one.
pub proof fn lemma_count_update_true(rem: Seq<bool>, i: int)
    requires
        0 <= i < rem.len(),
        !rem[i],
    ensures
        count_marked(rem.update(i, true)) == count_marked(rem) + 1,
    decreases rem.len(),
{
    let rem2 = rem.update(i, true);
    if i == rem.len() - 1 {
        assert(rem2.drop_last() =~= rem.drop_last());
    } else {
        assert(rem2.drop_last() =~= rem.drop_last().update(i, true));
        assert(rem2.last() == rem.last());
        lemma_count_update_true(rem.drop_last(), i);
    }
}

pub open spec fn in_stack(st: Seq<usize>, id: usize) -> bool {
    exists|k: int| 0 <= k < st.len() && st[k] == id
}

/// Computes the reachable set of the entry: the least set of published
/// modules containing the entry and closed under internal edges.
#[verifier::loop_isolation(false)]
fn reach_exec(reg: &Registry, entry: usize) -> (r: Vec<bool>)
    requires
        entry < reg@.len(),
    ensures
        r@.len() == reg@.len(),
        reach_char(reg@, entry, marked_set(r@)),
{
    let n = reg.len();
    let mut marked: Vec<bool> = Vec::new();
    let mut k: usize = 0;
    while k < n
        invariant
            k <= n,
            marked@.len() == k,
            forall|j: int| 0 <= j < k ==> !marked@[j],
        decreases n - k,
    {
        marked.push(false);
        k = k + 1;
    }
    if !reg.is_published(entry) {
        proof {
            assert(marked_set(marked@) =~= Set::<usize>::empty());
            assert(forall|t: Set<usize>| Set::<usize>::empty().subset_of(t));
        }
        return marked;
    }
    let mut stack: Vec<usize> = Vec::new();
    marked.set(entry, true);
    stack.push(entry);
    proof {
        lemma_count_le_len(marked@);
        assert(stack@[0] == entry);
        assert(in_stack(stack@, entry));
    }
    while stack.len() > 0
        invariant
            marked@.len() == reg@.len(),
            entry < reg@.len(),
            marked@[entry as int],
            forall|id: usize| #[trigger] marked_set(marked@).contains(id) ==> published(reg@, id),
            forall|k2: int| 0 <= k2 < stack@.len() ==> marked_set(marked@).contains(
                #[trigger] stack@[k2],
            ),
            forall|t: Set<usize>|
                #[trigger] closed(reg@, t) && t.contains(entry) ==> marked_set(marked@).subset_of(
                    t,
                ),
            forall|id: usize, d: usize|
                marked_set(marked@).contains(id) && !in_stack(stack@, id) && #[trigger] dep_of(
                    reg@,
                    id,
                    d,
                ) && published(reg@, d) ==> marked_set(marked@).contains(d),
            count_marked(marked@) <= marked@.len(),
        decreases
                marked@.len() - count_marked(marked@),
                stack@.len(),
    {
        let ghost stack0 = stack@;
        let ghost marked0 = marked@;
        let id = match stack.pop() {
            Some(x) => x,
            None => {
                proof {
                    assert(false);
                }
                loop
                    invariant
                        false,
                    decreases 0int,
                {
                }
            },
        };
        proof {
            assert(stack0[stack0.len() - 1] == id);
            assert(marked_set(marked@).contains(id));
            assert forall|x: usize|
                !in_stack(stack@, x) && x != id && in_stack(stack0, x) implies false by {
                let k = choose|k: int| 0 <= k < stack0.len() && stack0[k] == x;
                if k < stack0.len() - 1 {
                    assert(stack@[k] == x);
                }
            }
        }
        let content = reg.module_ref(id);
        let sp = &content.imports.specifiers;
        let ghost spv = content_of(reg@, id).imports.specifiers;
        proof {
            assert(spv.len() == sp@.len());
            assert(forall|j: int| 0 <= j < sp@.len() ==> spv[j] == (#[trigger] sp@[j])@);
        }
        let mut j: usize = 0;
        let m = sp.len();
        while j < m
            invariant
                j <= m,
                m == sp@.len(),
                spv.len() == sp@.len(),
                forall|jj: int| 0 <= jj < sp@.len() ==> spv[jj] == (#[trigger] sp@[jj])@,
                marked@.len() == reg@.len(),
                entry < reg@.len(),
                marked@[entry as int],
                id < reg@.len(),
                marked_set(marked@).contains(id),
                forall|x: usize| #[trigger] marked_set(marked@).contains(x) ==> published(reg@, x),
                forall|k2: int| 0 <= k2 < stack@.len() ==> marked_set(marked@).contains(
                    #[trigger] stack@[k2],
                ),
                forall|t: Set<usize>|
                    #[trigger] closed(reg@, t) && t.contains(entry) ==> marked_set(
                        marked@,
                    ).subset_of(t),
                forall|x: usize, d: usize|
                    marked_set(marked@).contains(x) && !in_stack(stack@, x) && x != id
                        && #[trigger] dep_of(reg@, x, d) && published(reg@, d) ==> marked_set(
                        marked@,
                    ).contains(d),
                forall|jj: int|
                    0 <= jj < j ==> match (#[trigger] spv[jj]).target {
                        Target::Internal { id: d } => !published(reg@, d) || marked_set(
                            marked@,
                        ).contains(d),
                        _ => true,
                    },
                count_marked(marked@) <= marked@.len(),
                count_marked(marked0) <= count_marked(marked@),
                stack@.len() >= stack0.len() - 1,
                count_marked(marked@) > count_marked(marked0) || stack@.len() == stack0.len() - 1,
            decreases m - j,
        {
            match &sp[j].target {
                Target::Internal { id: d } => {
                    let dd = *d;
                    if dd < n {
                        if reg.is_published(dd) {
                            if !marked[dd] {
                                proof {
                                    lemma_count_update_true(marked@, dd as int);
                                    lemma_count_le_len(marked@.update(dd as int, true));
                                    assert forall|t: Set<usize>|
                                        #[trigger] closed(reg@, t) && t.contains(entry)
                                            implies marked_set(
                                        marked@.update(dd as int, true),
                                    ).subset_of(t) by {
                                        assert(marked_set(marked@).subset_of(t));
                                        assert(dep_of(reg@, id, dd)) by {
                                            assert(spv[j as int].target == (Target::Internal {
                                                id: dd,
                                            }));
                                        }
                                        assert(t.contains(id));
                                        assert(t.contains(dd));
                                        assert forall|x: usize|
                                            marked_set(
                                                marked@.update(dd as int, true),
                                            ).contains(x) implies t.contains(x) by {
                                            if x != dd {
                                                assert(marked_set(marked@).contains(x));
                                            }
                                        }
                                    }
                                }
                                let ghost pre = marked@;
                                let ghost spre = stack@;
                                marked.set(dd, true);
                                stack.push(dd);
                                proof {
                                    assert(marked_set(marked@) =~= marked_set(pre).insert(dd));
                                    assert(forall|x: usize|
                                        #[trigger] marked_set(pre).contains(x) ==> marked_set(
                                            marked@,
                                        ).contains(x));
                                    assert(stack@[stack@.len() - 1] == dd);
                                    assert(in_stack(stack@, dd));
                                    assert forall|x: usize|
                                        in_stack(spre, x) implies in_stack(stack@, x) by {
                                        let k = choose|k: int|
                                            0 <= k < spre.len() && spre[k] == x;
                                        assert(stack@[k] == x);
                                    }
                                }
                            }
                        }
                    }
                },
                _ => {},
            }
            j = j + 1;
        }
        proof {
            assert forall|x: usize, d: usize|
                marked_set(marked@).contains(x) && !in_stack(stack@, x) && #[trigger] dep_of(
                    reg@,
                    x,
                    d,
                ) && published(reg@, d) implies marked_set(marked@).contains(d) by {
                if x == id {
                    let jj = choose|jj: int|
                        0 <= jj < spv.len() && (#[trigger] spv[jj]).target == (Target::Internal {
                            id: d,
                        });
                    assert(match spv[jj].target {
                        Target::Internal { id: dd } => !published(reg@, dd) || marked_set(
                            marked@,
                        ).contains(dd),
                        _ => true,
                    });
                }
            }
        }
    }
    proof {
        assert forall|id2: usize, d: usize|
            marked_set(marked@).contains(id2) && #[trigger] dep_of(reg@, id2, d) && published(
                reg@,
                d,
            ) implies marked_set(marked@).contains(d) by {
            assert(!in_stack(stack@, id2));
        }
    }
    marked
}


/// Whether a module is ready to merge, given the remaining set.
#[verifier::loop_isolation(false)]
fn ready_check(reg: &Registry, rem: &Vec<bool>, id: usize) -> (r: bool)
    requires
        rem@.len() == reg@.len(),
        id < rem@.len(),
        rem@[id as int],
    ensures
        r == ready(reg@, rem@, id),
{
    if !reg.is_published(id) {
        proof {
            assert forall|d: usize|
                #[trigger] dep_of(reg@, id, d) && d < rem@.len() && rem@[d as int] implies d
                == id by {
                assert(published(reg@, id));
            }
        }
        return true;
    }
    let content = reg.module_ref(id);
    let sp = &content.imports.specifiers;
    let ghost spv = content_of(reg@, id).imports.specifiers;
    proof {
        assert(spv.len() == sp@.len());
        assert(forall|j: int| 0 <= j < sp@.len() ==> spv[j] == (#[trigger] sp@[j])@);
    }
    let mut j: usize = 0;
    let m = sp.len();
    while j < m
        invariant
            j <= m,
            forall|jj: int|
                0 <= jj < j ==> match (#[trigger] spv[jj]).target {
                    Target::Internal { id: d } => !(d < rem@.len() && rem@[d as int] && d != id),
                    _ => true,
                },
        decreases m - j,
    {
        match &sp[j].target {
            Target::Internal { id: d } => {
                let dd = *d;
                if dd != id && dd < rem.len() {
                    if rem[dd] {
                        proof {
                            assert(spv[j as int].target == (Target::Internal { id: dd }));
                            assert(dep_of(reg@, id, dd));
                            assert(!ready(reg@, rem@, id));
                        }
                        return false;
                    }
                }
            },
            _ => {},
        }
        j = j + 1;
    }
    proof {
        assert forall|d: usize|
            #[trigger] dep_of(reg@, id, d) && d < rem@.len() && rem@[d as int] implies d == id by {
            let jj = choose|jj: int|
                0 <= jj < spv.len() && (#[trigger] spv[jj]).target == (Target::Internal { id: d });
            if d != id {
                assert(!(d < rem@.len() && rem@[d as int] && d != id));
            }
        }
    }
    true
}

/// With `i` the first index at or past `from` that is ready, the spec scan
/// finds it.
proof fn lemma_first_ready_at(reg: Seq<ModuleRecordV>, rem: Seq<bool>, i: int)
    requires
        rem.len() <= usize::MAX,
        0 <= i < rem.len(),
        ready(reg, rem, i as usize),
        forall|j: usize| j < i ==> !ready(reg, rem, j),
    ensures
        first_ready_from(reg, rem, 0) == Some(i as usize),
{
    lemma_first_ready_props(reg, rem, 0);
    match first_ready_from(reg, rem, 0) {
        Some(k) => {
            if k < i {
                assert(!ready(reg, rem, k));
            } else if k > i {
                assert(!ready(reg, rem, i as usize));
            }
        },
        None => {
            assert(!ready(reg, rem, i as usize));
        },
    }
}

proof fn lemma_first_marked_at(rem: Seq<bool>, i: int)
    requires
        rem.len() <= usize::MAX,
        0 <= i < rem.len(),
        rem[i],
        forall|j: int| 0 <= j < i ==> !rem[j],
    ensures
        first_marked_from(rem, 0) == Some(i as usize),
{
    lemma_first_marked_props(rem, 0);
    match first_marked_from(rem, 0) {
        Some(k) => {
            if k < i {
                assert(!rem[k as int]);
            } else if k > i {
                assert(!rem[i]);
            }
        },
        None => {
            assert(!rem[i]);
        },
    }
}

/// The next module to merge, mirroring the specification's pick.
#[verifier::loop_isolation(false)]
fn pick_next_exec(reg: &Registry, rem: &Vec<bool>) -> (r: Option<usize>)
    requires
        rem@.len() == reg@.len(),
    ensures
        r == pick_next(reg@, rem@),
{
    let n = rem.len();
    let mut i: usize = 0;
    while i < n
        invariant
            i <= n,
            forall|j: usize| j < i ==> !ready(reg@, rem@, j),
        decreases n - i,
    {
        if rem[i] {
            if ready_check(reg, rem, i) {
                proof {
                    lemma_first_ready_at(reg@, rem@, i as int);
                }
                return Some(i);
            }
        } else {
            proof {
                assert(!ready(reg@, rem@, i));
            }
        }
        i = i + 1;
    }
    proof {
        lemma_first_ready_props(reg@, rem@, 0);
        match first_ready_from(reg@, rem@, 0) {
            Some(k) => {
                assert(!ready(reg@, rem@, k));
            },
            None => {},
        }
    }
    let mut i2: usize = 0;
    while i2 < n
        invariant
            i2 <= n,
            first_ready_from(reg@, rem@, 0) is None,
            forall|j: int| 0 <= j < i2 ==> !rem@[j],
        decreases n - i2,
    {
        if rem[i2] {
            proof {
                lemma_first_marked_at(rem@, i2 as int);
            }
            return Some(i2);
        }
        i2 = i2 + 1;
    }
    proof {
        lemma_first_marked_props(rem@, 0);
        match first_marked_from(rem@, 0) {
            Some(k) => {
                assert(!rem@[k as int]);
            },
            None => {},
        }
    }
    None
}

/// Computes the merge order of the remaining set.
#[verifier::loop_isolation(false)]
fn order_exec(reg: &Registry, rem_in: Vec<bool>) -> (ord: Vec<usize>)
    requires
        rem_in@.len() == reg@.len(),
    ensures
        ord@ == merge_order_rem(reg@, rem_in@),
{
    let mut rem = rem_in;
    let ghost rem0 = rem@;
    let mut ord: Vec<usize> = Vec::new();
    proof {
        lemma_count_le_len(rem@);
    }
    loop
        invariant
            rem@.len() == reg@.len(),
            merge_order_rem(reg@, rem0) == ord@ + merge_order_rem(reg@, rem@),
            count_marked(rem@) <= rem@.len(),
        decreases count_marked(rem@),
    {
        match pick_next_exec(reg, &rem) {
            Some(id) => {
                proof {
                    lemma_pick_next_marked(reg@, rem@);
                    lemma_count_update_false(rem@, id as int);
                    let rest = merge_order_rem(reg@, rem@.update(id as int, false));
                    assert(merge_order_rem(reg@, rem@) == seq![id] + rest);
                    assert((ord@ + merge_order_rem(reg@, rem@)) =~= (ord@.push(id) + rest));
                }
                ord.push(id);
                rem.set(id, false);
            },
            None => {
                proof {
                    assert(merge_order_rem(reg@, rem@) =~= Seq::<usize>::empty());
                    assert(ord@ =~= ord@ + merge_order_rem(reg@, rem@));
                }
                return ord;
            },
        }
    }
}

// ---------------------------------------------------------------------------
// Merging (executable layer)
// ---------------------------------------------------------------------------

/// What taking a sequence of modules does to the registry: lengths, paths
/// and flags are untouched; exactly the taken modules lose their content.
pub proof fn lemma_reg_after_props(reg: Seq<ModuleRecordV>, ord: Seq<usize>)
    ensures
        reg_after(reg, ord).len() == reg.len(),
        forall|i: usize|
            i < reg.len() && !ord.contains(i) ==> reg_after(reg, ord)[i as int] == reg[i as int],
        forall|i: usize|
            i < reg.len() && ord.contains(i) ==> reg_after(reg, ord)[i as int]
                == (ModuleRecordV { content: None, ..reg[i as int] }),
    decreases ord.len(),
{
    if ord.len() > 0 {
        let rest = ord.drop_last();
        let last = ord.last();
        lemma_reg_after_props(reg, rest);
        let prev = reg_after(reg, rest);
        assert forall|i: usize|
            i < reg.len() && !ord.contains(i) implies reg_after(reg, ord)[i as int]
            == reg[i as int] by {
            assert(!rest.contains(i)) by {
                if rest.contains(i) {
                    let k = choose|k: int| 0 <= k < rest.len() && rest[k] == i;
                    assert(ord[k] == i);
                }
            }
            assert(i != last) by {
                if i == last {
                    assert(ord[ord.len() - 1] == i);
                }
            }
        }
        assert forall|i: usize|
            i < reg.len() && ord.contains(i) implies reg_after(reg, ord)[i as int]
            == (ModuleRecordV { content: None, ..reg[i as int] }) by {
            let k = choose|k: int| 0 <= k < ord.len() && ord[k] == i;
            if k < ord.len() - 1 {
                assert(rest[k] == i);
                assert(rest.contains(i));
                assert(prev[i as int] == (ModuleRecordV { content: None, ..reg[i as int] }));
            } else {
                assert(last == i);
                if rest.contains(i) {
                    assert(prev[i as int] == (ModuleRecordV { content: None, ..reg[i as int] }));
                } else {
                    assert(prev[i as int] == reg[i as int]);
                }
            }
        }
    }
}

/// Appending one merged item extends the output by that item's view.
proof fn lemma_chunk_push_step(
    pre: Seq<Item>,
    cur: Seq<Item>,
    out0: Seq<ItemV>,
    prefix: Seq<ItemV>,
    single: Seq<ItemV>,
)
    requires
        items_view(pre) == out0 + prefix,
        single.len() == 1,
        cur.len() == pre.len() + 1,
        forall|i: int| 0 <= i < pre.len() ==> cur[i] == pre[i],
        cur.last()@ == single[0],
    ensures
        items_view(cur) =~= out0 + (prefix + single),
{
    assert(items_view(pre).len() == pre.len());
    assert(items_view(cur).len() == cur.len());
    assert(pre.len() == out0.len() + prefix.len());
    assert forall|i: int|
        0 <= i < cur.len() implies items_view(cur)[i] == (out0 + (prefix + single))[i] by {
        if i < pre.len() {
            assert(cur[i] == pre[i]);
            assert(items_view(cur)[i] == cur[i]@);
            assert(items_view(pre)[i] == pre[i]@);
            assert(items_view(pre)[i] == (out0 + prefix)[i]);
            if i < out0.len() {
                assert((out0 + prefix)[i] == out0[i]);
                assert((out0 + (prefix + single))[i] == out0[i]);
            } else {
                assert((out0 + prefix)[i] == prefix[i - out0.len()]);
                assert((prefix + single)[i - out0.len()] == prefix[i - out0.len()]);
                assert((out0 + (prefix + single))[i] == prefix[i - out0.len()]);
            }
        } else {
            assert(cur[i] == cur.last());
            assert(items_view(cur)[i] == cur.last()@);
            assert((prefix + single)[i - out0.len()] == single[0]);
            assert((out0 + (prefix + single))[i] == single[0]);
        }
    }
}

/// Merges one item of a module, appending its replacement to the output.
#[verifier::loop_isolation(false)]
fn chunk_item_exec(
    it: Item,
    self_em: Mark,
    sp: &Vec<Specifier>,
    all_exports: &Vec<Vec<String>>,
    out: &mut Vec<Item>,
    Ghost(reg0): Ghost<Seq<ModuleRecordV>>,
)
    requires
        all_exports@.len() == reg0.len(),
        forall|b: int|
            0 <= b < reg0.len() ==> member_views((#[trigger] all_exports@[b])@) == exports_table(
                reg0,
                b as usize,
            ),
    ensures
        items_view(final(out)@) == items_view(old(out)@) + chunk_item(
            reg0,
            self_em,
            specs_view(sp@),
            it@,
        ),
{
    let ghost itv = it@;
    let ghost spv = specs_view(sp@);
    match it {
        Item::Import(d) => {
            let t = target_of_exec(sp, &d.src);
            match t {
                Target::Internal { id: b } => {
                    let em: Mark = (b as u128) * 2 + 2;
                    proof {
                        assert(em == export_mark_of(b));
                    }
                    let ghost bsv = itv->Import_0.bindings;
                    let ghost out0 = items_view(out@);
                    proof {
                        assert(bsv.len() == d.bindings@.len());
                        assert(forall|j: int|
                            0 <= j < d.bindings@.len() ==> bsv[j] == (#[trigger] d.bindings@[j])@);
                        assert(items_view(out@) =~= out0 + bindings_links(reg0, bsv.take(0), b));
                    }
                    let mut k: usize = 0;
                    let n = d.bindings.len();
                    while k < n
                        invariant
                            k <= n,
                            items_view(out@) == out0 + bindings_links(reg0, bsv.take(k as int), b),
                        decreases n - k,
                    {
                        let ghost pre = out@;
                        proof {
                            assert(bsv.take(k + 1).drop_last() =~= bsv.take(k as int));
                            assert(bsv.take(k + 1).last() == bsv[k as int]);
                            assert(bsv[k as int] == d.bindings@[k as int]@);
                        }
                        match &d.bindings[k] {
                            ImportBinding::Named { imported, local } => {
                                out.push(
                                    Item::Link {
                                        local: copy_ident(local),
                                        target: Ident { sym: imported.clone(), ctxt: em },
                                    },
                                );
                                proof {
                                    lemma_chunk_push_step(
                                        pre,
                                        out@,
                                        out0,
                                        bindings_links(reg0, bsv.take(k as int), b),
                                        binding_links(reg0, bsv[k as int], b),
                                    );
                                    assert(items_view(out@) =~= out0 + bindings_links(
                                        reg0,
                                        bsv.take(k + 1),
                                        b,
                                    ));
                                }
                            },
                            ImportBinding::Default { local } => {
                                out.push(
                                    Item::Link {
                                        local: copy_ident(local),
                                        target: Ident { sym: default_word(), ctxt: em },
                                    },
                                );
                                proof {
                                    lemma_chunk_push_step(
                                        pre,
                                        out@,
                                        out0,
                                        bindings_links(reg0, bsv.take(k as int), b),
                                        binding_links(reg0, bsv[k as int], b),
                                    );
                                    assert(items_view(out@) =~= out0 + bindings_links(
                                        reg0,
                                        bsv.take(k + 1),
                                        b,
                                    ));
                                }
                            },
                            ImportBinding::Namespace { local } => {
                                let fields = ns_fields_exec(all_exports, b, em);
                                proof {
                                    assert(Seq::new(fields@.len(), |j: int| fields@[j]@)
                                        =~= ns_fields_for(exports_table(reg0, b), em));
                                }
                                out.push(
                                    Item::Namespace { name: copy_ident(local), fields },
                                );
                                proof {
                                    lemma_chunk_push_step(
                                        pre,
                                        out@,
                                        out0,
                                        bindings_links(reg0, bsv.take(k as int), b),
                                        binding_links(reg0, bsv[k as int], b),
                                    );
                                    assert(items_view(out@) =~= out0 + bindings_links(
                                        reg0,
                                        bsv.take(k + 1),
                                        b,
                                    ));
                                }
                            },
                            ImportBinding::Require { local } => {
                                let fields = ns_fields_exec(all_exports, b, em);
                                proof {
                                    assert(Seq::new(fields@.len(), |j: int| fields@[j]@)
                                        =~= ns_fields_for(exports_table(reg0, b), em));
                                }
                                out.push(
                                    Item::Namespace { name: copy_ident(local), fields },
                                );
                                proof {
                                    lemma_chunk_push_step(
                                        pre,
                                        out@,
                                        out0,
                                        bindings_links(reg0, bsv.take(k as int), b),
                                        binding_links(reg0, bsv[k as int], b),
                                    );
                                    assert(items_view(out@) =~= out0 + bindings_links(
                                        reg0,
                                        bsv.take(k + 1),
                                        b,
                                    ));
                                }
                            },
                        }
                        k = k + 1;
                    }
                    proof {
                        assert(bsv.take(n as int) =~= bsv);
                        assert(items_view(out@) =~= items_view(old(out)@) + chunk_item(
                            reg0,
                            self_em,
                            spv,
                            itv,
                        ));
                    }
                },
                _ => {
                    out.push(Item::Import(d));
                    proof {
                        assert(items_view(out@) =~= items_view(old(out)@) + chunk_item(
                            reg0,
                            self_em,
                            spv,
                            itv,
                        ));
                    }
                },
            }
        },
        Item::ExportStar { src } => {
            let t = target_of_exec(sp, &src);
            match t {
                Target::Internal { id: b } => {
                    let em: Mark = (b as u128) * 2 + 2;
                    proof {
                        assert(em == export_mark_of(b));
                    }
                    let ghost out0 = items_view(out@);
                    let ghost names = exports_table(reg0, b);
                    if b < all_exports.len() {
                        let exports = &all_exports[b];
                        let ghost emv = member_views(exports@);
                        proof {
                            assert(emv == names);
                        }
                        let mut k: usize = 0;
                        let n = exports.len();
                        while k < n
                            invariant
                                k <= n,
                                n == exports@.len(),
                                out@.len() == out0.len() + k,
                                forall|j: int|
                                    0 <= j < out0.len() ==> items_view(out@)[j] == out0[j],
                                forall|j: int|
                                    0 <= j < k ==> items_view(out@)[out0.len() + j]
                                        == (ItemV::Link {
                                        local: IdentV { sym: names[j], ctxt: self_em },
                                        target: IdentV { sym: names[j], ctxt: em },
                                    }),
                            decreases n - k,
                        {
                            out.push(
                                Item::Link {
                                    local: Ident { sym: exports[k].clone(), ctxt: self_em },
                                    target: Ident { sym: exports[k].clone(), ctxt: em },
                                },
                            );
                            k = k + 1;
                        }
                        proof {
                            let links = reexport_links(names, self_em, em);
                            assert forall|idx: int|
                                0 <= idx < items_view(out@).len() implies items_view(out@)[idx] == (
                            out0 + links)[idx] by {
                                if idx >= out0.len() {
                                    assert(items_view(out@)[out0.len() + (idx - out0.len())]
                                        == (ItemV::Link {
                                        local: IdentV {
                                            sym: names[idx - out0.len()],
                                            ctxt: self_em,
                                        },
                                        target: IdentV { sym: names[idx - out0.len()], ctxt: em },
                                    }));
                                }
                            }
                            assert(items_view(out@) =~= out0 + links);
                        }
                    } else {
                        proof {
                            assert(!published(reg0, b));
                            assert(names =~= Seq::<Seq<char>>::empty());
                            assert(items_view(out@) =~= out0 + reexport_links(names, self_em, em));
                        }
                    }
                    proof {
                        assert(items_view(out@) =~= items_view(old(out)@) + chunk_item(
                            reg0,
                            self_em,
                            spv,
                            itv,
                        ));
                    }
                },
                _ => {
                    out.push(Item::ExportStar { src });
                    proof {
                        assert(items_view(out@) =~= items_view(old(out)@) + chunk_item(
                            reg0,
                            self_em,
                            spv,
                            itv,
                        ));
                    }
                },
            }
        },
        _ => {
            out.push(it);
            proof {
                assert(items_view(out@) =~= items_view(old(out)@) + chunk_item(
                    reg0,
                    self_em,
                    spv,
                    itv,
                ));
            }
        },
    }
}

/// The word `default`, the name a default export binds to.
fn default_word() -> (s: String)
    ensures
        s@ == "default"@,
{
    "default".to_string()
}

/// Builds the fields of a materialized namespace object.
fn ns_fields_exec(all_exports: &Vec<Vec<String>>, b: usize, em: Mark) -> (r: Vec<NsField>)
    ensures
        ({
            let names = if b < all_exports@.len() {
                member_views(all_exports@[b as int]@)
            } else {
                Seq::empty()
            };
            r@.len() == names.len() && forall|j: int|
                0 <= j < names.len() ==> (#[trigger] r@[j])@ == (NsFieldV {
                    export: names[j],
                    target: IdentV { sym: names[j], ctxt: em },
                })
        }),
{
    let mut out: Vec<NsField> = Vec::new();
    if b < all_exports.len() {
        let exports = &all_exports[b];
        let mut k: usize = 0;
        let n = exports.len();
        while k < n
            invariant
                k <= n,
                n == exports@.len(),
                b < all_exports@.len(),
                exports@ == all_exports@[b as int]@,
                out@.len() == k,
                forall|j: int|
                    0 <= j < k ==> (#[trigger] out@[j])@ == (NsFieldV {
                        export: exports@[j]@,
                        target: IdentV { sym: exports@[j]@, ctxt: em },
                    }),
            decreases n - k,
        {
            out.push(
                NsField {
                    export: exports[k].clone(),
                    target: Ident { sym: exports[k].clone(), ctxt: em },
                },
            );
            k = k + 1;
        }
    }
    out
}

/// Builds one bundle: merges the entry's reachable modules in merge order,
/// taking each out of the registry.
#[verifier::loop_isolation(false)]
pub fn chunk_entry(reg: &mut Registry, name: String, entry: usize) -> (b: Bundle)
    requires
        entry < old(reg)@.len(),
    ensures
        chunk_step(old(reg)@, EntryPointV { name: name@, id: entry }, b@, final(reg)@),
{
    let ghost reg0 = reg@;
    let n = reg.len();

    // Export tables, collected before anything is taken.
    let mut all_exports: Vec<Vec<String>> = Vec::new();
    let mut i: usize = 0;
    while i < n
        invariant
            i <= n,
            reg@ == reg0,
            all_exports@.len() == i,
            forall|bb: int|
                0 <= bb < i ==> member_views((#[trigger] all_exports@[bb])@) == exports_table(
                    reg0,
                    bb as usize,
                ),
        decreases n - i,
    {
        if reg.is_published(i) {
            let ex = exports_of_exec(reg, i);
            all_exports.push(ex);
        } else {
            let ex: Vec<String> = Vec::new();
            proof {
                assert(member_views(ex@) =~= exports_table(reg0, i as usize));
            }
            all_exports.push(ex);
        }
        i = i + 1;
    }

    // The reachable set and its merge order.
    let marked = reach_exec(reg, entry);
    let ghost markedv = marked@;
    let ghost r_set = marked_set(markedv);
    let ord = order_exec(reg, marked);
    proof {
        lemma_merge_order_props(reg0, markedv);
        assert(rem_of(r_set, reg0.len()) =~= markedv);
        assert(ord@ == merge_order(reg0, r_set));
    }

    // Merge, module by module, item by item.
    let mut out: Vec<Item> = Vec::new();
    let mut k: usize = 0;
    let m = ord.len();
    proof {
        assert(ord@.take(0) =~= Seq::<usize>::empty());
        assert(items_view(out@) =~= merged_body(reg0, ord@.take(0)));
        assert(reg@ =~= reg_after(reg0, ord@.take(0)));
    }
    while k < m
        invariant
            k <= m,
            m == ord@.len(),
            reg@ == reg_after(reg0, ord@.take(k as int)),
            items_view(out@) == merged_body(reg0, ord@.take(k as int)),
        decreases m - k,
    {
        let ghost prefix = ord@.take(k as int);
        proof {
            lemma_reg_after_props(reg0, prefix);
        }
        let id = ord[k];
        proof {
            assert(still_marked(markedv, id));
            assert(marked_set(markedv).contains(id));
            assert(published(reg0, id));
            assert(!prefix.contains(id)) by {
                if prefix.contains(id) {
                    let j = choose|j: int| 0 <= j < prefix.len() && prefix[j] == id;
                    assert(ord@[j] == id);
                    assert(ord@[k as int] == id);
                }
            }
            assert(reg@[id as int] == reg0[id as int]);
            assert(published(reg@, id));
        }
        let em = reg.export_mark(id);
        let content = reg.take_module(id);
        proof {
            assert(content@ == content_of(reg0, id));
            assert(em == export_mark_of(id));
            assert(ord@.take(k + 1).drop_last() =~= prefix);
            assert(ord@.take(k + 1).last() == ord@[k as int]);
            assert(reg@ =~= reg_after(reg0, ord@.take(k + 1)));
        }
        let mut items = content.module.body;
        let sp2 = content.imports.specifiers;
        let ghost bodyv = content_of(reg0, id).module.body;
        let ghost spv = content_of(reg0, id).imports.specifiers;
        proof {
            assert(bodyv.len() == items@.len());
            assert(forall|j: int|
                0 <= j < items@.len() ==> bodyv[j] == (#[trigger] items@[j])@);
            assert(spv =~= specs_view(sp2@));
        }
        let ghost out_before = items_view(out@);
        let ghost total = bodyv.len();
        while items.len() > 0
            invariant
                items@.len() <= total,
                total == bodyv.len(),
                forall|j: int|
                    0 <= j < items@.len() ==> bodyv[total - items@.len() + j] == (
                    #[trigger] items@[j])@,
                items_view(out@) == out_before + chunk_items(
                    reg0,
                    em,
                    spv,
                    bodyv.take(total - items@.len()),
                ),
            decreases items@.len(),
        {
            let ghost p = total - items@.len();
            let it = items.remove(0);
            proof {
                assert(it@ == bodyv[p]);
                assert(forall|j: int|
                    0 <= j < items@.len() ==> bodyv[total - items@.len() + j] == (
                    #[trigger] items@[j])@);
            }
            chunk_item_exec(it, em, &sp2, &all_exports, &mut out, Ghost(reg0));
            proof {
                assert(bodyv.take(p + 1).drop_last() =~= bodyv.take(p));
                assert(bodyv.take(p + 1).last() == bodyv[p]);
                assert(items_view(out@) =~= out_before + chunk_items(
                    reg0,
                    em,
                    spv,
                    bodyv.take(p + 1),
                ));
            }
        }
        proof {
            assert(bodyv.take(total as int) =~= bodyv);
            assert(chunk_module(reg0, id) == chunk_items(reg0, export_mark_of(id), spv, bodyv));
            assert(merged_body(reg0, ord@.take(k + 1)) == merged_body(reg0, prefix)
                + chunk_module(reg0, id));
            assert(items_view(out@) =~= merged_body(reg0, ord@.take(k + 1)));
        }
        k = k + 1;
    }
    proof {
        assert(ord@.take(m as int) =~= ord@);
    }
    let module = Module { body: out };
    let b = Bundle { kind: BundleKind::Named { name }, id: entry, module };
    proof {
        let ghost ep = EntryPointV { name: name@, id: entry };
        let ghost mo = merge_order(reg0, r_set);
        assert(ord@ == mo);
        assert(b@.module.body =~= merged_body(reg0, mo));
        assert(reg@ == reg_after(reg0, ord@)) by {
            assert(reg@ == reg_after(reg0, ord@.take(m as int)));
        }
        assert(ep.id == entry);
        assert(reach_char(reg0, ep.id, r_set));
        assert(b@.kind == (BundleKindV::Named { name: ep.name }));
        assert(b@.id == ep.id);
        assert(chunk_step(reg0, ep, b@, reg@));
    }
    b
}

pub open spec fn entries_view(v: Seq<EntryPoint>) -> Seq<EntryPointV> {
    Seq::new(v.len(), |i: int| v[i]@)
}

pub open spec fn bundles_view(v: Seq<Bundle>) -> Seq<BundleV> {
    Seq::new(v.len(), |i: int| v[i]@)
}

/// Extending a chunking run by one more entry.
proof fn lemma_chunk_rel_snoc(
    reg0: Seq<ModuleRecordV>,
    es: Seq<EntryPointV>,
    bs: Seq<BundleV>,
    mid: Seq<ModuleRecordV>,
    e: EntryPointV,
    b: BundleV,
    regout: Seq<ModuleRecordV>,
)
    requires
        chunk_rel(reg0, es, bs, mid),
        chunk_step(mid, e, b, regout),
    ensures
        chunk_rel(reg0, es.push(e), bs.push(b), regout),
    decreases es.len(),
{
    if es.len() == 0 {
        assert(mid == reg0);
        assert(es.push(e)[0] == e);
        assert(bs.push(b)[0] == b);
        assert(es.push(e).drop_first() =~= Seq::<EntryPointV>::empty());
        assert(bs.push(b).drop_first() =~= Seq::<BundleV>::empty());
        assert(chunk_rel(regout, es.push(e).drop_first(), bs.push(b).drop_first(), regout));
        assert(chunk_step(reg0, es.push(e)[0], bs.push(b)[0], regout));
    } else {
        let mid1 = choose|m1: Seq<ModuleRecordV>|
            #[trigger] chunk_step(reg0, es[0], bs[0], m1) && chunk_rel(
                m1,
                es.drop_first(),
                bs.drop_first(),
                mid,
            );
        lemma_chunk_rel_snoc(mid1, es.drop_first(), bs.drop_first(), mid, e, b, regout);
        assert(es.push(e).drop_first() =~= es.drop_first().push(e));
        assert(bs.push(b).drop_first() =~= bs.drop_first().push(b));
        assert(es.push(e)[0] == es[0]);
        assert(bs.push(b)[0] == bs[0]);
        assert(chunk_step(reg0, es.push(e)[0], bs.push(b)[0], mid1));
        assert(chunk_rel(mid1, es.push(e).drop_first(), bs.push(b).drop_first(), regout));
    }
}

/// Forms one bundle per entry.  Entries are processed in the given order;
/// modules shared between entries are merged into the first bundle that
/// reaches them.
#[verifier::loop_isolation(false)]
pub fn chunk(reg: &mut Registry, entries: &Vec<EntryPoint>) -> (r: Vec<Bundle>)
    requires
        forall|i: int|
            0 <= i < entries@.len() ==> (#[trigger] entries@[i]).id < old(reg)@.len(),
    ensures
        chunk_rel(old(reg)@, entries_view(entries@), bundles_view(r@), final(reg)@),
{
    let ghost reg0 = reg@;
    let mut out: Vec<Bundle> = Vec::new();
    let mut i: usize = 0;
    let n = entries.len();
    proof {
        assert(entries_view(entries@).take(0) =~= Seq::<EntryPointV>::empty());
        assert(bundles_view(out@) =~= Seq::<BundleV>::empty());
    }
    while i < n
        invariant
            i <= n,
            reg@.len() == reg0.len(),
            out@.len() == i,
            chunk_rel(reg0, entries_view(entries@).take(i as int), bundles_view(out@), reg@),
        decreases n - i,
    {
        let ghost es_pre = entries_view(entries@).take(i as int);
        let ghost bs_pre = bundles_view(out@);
        let ghost reg_pre = reg@;
        let e = &entries[i];
        let b = chunk_entry(reg, e.name.clone(), e.id);
        proof {
            lemma_chunk_rel_snoc(
                reg0,
                es_pre,
                bs_pre,
                reg_pre,
                EntryPointV { name: e.name@, id: e.id },
                b@,
                reg@,
            );
        }
        out.push(b);
        proof {
            assert(entries_view(entries@).take(i + 1) =~= es_pre.push(
                EntryPointV { name: e.name@, id: e.id },
            ));
            assert(bundles_view(out@) =~= bs_pre.push(out@[i as int]@));
            // the chunker never changes the registry's length
            let s = choose|s: Set<usize>|
                #[trigger] reach_char(reg_pre, e.id, s) && {
                    let ord2 = merge_order(reg_pre, s);
                    b@.kind == (BundleKindV::Named { name: e.name@ }) && b@.id == e.id
                        && b@.module.body == merged_body(reg_pre, ord2) && reg@ == reg_after(
                        reg_pre,
                        ord2,
                    )
                };
            lemma_reg_after_props(reg_pre, merge_order(reg_pre, s));
        }
        i = i + 1;
    }
    proof {
        assert(entries_view(entries@).take(n as int) =~= entries_view(entries@));
    }
    out
}

/// Source order preservation within a module: the merged form decomposes
/// around any item, so the images of two items of one module appear in the
/// merged body in their source order.
pub proof fn lemma_chunk_items_split(
    reg: Seq<ModuleRecordV>,
    em: Mark,
    sp: Seq<SpecifierV>,
    body: Seq<ItemV>,
    i: int,
)
    requires
        0 <= i < body.len(),
    ensures
        chunk_items(reg, em, sp, body) == chunk_items(reg, em, sp, body.take(i)) + chunk_item(
            reg,
            em,
            sp,
            body[i],
        ) + chunk_items(reg, em, sp, body.skip(i + 1)),
    decreases body.len(),
{
    if i == body.len() - 1 {
        assert(body.take(i) =~= body.drop_last());
        assert(body.skip(i + 1) =~= Seq::<ItemV>::empty());
        assert(chunk_items(reg, em, sp, body) =~= chunk_items(reg, em, sp, body.take(i))
            + chunk_item(reg, em, sp, body[i]) + chunk_items(reg, em, sp, body.skip(i + 1)));
    } else {
        let bl = body.drop_last();
        lemma_chunk_items_split(reg, em, sp, bl, i);
        assert(bl.take(i) =~= body.take(i));
        assert(bl[i] == body[i]);
        assert(body.skip(i + 1).drop_last() =~= bl.skip(i + 1));
        assert(body.skip(i + 1).last() == body.last());
        assert(chunk_items(reg, em, sp, body.skip(i + 1)) == chunk_items(
            reg,
            em,
            sp,
            bl.skip(i + 1),
        ) + chunk_item(reg, em, sp, body.last()));
        assert(chunk_items(reg, em, sp, body) =~= chunk_items(reg, em, sp, body.take(i))
            + chunk_item(reg, em, sp, body[i]) + chunk_items(reg, em, sp, body.skip(i + 1)));
    }
}

/// The merged body decomposes around any module of the merge order: modules
/// occupy disjoint segments in order.
pub proof fn lemma_merged_body_split(reg: Seq<ModuleRecordV>, ord: Seq<usize>, k: int)
    requires
        0 <= k < ord.len(),
    ensures
        merged_body(reg, ord) == merged_body(reg, ord.take(k)) + chunk_module(reg, ord[k])
            + merged_body(reg, ord.skip(k + 1)),
    decreases ord.len(),
{
    if k == ord.len() - 1 {
        assert(ord.take(k) =~= ord.drop_last());
        assert(ord.skip(k + 1) =~= Seq::<usize>::empty());
        assert(merged_body(reg, ord) =~= merged_body(reg, ord.take(k)) + chunk_module(
            reg,
            ord[k],
        ) + merged_body(reg, ord.skip(k + 1)));
    } else {
        let ol = ord.drop_last();
        lemma_merged_body_split(reg, ol, k);
        assert(ol.take(k) =~= ord.take(k));
        assert(ol[k] == ord[k]);
        assert(ord.skip(k + 1).drop_last() =~= ol.skip(k + 1));
        assert(ord.skip(k + 1).last() == ord.last());
        assert(merged_body(reg, ord.skip(k + 1)) == merged_body(reg, ol.skip(k + 1))
            + chunk_module(reg, ord.last()));
        assert(merged_body(reg, ord) =~= merged_body(reg, ord.take(k)) + chunk_module(
            reg,
            ord[k],
        ) + merged_body(reg, ord.skip(k + 1)));
    }
}

/// Round trip for externals, merge side: an import whose specifier is
/// tagged external is kept verbatim in the merged body.
pub proof fn lemma_external_import_survives_merge(
    reg: Seq<ModuleRecordV>,
    self_em: Mark,
    sp: Seq<SpecifierV>,
    d: crate::ast::ImportDeclV,
)
    requires
        spec_target(sp, d.src) == Target::External,
    ensures
        chunk_item(reg, self_em, sp, ItemV::Import(d)) == seq![ItemV::Import(d)],
{
}

} // verus!
