//! The import/export analyzer.
//!
//! Given one parsed module body and the module's two marks, the analyzer
//! produces the module's `RawImports` record and rewrites the body in place:
//! namespace imports whose every use is a static member access are deglobbed
//! into named imports, recognized CommonJS `require` forms become import
//! items, and every identifier bound at module level is colorized with the
//! module's local mark (export mark for exported declarations) so that later
//! merging cannot collide identifiers of the same spelling from sibling
//! modules.
//!
//! The walk is two-phase: phase one collects usages without changing
//! anything, phase two rewrites.  Deglob eligibility is a whole-module
//! property, so no single-pass rewrite could decide it.

use vstd::prelude::*;
use crate::ast::{
    expr_view, exprs_view, lemma_expr_view_ident, lemma_exprs_view, DeglobRecord, DeglobRecordV, Expr, ExprV, Ident,
    IdentV, ImportBinding, ImportBindingV, ImportDecl, ImportDeclV, Item, ItemV, Mark, Module,
    ModuleV, NsField, NsFieldV, RawImports, RawImportsV, Specifier, SpecifierV, Str, Target,
};
use crate::strutil::{copy_ident, deglob_ident, deglob_name, str_eq, string_eq};

verus! {

// ---------------------------------------------------------------------------
// Usage analysis (specification layer)
// ---------------------------------------------------------------------------

/// Whether `e` uses `sym` in a way that disqualifies it from deglobbing:
/// as a plain value, as the base of a dynamic member access, or as an
/// assignment target (directly or through a member).  A static member
/// access `sym.prop` is not a disqualifying use.
pub open spec fn has_bad_use(e: ExprV, sym: Seq<char>) -> bool
    decreases e,
{
    match e {
        ExprV::Ident(i) => i.sym == sym,
        ExprV::Member { obj, prop } => match *obj {
            ExprV::Ident(_) => false,
            _ => has_bad_use(*obj, sym),
        },
        ExprV::Index { obj, index } => (match *obj {
            ExprV::Ident(i) => i.sym == sym,
            _ => has_bad_use(*obj, sym),
        }) || has_bad_use(*index, sym),
        ExprV::Call { callee, args } => has_bad_use(*callee, sym) || any_bad_use(args, sym),
        ExprV::Assign { target, value } => target.sym == sym || has_bad_use(*value, sym),
        ExprV::MemberAssign { obj, prop, value } => obj.sym == sym || has_bad_use(*value, sym),
        ExprV::Arrow { body } => has_bad_use(*body, sym),
        ExprV::Lit(_) => false,
        ExprV::Num(_) => false,
    }
}

pub open spec fn any_bad_use(es: Seq<ExprV>, sym: Seq<char>) -> bool
    decreases es,
{
    if es.len() == 0 {
        false
    } else {
        any_bad_use(es.drop_last(), sym) || has_bad_use(es.last(), sym)
    }
}

/// The member names used with `sym` as a static member base inside `e`.
pub open spec fn member_props(e: ExprV, sym: Seq<char>) -> Set<Seq<char>>
    decreases e,
{
    match e {
        ExprV::Ident(_) => Set::empty(),
        ExprV::Member { obj, prop } => match *obj {
            ExprV::Ident(i) => if i.sym == sym {
                Set::empty().insert(prop)
            } else {
                Set::empty()
            },
            _ => member_props(*obj, sym),
        },
        ExprV::Index { obj, index } => (match *obj {
            ExprV::Ident(_) => Set::empty(),
            _ => member_props(*obj, sym),
        }).union(member_props(*index, sym)),
        ExprV::Call { callee, args } => member_props(*callee, sym).union(
            all_member_props(args, sym),
        ),
        ExprV::Assign { target, value } => member_props(*value, sym),
        ExprV::MemberAssign { obj, prop, value } => member_props(*value, sym),
        ExprV::Arrow { body } => member_props(*body, sym),
        ExprV::Lit(_) => Set::empty(),
        ExprV::Num(_) => Set::empty(),
    }
}

pub open spec fn all_member_props(es: Seq<ExprV>, sym: Seq<char>) -> Set<Seq<char>>
    decreases es,
{
    if es.len() == 0 {
        Set::empty()
    } else {
        all_member_props(es.drop_last(), sym).union(member_props(es.last(), sym))
    }
}

// ---------------------------------------------------------------------------
// CommonJS recognition (specification layer)
// ---------------------------------------------------------------------------

/// If `e` is exactly `require("literal")` in the root context, the literal.
pub open spec fn require_call_src(e: ExprV) -> Option<Seq<char>> {
    match e {
        ExprV::Call { callee, args } => match *callee {
            ExprV::Ident(i) => if i.sym == "require"@ && i.ctxt == 0 && args.len() == 1 {
                match args[0] {
                    ExprV::Lit(s) => Some(s.value),
                    _ => None,
                }
            } else {
                None
            },
            _ => None,
        },
        _ => None,
    }
}

/// Whether `e` contains any call of the unmarked identifier `require`.
pub open spec fn contains_require(e: ExprV) -> bool
    decreases e,
{
    match e {
        ExprV::Ident(_) => false,
        ExprV::Member { obj, prop } => contains_require(*obj),
        ExprV::Index { obj, index } => contains_require(*obj) || contains_require(*index),
        ExprV::Call { callee, args } => (match *callee {
            ExprV::Ident(i) => i.sym == "require"@ && i.ctxt == 0,
            _ => false,
        }) || contains_require(*callee) || seq_contains_require(args),
        ExprV::Assign { target, value } => contains_require(*value),
        ExprV::MemberAssign { obj, prop, value } => contains_require(*value),
        ExprV::Arrow { body } => contains_require(*body),
        ExprV::Lit(_) => false,
        ExprV::Num(_) => false,
    }
}

pub open spec fn seq_contains_require(es: Seq<ExprV>) -> bool
    decreases es,
{
    if es.len() == 0 {
        false
    } else {
        seq_contains_require(es.drop_last()) || contains_require(es.last())
    }
}

/// The item is a top-level `const local = require("src")` that the analyzer
/// turns into an import edge (only when CommonJS support is on and the
/// declaration is not exported).
pub open spec fn top_require_var(it: ItemV) -> Option<(Seq<char>, IdentV)> {
    match it {
        ItemV::Var { name, init, exported } => if !exported {
            match require_call_src(init) {
                Some(src) => Some((src, name)),
                None => None,
            }
        } else {
            None
        },
        _ => None,
    }
}

/// Whether the item holds a `require` call in a non-hoistable position: any
/// occurrence other than the single recognized top-level form, including a
/// `require` with a non-literal argument and any `require` inside a function
/// body.
pub open spec fn item_nontop_require(it: ItemV) -> bool {
    match it {
        ItemV::Var { name, init, exported } => if top_require_var(it) is Some {
            false
        } else {
            contains_require(init)
        },
        ItemV::Stmt(e) => if require_call_src(e) is Some {
            false
        } else {
            contains_require(e)
        },
        ItemV::Func { name, body, exported } => seq_contains_require(body),
        _ => false,
    }
}

/// Whether analyzing the module must mark it `wrapping_required`: CommonJS
/// support is on and some `require` call is not statically hoistable.
pub open spec fn module_wrapping(m: ModuleV, supports_cjs: bool) -> bool {
    supports_cjs && exists|i: int| 0 <= i < m.body.len() && item_nontop_require(#[trigger] m.body[i])
}

// ---------------------------------------------------------------------------
// Module-level symbol tables (specification layer)
// ---------------------------------------------------------------------------

/// The item declares `s` at module level with `export`.
pub open spec fn item_exports(it: ItemV, s: Seq<char>) -> bool {
    match it {
        ItemV::Var { name, init, exported } => exported && name.sym == s,
        ItemV::Func { name, body, exported } => exported && name.sym == s,
        _ => false,
    }
}

/// The item declares `s` at module level without `export`.
pub open spec fn item_declares_local(it: ItemV, s: Seq<char>, supports_cjs: bool) -> bool {
    match it {
        ItemV::Var { name, init, exported } => !exported && name.sym == s && !(supports_cjs
            && top_require_var(it) is Some),
        ItemV::Func { name, body, exported } => !exported && name.sym == s,
        _ => false,
    }
}

/// The item binds `s` as an import local: a binding of an import
/// declaration, or the local of a recognized top-level `require` form.
pub open spec fn item_imports_local(it: ItemV, s: Seq<char>, supports_cjs: bool) -> bool {
    match it {
        ItemV::Import(d) => exists|k: int|
            0 <= k < d.bindings.len() && binding_local(#[trigger] d.bindings[k]).sym == s,
        _ => supports_cjs && match top_require_var(it) {
            Some((src, local)) => local.sym == s,
            None => None::<int> is Some,
        },
    }
}

pub open spec fn binding_local(b: ImportBindingV) -> IdentV {
    match b {
        ImportBindingV::Default { local } => local,
        ImportBindingV::Named { imported, local } => local,
        ImportBindingV::Namespace { local } => local,
        ImportBindingV::Require { local } => local,
    }
}

/// The item binds `s` as a namespace import.
pub open spec fn item_namespace(it: ItemV, s: Seq<char>) -> bool {
    match it {
        ItemV::Import(d) => exists|k: int|
            0 <= k < d.bindings.len() && ((#[trigger] d.bindings[k]) matches ImportBindingV::Namespace {
                local,
            } && local.sym == s),
        _ => false,
    }
}

pub open spec fn exported_syms(m: ModuleV) -> Set<Seq<char>> {
    Set::new(|s: Seq<char>| exists|i: int| 0 <= i < m.body.len() && item_exports(#[trigger] m.body[i], s))
}

pub open spec fn local_syms(m: ModuleV, supports_cjs: bool) -> Set<Seq<char>> {
    Set::new(
        |s: Seq<char>|
            exists|i: int|
                0 <= i < m.body.len() && (item_declares_local(#[trigger] m.body[i], s, supports_cjs)
                    || item_imports_local(m.body[i], s, supports_cjs)),
    )
}

pub open spec fn namespace_syms(m: ModuleV) -> Set<Seq<char>> {
    Set::new(
        |s: Seq<char>| exists|i: int| 0 <= i < m.body.len() && item_namespace(#[trigger] m.body[i], s),
    )
}

/// A disqualifying use of `sym` somewhere in the module body.
pub open spec fn module_bad_use(m: ModuleV, sym: Seq<char>) -> bool {
    exists|i: int| 0 <= i < m.body.len() && item_bad_use(#[trigger] m.body[i], sym)
}

pub open spec fn item_bad_use(it: ItemV, sym: Seq<char>) -> bool {
    match it {
        ItemV::Import(_) => false,
        ItemV::ExportStar { src } => false,
        ItemV::Var { name, init, exported } => has_bad_use(init, sym),
        ItemV::Func { name, body, exported } => any_bad_use(body, sym),
        ItemV::Stmt(e) => has_bad_use(e, sym),
        ItemV::Link { local, target } => local.sym == sym || target.sym == sym,
        ItemV::Namespace { name, fields } => name.sym == sym,
    }
}

/// The member names the module uses with `sym` as a static member base.
pub open spec fn module_member_props(m: ModuleV, sym: Seq<char>) -> Set<Seq<char>> {
    Set::new(
        |p: Seq<char>|
            exists|i: int| 0 <= i < m.body.len() && item_member_props(#[trigger] m.body[i], sym).contains(
                p,
            ),
    )
}

pub open spec fn item_member_props(it: ItemV, sym: Seq<char>) -> Set<Seq<char>> {
    match it {
        ItemV::Import(_) => Set::empty(),
        ItemV::ExportStar { src } => Set::empty(),
        ItemV::Var { name, init, exported } => member_props(init, sym),
        ItemV::Func { name, body, exported } => all_member_props(body, sym),
        ItemV::Stmt(e) => member_props(e, sym),
        ItemV::Link { local, target } => Set::empty(),
        ItemV::Namespace { name, fields } => Set::empty(),
    }
}

/// A namespace import is eligible for deglobbing exactly when the module
/// never uses it other than as a static member base.
pub open spec fn eligible(m: ModuleV, sym: Seq<char>) -> bool {
    namespace_syms(m).contains(sym) && !module_bad_use(m, sym)
}

pub open spec fn eligible_set(m: ModuleV) -> Set<Seq<char>> {
    Set::new(|s: Seq<char>| eligible(m, s))
}

// ---------------------------------------------------------------------------
// Rewrite (specification layer)
// ---------------------------------------------------------------------------

/// What the rewrite phase knows about the module: its marks and the symbol
/// tables the collect phase produced.
pub struct CtxV {
    pub local_mark: Mark,
    pub export_mark: Mark,
    pub eligible: Set<Seq<char>>,
    pub exported: Set<Seq<char>>,
    pub locals: Set<Seq<char>>,
}

/// The rewrite context determined by the module itself.
pub open spec fn spec_ctx(m: ModuleV, local_mark: Mark, export_mark: Mark, supports_cjs: bool) -> CtxV {
    CtxV {
        local_mark,
        export_mark,
        eligible: eligible_set(m),
        exported: exported_syms(m),
        locals: local_syms(m, supports_cjs),
    }
}

pub open spec fn with_mark(i: IdentV, m: Mark) -> IdentV {
    IdentV { sym: i.sym, ctxt: m }
}

/// Colorizing an identifier occurrence: an already-marked identifier is left
/// alone; an unmarked one gets the export mark if the module exports that
/// symbol, the local mark if the symbol is bound at module level, and stays
/// unmarked (a global) otherwise.
pub open spec fn color_ident(i: IdentV, cx: CtxV) -> IdentV {
    if i.ctxt != 0 {
        i
    } else if cx.exported.contains(i.sym) {
        with_mark(i, cx.export_mark)
    } else if cx.locals.contains(i.sym) {
        with_mark(i, cx.local_mark)
    } else {
        i
    }
}

/// The rewrite of one expression: member accesses on an eligible namespace
/// become the deterministic deglobbed identifier carrying the local mark,
/// and every other identifier occurrence is colorized.
pub open spec fn rewrite_expr_v(e: ExprV, cx: CtxV) -> ExprV
    decreases e,
{
    match e {
        ExprV::Ident(i) => ExprV::Ident(color_ident(i, cx)),
        ExprV::Member { obj, prop } => match *obj {
            ExprV::Ident(i) => if cx.eligible.contains(i.sym) && i.ctxt == 0 {
                ExprV::Ident(IdentV { sym: deglob_name(i.sym, prop), ctxt: cx.local_mark })
            } else {
                ExprV::Member { obj: Box::new(ExprV::Ident(color_ident(i, cx))), prop }
            },
            _ => ExprV::Member { obj: Box::new(rewrite_expr_v(*obj, cx)), prop },
        },
        ExprV::Index { obj, index } => ExprV::Index {
            obj: Box::new(rewrite_expr_v(*obj, cx)),
            index: Box::new(rewrite_expr_v(*index, cx)),
        },
        ExprV::Call { callee, args } => ExprV::Call {
            callee: Box::new(rewrite_expr_v(*callee, cx)),
            args: rewrite_exprs_v(args, cx),
        },
        ExprV::Assign { target, value } => ExprV::Assign {
            target: color_ident(target, cx),
            value: Box::new(rewrite_expr_v(*value, cx)),
        },
        ExprV::MemberAssign { obj, prop, value } => ExprV::MemberAssign {
            obj: color_ident(obj, cx),
            prop,
            value: Box::new(rewrite_expr_v(*value, cx)),
        },
        ExprV::Arrow { body } => ExprV::Arrow { body: Box::new(rewrite_expr_v(*body, cx)) },
        ExprV::Lit(s) => ExprV::Lit(s),
        ExprV::Num(n) => ExprV::Num(n),
    }
}

pub open spec fn rewrite_exprs_v(es: Seq<ExprV>, cx: CtxV) -> Seq<ExprV>
    decreases es,
{
    if es.len() == 0 {
        Seq::empty()
    } else {
        rewrite_exprs_v(es.drop_last(), cx).push(rewrite_expr_v(es.last(), cx))
    }
}

/// The sequence rewrite is the element-wise expression rewrite.
pub proof fn lemma_rewrite_exprs_v(es: Seq<ExprV>, cx: CtxV)
    ensures
        rewrite_exprs_v(es, cx).len() == es.len(),
        forall|i: int| 0 <= i < es.len() ==> rewrite_exprs_v(es, cx)[i] == rewrite_expr_v(
            es[i],
            cx,
        ),
    decreases es.len(),
{
    if es.len() > 0 {
        lemma_rewrite_exprs_v(es.drop_last(), cx);
    }
}

pub open spec fn rewrite_plain_binding(b: ImportBindingV, cx: CtxV) -> ImportBindingV {
    match b {
        ImportBindingV::Default { local } => ImportBindingV::Default {
            local: with_mark(local, cx.local_mark),
        },
        ImportBindingV::Named { imported, local } => ImportBindingV::Named {
            imported,
            local: with_mark(local, cx.local_mark),
        },
        ImportBindingV::Namespace { local } => ImportBindingV::Namespace {
            local: with_mark(local, cx.local_mark),
        },
        ImportBindingV::Require { local } => ImportBindingV::Require {
            local: with_mark(local, cx.local_mark),
        },
    }
}

/// The named import that replaces one member access of a deglobbed
/// namespace: `prop as ns$prop`.
pub open spec fn named_binding(ns: Seq<char>, prop: Seq<char>, m: Mark) -> ImportBindingV {
    ImportBindingV::Named {
        imported: prop,
        local: IdentV { sym: deglob_name(ns, prop), ctxt: m },
    }
}

pub open spec fn deglob_bindings(ns: Seq<char>, members: Seq<Seq<char>>, m: Mark) -> Seq<
    ImportBindingV,
> {
    Seq::new(members.len(), |k: int| named_binding(ns, members[k], m))
}

/// The first deglob record for a namespace, if any.
pub open spec fn find_deglob(degs: Seq<DeglobRecordV>, ns: Seq<char>) -> Option<DeglobRecordV>
    decreases degs.len(),
{
    if degs.len() == 0 {
        None
    } else if degs[0].ns == ns {
        Some(degs[0])
    } else {
        find_deglob(degs.drop_first(), ns)
    }
}

/// The rewrite of an import declaration's bindings: an eligible namespace
/// binding expands into the named imports of its recorded members; every
/// other binding keeps its shape and gets the local mark.
pub open spec fn rewrite_bindings(
    bs: Seq<ImportBindingV>,
    cx: CtxV,
    degs: Seq<DeglobRecordV>,
) -> Seq<ImportBindingV>
    decreases bs,
{
    if bs.len() == 0 {
        Seq::empty()
    } else {
        rewrite_bindings(bs.drop_last(), cx, degs) + rewrite_last_binding(bs.last(), cx, degs)
    }
}

pub open spec fn rewrite_last_binding(
    b: ImportBindingV,
    cx: CtxV,
    degs: Seq<DeglobRecordV>,
) -> Seq<ImportBindingV> {
    match b {
        ImportBindingV::Namespace { local } => if cx.eligible.contains(local.sym) {
            match find_deglob(degs, local.sym) {
                Some(rec) => deglob_bindings(local.sym, rec.members, cx.local_mark),
                None => seq![rewrite_plain_binding(b, cx)],
            }
        } else {
            seq![rewrite_plain_binding(b, cx)]
        },
        _ => seq![rewrite_plain_binding(b, cx)],
    }
}

/// Colorizing a module-level declaration's name by its own export flag.
pub open spec fn decl_ident(name: IdentV, exported: bool, cx: CtxV) -> IdentV {
    if name.ctxt != 0 {
        name
    } else if exported {
        with_mark(name, cx.export_mark)
    } else {
        with_mark(name, cx.local_mark)
    }
}

/// The rewrite of one top-level item.
pub open spec fn rewrite_item(
    it: ItemV,
    cx: CtxV,
    degs: Seq<DeglobRecordV>,
    supports_cjs: bool,
) -> ItemV {
    match it {
        ItemV::Import(d) => ItemV::Import(
            ImportDeclV { src: d.src, bindings: rewrite_bindings(d.bindings, cx, degs) },
        ),
        ItemV::ExportStar { src } => ItemV::ExportStar { src },
        ItemV::Var { name, init, exported } => if supports_cjs && top_require_var(it) is Some {
            ItemV::Import(
                ImportDeclV {
                    src: top_require_var(it).unwrap().0,
                    bindings: seq![
                        ImportBindingV::Require {
                            local: with_mark(top_require_var(it).unwrap().1, cx.local_mark),
                        }
                    ],
                },
            )
        } else {
            ItemV::Var {
                name: decl_ident(name, exported, cx),
                init: rewrite_expr_v(init, cx),
                exported,
            }
        },
        ItemV::Func { name, body, exported } => ItemV::Func {
            name: decl_ident(name, exported, cx),
            body: rewrite_exprs_v(body, cx),
            exported,
        },
        ItemV::Stmt(e) => if supports_cjs && require_call_src(e) is Some {
            ItemV::Import(
                ImportDeclV { src: require_call_src(e).unwrap(), bindings: Seq::empty() },
            )
        } else {
            ItemV::Stmt(rewrite_expr_v(e, cx))
        },
        ItemV::Link { local, target } => ItemV::Link { local, target },
        ItemV::Namespace { name, fields } => ItemV::Namespace { name, fields },
    }
}

// ---------------------------------------------------------------------------
// Specifier extraction (specification layer)
// ---------------------------------------------------------------------------

/// The specifier record an item contributes: import declarations carry their
/// bindings; a re-export is an edge without bindings, so that the driver
/// follows it like any other dependency.
pub open spec fn item_specifier(it: ItemV) -> Option<SpecifierV> {
    match it {
        ItemV::Import(d) => Some(
            SpecifierV { src: d.src, target: Target::Unresolved, bindings: d.bindings },
        ),
        ItemV::ExportStar { src } => Some(
            SpecifierV { src, target: Target::Unresolved, bindings: Seq::empty() },
        ),
        _ => None,
    }
}

/// The specifier records of a body, in source order.
pub open spec fn specs_of(body: Seq<ItemV>) -> Seq<SpecifierV>
    decreases body.len(),
{
    if body.len() == 0 {
        Seq::empty()
    } else {
        specs_of(body.drop_last()) + (match item_specifier(body.last()) {
            Some(s) => seq![s],
            None => Seq::empty(),
        })
    }
}

// ---------------------------------------------------------------------------
// The contract of one deglob record
// ---------------------------------------------------------------------------

pub open spec fn syms_of(v: Seq<String>) -> Set<Seq<char>> {
    Set::new(|s: Seq<char>| exists|i: int| 0 <= i < v.len() && (#[trigger] v[i])@ == s)
}

pub open spec fn nodup_strs(v: Seq<String>) -> bool {
    forall|i: int, j: int| 0 <= i < j < v.len() ==> v[i]@ != v[j]@
}

pub open spec fn member_views(v: Seq<String>) -> Seq<Seq<char>> {
    Seq::new(v.len(), |i: int| v[i]@)
}

/// Deglob soundness for one record: the namespace really is a namespace
/// import, the module never uses it other than as a static member base, and
/// the recorded members are exactly the member names the module accesses
/// (each recorded once).
pub open spec fn deglob_record_ok(m: ModuleV, rec: DeglobRecordV) -> bool {
    &&& namespace_syms(m).contains(rec.ns)
    &&& !module_bad_use(m, rec.ns)
    &&& (forall|p: Seq<char>| module_member_props(m, rec.ns).contains(p) <==> rec.members.contains(p))
    &&& forall|i: int, j: int| 0 <= i < j < rec.members.len() ==> rec.members[i] != rec.members[j]
}

// ---------------------------------------------------------------------------
// Pointwise characterizations of the sequence folds
// ---------------------------------------------------------------------------

pub proof fn lemma_any_bad_use(es: Seq<ExprV>, sym: Seq<char>)
    ensures
        any_bad_use(es, sym) <==> exists|i: int| 0 <= i < es.len() && has_bad_use(
            #[trigger] es[i],
            sym,
        ),
    decreases es.len(),
{
    if es.len() > 0 {
        let rest = es.drop_last();
        lemma_any_bad_use(rest, sym);
        let last = es.len() - 1;
        if any_bad_use(es, sym) {
            if any_bad_use(rest, sym) {
                let i = choose|i: int|
                    0 <= i < rest.len() && has_bad_use(#[trigger] rest[i], sym);
                assert(rest[i] == es[i]);
                assert(has_bad_use(es[i], sym));
            } else {
                assert(has_bad_use(es[last], sym));
            }
        }
        if exists|i: int| 0 <= i < es.len() && has_bad_use(#[trigger] es[i], sym) {
            let i = choose|i: int| 0 <= i < es.len() && has_bad_use(#[trigger] es[i], sym);
            if i < last {
                assert(rest[i] == es[i]);
                assert(has_bad_use(rest[i], sym));
            } else {
                assert(es.last() == es[i]);
            }
            assert(any_bad_use(es, sym));
        }
    }
}

pub proof fn lemma_all_member_props(es: Seq<ExprV>, sym: Seq<char>)
    ensures
        forall|p: Seq<char>|
            all_member_props(es, sym).contains(p) <==> exists|i: int|
                0 <= i < es.len() && member_props(#[trigger] es[i], sym).contains(p),
    decreases es.len(),
{
    if es.len() > 0 {
        let rest = es.drop_last();
        lemma_all_member_props(rest, sym);
        let last = es.len() - 1;
        assert forall|p: Seq<char>|
            all_member_props(es, sym).contains(p) <==> exists|i: int|
                0 <= i < es.len() && member_props(#[trigger] es[i], sym).contains(p) by {
            if all_member_props(es, sym).contains(p) {
                if all_member_props(rest, sym).contains(p) {
                    let i = choose|i: int|
                        0 <= i < rest.len() && member_props(#[trigger] rest[i], sym).contains(p);
                    assert(rest[i] == es[i]);
                    assert(member_props(es[i], sym).contains(p));
                } else {
                    assert(es.last() == es[last]);
                    assert(member_props(es[last], sym).contains(p));
                }
            }
            if exists|i: int| 0 <= i < es.len() && member_props(#[trigger] es[i], sym).contains(p) {
                let i = choose|i: int|
                    0 <= i < es.len() && member_props(#[trigger] es[i], sym).contains(p);
                if i < last {
                    assert(rest[i] == es[i]);
                    assert(member_props(rest[i], sym).contains(p));
                    assert(all_member_props(rest, sym).contains(p));
                } else {
                    assert(es.last() == es[i]);
                }
                assert(all_member_props(es, sym).contains(p));
            }
        }
    }
}

pub proof fn lemma_seq_contains_require(es: Seq<ExprV>)
    ensures
        seq_contains_require(es) <==> exists|i: int| 0 <= i < es.len() && contains_require(
            #[trigger] es[i],
        ),
    decreases es.len(),
{
    if es.len() > 0 {
        let rest = es.drop_last();
        lemma_seq_contains_require(rest);
        let last = es.len() - 1;
        if seq_contains_require(es) {
            if seq_contains_require(rest) {
                let i = choose|i: int| 0 <= i < rest.len() && contains_require(#[trigger] rest[i]);
                assert(rest[i] == es[i]);
                assert(contains_require(es[i]));
            } else {
                assert(contains_require(es[last]));
            }
        }
        if exists|i: int| 0 <= i < es.len() && contains_require(#[trigger] es[i]) {
            let i = choose|i: int| 0 <= i < es.len() && contains_require(#[trigger] es[i]);
            if i < last {
                assert(rest[i] == es[i]);
                assert(contains_require(rest[i]));
            } else {
                assert(es.last() == es[i]);
            }
            assert(seq_contains_require(es));
        }
    }
}

// ---------------------------------------------------------------------------
// Usage analysis (executable layer)
// ---------------------------------------------------------------------------

/// Membership of a symbol in a table of symbols.
pub fn contains_str(v: &Vec<String>, s: &String) -> (r: bool)
    ensures
        r == syms_of(v@).contains(s@),
{
    let mut i: usize = 0;
    let n = v.len();
    while i < n
        invariant
            i <= n,
            n == v@.len(),
            forall|j: int| 0 <= j < i ==> (#[trigger] v@[j])@ != s@,
        decreases n - i,
    {
        if string_eq(&v[i], s) {
            return true;
        }
        i = i + 1;
    }
    false
}

#[verifier::loop_isolation(false)]
fn bad_use_expr(e: &Expr, sym: &String) -> (r: bool)
    ensures
        r == has_bad_use(e@, sym@),
    decreases *e,
{
    match e {
        Expr::Ident(i) => {
            let r = string_eq(&i.sym, sym);
            proof {
                assert(e@ == ExprV::Ident(i@));
                assert(has_bad_use(e@, sym@) == (i@.sym == sym@));
            }
            r
        },
        Expr::Member { obj, prop } => {
            proof {
                lemma_expr_view_ident(**obj);
            }
            match &**obj {
                Expr::Ident(_) => false,
                _ => bad_use_expr(obj, sym),
            }
        },
        Expr::Index { obj, index } => {
            proof {
                lemma_expr_view_ident(**obj);
            }
            let o = match &**obj {
                Expr::Ident(i) => string_eq(&i.sym, sym),
                _ => bad_use_expr(obj, sym),
            };
            o || bad_use_expr(index, sym)
        },
        Expr::Call { callee, args } => {
            if bad_use_expr(callee, sym) {
                true
            } else {
                proof {
                    lemma_exprs_view(args@);
                }
                let mut k: usize = 0;
                let n = args.len();
                let mut found = false;
                while k < n
                    invariant
                        k <= n,
                        n == args@.len(),
                        found == any_bad_use(exprs_view(args@).take(k as int), sym@),
                        forall|j: int| 0 <= j < args@.len() ==> exprs_view(args@)[j]
                            == expr_view(args@[j]),
                        exprs_view(args@).len() == args@.len(),
                    decreases n - k,
                {
                    proof {
                        assert(decreases_to!(*e => *args));
                        assert(decreases_to!(*args => args@[k as int]));
                    }
                    let b = bad_use_expr(&args[k], sym);
                    proof {
                        let vs = exprs_view(args@);
                        assert(vs.take(k + 1).drop_last() =~= vs.take(k as int));
                        assert(vs.take(k + 1).last() == vs[k as int]);
                    }
                    found = found || b;
                    k = k + 1;
                }
                proof {
                    assert(exprs_view(args@).take(n as int) =~= exprs_view(args@));
                }
                found
            }
        },
        Expr::Assign { target, value } => string_eq(&target.sym, sym) || bad_use_expr(value, sym),
        Expr::MemberAssign { obj, prop, value } => string_eq(&obj.sym, sym) || bad_use_expr(
            value,
            sym,
        ),
        Expr::Arrow { body } => bad_use_expr(body, sym),
        Expr::Lit(_) => false,
        Expr::Num(_) => false,
    }
}

/// Phase-one usage scan of one expression for one candidate namespace:
/// appends each member name used with `sym` as a static base, once.
#[verifier::loop_isolation(false)]
fn collect_props(e: &Expr, sym: &String, acc: &mut Vec<String>)
    ensures
        syms_of(final(acc)@) == syms_of(old(acc)@).union(member_props(e@, sym@)),
        nodup_strs(old(acc)@) ==> nodup_strs(final(acc)@),
    decreases *e,
{
    match e {
        Expr::Ident(_) => {
            proof {
                assert(syms_of(acc@) =~= syms_of(acc@).union(member_props(e@, sym@)));
            }
        },
        Expr::Member { obj, prop } => match &**obj {
            Expr::Ident(i) => {
                proof {
                    lemma_expr_view_ident(**obj);
                }
                if string_eq(&i.sym, sym) {
                    if !contains_str(acc, prop) {
                        acc.push(prop.clone());
                        proof {
                            assert forall|s: Seq<char>|
                                syms_of(acc@).contains(s) <==> syms_of(old(acc)@).union(
                                    member_props(e@, sym@),
                                ).contains(s) by {
                                if syms_of(acc@).contains(s) {
                                    let j = choose|j: int|
                                        0 <= j < acc@.len() && (#[trigger] acc@[j])@ == s;
                                    if j < old(acc)@.len() {
                                        assert(old(acc)@[j]@ == s);
                                    }
                                }
                                if syms_of(old(acc)@).contains(s) {
                                    let j = choose|j: int|
                                        0 <= j < old(acc)@.len() && (#[trigger] old(acc)@[j])@
                                            == s;
                                    assert(acc@[j]@ == s);
                                }
                                if member_props(e@, sym@).contains(s) {
                                    assert(acc@[acc@.len() - 1]@ == s);
                                }
                            }
                            assert(syms_of(acc@) =~= syms_of(old(acc)@).union(
                                member_props(e@, sym@),
                            ));
                        }
                    } else {
                        proof {
                            assert(syms_of(acc@) =~= syms_of(acc@).union(
                                member_props(e@, sym@),
                            ));
                        }
                    }
                } else {
                    proof {
                        assert(syms_of(acc@) =~= syms_of(acc@).union(member_props(e@, sym@)));
                    }
                }
            },
            _ => {
                proof {
                    lemma_expr_view_ident(**obj);
                }
                collect_props(obj, sym, acc);
            },
        },
        Expr::Index { obj, index } => {
            proof {
                lemma_expr_view_ident(**obj);
            }
            match &**obj {
                Expr::Ident(_) => {},
                _ => {
                    collect_props(obj, sym, acc);
                },
            }
            collect_props(index, sym, acc);
            proof {
                assert(syms_of(acc@) =~= syms_of(old(acc)@).union(member_props(e@, sym@)));
            }
        },
        Expr::Call { callee, args } => {
            collect_props(callee, sym, acc);
            proof {
                lemma_exprs_view(args@);
            }
            let ghost after_callee = acc@;
            let mut k: usize = 0;
            let n = args.len();
            while k < n
                invariant
                    k <= n,
                    n == args@.len(),
                    syms_of(acc@) == syms_of(after_callee).union(
                        all_member_props(exprs_view(args@).take(k as int), sym@),
                    ),
                    nodup_strs(after_callee) ==> nodup_strs(acc@),
                    forall|j: int| 0 <= j < args@.len() ==> exprs_view(args@)[j] == expr_view(
                        args@[j],
                    ),
                    exprs_view(args@).len() == args@.len(),
                decreases n - k,
            {
                proof {
                    assert(decreases_to!(*e => *args));
                    assert(decreases_to!(*args => args@[k as int]));
                }
                collect_props(&args[k], sym, acc);
                proof {
                    let vs = exprs_view(args@);
                    assert(vs.take(k + 1).drop_last() =~= vs.take(k as int));
                    assert(vs.take(k + 1).last() == vs[k as int]);
                    assert(syms_of(acc@) =~= syms_of(after_callee).union(
                        all_member_props(vs.take(k + 1), sym@),
                    ));
                }
                k = k + 1;
            }
            proof {
                assert(exprs_view(args@).take(n as int) =~= exprs_view(args@));
                assert(syms_of(acc@) =~= syms_of(old(acc)@).union(member_props(e@, sym@)));
            }
        },
        Expr::Assign { target, value } => {
            collect_props(value, sym, acc);
        },
        Expr::MemberAssign { obj, prop, value } => {
            collect_props(value, sym, acc);
        },
        Expr::Arrow { body } => {
            collect_props(body, sym, acc);
        },
        Expr::Lit(_) => {
            proof {
                assert(syms_of(acc@) =~= syms_of(acc@).union(member_props(e@, sym@)));
            }
        },
        Expr::Num(_) => {
            proof {
                assert(syms_of(acc@) =~= syms_of(acc@).union(member_props(e@, sym@)));
            }
        },
    }
}

/// Recognizes `require("literal")`, handing back the literal.
fn require_src(e: &Expr) -> (r: Option<String>)
    ensures
        match r {
            Some(s) => require_call_src(e@) == Some(s@),
            None => require_call_src(e@) is None,
        },
{
    match e {
        Expr::Call { callee, args } => match &**callee {
            Expr::Ident(i) => {
                proof {
                    lemma_expr_view_ident(**callee);
                    lemma_exprs_view(args@);
                }
                if i.ctxt == 0 && str_eq(i.sym.as_str(), "require") && args.len() == 1 {
                    proof {
                        lemma_expr_view_ident(args@[0]);
                    }
                    match &args[0] {
                        Expr::Lit(s) => Some(s.value.clone()),
                        _ => None,
                    }
                } else {
                    None
                }
            },
            _ => {
                proof {
                    lemma_expr_view_ident(**callee);
                }
                None
            },
        },
        _ => None,
    }
}

/// Whether the expression holds any call of the unmarked `require`.
#[verifier::loop_isolation(false)]
fn contains_require_expr(e: &Expr) -> (r: bool)
    ensures
        r == contains_require(e@),
    decreases *e,
{
    match e {
        Expr::Ident(_) => false,
        Expr::Member { obj, prop } => contains_require_expr(obj),
        Expr::Index { obj, index } => contains_require_expr(obj) || contains_require_expr(index),
        Expr::Call { callee, args } => {
            let direct = match &**callee {
                Expr::Ident(i) => {
                    proof {
                        lemma_expr_view_ident(**callee);
                    }
                    i.ctxt == 0 && str_eq(i.sym.as_str(), "require")
                },
                _ => {
                    proof {
                        lemma_expr_view_ident(**callee);
                    }
                    false
                },
            };
            if direct {
                true
            } else if contains_require_expr(callee) {
                true
            } else {
                proof {
                    lemma_exprs_view(args@);
                }
                let mut k: usize = 0;
                let n = args.len();
                let mut found = false;
                while k < n
                    invariant
                        k <= n,
                        found == seq_contains_require(exprs_view(args@).take(k as int)),
                    decreases n - k,
                {
                    proof {
                        assert(decreases_to!(*e => *args));
                        assert(decreases_to!(*args => args@[k as int]));
                    }
                    let b = contains_require_expr(&args[k]);
                    proof {
                        let vs = exprs_view(args@);
                        assert(vs.take(k + 1).drop_last() =~= vs.take(k as int));
                        assert(vs.take(k + 1).last() == vs[k as int]);
                    }
                    found = found || b;
                    k = k + 1;
                }
                proof {
                    assert(exprs_view(args@).take(n as int) =~= exprs_view(args@));
                }
                found
            }
        },
        Expr::Assign { target, value } => contains_require_expr(value),
        Expr::MemberAssign { obj, prop, value } => contains_require_expr(value),
        Expr::Arrow { body } => contains_require_expr(body),
        Expr::Lit(_) => false,
        Expr::Num(_) => false,
    }
}

// ---------------------------------------------------------------------------
// Item- and module-level scans (executable layer)
// ---------------------------------------------------------------------------

fn item_bad_use_exec(it: &Item, sym: &String) -> (r: bool)
    ensures
        r == item_bad_use(it@, sym@),
{
    match it {
        Item::Import(_) => false,
        Item::ExportStar { src } => false,
        Item::Var { name, init, exported } => bad_use_expr(init, sym),
        Item::Func { name, body, exported } => {
            let mut k: usize = 0;
            let n = body.len();
            let mut found = false;
            let ghost bv = it@->Func_body;
            proof {
                assert(bv.len() == body@.len());
            }
            while k < n
                invariant
                    k <= n,
                    n == body@.len(),
                    bv == it@->Func_body,
                    bv.len() == body@.len(),
                    forall|j: int| 0 <= j < body@.len() ==> bv[j] == body@[j]@,
                    found == any_bad_use(bv.take(k as int), sym@),
                decreases n - k,
            {
                let b = bad_use_expr(&body[k], sym);
                proof {
                    assert(bv.take(k + 1).drop_last() =~= bv.take(k as int));
                    assert(bv.take(k + 1).last() == bv[k as int]);
                }
                found = found || b;
                k = k + 1;
            }
            proof {
                assert(bv.take(n as int) =~= bv);
            }
            found
        },
        Item::Stmt(e) => bad_use_expr(e, sym),
        Item::Link { local, target } => string_eq(&local.sym, sym) || string_eq(&target.sym, sym),
        Item::Namespace { name, fields } => string_eq(&name.sym, sym),
    }
}

fn module_bad_use_exec(module: &Module, sym: &String) -> (r: bool)
    ensures
        r == module_bad_use(module@, sym@),
{
    let mut k: usize = 0;
    let n = module.body.len();
    while k < n
        invariant
            k <= n,
            n == module.body@.len(),
            module@.body.len() == module.body@.len(),
            forall|j: int| 0 <= j < module.body@.len() ==> module@.body[j] == module.body@[j]@,
            forall|j: int| 0 <= j < k ==> !item_bad_use(#[trigger] module@.body[j], sym@),
        decreases n - k,
    {
        if item_bad_use_exec(&module.body[k], sym) {
            proof {
                assert(item_bad_use(module@.body[k as int], sym@));
            }
            return true;
        }
        k = k + 1;
    }
    false
}

fn item_collect_props(it: &Item, sym: &String, acc: &mut Vec<String>)
    ensures
        syms_of(final(acc)@) == syms_of(old(acc)@).union(item_member_props(it@, sym@)),
        nodup_strs(old(acc)@) ==> nodup_strs(final(acc)@),
{
    match it {
        Item::Var { name, init, exported } => {
            collect_props(init, sym, acc);
        },
        Item::Func { name, body, exported } => {
            let mut k: usize = 0;
            let n = body.len();
            let ghost bv = it@->Func_body;
            let ghost start = acc@;
            while k < n
                invariant
                    k <= n,
                    n == body@.len(),
                    bv == it@->Func_body,
                    bv.len() == body@.len(),
                    forall|j: int| 0 <= j < body@.len() ==> bv[j] == body@[j]@,
                    syms_of(acc@) == syms_of(start).union(all_member_props(bv.take(k as int), sym@)),
                    nodup_strs(start) ==> nodup_strs(acc@),
                decreases n - k,
            {
                collect_props(&body[k], sym, acc);
                proof {
                    assert(bv.take(k + 1).drop_last() =~= bv.take(k as int));
                    assert(bv.take(k + 1).last() == bv[k as int]);
                    assert(syms_of(acc@) =~= syms_of(start).union(
                        all_member_props(bv.take(k + 1), sym@),
                    ));
                }
                k = k + 1;
            }
            proof {
                assert(bv.take(n as int) =~= bv);
                assert(syms_of(acc@) =~= syms_of(old(acc)@).union(item_member_props(it@, sym@)));
            }
        },
        Item::Stmt(e) => {
            collect_props(e, sym, acc);
        },
        _ => {
            proof {
                assert(syms_of(acc@) =~= syms_of(acc@).union(item_member_props(it@, sym@)));
            }
        },
    }
}

fn module_collect_props(module: &Module, sym: &String) -> (r: Vec<String>)
    ensures
        forall|p: Seq<char>|
            syms_of(r@).contains(p) <==> module_member_props(module@, sym@).contains(p),
        nodup_strs(r@),
{
    let mut acc: Vec<String> = Vec::new();
    let mut k: usize = 0;
    let n = module.body.len();
    proof {
        assert(syms_of(acc@) =~= Set::<Seq<char>>::empty());
    }
    while k < n
        invariant
            k <= n,
            n == module.body@.len(),
            module@.body.len() == module.body@.len(),
            forall|j: int| 0 <= j < module.body@.len() ==> module@.body[j] == module.body@[j]@,
            nodup_strs(acc@),
            forall|p: Seq<char>|
                syms_of(acc@).contains(p) <==> exists|i: int|
                    0 <= i < k && item_member_props(#[trigger] module@.body[i], sym@).contains(p),
        decreases n - k,
    {
        let ghost before = acc@;
        item_collect_props(&module.body[k], sym, &mut acc);
        proof {
            assert forall|p: Seq<char>|
                syms_of(acc@).contains(p) <==> exists|i: int|
                    0 <= i < k + 1 && item_member_props(#[trigger] module@.body[i], sym@).contains(
                        p,
                    ) by {
                if syms_of(acc@).contains(p) {
                    if syms_of(before).contains(p) {
                        let i = choose|i: int|
                            0 <= i < k && item_member_props(#[trigger] module@.body[i], sym@)
                                .contains(p);
                        assert(item_member_props(module@.body[i], sym@).contains(p));
                    } else {
                        assert(item_member_props(module@.body[k as int], sym@).contains(p));
                    }
                }
                if exists|i: int|
                    0 <= i < k + 1 && item_member_props(#[trigger] module@.body[i], sym@).contains(
                        p,
                    ) {
                    let i = choose|i: int|
                        0 <= i < k + 1 && item_member_props(#[trigger] module@.body[i], sym@)
                            .contains(p);
                    if i < k {
                        assert(syms_of(before).contains(p));
                    }
                    assert(syms_of(acc@).contains(p));
                }
            }
        }
        k = k + 1;
    }
    acc
}
// ---------------------------------------------------------------------------
// Symbol tables and deglob records (executable layer)
// ---------------------------------------------------------------------------

/// Pushing a symbol extends the table's symbol set by exactly that symbol.
pub proof fn lemma_syms_push(v: Seq<String>, x: String)
    ensures
        forall|s: Seq<char>|
            syms_of(v.push(x)).contains(s) <==> (syms_of(v).contains(s) || x@ == s),
{
    assert forall|s: Seq<char>|
        syms_of(v.push(x)).contains(s) <==> (syms_of(v).contains(s) || x@ == s) by {
        if syms_of(v.push(x)).contains(s) {
            let j = choose|j: int| 0 <= j < v.push(x).len() && (#[trigger] v.push(x)[j])@ == s;
            if j < v.len() {
                assert(v[j]@ == s);
            }
        }
        if syms_of(v).contains(s) {
            let j = choose|j: int| 0 <= j < v.len() && (#[trigger] v[j])@ == s;
            assert(v.push(x)[j]@ == s);
        }
        if x@ == s {
            assert(v.push(x)[v.len() as int]@ == s);
        }
    }
}

/// Records one import binding in the tables: the local always joins the
/// module-level names; a namespace binding also joins the namespace table.
fn table_push_binding(bind: &ImportBinding, locals: &mut Vec<String>, ns: &mut Vec<String>)
    ensures
        forall|s: Seq<char>|
            syms_of(final(locals)@).contains(s) <==> (syms_of(old(locals)@).contains(s)
                || binding_local(bind@).sym == s),
        forall|s: Seq<char>|
            syms_of(final(ns)@).contains(s) <==> (syms_of(old(ns)@).contains(s) || (bind@
                matches ImportBindingV::Namespace { local } && local.sym == s)),
{
    match bind {
        ImportBinding::Default { local } => {
            proof {
                lemma_syms_push(locals@, local.sym);
            }
            locals.push(local.sym.clone());
        },
        ImportBinding::Named { imported, local } => {
            proof {
                lemma_syms_push(locals@, local.sym);
            }
            locals.push(local.sym.clone());
        },
        ImportBinding::Namespace { local } => {
            proof {
                lemma_syms_push(locals@, local.sym);
            }
            locals.push(local.sym.clone());
            proof {
                lemma_syms_push(ns@, local.sym);
            }
            ns.push(local.sym.clone());
        },
        ImportBinding::Require { local } => {
            proof {
                lemma_syms_push(locals@, local.sym);
            }
            locals.push(local.sym.clone());
        },
    }
}

/// Records one item's module-level names in the three tables.
fn table_push_item(
    it: &Item,
    supports_cjs: bool,
    exported: &mut Vec<String>,
    locals: &mut Vec<String>,
    ns: &mut Vec<String>,
)
    ensures
        forall|s: Seq<char>| #![trigger syms_of(final(exported)@).contains(s)]
            (syms_of(final(exported)@).contains(s) <==> (syms_of(old(exported)@).contains(s)
                || item_exports(it@, s))),
        forall|s: Seq<char>| #![trigger syms_of(final(locals)@).contains(s)]
            (syms_of(final(locals)@).contains(s) <==> (syms_of(old(locals)@).contains(s)
                || item_declares_local(it@, s, supports_cjs) || item_imports_local(
                it@,
                s,
                supports_cjs,
            ))),
        forall|s: Seq<char>| #![trigger syms_of(final(ns)@).contains(s)]
            (syms_of(final(ns)@).contains(s) <==> (syms_of(old(ns)@).contains(s) || item_namespace(
                it@,
                s,
            ))),
{
    match it {
        Item::Var { name, init, exported: is_exp } => {
            if *is_exp {
                proof {
                    lemma_syms_push(exported@, name.sym);
                }
                exported.push(name.sym.clone());
            } else {
                proof {
                    lemma_syms_push(locals@, name.sym);
                }
                locals.push(name.sym.clone());
            }
        },
        Item::Func { name, body, exported: is_exp } => {
            if *is_exp {
                proof {
                    lemma_syms_push(exported@, name.sym);
                }
                exported.push(name.sym.clone());
            } else {
                proof {
                    lemma_syms_push(locals@, name.sym);
                }
                locals.push(name.sym.clone());
            }
        },
        Item::Import(d) => {
            let ghost itv = it@;
            let ghost locals0 = locals@;
            let ghost ns0 = ns@;
            let mut b: usize = 0;
            let m = d.bindings.len();
            while b < m
                invariant
                    b <= m,
                    m == d.bindings@.len(),
                    itv == it@,
                    itv matches ItemV::Import(dv) && dv.bindings.len() == d.bindings@.len() && (
                    forall|j: int|
                        0 <= j < d.bindings@.len() ==> (#[trigger] dv.bindings[j])
                            == d.bindings@[j]@),
                    forall|s: Seq<char>| #![trigger syms_of(locals@).contains(s)]
                        (syms_of(locals@).contains(s) <==> (syms_of(locals0).contains(s) || exists|
                            j: int,
                        |
                            0 <= j < b && binding_local(#[trigger] itv->Import_0.bindings[j]).sym
                                == s)),
                    forall|s: Seq<char>| #![trigger syms_of(ns@).contains(s)]
                        (syms_of(ns@).contains(s) <==> (syms_of(ns0).contains(s) || exists|j: int|
                            0 <= j < b && ((#[trigger] itv->Import_0.bindings[j])
                                matches ImportBindingV::Namespace { local } && local.sym == s))),
                    exported@ == old(exported)@,
                decreases m - b,
            {
                let ghost locals1 = locals@;
                let ghost ns1 = ns@;
                proof {
                    assert(itv->Import_0.bindings[b as int] == d.bindings@[b as int]@);
                }
                table_push_binding(&d.bindings[b], locals, ns);
                proof {
                    assert forall|s: Seq<char>|
                        syms_of(locals@).contains(s) <==> (syms_of(locals0).contains(s) || exists|
                            j: int,
                        |
                            0 <= j < b + 1 && binding_local(#[trigger] itv->Import_0.bindings[j]).sym
                                == s) by {
                        if syms_of(locals@).contains(s) && !syms_of(locals1).contains(s) {
                            assert(binding_local(itv->Import_0.bindings[b as int]).sym == s);
                        }
                        if exists|j: int|
                            0 <= j < b + 1 && binding_local(#[trigger] itv->Import_0.bindings[j]).sym
                                == s {
                            let j = choose|j: int|
                                0 <= j < b + 1 && binding_local(
                                    #[trigger] itv->Import_0.bindings[j],
                                ).sym == s;
                            if j < b {
                                assert(syms_of(locals1).contains(s));
                            }
                            assert(syms_of(locals@).contains(s));
                        }
                    }
                    assert forall|s: Seq<char>|
                        syms_of(ns@).contains(s) <==> (syms_of(ns0).contains(s) || exists|j: int|
                            0 <= j < b + 1 && ((#[trigger] itv->Import_0.bindings[j])
                                matches ImportBindingV::Namespace { local } && local.sym == s)) by {
                        if syms_of(ns@).contains(s) && !syms_of(ns1).contains(s) {
                            assert(itv->Import_0.bindings[b as int]
                                matches ImportBindingV::Namespace { local } && local.sym == s);
                        }
                        if exists|j: int|
                            0 <= j < b + 1 && ((#[trigger] itv->Import_0.bindings[j])
                                matches ImportBindingV::Namespace { local } && local.sym == s) {
                            let j = choose|j: int|
                                0 <= j < b + 1 && ((#[trigger] itv->Import_0.bindings[j])
                                    matches ImportBindingV::Namespace { local } && local.sym == s);
                            if j < b {
                                assert(syms_of(ns1).contains(s));
                            }
                            assert(syms_of(ns@).contains(s));
                        }
                    }
                }
                b = b + 1;
            }
        },
        _ => {},
    }
}

/// Collects the three symbol tables of one module: exported declaration
/// names, module-level bound names (declarations and import locals), and
/// namespace-import locals.
fn collect_tables(module: &Module, supports_cjs: bool) -> (r: (Vec<String>, Vec<String>, Vec<String>))
    ensures
        forall|s: Seq<char>| syms_of(r.0@).contains(s) <==> exported_syms(module@).contains(s),
        forall|s: Seq<char>|
            syms_of(r.1@).contains(s) <==> local_syms(module@, supports_cjs).contains(s),
        forall|s: Seq<char>| syms_of(r.2@).contains(s) <==> namespace_syms(module@).contains(s),
{
    let mut exported: Vec<String> = Vec::new();
    let mut locals: Vec<String> = Vec::new();
    let mut ns: Vec<String> = Vec::new();
    let mut k: usize = 0;
    let n = module.body.len();
    while k < n
        invariant
            k <= n,
            n == module.body@.len(),
            module@.body.len() == module.body@.len(),
            forall|j: int| 0 <= j < module.body@.len() ==> module@.body[j] == module.body@[j]@,
            forall|s: Seq<char>| #![trigger syms_of(exported@).contains(s)]
                (syms_of(exported@).contains(s) <==> exists|i: int|
                    0 <= i < k && item_exports(#[trigger] module@.body[i], s)),
            forall|s: Seq<char>| #![trigger syms_of(locals@).contains(s)]
                (syms_of(locals@).contains(s) <==> exists|i: int|
                    0 <= i < k && (item_declares_local(#[trigger] module@.body[i], s, supports_cjs)
                        || item_imports_local(module@.body[i], s, supports_cjs))),
            forall|s: Seq<char>| #![trigger syms_of(ns@).contains(s)]
                (syms_of(ns@).contains(s) <==> exists|i: int|
                    0 <= i < k && item_namespace(#[trigger] module@.body[i], s)),
        decreases n - k,
    {
        let ghost exported0 = exported@;
        let ghost locals0 = locals@;
        let ghost ns0 = ns@;
        let ghost itv = module@.body[k as int];
        proof {
            assert(itv == module.body@[k as int]@);
        }
        table_push_item(&module.body[k], supports_cjs, &mut exported, &mut locals, &mut ns);
        proof {
            assert forall|s: Seq<char>|
                syms_of(exported@).contains(s) <==> exists|i: int|
                    0 <= i < k + 1 && item_exports(#[trigger] module@.body[i], s) by {
                if syms_of(exported@).contains(s) {
                    if syms_of(exported0).contains(s) {
                        let i = choose|i: int|
                            0 <= i < k && item_exports(#[trigger] module@.body[i], s);
                        assert(item_exports(module@.body[i], s));
                    } else {
                        assert(item_exports(module@.body[k as int], s));
                    }
                }
                if exists|i: int| 0 <= i < k + 1 && item_exports(#[trigger] module@.body[i], s) {
                    let i = choose|i: int|
                        0 <= i < k + 1 && item_exports(#[trigger] module@.body[i], s);
                    if i < k {
                        assert(syms_of(exported0).contains(s));
                    }
                    assert(syms_of(exported@).contains(s));
                }
            }
            assert forall|s: Seq<char>|
                syms_of(locals@).contains(s) <==> exists|i: int|
                    0 <= i < k + 1 && (item_declares_local(
                        #[trigger] module@.body[i],
                        s,
                        supports_cjs,
                    ) || item_imports_local(module@.body[i], s, supports_cjs)) by {
                if syms_of(locals@).contains(s) {
                    if syms_of(locals0).contains(s) {
                        let i = choose|i: int|
                            0 <= i < k && (item_declares_local(
                                #[trigger] module@.body[i],
                                s,
                                supports_cjs,
                            ) || item_imports_local(module@.body[i], s, supports_cjs));
                        assert(item_declares_local(module@.body[i], s, supports_cjs)
                            || item_imports_local(module@.body[i], s, supports_cjs));
                    } else {
                        assert(item_declares_local(module@.body[k as int], s, supports_cjs)
                            || item_imports_local(module@.body[k as int], s, supports_cjs));
                    }
                }
                if exists|i: int|
                    0 <= i < k + 1 && (item_declares_local(
                        #[trigger] module@.body[i],
                        s,
                        supports_cjs,
                    ) || item_imports_local(module@.body[i], s, supports_cjs)) {
                    let i = choose|i: int|
                        0 <= i < k + 1 && (item_declares_local(
                            #[trigger] module@.body[i],
                            s,
                            supports_cjs,
                        ) || item_imports_local(module@.body[i], s, supports_cjs));
                    if i < k {
                        assert(syms_of(locals0).contains(s));
                    }
                    assert(syms_of(locals@).contains(s));
                }
            }
            assert forall|s: Seq<char>|
                syms_of(ns@).contains(s) <==> exists|i: int|
                    0 <= i < k + 1 && item_namespace(#[trigger] module@.body[i], s) by {
                if syms_of(ns@).contains(s) {
                    if syms_of(ns0).contains(s) {
                        let i = choose|i: int|
                            0 <= i < k && item_namespace(#[trigger] module@.body[i], s);
                        assert(item_namespace(module@.body[i], s));
                    } else {
                        assert(item_namespace(module@.body[k as int], s));
                    }
                }
                if exists|i: int| 0 <= i < k + 1 && item_namespace(#[trigger] module@.body[i], s) {
                    let i = choose|i: int|
                        0 <= i < k + 1 && item_namespace(#[trigger] module@.body[i], s);
                    if i < k {
                        assert(syms_of(ns0).contains(s));
                    }
                    assert(syms_of(ns@).contains(s));
                }
            }
        }
        k = k + 1;
    }
    (exported, locals, ns)
}


/// Whether a deglob record for this namespace is already present.
fn deglob_recorded(out: &Vec<DeglobRecord>, sym: &String) -> (r: bool)
    ensures
        r == exists|k: int| 0 <= k < out@.len() && ((#[trigger] out@[k])@.ns == sym@),
{
    let mut i: usize = 0;
    let n = out.len();
    while i < n
        invariant
            i <= n,
            n == out@.len(),
            forall|k: int| 0 <= k < i ==> (#[trigger] out@[k])@.ns != sym@,
        decreases n - i,
    {
        if string_eq(&out[i].ns, sym) {
            proof {
                assert(out@[i as int]@.ns == sym@);
            }
            return true;
        }
        i = i + 1;
    }
    false
}

/// Decides eligibility for every namespace import and produces the deglob
/// records, one per eligible namespace.
fn compute_deglobs(module: &Module, ns_syms: &Vec<String>) -> (r: Vec<DeglobRecord>)
    requires
        forall|s: Seq<char>| syms_of(ns_syms@).contains(s) <==> namespace_syms(module@).contains(s),
    ensures
        forall|k: int| 0 <= k < r@.len() ==> deglob_record_ok(module@, (#[trigger] r@[k])@),
        forall|s: Seq<char>|
            eligible(module@, s) ==> exists|k: int| 0 <= k < r@.len() && ((#[trigger] r@[k])@.ns
                == s),
        forall|k1: int, k2: int| 0 <= k1 < k2 < r@.len() ==> r@[k1]@.ns != r@[k2]@.ns,
{
    let mut out: Vec<DeglobRecord> = Vec::new();
    let mut c: usize = 0;
    let n = ns_syms.len();
    while c < n
        invariant
            c <= n,
            n == ns_syms@.len(),
            forall|s: Seq<char>|
                syms_of(ns_syms@).contains(s) <==> namespace_syms(module@).contains(s),
            forall|k: int| 0 <= k < out@.len() ==> deglob_record_ok(module@, (#[trigger] out@[k])@),
            forall|j: int|
                0 <= j < c ==> (eligible(module@, (#[trigger] ns_syms@[j])@) ==> exists|k: int|
                    0 <= k < out@.len() && ((#[trigger] out@[k])@.ns == ns_syms@[j]@)),
            forall|k1: int, k2: int| 0 <= k1 < k2 < out@.len() ==> out@[k1]@.ns != out@[k2]@.ns,
        decreases n - c,
    {
        let sym = &ns_syms[c];
        let ghost out_before = out@;
        if !deglob_recorded(&out, sym) {
            if !module_bad_use_exec(module, sym) {
                proof {
                    assert(ns_syms@[c as int]@ == sym@);
                    assert(syms_of(ns_syms@).contains(sym@));
                }
                let members = module_collect_props(module, sym);
                let rec = DeglobRecord { ns: sym.clone(), members };
                proof {
                    assert forall|p: Seq<char>|
                        module_member_props(module@, sym@).contains(p) <==> rec@.members.contains(
                            p,
                        ) by {
                        if rec@.members.contains(p) {
                            let j = choose|j: int|
                                0 <= j < rec@.members.len() && rec@.members[j] == p;
                            assert(rec.members@[j]@ == p);
                            assert(syms_of(rec.members@).contains(p));
                        }
                        if module_member_props(module@, sym@).contains(p) {
                            assert(syms_of(rec.members@).contains(p));
                            let j = choose|j: int|
                                0 <= j < rec.members@.len() && (#[trigger] rec.members@[j])@ == p;
                            assert(rec@.members[j] == p);
                        }
                    }
                    assert(deglob_record_ok(module@, rec@));
                }
                out.push(rec);
                proof {
                    assert(forall|k: int| 0 <= k < out_before.len() ==> out@[k] == out_before[k]);
                    assert(out@[out_before.len() as int]@.ns == sym@);
                }
            }
        }
        c = c + 1;
    }
    out
}

// ---------------------------------------------------------------------------
// Rewrite (executable layer)
// ---------------------------------------------------------------------------

/// The rewrite context assembled from the collected tables.
pub open spec fn cx_of(
    lm: Mark,
    em: Mark,
    elig: Seq<String>,
    exp: Seq<String>,
    loc: Seq<String>,
) -> CtxV {
    CtxV {
        local_mark: lm,
        export_mark: em,
        eligible: syms_of(elig),
        exported: syms_of(exp),
        locals: syms_of(loc),
    }
}

pub open spec fn bindings_view(v: Seq<ImportBinding>) -> Seq<ImportBindingV> {
    Seq::new(v.len(), |i: int| v[i]@)
}

pub open spec fn degs_view(v: Seq<DeglobRecord>) -> Seq<DeglobRecordV> {
    Seq::new(v.len(), |i: int| v[i]@)
}

pub open spec fn specs_view(v: Seq<Specifier>) -> Seq<SpecifierV> {
    Seq::new(v.len(), |i: int| v[i]@)
}

fn color_ident_exec(
    i: &Ident,
    lm: Mark,
    em: Mark,
    exp: &Vec<String>,
    loc: &Vec<String>,
    Ghost(cx): Ghost<CtxV>,
) -> (r: Ident)
    requires
        cx.export_mark == em,
        cx.local_mark == lm,
        cx.exported == syms_of(exp@),
        cx.locals == syms_of(loc@),
    ensures
        r@ == color_ident(i@, cx),
{
    if i.ctxt != 0 {
        copy_ident(i)
    } else if contains_str(exp, &i.sym) {
        Ident { sym: i.sym.clone(), ctxt: em }
    } else if contains_str(loc, &i.sym) {
        Ident { sym: i.sym.clone(), ctxt: lm }
    } else {
        copy_ident(i)
    }
}

/// The spec search returns the record at the first matching index.
proof fn lemma_find_deglob_at(degs: Seq<DeglobRecordV>, ns: Seq<char>, i: int)
    requires
        0 <= i < degs.len(),
        degs[i].ns == ns,
        forall|j: int| 0 <= j < i ==> (#[trigger] degs[j]).ns != ns,
    ensures
        find_deglob(degs, ns) == Some(degs[i]),
    decreases i,
{
    if i == 0 {
    } else {
        let rest = degs.drop_first();
        assert(rest[i - 1] == degs[i]);
        assert forall|j: int| 0 <= j < i - 1 implies (#[trigger] rest[j]).ns != ns by {
            assert(rest[j] == degs[j + 1]);
        }
        lemma_find_deglob_at(rest, ns, i - 1);
    }
}

/// With no matching record, the spec search comes back empty.
proof fn lemma_find_deglob_none(degs: Seq<DeglobRecordV>, ns: Seq<char>)
    requires
        forall|j: int| 0 <= j < degs.len() ==> (#[trigger] degs[j]).ns != ns,
    ensures
        find_deglob(degs, ns) is None,
    decreases degs.len(),
{
    if degs.len() > 0 {
        let rest = degs.drop_first();
        assert forall|j: int| 0 <= j < rest.len() implies (#[trigger] rest[j]).ns != ns by {
            assert(rest[j] == degs[j + 1]);
        }
        lemma_find_deglob_none(rest, ns);
    }
}

fn find_deglob_exec(degs: &Vec<DeglobRecord>, ns: &String) -> (r: Option<usize>)
    ensures
        match r {
            Some(i) => i < degs@.len() && find_deglob(degs_view(degs@), ns@) == Some(degs@[i as int]@),
            None => find_deglob(degs_view(degs@), ns@) is None,
        },
{
    let mut i: usize = 0;
    let n = degs.len();
    while i < n
        invariant
            i <= n,
            n == degs@.len(),
            forall|j: int| 0 <= j < i ==> (#[trigger] degs@[j])@.ns != ns@,
        decreases n - i,
    {
        if string_eq(&degs[i].ns, ns) {
            proof {
                let dv = degs_view(degs@);
                assert(forall|j: int| 0 <= j < i ==> (#[trigger] dv[j]).ns != ns@);
                lemma_find_deglob_at(dv, ns@, i as int);
            }
            return Some(i);
        }
        i = i + 1;
    }
    proof {
        let dv = degs_view(degs@);
        assert(forall|j: int| 0 <= j < dv.len() ==> (#[trigger] dv[j]).ns != ns@);
        lemma_find_deglob_none(dv, ns@);
    }
    None
}

fn copy_str_lit(s: &Str) -> (r: Str)
    ensures
        r@ == s@,
{
    Str { value: s.value.clone(), has_escape: s.has_escape, kind: s.kind }
}

/// Phase-two rewrite of one expression.
#[verifier::loop_isolation(false)]
fn rewrite_expr(
    e: &Expr,
    lm: Mark,
    em: Mark,
    elig: &Vec<String>,
    exp: &Vec<String>,
    loc: &Vec<String>,
) -> (r: Expr)
    ensures
        r@ == rewrite_expr_v(e@, cx_of(lm, em, elig@, exp@, loc@)),
    decreases *e,
{
    let ghost cx = cx_of(lm, em, elig@, exp@, loc@);
    match e {
        Expr::Ident(i) => Expr::Ident(color_ident_exec(i, lm, em, exp, loc, Ghost(cx))),
        Expr::Member { obj, prop } => {
            proof {
                lemma_expr_view_ident(**obj);
            }
            match &**obj {
                Expr::Ident(i) => {
                    if i.ctxt == 0 && contains_str(elig, &i.sym) {
                        Expr::Ident(Ident { sym: deglob_ident(&i.sym, prop), ctxt: lm })
                    } else {
                        let inner = Expr::Ident(color_ident_exec(i, lm, em, exp, loc, Ghost(cx)));
                        proof {
                            lemma_expr_view_ident(inner);
                        }
                        Expr::Member { obj: Box::new(inner), prop: prop.clone() }
                    }
                },
                _ => Expr::Member {
                    obj: Box::new(rewrite_expr(obj, lm, em, elig, exp, loc)),
                    prop: prop.clone(),
                },
            }
        },
        Expr::Index { obj, index } => Expr::Index {
            obj: Box::new(rewrite_expr(obj, lm, em, elig, exp, loc)),
            index: Box::new(rewrite_expr(index, lm, em, elig, exp, loc)),
        },
        Expr::Call { callee, args } => {
            let c = rewrite_expr(callee, lm, em, elig, exp, loc);
            proof {
                lemma_exprs_view(args@);
                lemma_rewrite_exprs_v(exprs_view(args@), cx);
            }
            let mut out: Vec<Expr> = Vec::new();
            let mut k: usize = 0;
            let n = args.len();
            while k < n
                invariant
                    k <= n,
                    out@.len() == k,
                    forall|j: int|
                        0 <= j < k ==> expr_view(#[trigger] out@[j]) == rewrite_expr_v(
                            expr_view(args@[j]),
                            cx,
                        ),
                decreases n - k,
            {
                proof {
                    assert(decreases_to!(*e => *args));
                    assert(decreases_to!(*args => args@[k as int]));
                }
                let x = rewrite_expr(&args[k], lm, em, elig, exp, loc);
                out.push(x);
                k = k + 1;
            }
            let res = Expr::Call { callee: Box::new(c), args: out };
            proof {
                lemma_exprs_view(res->Call_args@);
                assert(exprs_view(res->Call_args@) =~= rewrite_exprs_v(exprs_view(args@), cx));
            }
            res
        },
        Expr::Assign { target, value } => Expr::Assign {
            target: color_ident_exec(target, lm, em, exp, loc, Ghost(cx)),
            value: Box::new(rewrite_expr(value, lm, em, elig, exp, loc)),
        },
        Expr::MemberAssign { obj, prop, value } => Expr::MemberAssign {
            obj: color_ident_exec(obj, lm, em, exp, loc, Ghost(cx)),
            prop: prop.clone(),
            value: Box::new(rewrite_expr(value, lm, em, elig, exp, loc)),
        },
        Expr::Arrow { body } => Expr::Arrow {
            body: Box::new(rewrite_expr(body, lm, em, elig, exp, loc)),
        },
        Expr::Lit(s) => Expr::Lit(copy_str_lit(s)),
        Expr::Num(n) => Expr::Num(*n),
    }
}

fn copy_binding(b: &ImportBinding) -> (r: ImportBinding)
    ensures
        r@ == b@,
{
    match b {
        ImportBinding::Default { local } => ImportBinding::Default { local: copy_ident(local) },
        ImportBinding::Named { imported, local } => ImportBinding::Named {
            imported: imported.clone(),
            local: copy_ident(local),
        },
        ImportBinding::Namespace { local } => ImportBinding::Namespace { local: copy_ident(local) },
        ImportBinding::Require { local } => ImportBinding::Require { local: copy_ident(local) },
    }
}

fn copy_bindings(bs: &Vec<ImportBinding>) -> (r: Vec<ImportBinding>)
    ensures
        bindings_view(r@) == bindings_view(bs@),
{
    let mut out: Vec<ImportBinding> = Vec::new();
    let mut k: usize = 0;
    let n = bs.len();
    while k < n
        invariant
            k <= n,
            n == bs@.len(),
            out@.len() == k,
            forall|j: int| 0 <= j < k ==> (#[trigger] out@[j])@ == bs@[j]@,
        decreases n - k,
    {
        out.push(copy_binding(&bs[k]));
        k = k + 1;
    }
    proof {
        assert(bindings_view(out@) =~= bindings_view(bs@));
    }
    out
}

fn rewrite_plain_binding_exec(b: &ImportBinding, lm: Mark, Ghost(cx): Ghost<CtxV>) -> (r:
    ImportBinding)
    requires
        cx.local_mark == lm,
    ensures
        r@ == rewrite_plain_binding(b@, cx),
{
    match b {
        ImportBinding::Default { local } => ImportBinding::Default {
            local: Ident { sym: local.sym.clone(), ctxt: lm },
        },
        ImportBinding::Named { imported, local } => ImportBinding::Named {
            imported: imported.clone(),
            local: Ident { sym: local.sym.clone(), ctxt: lm },
        },
        ImportBinding::Namespace { local } => ImportBinding::Namespace {
            local: Ident { sym: local.sym.clone(), ctxt: lm },
        },
        ImportBinding::Require { local } => ImportBinding::Require {
            local: Ident { sym: local.sym.clone(), ctxt: lm },
        },
    }
}

/// Rewrites one import declaration's binding list: eligible namespace
/// bindings expand into the named imports of their recorded members; the
/// rest get the local mark.
#[verifier::loop_isolation(false)]
fn rewrite_import_bindings(
    bs: &Vec<ImportBinding>,
    lm: Mark,
    elig: &Vec<String>,
    degs: &Vec<DeglobRecord>,
    Ghost(cx): Ghost<CtxV>,
) -> (r: Vec<ImportBinding>)
    requires
        cx.local_mark == lm,
        cx.eligible == syms_of(elig@),
    ensures
        bindings_view(r@) == rewrite_bindings(bindings_view(bs@), cx, degs_view(degs@)),
{
    let ghost bv = bindings_view(bs@);
    let ghost dv = degs_view(degs@);
    let mut out: Vec<ImportBinding> = Vec::new();
    let mut k: usize = 0;
    let n = bs.len();
    proof {
        assert(bindings_view(out@) =~= rewrite_bindings(bv.take(0), cx, dv));
    }
    while k < n
        invariant
            k <= n,
            n == bs@.len(),
            bv == bindings_view(bs@),
            dv == degs_view(degs@),
            cx.local_mark == lm,
            cx.eligible == syms_of(elig@),
            bindings_view(out@) == rewrite_bindings(bv.take(k as int), cx, dv),
        decreases n - k,
    {
        let ghost out0 = out@;
        match &bs[k] {
            ImportBinding::Namespace { local } => {
                if contains_str(elig, &local.sym) {
                    match find_deglob_exec(degs, &local.sym) {
                        Some(di) => {
                            let ghost rec = dv[di as int];
                            let members = &degs[di].members;
                            let mut t: usize = 0;
                            let m = members.len();
                            proof {
                                assert(rec.members.len() == members@.len());
                                assert(forall|j: int|
                                    0 <= j < members@.len() ==> rec.members[j] == (
                                    #[trigger] members@[j])@);
                            }
                            while t < m
                                invariant
                                    t <= m,
                                    m == members@.len(),
                                    rec == dv[di as int],
                                    di < degs@.len(),
                                    rec.members.len() == members@.len(),
                                    forall|j: int|
                                        0 <= j < members@.len() ==> rec.members[j] == (
                                        #[trigger] members@[j])@,
                                    cx.local_mark == lm,
                                    out@.len() == out0.len() + t,
                                    forall|j: int|
                                        0 <= j < out0.len() ==> (#[trigger] out@[j]) == out0[j],
                                    forall|j: int|
                                        0 <= j < t ==> (#[trigger] out@[out0.len() + j])@
                                            == named_binding(
                                            bs@[k as int]@->Namespace_local.sym,
                                            rec.members[j],
                                            lm,
                                        ),
                                decreases m - t,
                            {
                                let nm = ImportBinding::Named {
                                    imported: members[t].clone(),
                                    local: Ident {
                                        sym: deglob_ident(&local.sym, &members[t]),
                                        ctxt: lm,
                                    },
                                };
                                out.push(nm);
                                t = t + 1;
                            }
                            proof {
                                let ns_sym = bs@[k as int]@->Namespace_local.sym;
                                let suffix = deglob_bindings(ns_sym, rec.members, lm);
                                assert forall|idx: int|
                                    0 <= idx < out@.len() implies bindings_view(out@)[idx] == (
                                bindings_view(out0) + suffix)[idx] by {
                                    if idx >= out0.len() {
                                        let j = idx - out0.len();
                                        assert(out@[out0.len() + j]@ == named_binding(
                                            ns_sym,
                                            rec.members[j],
                                            lm,
                                        ));
                                    }
                                }
                                assert(bindings_view(out@) =~= bindings_view(out0) + suffix);
                            }
                        },
                        None => {
                            out.push(rewrite_plain_binding_exec(&bs[k], lm, Ghost(cx)));
                        },
                    }
                } else {
                    out.push(rewrite_plain_binding_exec(&bs[k], lm, Ghost(cx)));
                }
            },
            _ => {
                out.push(rewrite_plain_binding_exec(&bs[k], lm, Ghost(cx)));
            },
        }
        proof {
            assert(bv.take(k + 1).drop_last() =~= bv.take(k as int));
            assert(bv.take(k + 1).last() == bv[k as int]);
            assert(bv[k as int] == bs@[k as int]@);
            assert(bindings_view(out@) =~= rewrite_bindings(bv.take(k + 1), cx, dv));
        }
        k = k + 1;
    }
    proof {
        assert(bv.take(n as int) =~= bv);
    }
    out
}

fn decl_ident_exec(name: &Ident, exported: bool, lm: Mark, em: Mark, Ghost(cx): Ghost<CtxV>) -> (r:
    Ident)
    requires
        cx.local_mark == lm,
        cx.export_mark == em,
    ensures
        r@ == decl_ident(name@, exported, cx),
{
    if name.ctxt != 0 {
        copy_ident(name)
    } else if exported {
        Ident { sym: name.sym.clone(), ctxt: em }
    } else {
        Ident { sym: name.sym.clone(), ctxt: lm }
    }
}

fn copy_ns_fields(fields: &Vec<NsField>) -> (r: Vec<NsField>)
    ensures
        r@.len() == fields@.len(),
        forall|j: int| 0 <= j < fields@.len() ==> (#[trigger] r@[j])@ == fields@[j]@,
{
    let mut out: Vec<NsField> = Vec::new();
    let mut k: usize = 0;
    let n = fields.len();
    while k < n
        invariant
            k <= n,
            n == fields@.len(),
            out@.len() == k,
            forall|j: int| 0 <= j < k ==> (#[trigger] out@[j])@ == fields@[j]@,
        decreases n - k,
    {
        let f = &fields[k];
        out.push(NsField { export: f.export.clone(), target: copy_ident(&f.target) });
        k = k + 1;
    }
    out
}

/// Phase-two rewrite of one top-level item, together with the specifier
/// record it contributes to `RawImports`.
#[verifier::loop_isolation(false)]
fn rewrite_item_exec(
    it: &Item,
    supports_cjs: bool,
    lm: Mark,
    em: Mark,
    elig: &Vec<String>,
    exp: &Vec<String>,
    loc: &Vec<String>,
    degs: &Vec<DeglobRecord>,
) -> (r: (Item, Option<Specifier>))
    ensures
        r.0@ == rewrite_item(it@, cx_of(lm, em, elig@, exp@, loc@), degs_view(degs@), supports_cjs),
        match r.1 {
            Some(sp) => item_specifier(r.0@) == Some(sp@),
            None => item_specifier(r.0@) is None,
        },
{
    let ghost cx = cx_of(lm, em, elig@, exp@, loc@);
    let ghost dv = degs_view(degs@);
    match it {
        Item::Import(d) => {
            let newb = rewrite_import_bindings(&d.bindings, lm, elig, degs, Ghost(cx));
            let spec_b = copy_bindings(&newb);
            proof {
                assert(it@->Import_0.bindings =~= bindings_view(d.bindings@));
            }
            let item = Item::Import(ImportDecl { src: d.src.clone(), bindings: newb });
            let sp = Specifier { src: d.src.clone(), target: Target::Unresolved, bindings: spec_b };
            proof {
                assert(item@->Import_0.bindings =~= rewrite_bindings(
                    it@->Import_0.bindings,
                    cx,
                    dv,
                ));
                assert(item@ == rewrite_item(it@, cx, dv, supports_cjs));
                assert(sp@.bindings =~= item@->Import_0.bindings);
                assert(item_specifier(item@) == Some(sp@));
            }
            (item, Some(sp))
        },
        Item::ExportStar { src } => {
            let item = Item::ExportStar { src: src.clone() };
            let sp = Specifier {
                src: src.clone(),
                target: Target::Unresolved,
                bindings: Vec::new(),
            };
            proof {
                assert(sp@.bindings =~= Seq::<ImportBindingV>::empty());
                assert(item_specifier(item@) == Some(sp@));
            }
            (item, Some(sp))
        },
        Item::Var { name, init, exported } => {
            if supports_cjs && !*exported {
                match require_src(init) {
                    Some(srcstr) => {
                        let mut bvec: Vec<ImportBinding> = Vec::new();
                        bvec.push(
                            ImportBinding::Require {
                                local: Ident { sym: name.sym.clone(), ctxt: lm },
                            },
                        );
                        let spec_b = copy_bindings(&bvec);
                        let item = Item::Import(
                            ImportDecl { src: srcstr.clone(), bindings: bvec },
                        );
                        let sp = Specifier {
                            src: srcstr,
                            target: Target::Unresolved,
                            bindings: spec_b,
                        };
                        proof {
                            assert(top_require_var(it@) == Some((sp@.src, name@)));
                            assert(item@->Import_0.bindings =~= seq![
                                ImportBindingV::Require { local: with_mark(name@, cx.local_mark) },
                            ]);
                            assert(item@ == rewrite_item(it@, cx, dv, supports_cjs));
                            assert(sp@.bindings =~= item@->Import_0.bindings);
                            assert(item_specifier(item@) == Some(sp@));
                        }
                        (item, Some(sp))
                    },
                    None => {
                        let item = Item::Var {
                            name: decl_ident_exec(name, *exported, lm, em, Ghost(cx)),
                            init: rewrite_expr(init, lm, em, elig, exp, loc),
                            exported: *exported,
                        };
                        (item, None)
                    },
                }
            } else {
                let item = Item::Var {
                    name: decl_ident_exec(name, *exported, lm, em, Ghost(cx)),
                    init: rewrite_expr(init, lm, em, elig, exp, loc),
                    exported: *exported,
                };
                (item, None)
            }
        },
        Item::Func { name, body, exported } => {
            let name2 = decl_ident_exec(name, *exported, lm, em, Ghost(cx));
            let ghost bvv = it@->Func_body;
            proof {
                lemma_rewrite_exprs_v(bvv, cx);
            }
            let mut out: Vec<Expr> = Vec::new();
            let mut k: usize = 0;
            let n = body.len();
            while k < n
                invariant
                    k <= n,
                    out@.len() == k,
                    forall|j: int|
                        0 <= j < k ==> (#[trigger] out@[j])@ == rewrite_expr_v(body@[j]@, cx),
                decreases n - k,
            {
                let x = rewrite_expr(&body[k], lm, em, elig, exp, loc);
                out.push(x);
                k = k + 1;
            }
            let item = Item::Func { name: name2, body: out, exported: *exported };
            proof {
                assert(forall|j: int| 0 <= j < body@.len() ==> bvv[j] == body@[j]@);
                assert(item@->Func_body =~= rewrite_exprs_v(bvv, cx));
                assert(item@ == rewrite_item(it@, cx, dv, supports_cjs));
            }
            (item, None)
        },
        Item::Stmt(e) => {
            if supports_cjs {
                match require_src(e) {
                    Some(srcstr) => {
                        let spec_b: Vec<ImportBinding> = Vec::new();
                        let item = Item::Import(
                            ImportDecl { src: srcstr.clone(), bindings: Vec::new() },
                        );
                        let sp = Specifier {
                            src: srcstr,
                            target: Target::Unresolved,
                            bindings: spec_b,
                        };
                        proof {
                            assert(item@->Import_0.bindings =~= Seq::<ImportBindingV>::empty());
                            assert(item@ == rewrite_item(it@, cx, dv, supports_cjs));
                            assert(sp@.bindings =~= item@->Import_0.bindings);
                            assert(item_specifier(item@) == Some(sp@));
                        }
                        (item, Some(sp))
                    },
                    None => {
                        let item = Item::Stmt(rewrite_expr(e, lm, em, elig, exp, loc));
                        (item, None)
                    },
                }
            } else {
                let item = Item::Stmt(rewrite_expr(e, lm, em, elig, exp, loc));
                (item, None)
            }
        },
        Item::Link { local, target } => {
            let item = Item::Link { local: copy_ident(local), target: copy_ident(target) };
            (item, None)
        },
        Item::Namespace { name, fields } => {
            let item = Item::Namespace { name: copy_ident(name), fields: copy_ns_fields(fields) };
            proof {
                assert(item@->Namespace_fields =~= it@->Namespace_fields);
                assert(item@ == rewrite_item(it@, cx, dv, supports_cjs));
            }
            (item, None)
        },
    }
}

fn item_nontop_require_exec(it: &Item) -> (r: bool)
    ensures
        r == item_nontop_require(it@),
{
    match it {
        Item::Var { name, init, exported } => {
            let top = !*exported && require_src(init).is_some();
            if top {
                false
            } else {
                contains_require_expr(init)
            }
        },
        Item::Stmt(e) => {
            if require_src(e).is_some() {
                false
            } else {
                contains_require_expr(e)
            }
        },
        Item::Func { name, body, exported } => {
            let ghost bv = it@->Func_body;
            let mut k: usize = 0;
            let n = body.len();
            let mut found = false;
            proof {
                assert(bv.len() == body@.len());
            }
            while k < n
                invariant
                    k <= n,
                    n == body@.len(),
                    bv == it@->Func_body,
                    bv.len() == body@.len(),
                    forall|j: int| 0 <= j < body@.len() ==> bv[j] == body@[j]@,
                    found == seq_contains_require(bv.take(k as int)),
                decreases n - k,
            {
                let b = contains_require_expr(&body[k]);
                proof {
                    assert(bv.take(k + 1).drop_last() =~= bv.take(k as int));
                    assert(bv.take(k + 1).last() == bv[k as int]);
                }
                found = found || b;
                k = k + 1;
            }
            proof {
                assert(bv.take(n as int) =~= bv);
            }
            found
        },
        _ => false,
    }
}

/// Whether analyzing the module must mark it as requiring wrapping.
fn module_wrapping_exec(module: &Module, supports_cjs: bool) -> (r: bool)
    ensures
        r == module_wrapping(module@, supports_cjs),
{
    if !supports_cjs {
        return false;
    }
    let mut k: usize = 0;
    let n = module.body.len();
    while k < n
        invariant
            supports_cjs,
            k <= n,
            n == module.body@.len(),
            module@.body.len() == module.body@.len(),
            forall|j: int| 0 <= j < module.body@.len() ==> module@.body[j] == module.body@[j]@,
            forall|j: int| 0 <= j < k ==> !item_nontop_require(#[trigger] module@.body[j]),
        decreases n - k,
    {
        if item_nontop_require_exec(&module.body[k]) {
            proof {
                assert(item_nontop_require(module@.body[k as int]));
            }
            return true;
        }
        k = k + 1;
    }
    false
}

// ---------------------------------------------------------------------------
// The analyzer
// ---------------------------------------------------------------------------

pub open spec fn items_view(v: Seq<Item>) -> Seq<ItemV> {
    Seq::new(v.len(), |i: int| v[i]@)
}

/// Analyzes one parsed module: decides deglob eligibility, rewrites the body
/// (deglobbing, `require` recognition, colorization), and produces the
/// module's `RawImports` together with the wrapping flag.
///
/// The returned body has exactly one item per input item, in source order:
/// side-effecting statements keep their relative positions.  Every deglob
/// record is sound (the namespace is only ever used as a static member base,
/// and the recorded members are exactly the accessed names) and complete
/// (every eligible namespace imports is deglobbed).
pub fn analyze(module: &Module, local_mark: Mark, export_mark: Mark, supports_cjs: bool) -> (r: (
    Module,
    RawImports,
    bool,
))
    ensures
        ({
            let m = module@;
            let cx = spec_ctx(m, local_mark, export_mark, supports_cjs);
            let degs = r.1@.idents_to_deglob;
            &&& r.0@.body.len() == m.body.len()
            &&& (forall|i: int|
                0 <= i < m.body.len() ==> r.0@.body[i] == rewrite_item(
                    #[trigger] m.body[i],
                    cx,
                    degs,
                    supports_cjs,
                ))
            &&& r.1@.specifiers == specs_of(r.0@.body)
            &&& (forall|k: int|
                0 <= k < degs.len() ==> deglob_record_ok(m, #[trigger] degs[k]))
            &&& (forall|s: Seq<char>|
                eligible(m, s) ==> exists|k: int| 0 <= k < degs.len() && (#[trigger] degs[k]).ns
                    == s)
            &&& (forall|k1: int, k2: int|
                0 <= k1 < k2 < degs.len() ==> degs[k1].ns != degs[k2].ns)
            &&& r.2 == module_wrapping(m, supports_cjs)
        }),
{
    let ghost m = module@;
    let (exported, locals, ns_syms) = collect_tables(module, supports_cjs);
    let degs = compute_deglobs(module, &ns_syms);

    // The eligible namespaces are exactly the recorded ones.
    let mut elig: Vec<String> = Vec::new();
    let mut k: usize = 0;
    let n = degs.len();
    while k < n
        invariant
            k <= n,
            n == degs@.len(),
            elig@.len() == k,
            forall|j: int| 0 <= j < k ==> (#[trigger] elig@[j])@ == degs@[j]@.ns,
        decreases n - k,
    {
        elig.push(degs[k].ns.clone());
        k = k + 1;
    }
    proof {
        assert forall|s: Seq<char>| syms_of(elig@).contains(s) <==> eligible_set(m).contains(
            s,
        ) by {
            if syms_of(elig@).contains(s) {
                let j = choose|j: int| 0 <= j < elig@.len() && (#[trigger] elig@[j])@ == s;
                assert(degs@[j]@.ns == s);
                assert(deglob_record_ok(m, degs@[j]@));
            }
            if eligible_set(m).contains(s) {
                let j = choose|j: int| 0 <= j < degs@.len() && ((#[trigger] degs@[j])@.ns == s);
                assert(elig@[j]@ == s);
            }
        }
        assert(syms_of(elig@) =~= eligible_set(m));
        assert(syms_of(exported@) =~= exported_syms(m));
        assert(syms_of(locals@) =~= local_syms(m, supports_cjs));
        assert(cx_of(local_mark, export_mark, elig@, exported@, locals@) == spec_ctx(
            m,
            local_mark,
            export_mark,
            supports_cjs,
        ));
    }
    let ghost cx = spec_ctx(m, local_mark, export_mark, supports_cjs);
    let ghost dv = degs_view(degs@);

    let mut body2: Vec<Item> = Vec::new();
    let mut specs: Vec<Specifier> = Vec::new();
    let mut i: usize = 0;
    let nn = module.body.len();
    proof {
        assert(specs_view(specs@) =~= specs_of(items_view(body2@)));
    }
    while i < nn
        invariant
            i <= nn,
            nn == module.body@.len(),
            m == module@,
            m.body.len() == module.body@.len(),
            forall|j: int| 0 <= j < module.body@.len() ==> m.body[j] == module.body@[j]@,
            cx == spec_ctx(m, local_mark, export_mark, supports_cjs),
            cx == cx_of(local_mark, export_mark, elig@, exported@, locals@),
            dv == degs_view(degs@),
            body2@.len() == i,
            forall|j: int|
                0 <= j < i ==> (#[trigger] body2@[j])@ == rewrite_item(
                    m.body[j],
                    cx,
                    dv,
                    supports_cjs,
                ),
            specs_view(specs@) == specs_of(items_view(body2@)),
        decreases nn - i,
    {
        let ghost body2_0 = body2@;
        let ghost specs_0 = specs@;
        let (it2, sp) = rewrite_item_exec(
            &module.body[i],
            supports_cjs,
            local_mark,
            export_mark,
            &elig,
            &exported,
            &locals,
            &degs,
        );
        proof {
            assert(module.body@[i as int]@ == m.body[i as int]);
        }
        body2.push(it2);
        proof {
            let nb = items_view(body2@);
            assert(nb.drop_last() =~= items_view(body2_0));
            assert(nb.last() == it2@);
        }
        match sp {
            Some(spc) => {
                specs.push(spc);
                proof {
                    assert(specs_view(specs@) =~= specs_of(items_view(body2@)));
                }
            },
            None => {
                proof {
                    assert(specs_view(specs@) =~= specs_of(items_view(body2@)));
                }
            },
        }
        i = i + 1;
    }
    let wrap = module_wrapping_exec(module, supports_cjs);
    let out_module = Module { body: body2 };
    let raw = RawImports { specifiers: specs, idents_to_deglob: degs };
    proof {
        assert(out_module@.body =~= items_view(out_module.body@));
        assert(raw@.specifiers =~= specs_view(raw.specifiers@));
        assert(raw@.idents_to_deglob =~= degs_view(raw.idents_to_deglob@));
        assert(raw@.specifiers =~= specs_of(out_module@.body));
        assert forall|s: Seq<char>| eligible(m, s) implies exists|k: int|
            0 <= k < raw@.idents_to_deglob.len() && (#[trigger] raw@.idents_to_deglob[k]).ns
                == s by {
            let k = choose|k: int|
                0 <= k < raw.idents_to_deglob@.len() && ((#[trigger] raw.idents_to_deglob@[k])@.ns
                    == s);
            assert(raw@.idents_to_deglob[k].ns == s);
        }
    }
    (out_module, raw, wrap)
}

// ---------------------------------------------------------------------------
// Import edges of a module, before analysis
// ---------------------------------------------------------------------------

/// The specifier source an item contributes, read off the un-analyzed item:
/// import declarations and re-exports carry theirs, and with CommonJS
/// support the recognized top-level `require` forms contribute theirs.
pub open spec fn item_edge(it: ItemV, supports_cjs: bool) -> Option<Seq<char>> {
    match it {
        ItemV::Import(d) => Some(d.src),
        ItemV::ExportStar { src } => Some(src),
        ItemV::Var { name, init, exported } => if supports_cjs && top_require_var(it) is Some {
            Some(top_require_var(it).unwrap().0)
        } else {
            None
        },
        ItemV::Stmt(e) => if supports_cjs && require_call_src(e) is Some {
            Some(require_call_src(e).unwrap())
        } else {
            None
        },
        _ => None,
    }
}

/// The specifier sources of a body, in source order.
pub open spec fn edges_of(body: Seq<ItemV>, supports_cjs: bool) -> Seq<Seq<char>>
    decreases body.len(),
{
    if body.len() == 0 {
        Seq::empty()
    } else {
        edges_of(body.drop_last(), supports_cjs) + (match item_edge(body.last(), supports_cjs) {
            Some(src) => seq![src],
            None => Seq::empty(),
        })
    }
}

pub open spec fn srcs_of(sp: Seq<SpecifierV>) -> Seq<Seq<char>> {
    Seq::new(sp.len(), |i: int| sp[i].src)
}

/// The analyzer's specifier sources are exactly the body's edges: the
/// rewrite turns an item into an import exactly when the item carries an
/// edge, with the same source.
pub proof fn lemma_rewrite_edges(
    body: Seq<ItemV>,
    body2: Seq<ItemV>,
    cx: CtxV,
    degs: Seq<DeglobRecordV>,
    supports_cjs: bool,
)
    requires
        body2.len() == body.len(),
        forall|i: int|
            0 <= i < body.len() ==> body2[i] == rewrite_item(#[trigger] body[i], cx, degs, supports_cjs),
    ensures
        srcs_of(specs_of(body2)) == edges_of(body, supports_cjs),
    decreases body.len(),
{
    if body.len() == 0 {
        assert(srcs_of(specs_of(body2)) =~= edges_of(body, supports_cjs));
    } else {
        let rest = body.drop_last();
        let rest2 = body2.drop_last();
        assert(forall|i: int| 0 <= i < rest.len() ==> rest2[i] == rewrite_item(
            #[trigger] rest[i],
            cx,
            degs,
            supports_cjs,
        )) by {
            assert(forall|i: int|
                0 <= i < rest.len() ==> #[trigger] rest[i] == body[i] && rest2[i] == body2[i]);
        }
        lemma_rewrite_edges(rest, rest2, cx, degs, supports_cjs);
        assert(body2.last() == rewrite_item(body.last(), cx, degs, supports_cjs));
        let contribution = (match item_specifier(body2.last()) {
            Some(s) => seq![s],
            None => Seq::<SpecifierV>::empty(),
        });
        assert(specs_of(body2) == specs_of(rest2) + contribution);
        assert(srcs_of(specs_of(body2)) =~= edges_of(body, supports_cjs)) by {
            match item_edge(body.last(), supports_cjs) {
                Some(src) => {
                    assert(item_specifier(body2.last()) matches Some(s) && s.src == src);
                },
                None => {
                    assert(item_specifier(body2.last()) is None);
                },
            }
        }
    }
}

} // verus!
