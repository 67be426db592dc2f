//! The finalizer: turns each merged bundle body into emittable form.
//!
//! Unless the configuration disables the inliner, the synthesized linking
//! declarations are inlined: every read of a link's local becomes a read of
//! its (already resolved) target, and the link declarations disappear.
//! Declarations whose name is never read and never exported are dropped.
//! A hygiene pass then rewrites every identifier carrying a mark into a
//! globally unique spelling built from the name and the mark, leaving
//! unmarked (global) identifiers alone.  Under IIFE framing the surviving
//! imports are hoisted to the front of the body, where the external printer
//! threads them into the wrapper's parameter list.

use vstd::prelude::*;
use crate::ast::{
    Expr, ExprV, Ident, IdentV, ImportBinding, ImportBindingV, ImportDecl, ImportDeclV, Item,
    ItemV, Mark, Module, NsField, NsFieldV, Str,
};
use crate::strutil::{copy_ident, mangle, mangled, string_eq};
use crate::ast::{expr_view, exprs_view, lemma_expr_view_ident, lemma_exprs_view};
use crate::analyze::items_view;

verus! {

// ---------------------------------------------------------------------------
// Link inlining (specification layer)
// ---------------------------------------------------------------------------

/// One composed substitution: reads of `from` become reads of `to`.
pub struct SubstV {
    pub from: IdentV,
    pub to: IdentV,
}

/// The first substitution for an identifier, if any; identity otherwise.
pub open spec fn subst_lookup(m: Seq<SubstV>, i: IdentV) -> IdentV
    decreases m.len(),
{
    if m.len() == 0 {
        i
    } else if m[0].from == i {
        m[0].to
    } else {
        subst_lookup(m.drop_first(), i)
    }
}

/// The substitution map of a body: one entry per link declaration, in
/// order, each target resolved through the links before it, so that chains
/// of links collapse in one application.
pub open spec fn build_subst(body: Seq<ItemV>) -> Seq<SubstV>
    decreases body.len(),
{
    if body.len() == 0 {
        Seq::empty()
    } else {
        let m = build_subst(body.drop_last());
        match body.last() {
            ItemV::Link { local, target } => m.push(
                SubstV { from: local, to: subst_lookup(m, target) },
            ),
            _ => m,
        }
    }
}

pub open spec fn subst_expr(e: ExprV, m: Seq<SubstV>) -> ExprV
    decreases e,
{
    match e {
        ExprV::Ident(i) => ExprV::Ident(subst_lookup(m, i)),
        ExprV::Member { obj, prop } => ExprV::Member {
            obj: Box::new(subst_expr(*obj, m)),
            prop,
        },
        ExprV::Index { obj, index } => ExprV::Index {
            obj: Box::new(subst_expr(*obj, m)),
            index: Box::new(subst_expr(*index, m)),
        },
        ExprV::Call { callee, args } => ExprV::Call {
            callee: Box::new(subst_expr(*callee, m)),
            args: subst_exprs(args, m),
        },
        ExprV::Assign { target, value } => ExprV::Assign {
            target: subst_lookup(m, target),
            value: Box::new(subst_expr(*value, m)),
        },
        ExprV::MemberAssign { obj, prop, value } => ExprV::MemberAssign {
            obj: subst_lookup(m, obj),
            prop,
            value: Box::new(subst_expr(*value, m)),
        },
        ExprV::Arrow { body } => ExprV::Arrow { body: Box::new(subst_expr(*body, m)) },
        ExprV::Lit(s) => ExprV::Lit(s),
        ExprV::Num(n) => ExprV::Num(n),
    }
}

pub open spec fn subst_exprs(es: Seq<ExprV>, m: Seq<SubstV>) -> Seq<ExprV>
    decreases es,
{
    if es.len() == 0 {
        Seq::empty()
    } else {
        subst_exprs(es.drop_last(), m).push(subst_expr(es.last(), m))
    }
}

pub proof fn lemma_subst_exprs(es: Seq<ExprV>, m: Seq<SubstV>)
    ensures
        subst_exprs(es, m).len() == es.len(),
        forall|i: int| 0 <= i < es.len() ==> subst_exprs(es, m)[i] == subst_expr(es[i], m),
    decreases es.len(),
{
    if es.len() > 0 {
        lemma_subst_exprs(es.drop_last(), m);
    }
}

/// The inlined form of one item; a link declaration itself disappears.
pub open spec fn subst_item(it: ItemV, m: Seq<SubstV>) -> Seq<ItemV> {
    match it {
        ItemV::Import(d) => seq![it],
        ItemV::ExportStar { src } => seq![it],
        ItemV::Var { name, init, exported } => seq![
            ItemV::Var { name, init: subst_expr(init, m), exported },
        ],
        ItemV::Func { name, body, exported } => seq![
            ItemV::Func { name, body: subst_exprs(body, m), exported },
        ],
        ItemV::Stmt(e) => seq![ItemV::Stmt(subst_expr(e, m))],
        ItemV::Link { local, target } => Seq::empty(),
        ItemV::Namespace { name, fields } => seq![
            ItemV::Namespace {
                name,
                fields: Seq::new(
                    fields.len(),
                    |i: int|
                        NsFieldV {
                            export: fields[i].export,
                            target: subst_lookup(m, fields[i].target),
                        },
                ),
            },
        ],
    }
}

/// The inlined body: every item substituted through the map, links removed,
/// order kept.
pub open spec fn inline_with(body: Seq<ItemV>, m: Seq<SubstV>) -> Seq<ItemV>
    decreases body.len(),
{
    if body.len() == 0 {
        Seq::empty()
    } else {
        inline_with(body.drop_last(), m) + subst_item(body.last(), m)
    }
}

// ---------------------------------------------------------------------------
// Tree shaking (specification layer)
// ---------------------------------------------------------------------------

/// The identifiers an expression reads.
pub open spec fn reads_expr(e: ExprV) -> Set<IdentV>
    decreases e,
{
    match e {
        ExprV::Ident(i) => Set::empty().insert(i),
        ExprV::Member { obj, prop } => reads_expr(*obj),
        ExprV::Index { obj, index } => reads_expr(*obj).union(reads_expr(*index)),
        ExprV::Call { callee, args } => reads_expr(*callee).union(reads_exprs(args)),
        ExprV::Assign { target, value } => reads_expr(*value),
        ExprV::MemberAssign { obj, prop, value } => Set::empty().insert(obj).union(
            reads_expr(*value),
        ),
        ExprV::Arrow { body } => reads_expr(*body),
        ExprV::Lit(s) => Set::empty(),
        ExprV::Num(n) => Set::empty(),
    }
}

pub open spec fn reads_exprs(es: Seq<ExprV>) -> Set<IdentV>
    decreases es,
{
    if es.len() == 0 {
        Set::empty()
    } else {
        reads_exprs(es.drop_last()).union(reads_expr(es.last()))
    }
}

/// The identifiers a namespace object's fields resolve to.
pub open spec fn fields_targets(fields: Seq<NsFieldV>) -> Set<IdentV>
    decreases fields.len(),
{
    if fields.len() == 0 {
        Set::empty()
    } else {
        fields_targets(fields.drop_last()).insert(fields.last().target)
    }
}

pub open spec fn item_reads(it: ItemV) -> Set<IdentV> {
    match it {
        ItemV::Import(d) => Set::empty(),
        ItemV::ExportStar { src } => Set::empty(),
        ItemV::Var { name, init, exported } => reads_expr(init),
        ItemV::Func { name, body, exported } => reads_exprs(body),
        ItemV::Stmt(e) => reads_expr(e),
        ItemV::Link { local, target } => Set::empty().insert(target),
        ItemV::Namespace { name, fields } => fields_targets(fields),
    }
}

/// Everything the whole body reads.
pub open spec fn body_reads(body: Seq<ItemV>) -> Set<IdentV> {
    Set::new(
        |i: IdentV| exists|k: int| 0 <= k < body.len() && item_reads(#[trigger] body[k]).contains(i),
    )
}

/// Whether a declaration survives shaking: it is read somewhere, or it is
/// exported.  Non-declarations always survive.
pub open spec fn item_kept(it: ItemV, reads: Set<IdentV>) -> bool {
    match it {
        ItemV::Var { name, init, exported } => exported || reads.contains(name),
        ItemV::Func { name, body, exported } => exported || reads.contains(name),
        ItemV::Namespace { name, fields } => reads.contains(name),
        ItemV::Link { local, target } => reads.contains(local),
        _ => true,
    }
}

pub open spec fn shake_with(body: Seq<ItemV>, reads: Set<IdentV>) -> Seq<ItemV>
    decreases body.len(),
{
    if body.len() == 0 {
        Seq::empty()
    } else {
        shake_with(body.drop_last(), reads) + (if item_kept(body.last(), reads) {
            seq![body.last()]
        } else {
            Seq::empty()
        })
    }
}

pub open spec fn shake_body(body: Seq<ItemV>) -> Seq<ItemV> {
    shake_with(body, body_reads(body))
}

// ---------------------------------------------------------------------------
// Hygiene renaming (specification layer)
// ---------------------------------------------------------------------------

/// The hygiene rename: a marked identifier gets the globally unique
/// spelling built from its name and mark, and leaves the root context; an
/// unmarked identifier is untouched.
pub open spec fn rename_ident(i: IdentV) -> IdentV {
    if i.ctxt != 0 {
        IdentV { sym: mangled(i.sym, i.ctxt), ctxt: 0 }
    } else {
        i
    }
}

pub open spec fn rename_expr(e: ExprV) -> ExprV
    decreases e,
{
    match e {
        ExprV::Ident(i) => ExprV::Ident(rename_ident(i)),
        ExprV::Member { obj, prop } => ExprV::Member { obj: Box::new(rename_expr(*obj)), prop },
        ExprV::Index { obj, index } => ExprV::Index {
            obj: Box::new(rename_expr(*obj)),
            index: Box::new(rename_expr(*index)),
        },
        ExprV::Call { callee, args } => ExprV::Call {
            callee: Box::new(rename_expr(*callee)),
            args: rename_exprs(args),
        },
        ExprV::Assign { target, value } => ExprV::Assign {
            target: rename_ident(target),
            value: Box::new(rename_expr(*value)),
        },
        ExprV::MemberAssign { obj, prop, value } => ExprV::MemberAssign {
            obj: rename_ident(obj),
            prop,
            value: Box::new(rename_expr(*value)),
        },
        ExprV::Arrow { body } => ExprV::Arrow { body: Box::new(rename_expr(*body)) },
        ExprV::Lit(s) => ExprV::Lit(s),
        ExprV::Num(n) => ExprV::Num(n),
    }
}

pub open spec fn rename_exprs(es: Seq<ExprV>) -> Seq<ExprV>
    decreases es,
{
    if es.len() == 0 {
        Seq::empty()
    } else {
        rename_exprs(es.drop_last()).push(rename_expr(es.last()))
    }
}

pub proof fn lemma_rename_exprs(es: Seq<ExprV>)
    ensures
        rename_exprs(es).len() == es.len(),
        forall|i: int| 0 <= i < es.len() ==> rename_exprs(es)[i] == rename_expr(es[i]),
    decreases es.len(),
{
    if es.len() > 0 {
        lemma_rename_exprs(es.drop_last());
    }
}

pub open spec fn rename_binding(b: ImportBindingV) -> ImportBindingV {
    match b {
        ImportBindingV::Default { local } => ImportBindingV::Default {
            local: rename_ident(local),
        },
        ImportBindingV::Named { imported, local } => ImportBindingV::Named {
            imported,
            local: rename_ident(local),
        },
        ImportBindingV::Namespace { local } => ImportBindingV::Namespace {
            local: rename_ident(local),
        },
        ImportBindingV::Require { local } => ImportBindingV::Require {
            local: rename_ident(local),
        },
    }
}

pub open spec fn rename_item(it: ItemV) -> ItemV {
    match it {
        ItemV::Import(d) => ItemV::Import(
            ImportDeclV {
                src: d.src,
                bindings: Seq::new(d.bindings.len(), |i: int| rename_binding(d.bindings[i])),
            },
        ),
        ItemV::ExportStar { src } => ItemV::ExportStar { src },
        ItemV::Var { name, init, exported } => ItemV::Var {
            name: rename_ident(name),
            init: rename_expr(init),
            exported,
        },
        ItemV::Func { name, body, exported } => ItemV::Func {
            name: rename_ident(name),
            body: rename_exprs(body),
            exported,
        },
        ItemV::Stmt(e) => ItemV::Stmt(rename_expr(e)),
        ItemV::Link { local, target } => ItemV::Link {
            local: rename_ident(local),
            target: rename_ident(target),
        },
        ItemV::Namespace { name, fields } => ItemV::Namespace {
            name: rename_ident(name),
            fields: Seq::new(
                fields.len(),
                |i: int|
                    NsFieldV {
                        export: fields[i].export,
                        target: rename_ident(fields[i].target),
                    },
            ),
        },
    }
}

pub open spec fn rename_body(body: Seq<ItemV>) -> Seq<ItemV> {
    Seq::new(body.len(), |i: int| rename_item(body[i]))
}

// ---------------------------------------------------------------------------
// Output framing (specification layer)
// ---------------------------------------------------------------------------

pub open spec fn is_import_item(it: ItemV) -> bool {
    it is Import
}

pub open spec fn imports_of(body: Seq<ItemV>) -> Seq<ItemV>
    decreases body.len(),
{
    if body.len() == 0 {
        Seq::empty()
    } else {
        imports_of(body.drop_last()) + (if is_import_item(body.last()) {
            seq![body.last()]
        } else {
            Seq::empty()
        })
    }
}

pub open spec fn non_imports_of(body: Seq<ItemV>) -> Seq<ItemV>
    decreases body.len(),
{
    if body.len() == 0 {
        Seq::empty()
    } else {
        non_imports_of(body.drop_last()) + (if !is_import_item(body.last()) {
            seq![body.last()]
        } else {
            Seq::empty()
        })
    }
}

/// IIFE framing hoists the surviving imports to the front, in order; the
/// printer threads them into the wrapper's parameter list.
pub open spec fn hoist_imports(body: Seq<ItemV>) -> Seq<ItemV> {
    imports_of(body) + non_imports_of(body)
}

/// The whole finalize pipeline on one bundle body.
pub open spec fn finalize_body(body: Seq<ItemV>, disable_inliner: bool, iife: bool) -> Seq<ItemV> {
    let b1 = if disable_inliner {
        body
    } else {
        inline_with(body, build_subst(body))
    };
    let b2 = shake_with(b1, body_reads(b1));
    let b3 = rename_body(b2);
    if iife {
        hoist_imports(b3)
    } else {
        b3
    }
}

// ---------------------------------------------------------------------------
// Link inlining (executable layer)
// ---------------------------------------------------------------------------

fn ident_eq(a: &Ident, b: &Ident) -> (r: bool)
    ensures
        r == (a@ == b@),
{
    a.ctxt == b.ctxt && string_eq(&a.sym, &b.sym)
}

/// One composed substitution.
pub struct Subst {
    pub from: Ident,
    pub to: Ident,
}

impl View for Subst {
    type V = SubstV;

    open spec fn view(&self) -> SubstV {
        SubstV { from: self.from@, to: self.to@ }
    }
}

pub open spec fn subst_view(v: Seq<Subst>) -> Seq<SubstV> {
    Seq::new(v.len(), |i: int| v[i]@)
}

proof fn lemma_subst_lookup_at(m: Seq<SubstV>, i: IdentV, k: int)
    requires
        0 <= k < m.len(),
        m[k].from == i,
        forall|j: int| 0 <= j < k ==> (#[trigger] m[j]).from != i,
    ensures
        subst_lookup(m, i) == m[k].to,
    decreases k,
{
    if k == 0 {
    } else {
        let rest = m.drop_first();
        assert(rest[k - 1] == m[k]);
        assert forall|j: int| 0 <= j < k - 1 implies (#[trigger] rest[j]).from != i by {
            assert(rest[j] == m[j + 1]);
        }
        lemma_subst_lookup_at(rest, i, k - 1);
    }
}

proof fn lemma_subst_lookup_none(m: Seq<SubstV>, i: IdentV)
    requires
        forall|j: int| 0 <= j < m.len() ==> (#[trigger] m[j]).from != i,
    ensures
        subst_lookup(m, i) == i,
    decreases m.len(),
{
    if m.len() > 0 {
        let rest = m.drop_first();
        assert forall|j: int| 0 <= j < rest.len() implies (#[trigger] rest[j]).from != i by {
            assert(rest[j] == m[j + 1]);
        }
        lemma_subst_lookup_none(rest, i);
    }
}

fn subst_lookup_exec(m: &Vec<Subst>, i: &Ident) -> (r: Ident)
    ensures
        r@ == subst_lookup(subst_view(m@), i@),
{
    let mut k: usize = 0;
    let n = m.len();
    while k < n
        invariant
            k <= n,
            n == m@.len(),
            forall|j: int| 0 <= j < k ==> (#[trigger] m@[j])@.from != i@,
        decreases n - k,
    {
        if ident_eq(&m[k].from, i) {
            proof {
                let mv = subst_view(m@);
                assert(forall|j: int| 0 <= j < k ==> (#[trigger] mv[j]).from != i@);
                lemma_subst_lookup_at(mv, i@, k as int);
            }
            return copy_ident(&m[k].to);
        }
        k = k + 1;
    }
    proof {
        let mv = subst_view(m@);
        assert(forall|j: int| 0 <= j < mv.len() ==> (#[trigger] mv[j]).from != i@);
        lemma_subst_lookup_none(mv, i@);
    }
    copy_ident(i)
}

/// Builds the composed substitution map from the body's link declarations.
#[verifier::loop_isolation(false)]
fn build_subst_exec(body: &Vec<Item>) -> (m: Vec<Subst>)
    ensures
        subst_view(m@) == build_subst(items_view(body@)),
{
    let ghost bv = items_view(body@);
    let mut m: Vec<Subst> = Vec::new();
    let mut k: usize = 0;
    let n = body.len();
    proof {
        assert(bv.take(0) =~= Seq::<ItemV>::empty());
        assert(subst_view(m@) =~= build_subst(bv.take(0)));
    }
    while k < n
        invariant
            k <= n,
            subst_view(m@) == build_subst(bv.take(k as int)),
        decreases n - k,
    {
        proof {
            assert(bv.take(k + 1).drop_last() =~= bv.take(k as int));
            assert(bv.take(k + 1).last() == bv[k as int]);
            assert(bv[k as int] == body@[k as int]@);
        }
        match &body[k] {
            Item::Link { local, target } => {
                let resolved = subst_lookup_exec(&m, target);
                let entry = Subst { from: copy_ident(local), to: resolved };
                m.push(entry);
                proof {
                    assert(subst_view(m@) =~= build_subst(bv.take(k + 1)));
                }
            },
            _ => {
                proof {
                    assert(subst_view(m@) =~= build_subst(bv.take(k + 1)));
                }
            },
        }
        k = k + 1;
    }
    proof {
        assert(bv.take(n as int) =~= bv);
    }
    m
}

/// Applies the substitution to every read in an expression.
#[verifier::loop_isolation(false)]
fn subst_expr_exec(e: &Expr, m: &Vec<Subst>) -> (r: Expr)
    ensures
        r@ == subst_expr(e@, subst_view(m@)),
    decreases *e,
{
    let ghost mv = subst_view(m@);
    match e {
        Expr::Ident(i) => Expr::Ident(subst_lookup_exec(m, i)),
        Expr::Member { obj, prop } => {
            let inner = subst_expr_exec(obj, m);
            proof {
                lemma_expr_view_ident(**obj);
            }
            Expr::Member { obj: Box::new(inner), prop: prop.clone() }
        },
        Expr::Index { obj, index } => Expr::Index {
            obj: Box::new(subst_expr_exec(obj, m)),
            index: Box::new(subst_expr_exec(index, m)),
        },
        Expr::Call { callee, args } => {
            let c = subst_expr_exec(callee, m);
            proof {
                lemma_exprs_view(args@);
                lemma_subst_exprs(exprs_view(args@), mv);
            }
            let mut out: Vec<Expr> = Vec::new();
            let mut k: usize = 0;
            let n = args.len();
            while k < n
                invariant
                    k <= n,
                    out@.len() == k,
                    forall|j: int|
                        0 <= j < k ==> expr_view(#[trigger] out@[j]) == subst_expr(
                            expr_view(args@[j]),
                            mv,
                        ),
                decreases n - k,
            {
                proof {
                    assert(decreases_to!(*e => *args));
                    assert(decreases_to!(*args => args@[k as int]));
                }
                let x = subst_expr_exec(&args[k], m);
                out.push(x);
                k = k + 1;
            }
            let res = Expr::Call { callee: Box::new(c), args: out };
            proof {
                lemma_exprs_view(res->Call_args@);
                assert(exprs_view(res->Call_args@) =~= subst_exprs(exprs_view(args@), mv));
            }
            res
        },
        Expr::Assign { target, value } => Expr::Assign {
            target: subst_lookup_exec(m, target),
            value: Box::new(subst_expr_exec(value, m)),
        },
        Expr::MemberAssign { obj, prop, value } => Expr::MemberAssign {
            obj: subst_lookup_exec(m, obj),
            prop: prop.clone(),
            value: Box::new(subst_expr_exec(value, m)),
        },
        Expr::Arrow { body } => Expr::Arrow { body: Box::new(subst_expr_exec(body, m)) },
        Expr::Lit(s) => Expr::Lit(Str { value: s.value.clone(), has_escape: s.has_escape, kind: s.kind }),
        Expr::Num(n) => Expr::Num(*n),
    }
}

/// The inlining pass: substitutes every item and drops the links.
#[verifier::loop_isolation(false)]
fn inline_exec(body: Vec<Item>, m: &Vec<Subst>) -> (r: Vec<Item>)
    ensures
        items_view(r@) == inline_with(items_view(body@), subst_view(m@)),
{
    let ghost bv = items_view(body@);
    let ghost mv = subst_view(m@);
    let mut items = body;
    let ghost total = bv.len();
    let mut out: Vec<Item> = Vec::new();
    proof {
        assert(bv.take(0) =~= Seq::<ItemV>::empty());
        assert(items_view(out@) =~= inline_with(bv.take(0), mv));
    }
    while items.len() > 0
        invariant
            items@.len() <= total,
            total == bv.len(),
            forall|j: int|
                0 <= j < items@.len() ==> bv[total - items@.len() + j] == (#[trigger] items@[j])@,
            items_view(out@) == inline_with(bv.take(total - items@.len()), mv),
        decreases items@.len(),
    {
        let ghost p = total - items@.len();
        let ghost pre = out@;
        let it = items.remove(0);
        proof {
            assert(it@ == bv[p]);
            assert(forall|j: int|
                0 <= j < items@.len() ==> bv[total - items@.len() + j] == (#[trigger] items@[j])@);
            assert(bv.take(p + 1).drop_last() =~= bv.take(p));
            assert(bv.take(p + 1).last() == bv[p]);
        }
        match it {
            Item::Link { local, target } => {
                proof {
                    assert(items_view(out@) =~= inline_with(bv.take(p + 1), mv));
                }
            },
            Item::Import(d) => {
                out.push(Item::Import(d));
                proof {
                    lemma_items_push_view(pre, out@, inline_with(bv.take(p), mv), subst_item(bv[p], mv));
                    assert(items_view(out@) =~= inline_with(bv.take(p + 1), mv));
                }
            },
            Item::ExportStar { src } => {
                out.push(Item::ExportStar { src });
                proof {
                    lemma_items_push_view(pre, out@, inline_with(bv.take(p), mv), subst_item(bv[p], mv));
                    assert(items_view(out@) =~= inline_with(bv.take(p + 1), mv));
                }
            },
            Item::Var { name, init, exported } => {
                let init2 = subst_expr_exec(&init, m);
                out.push(Item::Var { name, init: init2, exported });
                proof {
                    lemma_items_push_view(pre, out@, inline_with(bv.take(p), mv), subst_item(bv[p], mv));
                    assert(items_view(out@) =~= inline_with(bv.take(p + 1), mv));
                }
            },
            Item::Func { name, body: fb, exported } => {
                let ghost fbv = bv[p]->Func_body;
                proof {
                    lemma_subst_exprs(fbv, mv);
                    assert(fbv.len() == fb@.len());
                    assert(forall|j: int| 0 <= j < fb@.len() ==> fbv[j] == (#[trigger] fb@[j])@);
                }
                let mut out2: Vec<Expr> = Vec::new();
                let mut t: usize = 0;
                let tn = fb.len();
                while t < tn
                    invariant
                        t <= tn,
                        tn == fb@.len(),
                        out2@.len() == t,
                        forall|j: int|
                            0 <= j < t ==> (#[trigger] out2@[j])@ == subst_expr(fb@[j]@, mv),
                    decreases tn - t,
                {
                    let x = subst_expr_exec(&fb[t], m);
                    out2.push(x);
                    t = t + 1;
                }
                let newit = Item::Func { name, body: out2, exported };
                proof {
                    assert(newit@->Func_body =~= subst_exprs(fbv, mv));
                    assert(newit@ == subst_item(bv[p], mv)[0]);
                }
                out.push(newit);
                proof {
                    lemma_items_push_view(pre, out@, inline_with(bv.take(p), mv), subst_item(bv[p], mv));
                    assert(items_view(out@) =~= inline_with(bv.take(p + 1), mv));
                }
            },
            Item::Stmt(e) => {
                let e2 = subst_expr_exec(&e, m);
                out.push(Item::Stmt(e2));
                proof {
                    lemma_items_push_view(pre, out@, inline_with(bv.take(p), mv), subst_item(bv[p], mv));
                    assert(items_view(out@) =~= inline_with(bv.take(p + 1), mv));
                }
            },
            Item::Namespace { name, fields } => {
                let ghost fsv = bv[p]->Namespace_fields;
                proof {
                    assert(fsv.len() == fields@.len());
                    assert(forall|j: int|
                        0 <= j < fields@.len() ==> fsv[j] == (#[trigger] fields@[j])@);
                }
                let mut fs2: Vec<NsField> = Vec::new();
                let mut t: usize = 0;
                let tn = fields.len();
                while t < tn
                    invariant
                        t <= tn,
                        tn == fields@.len(),
                        fs2@.len() == t,
                        forall|j: int|
                            0 <= j < t ==> (#[trigger] fs2@[j])@ == (NsFieldV {
                                export: fields@[j]@.export,
                                target: subst_lookup(mv, fields@[j]@.target),
                            }),
                    decreases tn - t,
                {
                    let f = &fields[t];
                    fs2.push(
                        NsField {
                            export: f.export.clone(),
                            target: subst_lookup_exec(m, &f.target),
                        },
                    );
                    t = t + 1;
                }
                let newit = Item::Namespace { name, fields: fs2 };
                proof {
                    assert(newit@->Namespace_fields =~= subst_item(bv[p], mv)[0]->Namespace_fields);
                    assert(newit@ == subst_item(bv[p], mv)[0]);
                }
                out.push(newit);
                proof {
                    lemma_items_push_view(pre, out@, inline_with(bv.take(p), mv), subst_item(bv[p], mv));
                    assert(items_view(out@) =~= inline_with(bv.take(p + 1), mv));
                }
            },
        }
    }
    proof {
        assert(bv.take(total as int) =~= bv);
    }
    out
}

/// Appending one item whose view is the single element of `single`.
proof fn lemma_items_push_view(pre: Seq<Item>, cur: Seq<Item>, prefix: Seq<ItemV>, single: Seq<ItemV>)
    requires
        items_view(pre) == prefix,
        single.len() == 1,
        cur.len() == pre.len() + 1,
        forall|i: int| 0 <= i < pre.len() ==> cur[i] == pre[i],
        cur.last()@ == single[0],
    ensures
        items_view(cur) =~= prefix + single,
{
    assert(items_view(pre).len() == pre.len());
    assert(items_view(cur).len() == cur.len());
    assert forall|i: int| 0 <= i < cur.len() implies items_view(cur)[i] == (prefix + single)[i] by {
        if i < pre.len() {
            assert(cur[i] == pre[i]);
            assert(items_view(cur)[i] == cur[i]@);
            assert(items_view(pre)[i] == pre[i]@);
            assert((prefix + single)[i] == prefix[i]);
        } else {
            assert(cur[i] == cur.last());
            assert(items_view(cur)[i] == cur.last()@);
            assert((prefix + single)[i] == single[0]);
        }
    }
}

// ---------------------------------------------------------------------------
// Tree shaking (executable layer)
// ---------------------------------------------------------------------------

pub open spec fn idents_of(v: Seq<Ident>) -> Set<IdentV> {
    Set::new(|x: IdentV| exists|j: int| 0 <= j < v.len() && (#[trigger] v[j])@ == x)
}

proof fn lemma_idents_push(v: Seq<Ident>, x: Ident)
    ensures
        idents_of(v.push(x)) == idents_of(v).insert(x@),
{
    assert forall|s: IdentV|
        idents_of(v.push(x)).contains(s) implies idents_of(v).insert(x@).contains(s) by {
        let j = choose|j: int| 0 <= j < v.push(x).len() && (#[trigger] v.push(x)[j])@ == s;
        if j < v.len() {
            assert(v[j]@ == s);
            assert(idents_of(v).contains(s));
        } else {
            assert(x@ == s);
        }
    }
    assert forall|s: IdentV|
        idents_of(v).insert(x@).contains(s) implies idents_of(v.push(x)).contains(s) by {
        if idents_of(v).contains(s) {
            let j = choose|j: int| 0 <= j < v.len() && (#[trigger] v[j])@ == s;
            assert(v.push(x)[j]@ == s);
        } else {
            assert(x@ == s);
            assert(v.push(x)[v.len() as int]@ == s);
        }
    }
    assert(idents_of(v.push(x)) =~= idents_of(v).insert(x@));
}

/// Phase one of shaking: collects every identifier an expression reads.
#[verifier::loop_isolation(false)]
fn collect_reads_expr(e: &Expr, acc: &mut Vec<Ident>)
    ensures
        idents_of(final(acc)@) == idents_of(old(acc)@).union(reads_expr(e@)),
    decreases *e,
{
    match e {
        Expr::Ident(i) => {
            let c = copy_ident(i);
            proof {
                lemma_idents_push(acc@, c);
            }
            acc.push(c);
            proof {
                assert(idents_of(acc@) =~= idents_of(old(acc)@).union(reads_expr(e@)));
            }
        },
        Expr::Member { obj, prop } => {
            collect_reads_expr(obj, acc);
        },
        Expr::Index { obj, index } => {
            collect_reads_expr(obj, acc);
            collect_reads_expr(index, acc);
            proof {
                assert(idents_of(acc@) =~= idents_of(old(acc)@).union(reads_expr(e@)));
            }
        },
        Expr::Call { callee, args } => {
            collect_reads_expr(callee, acc);
            proof {
                lemma_exprs_view(args@);
            }
            let ghost after_callee = acc@;
            let mut k: usize = 0;
            let n = args.len();
            while k < n
                invariant
                    k <= n,
                    idents_of(acc@) == idents_of(after_callee).union(
                        reads_exprs(exprs_view(args@).take(k as int)),
                    ),
                decreases n - k,
            {
                proof {
                    assert(decreases_to!(*e => *args));
                    assert(decreases_to!(*args => args@[k as int]));
                }
                collect_reads_expr(&args[k], acc);
                proof {
                    let vs = exprs_view(args@);
                    assert(vs.take(k + 1).drop_last() =~= vs.take(k as int));
                    assert(vs.take(k + 1).last() == vs[k as int]);
                    assert(idents_of(acc@) =~= idents_of(after_callee).union(
                        reads_exprs(vs.take(k + 1)),
                    ));
                }
                k = k + 1;
            }
            proof {
                assert(exprs_view(args@).take(n as int) =~= exprs_view(args@));
                assert(idents_of(acc@) =~= idents_of(old(acc)@).union(reads_expr(e@)));
            }
        },
        Expr::Assign { target, value } => {
            collect_reads_expr(value, acc);
        },
        Expr::MemberAssign { obj, prop, value } => {
            let c = copy_ident(obj);
            proof {
                lemma_idents_push(acc@, c);
            }
            acc.push(c);
            collect_reads_expr(value, acc);
            proof {
                assert(idents_of(acc@) =~= idents_of(old(acc)@).union(reads_expr(e@)));
            }
        },
        Expr::Arrow { body } => {
            collect_reads_expr(body, acc);
        },
        Expr::Lit(_) => {
            proof {
                assert(idents_of(acc@) =~= idents_of(acc@).union(reads_expr(e@)));
            }
        },
        Expr::Num(_) => {
            proof {
                assert(idents_of(acc@) =~= idents_of(acc@).union(reads_expr(e@)));
            }
        },
    }
}

#[verifier::loop_isolation(false)]
fn collect_reads_item(it: &Item, acc: &mut Vec<Ident>)
    ensures
        idents_of(final(acc)@) == idents_of(old(acc)@).union(item_reads(it@)),
{
    match it {
        Item::Var { name, init, exported } => {
            collect_reads_expr(init, acc);
        },
        Item::Func { name, body, exported } => {
            let ghost bv = it@->Func_body;
            proof {
                assert(bv.len() == body@.len());
                assert(forall|j: int| 0 <= j < body@.len() ==> bv[j] == (#[trigger] body@[j])@);
            }
            let ghost start = acc@;
            let mut k: usize = 0;
            let n = body.len();
            while k < n
                invariant
                    k <= n,
                    idents_of(acc@) == idents_of(start).union(reads_exprs(bv.take(k as int))),
                decreases n - k,
            {
                collect_reads_expr(&body[k], acc);
                proof {
                    assert(bv.take(k + 1).drop_last() =~= bv.take(k as int));
                    assert(bv.take(k + 1).last() == bv[k as int]);
                    assert(idents_of(acc@) =~= idents_of(start).union(
                        reads_exprs(bv.take(k + 1)),
                    ));
                }
                k = k + 1;
            }
            proof {
                assert(bv.take(n as int) =~= bv);
                assert(idents_of(acc@) =~= idents_of(old(acc)@).union(item_reads(it@)));
            }
        },
        Item::Stmt(e) => {
            collect_reads_expr(e, acc);
        },
        Item::Link { local, target } => {
            let c = copy_ident(target);
            proof {
                lemma_idents_push(acc@, c);
            }
            acc.push(c);
            proof {
                assert(idents_of(acc@) =~= idents_of(old(acc)@).union(item_reads(it@)));
            }
        },
        Item::Namespace { name, fields } => {
            let ghost fsv = it@->Namespace_fields;
            proof {
                assert(fsv.len() == fields@.len());
                assert(forall|j: int|
                    0 <= j < fields@.len() ==> fsv[j] == (#[trigger] fields@[j])@);
            }
            let ghost start = acc@;
            let mut k: usize = 0;
            let n = fields.len();
            while k < n
                invariant
                    k <= n,
                    idents_of(acc@) == idents_of(start).union(fields_targets(fsv.take(k as int))),
                decreases n - k,
            {
                let c = copy_ident(&fields[k].target);
                proof {
                    assert(fields@[k as int]@ == fsv[k as int]);
                    assert(c@ == fsv[k as int].target);
                    lemma_idents_push(acc@, c);
                }
                acc.push(c);
                proof {
                    assert(fsv.take(k + 1).drop_last() =~= fsv.take(k as int));
                    assert(fsv.take(k + 1).last() == fsv[k as int]);
                    assert(idents_of(acc@) =~= idents_of(start).union(
                        fields_targets(fsv.take(k + 1)),
                    ));
                }
                k = k + 1;
            }
            proof {
                assert(fsv.take(n as int) =~= fsv);
                assert(idents_of(acc@) =~= idents_of(old(acc)@).union(item_reads(it@)));
            }
        },
        _ => {
            proof {
                assert(idents_of(acc@) =~= idents_of(acc@).union(item_reads(it@)));
            }
        },
    }
}

/// Everything the body reads, as a table.
#[verifier::loop_isolation(false)]
fn body_reads_exec(body: &Vec<Item>) -> (r: Vec<Ident>)
    ensures
        forall|s: IdentV|
            idents_of(r@).contains(s) <==> body_reads(items_view(body@)).contains(s),
{
    let ghost bv = items_view(body@);
    let mut acc: Vec<Ident> = Vec::new();
    let mut k: usize = 0;
    let n = body.len();
    proof {
        assert(idents_of(acc@) =~= Set::<IdentV>::empty());
    }
    while k < n
        invariant
            k <= n,
            forall|s: IdentV| #![trigger idents_of(acc@).contains(s)]
                (idents_of(acc@).contains(s) <==> exists|i: int|
                    0 <= i < k && item_reads(#[trigger] bv[i]).contains(s)),
        decreases n - k,
    {
        let ghost before = acc@;
        collect_reads_item(&body[k], &mut acc);
        proof {
            assert(body@[k as int]@ == bv[k as int]);
            assert forall|s: IdentV|
                idents_of(acc@).contains(s) <==> exists|i: int|
                    0 <= i < k + 1 && item_reads(#[trigger] bv[i]).contains(s) by {
                if idents_of(acc@).contains(s) {
                    if idents_of(before).contains(s) {
                        let i = choose|i: int|
                            0 <= i < k && item_reads(#[trigger] bv[i]).contains(s);
                        assert(item_reads(bv[i]).contains(s));
                    } else {
                        assert(item_reads(bv[k as int]).contains(s));
                    }
                }
                if exists|i: int| 0 <= i < k + 1 && item_reads(#[trigger] bv[i]).contains(s) {
                    let i = choose|i: int|
                        0 <= i < k + 1 && item_reads(#[trigger] bv[i]).contains(s);
                    if i < k {
                        assert(idents_of(before).contains(s));
                    }
                    assert(idents_of(acc@).contains(s));
                }
            }
        }
        k = k + 1;
    }
    acc
}

fn reads_contains(v: &Vec<Ident>, i: &Ident) -> (r: bool)
    ensures
        r == idents_of(v@).contains(i@),
{
    let mut k: usize = 0;
    let n = v.len();
    while k < n
        invariant
            k <= n,
            n == v@.len(),
            forall|j: int| 0 <= j < k ==> (#[trigger] v@[j])@ != i@,
        decreases n - k,
    {
        if ident_eq(&v[k], i) {
            proof {
                assert(v@[k as int]@ == i@);
            }
            return true;
        }
        k = k + 1;
    }
    false
}

/// The shaking pass: keeps statements, boundary items, and the referenced
/// or exported declarations.
#[verifier::loop_isolation(false)]
fn shake_exec(body: Vec<Item>, reads: &Vec<Ident>, Ghost(rs): Ghost<Set<IdentV>>) -> (r: Vec<Item>)
    requires
        forall|s: IdentV| idents_of(reads@).contains(s) <==> rs.contains(s),
    ensures
        items_view(r@) == shake_with(items_view(body@), rs),
{
    let ghost bv = items_view(body@);
    let ghost total = bv.len();
    let mut items = body;
    let mut out: Vec<Item> = Vec::new();
    proof {
        assert(bv.take(0) =~= Seq::<ItemV>::empty());
        assert(items_view(out@) =~= shake_with(bv.take(0), rs));
    }
    while items.len() > 0
        invariant
            items@.len() <= total,
            total == bv.len(),
            forall|j: int|
                0 <= j < items@.len() ==> bv[total - items@.len() + j] == (#[trigger] items@[j])@,
            items_view(out@) == shake_with(bv.take(total - items@.len()), rs),
        decreases items@.len(),
    {
        let ghost p = total - items@.len();
        let ghost pre = out@;
        let it = items.remove(0);
        proof {
            assert(it@ == bv[p]);
            assert(forall|j: int|
                0 <= j < items@.len() ==> bv[total - items@.len() + j] == (#[trigger] items@[j])@);
            assert(bv.take(p + 1).drop_last() =~= bv.take(p));
            assert(bv.take(p + 1).last() == bv[p]);
        }
        let keep = match &it {
            Item::Var { name, init, exported } => *exported || reads_contains(reads, name),
            Item::Func { name, body: fb, exported } => *exported || reads_contains(reads, name),
            Item::Namespace { name, fields } => reads_contains(reads, name),
            Item::Link { local, target } => reads_contains(reads, local),
            _ => true,
        };
        proof {
            assert(keep == item_kept(bv[p], rs));
        }
        if keep {
            out.push(it);
            proof {
                lemma_items_push_view(pre, out@, shake_with(bv.take(p), rs), seq![bv[p]]);
                assert(items_view(out@) =~= shake_with(bv.take(p + 1), rs));
            }
        } else {
            proof {
                assert(items_view(out@) =~= shake_with(bv.take(p + 1), rs));
            }
        }
    }
    proof {
        assert(bv.take(total as int) =~= bv);
    }
    out
}

// ---------------------------------------------------------------------------
// Hygiene renaming (executable layer)
// ---------------------------------------------------------------------------

fn rename_ident_exec(i: &Ident) -> (r: Ident)
    ensures
        r@ == rename_ident(i@),
{
    if i.ctxt != 0 {
        Ident { sym: mangle(&i.sym, i.ctxt), ctxt: 0 }
    } else {
        copy_ident(i)
    }
}

#[verifier::loop_isolation(false)]
fn rename_expr_exec(e: &Expr) -> (r: Expr)
    ensures
        r@ == rename_expr(e@),
    decreases *e,
{
    match e {
        Expr::Ident(i) => Expr::Ident(rename_ident_exec(i)),
        Expr::Member { obj, prop } => Expr::Member {
            obj: Box::new(rename_expr_exec(obj)),
            prop: prop.clone(),
        },
        Expr::Index { obj, index } => Expr::Index {
            obj: Box::new(rename_expr_exec(obj)),
            index: Box::new(rename_expr_exec(index)),
        },
        Expr::Call { callee, args } => {
            let c = rename_expr_exec(callee);
            proof {
                lemma_exprs_view(args@);
                lemma_rename_exprs(exprs_view(args@));
            }
            let mut out: Vec<Expr> = Vec::new();
            let mut k: usize = 0;
            let n = args.len();
            while k < n
                invariant
                    k <= n,
                    out@.len() == k,
                    forall|j: int|
                        0 <= j < k ==> expr_view(#[trigger] out@[j]) == rename_expr(
                            expr_view(args@[j]),
                        ),
                decreases n - k,
            {
                proof {
                    assert(decreases_to!(*e => *args));
                    assert(decreases_to!(*args => args@[k as int]));
                }
                let x = rename_expr_exec(&args[k]);
                out.push(x);
                k = k + 1;
            }
            let res = Expr::Call { callee: Box::new(c), args: out };
            proof {
                lemma_exprs_view(res->Call_args@);
                assert(exprs_view(res->Call_args@) =~= rename_exprs(exprs_view(args@)));
            }
            res
        },
        Expr::Assign { target, value } => Expr::Assign {
            target: rename_ident_exec(target),
            value: Box::new(rename_expr_exec(value)),
        },
        Expr::MemberAssign { obj, prop, value } => Expr::MemberAssign {
            obj: rename_ident_exec(obj),
            prop: prop.clone(),
            value: Box::new(rename_expr_exec(value)),
        },
        Expr::Arrow { body } => Expr::Arrow { body: Box::new(rename_expr_exec(body)) },
        Expr::Lit(s) => Expr::Lit(
            Str { value: s.value.clone(), has_escape: s.has_escape, kind: s.kind },
        ),
        Expr::Num(n) => Expr::Num(*n),
    }
}

#[verifier::loop_isolation(false)]
fn rename_item_exec(it: Item) -> (r: Item)
    ensures
        r@ == rename_item(it@),
{
    let ghost itv = it@;
    match it {
        Item::Import(d) => {
            let ghost bsv = itv->Import_0.bindings;
            proof {
                assert(bsv.len() == d.bindings@.len());
                assert(forall|j: int|
                    0 <= j < d.bindings@.len() ==> bsv[j] == (#[trigger] d.bindings@[j])@);
            }
            let mut out: Vec<ImportBinding> = Vec::new();
            let mut k: usize = 0;
            let n = d.bindings.len();
            while k < n
                invariant
                    k <= n,
                    out@.len() == k,
                    forall|j: int|
                        0 <= j < k ==> (#[trigger] out@[j])@ == rename_binding(bsv[j]),
                decreases n - k,
            {
                let nb = match &d.bindings[k] {
                    ImportBinding::Default { local } => ImportBinding::Default {
                        local: rename_ident_exec(local),
                    },
                    ImportBinding::Named { imported, local } => ImportBinding::Named {
                        imported: imported.clone(),
                        local: rename_ident_exec(local),
                    },
                    ImportBinding::Namespace { local } => ImportBinding::Namespace {
                        local: rename_ident_exec(local),
                    },
                    ImportBinding::Require { local } => ImportBinding::Require {
                        local: rename_ident_exec(local),
                    },
                };
                out.push(nb);
                k = k + 1;
            }
            let res = Item::Import(ImportDecl { src: d.src.clone(), bindings: out });
            proof {
                assert(res@->Import_0.bindings =~= rename_item(itv)->Import_0.bindings);
                assert(res@ == rename_item(itv));
            }
            res
        },
        Item::ExportStar { src } => Item::ExportStar { src },
        Item::Var { name, init, exported } => Item::Var {
            name: rename_ident_exec(&name),
            init: rename_expr_exec(&init),
            exported,
        },
        Item::Func { name, body, exported } => {
            let ghost bv = itv->Func_body;
            proof {
                lemma_rename_exprs(bv);
                assert(bv.len() == body@.len());
                assert(forall|j: int| 0 <= j < body@.len() ==> bv[j] == (#[trigger] body@[j])@);
            }
            let mut out: Vec<Expr> = Vec::new();
            let mut k: usize = 0;
            let n = body.len();
            while k < n
                invariant
                    k <= n,
                    out@.len() == k,
                    forall|j: int|
                        0 <= j < k ==> (#[trigger] out@[j])@ == rename_expr(body@[j]@),
                decreases n - k,
            {
                let x = rename_expr_exec(&body[k]);
                out.push(x);
                k = k + 1;
            }
            let res = Item::Func { name: rename_ident_exec(&name), body: out, exported };
            proof {
                assert(res@->Func_body =~= rename_exprs(bv));
                assert(res@ == rename_item(itv));
            }
            res
        },
        Item::Stmt(e) => Item::Stmt(rename_expr_exec(&e)),
        Item::Link { local, target } => Item::Link {
            local: rename_ident_exec(&local),
            target: rename_ident_exec(&target),
        },
        Item::Namespace { name, fields } => {
            let ghost fsv = itv->Namespace_fields;
            proof {
                assert(fsv.len() == fields@.len());
                assert(forall|j: int|
                    0 <= j < fields@.len() ==> fsv[j] == (#[trigger] fields@[j])@);
            }
            let mut out: Vec<NsField> = Vec::new();
            let mut k: usize = 0;
            let n = fields.len();
            while k < n
                invariant
                    k <= n,
                    out@.len() == k,
                    forall|j: int|
                        0 <= j < k ==> (#[trigger] out@[j])@ == (NsFieldV {
                            export: fsv[j].export,
                            target: rename_ident(fsv[j].target),
                        }),
                decreases n - k,
            {
                let f = &fields[k];
                out.push(
                    NsField { export: f.export.clone(), target: rename_ident_exec(&f.target) },
                );
                k = k + 1;
            }
            let res = Item::Namespace { name: rename_ident_exec(&name), fields: out };
            proof {
                assert(res@->Namespace_fields =~= rename_item(itv)->Namespace_fields);
                assert(res@ == rename_item(itv));
            }
            res
        },
    }
}

/// The hygiene pass over a whole body.
#[verifier::loop_isolation(false)]
fn rename_exec(body: Vec<Item>) -> (r: Vec<Item>)
    ensures
        items_view(r@) == rename_body(items_view(body@)),
{
    let ghost bv = items_view(body@);
    let ghost total = bv.len();
    let mut items = body;
    let mut out: Vec<Item> = Vec::new();
    while items.len() > 0
        invariant
            items@.len() <= total,
            total == bv.len(),
            forall|j: int|
                0 <= j < items@.len() ==> bv[total - items@.len() + j] == (#[trigger] items@[j])@,
            out@.len() == total - items@.len(),
            forall|j: int| 0 <= j < out@.len() ==> (#[trigger] out@[j])@ == rename_item(bv[j]),
        decreases items@.len(),
    {
        let ghost p = total - items@.len();
        let it = items.remove(0);
        proof {
            assert(it@ == bv[p]);
            assert(forall|j: int|
                0 <= j < items@.len() ==> bv[total - items@.len() + j] == (#[trigger] items@[j])@);
        }
        let it2 = rename_item_exec(it);
        out.push(it2);
    }
    proof {
        assert(items_view(out@) =~= rename_body(bv));
    }
    out
}

// ---------------------------------------------------------------------------
// Output framing (executable layer)
// ---------------------------------------------------------------------------

/// Hoists imports to the front for IIFE framing.
#[verifier::loop_isolation(false)]
fn hoist_exec(body: Vec<Item>) -> (r: Vec<Item>)
    ensures
        items_view(r@) == hoist_imports(items_view(body@)),
{
    let ghost bv = items_view(body@);
    let ghost total = bv.len();
    let mut items = body;
    let mut imps: Vec<Item> = Vec::new();
    let mut rest: Vec<Item> = Vec::new();
    proof {
        assert(bv.take(0) =~= Seq::<ItemV>::empty());
        assert(items_view(imps@) =~= imports_of(bv.take(0)));
        assert(items_view(rest@) =~= non_imports_of(bv.take(0)));
    }
    while items.len() > 0
        invariant
            items@.len() <= total,
            total == bv.len(),
            forall|j: int|
                0 <= j < items@.len() ==> bv[total - items@.len() + j] == (#[trigger] items@[j])@,
            items_view(imps@) == imports_of(bv.take(total - items@.len())),
            items_view(rest@) == non_imports_of(bv.take(total - items@.len())),
        decreases items@.len(),
    {
        let ghost p = total - items@.len();
        let ghost imps_pre = imps@;
        let ghost rest_pre = rest@;
        let it = items.remove(0);
        proof {
            assert(it@ == bv[p]);
            assert(forall|j: int|
                0 <= j < items@.len() ==> bv[total - items@.len() + j] == (#[trigger] items@[j])@);
            assert(bv.take(p + 1).drop_last() =~= bv.take(p));
            assert(bv.take(p + 1).last() == bv[p]);
        }
        let is_imp = match &it {
            Item::Import(_) => true,
            _ => false,
        };
        if is_imp {
            imps.push(it);
            proof {
                lemma_items_push_view(imps_pre, imps@, imports_of(bv.take(p)), seq![bv[p]]);
                assert(items_view(imps@) =~= imports_of(bv.take(p + 1)));
                assert(items_view(rest@) =~= non_imports_of(bv.take(p + 1)));
            }
        } else {
            rest.push(it);
            proof {
                lemma_items_push_view(rest_pre, rest@, non_imports_of(bv.take(p)), seq![bv[p]]);
                assert(items_view(rest@) =~= non_imports_of(bv.take(p + 1)));
                assert(items_view(imps@) =~= imports_of(bv.take(p + 1)));
            }
        }
    }
    proof {
        assert(bv.take(total as int) =~= bv);
    }
    let ghost imps_final = items_view(imps@);
    let mut out = imps;
    let ghost rest_v = items_view(rest@);
    let mut rest2 = rest;
    while rest2.len() > 0
        invariant
            rest2@.len() <= rest_v.len(),
            forall|j: int|
                0 <= j < rest2@.len() ==> rest_v[rest_v.len() - rest2@.len() + j] == (
                #[trigger] rest2@[j])@,
            items_view(out@) == imps_final + rest_v.take(rest_v.len() - rest2@.len()),
        decreases rest2@.len(),
    {
        let ghost p = rest_v.len() - rest2@.len();
        let ghost out_pre = out@;
        let it = rest2.remove(0);
        proof {
            assert(it@ == rest_v[p]);
            assert(forall|j: int|
                0 <= j < rest2@.len() ==> rest_v[rest_v.len() - rest2@.len() + j] == (
                #[trigger] rest2@[j])@);
        }
        out.push(it);
        proof {
            assert(rest_v.take(p + 1).drop_last() =~= rest_v.take(p));
            assert(rest_v.take(p + 1).last() == rest_v[p]);
            lemma_items_push_view(
                out_pre,
                out@,
                imps_final + rest_v.take(p),
                seq![rest_v[p]],
            );
            assert(items_view(out@) =~= imps_final + rest_v.take(p + 1));
        }
    }
    proof {
        assert(rest_v.take(rest_v.len() as int) =~= rest_v);
        assert(items_view(out@) =~= hoist_imports(bv));
    }
    out
}

// ---------------------------------------------------------------------------
// Finalizing bundles
// ---------------------------------------------------------------------------

/// Finalizes one merged body: inline the links unless the inliner is
/// disabled, drop unreferenced declarations, apply the hygiene rename, and
/// hoist imports under IIFE framing.
pub fn finalize_module(module: Module, disable_inliner: bool, iife: bool) -> (r: Module)
    ensures
        r@.body == finalize_body(module@.body, disable_inliner, iife),
{
    let ghost mv0 = module@.body;
    let body0 = module.body;
    proof {
        assert(items_view(body0@) =~= mv0);
    }
    let b1 = if disable_inliner {
        body0
    } else {
        let m = build_subst_exec(&body0);
        inline_exec(body0, &m)
    };
    let reads = body_reads_exec(&b1);
    let ghost rs = body_reads(items_view(b1@));
    proof {
        assert forall|s: IdentV|
            idents_of(reads@).contains(s) <==> rs.contains(s) by {}
    }
    let b2 = shake_exec(b1, &reads, Ghost(rs));
    let b3 = rename_exec(b2);
    let out = if iife {
        hoist_exec(b3)
    } else {
        b3
    };
    let r = Module { body: out };
    proof {
        assert(r@.body =~= items_view(r.body@));
        assert(r@.body == finalize_body(mv0, disable_inliner, iife));
    }
    r
}

// ---------------------------------------------------------------------------
// Round trip for externals
// ---------------------------------------------------------------------------

/// The body holds an import of this source specifier.
pub open spec fn has_import_src(body: Seq<ItemV>, src: Seq<char>) -> bool {
    exists|i: int|
        0 <= i < body.len() && ((#[trigger] body[i]) matches ItemV::Import(d) && d.src == src)
}

proof fn lemma_has_import_concat(a: Seq<ItemV>, b: Seq<ItemV>, src: Seq<char>)
    requires
        has_import_src(a, src) || has_import_src(b, src),
    ensures
        has_import_src(a + b, src),
{
    if has_import_src(a, src) {
        let i = choose|i: int|
            0 <= i < a.len() && ((#[trigger] a[i]) matches ItemV::Import(d) && d.src == src);
        assert((a + b)[i] == a[i]);
    } else {
        let i = choose|i: int|
            0 <= i < b.len() && ((#[trigger] b[i]) matches ItemV::Import(d) && d.src == src);
        assert((a + b)[a.len() + i] == b[i]);
    }
}

proof fn lemma_inline_keeps_import(body: Seq<ItemV>, m: Seq<SubstV>, src: Seq<char>)
    requires
        has_import_src(body, src),
    ensures
        has_import_src(inline_with(body, m), src),
    decreases body.len(),
{
    let i = choose|i: int|
        0 <= i < body.len() && ((#[trigger] body[i]) matches ItemV::Import(d) && d.src == src);
    if i == body.len() - 1 {
        assert(subst_item(body.last(), m)[0] matches ItemV::Import(d) && d.src == src);
        assert(has_import_src(subst_item(body.last(), m), src));
        lemma_has_import_concat(inline_with(body.drop_last(), m), subst_item(body.last(), m), src);
    } else {
        assert(body.drop_last()[i] == body[i]);
        assert(has_import_src(body.drop_last(), src));
        lemma_inline_keeps_import(body.drop_last(), m, src);
        lemma_has_import_concat(inline_with(body.drop_last(), m), subst_item(body.last(), m), src);
    }
}

proof fn lemma_shake_keeps_import(body: Seq<ItemV>, rs: Set<IdentV>, src: Seq<char>)
    requires
        has_import_src(body, src),
    ensures
        has_import_src(shake_with(body, rs), src),
    decreases body.len(),
{
    let i = choose|i: int|
        0 <= i < body.len() && ((#[trigger] body[i]) matches ItemV::Import(d) && d.src == src);
    if i == body.len() - 1 {
        assert(item_kept(body.last(), rs));
        assert(has_import_src(seq![body.last()], src)) by {
            assert(seq![body.last()][0] == body[i]);
        }
        lemma_has_import_concat(shake_with(body.drop_last(), rs), seq![body.last()], src);
    } else {
        assert(body.drop_last()[i] == body[i]);
        assert(has_import_src(body.drop_last(), src));
        lemma_shake_keeps_import(body.drop_last(), rs, src);
        if item_kept(body.last(), rs) {
            lemma_has_import_concat(shake_with(body.drop_last(), rs), seq![body.last()], src);
        } else {
            assert(shake_with(body, rs) =~= shake_with(body.drop_last(), rs) + Seq::<
                ItemV,
            >::empty());
            assert(shake_with(body, rs) =~= shake_with(body.drop_last(), rs));
        }
    }
}

proof fn lemma_rename_keeps_import(body: Seq<ItemV>, src: Seq<char>)
    requires
        has_import_src(body, src),
    ensures
        has_import_src(rename_body(body), src),
{
    let i = choose|i: int|
        0 <= i < body.len() && ((#[trigger] body[i]) matches ItemV::Import(d) && d.src == src);
    assert(rename_body(body)[i] matches ItemV::Import(d) && d.src == src);
}

proof fn lemma_imports_of_keeps_import(body: Seq<ItemV>, src: Seq<char>)
    requires
        has_import_src(body, src),
    ensures
        has_import_src(imports_of(body), src),
    decreases body.len(),
{
    let i = choose|i: int|
        0 <= i < body.len() && ((#[trigger] body[i]) matches ItemV::Import(d) && d.src == src);
    if i == body.len() - 1 {
        assert(is_import_item(body.last()));
        assert(has_import_src(seq![body.last()], src)) by {
            assert(seq![body.last()][0] == body[i]);
        }
        lemma_has_import_concat(imports_of(body.drop_last()), seq![body.last()], src);
    } else {
        assert(body.drop_last()[i] == body[i]);
        assert(has_import_src(body.drop_last(), src));
        lemma_imports_of_keeps_import(body.drop_last(), src);
        if is_import_item(body.last()) {
            lemma_has_import_concat(imports_of(body.drop_last()), seq![body.last()], src);
        } else {
            assert(imports_of(body) =~= imports_of(body.drop_last()));
        }
    }
}

/// Round trip for externals, finalizer side: an import present in a merged
/// body survives every finalize pass with its source specifier intact.
/// Together with the merge rule that an externally tagged import is kept
/// verbatim, a configured external specifier reaches the output as an
/// import.
pub proof fn lemma_external_round_trip(
    body: Seq<ItemV>,
    disable_inliner: bool,
    iife: bool,
    src: Seq<char>,
)
    requires
        has_import_src(body, src),
    ensures
        has_import_src(finalize_body(body, disable_inliner, iife), src),
{
    let b1 = if disable_inliner {
        body
    } else {
        inline_with(body, build_subst(body))
    };
    if !disable_inliner {
        lemma_inline_keeps_import(body, build_subst(body), src);
    }
    lemma_shake_keeps_import(b1, body_reads(b1), src);
    let b2 = shake_with(b1, body_reads(b1));
    lemma_rename_keeps_import(b2, src);
    let b3 = rename_body(b2);
    if iife {
        lemma_imports_of_keeps_import(b3, src);
        lemma_has_import_concat(imports_of(b3), non_imports_of(b3), src);
    }
}

// ---------------------------------------------------------------------------
// Source order preservation through finalization
// ---------------------------------------------------------------------------

/// The side-effecting top-level statements of a body, in order.
pub open spec fn stmts_of(body: Seq<ItemV>) -> Seq<ExprV>
    decreases body.len(),
{
    if body.len() == 0 {
        Seq::empty()
    } else {
        stmts_of(body.drop_last()) + (match body.last() {
            ItemV::Stmt(e) => seq![e],
            _ => Seq::empty(),
        })
    }
}

pub open spec fn subst_stmts(s: Seq<ExprV>, m: Seq<SubstV>) -> Seq<ExprV> {
    Seq::new(s.len(), |i: int| subst_expr(s[i], m))
}

pub open spec fn rename_stmts(s: Seq<ExprV>) -> Seq<ExprV> {
    Seq::new(s.len(), |i: int| rename_expr(s[i]))
}

proof fn lemma_stmts_single(it: ItemV)
    ensures
        stmts_of(seq![it]) == (match it {
            ItemV::Stmt(e) => seq![e],
            _ => Seq::<ExprV>::empty(),
        }),
{
    let single = seq![it];
    assert(single.drop_last() =~= Seq::<ItemV>::empty());
    assert(stmts_of(single.drop_last()) =~= Seq::<ExprV>::empty());
    assert(single.last() == it);
    assert(stmts_of(single) =~= (match it {
        ItemV::Stmt(e) => seq![e],
        _ => Seq::<ExprV>::empty(),
    }));
}

proof fn lemma_stmts_concat(a: Seq<ItemV>, b: Seq<ItemV>)
    ensures
        stmts_of(a + b) == stmts_of(a) + stmts_of(b),
    decreases b.len(),
{
    if b.len() == 0 {
        assert(a + b =~= a);
        assert(stmts_of(a) + stmts_of(b) =~= stmts_of(a));
    } else {
        lemma_stmts_concat(a, b.drop_last());
        assert((a + b).drop_last() =~= a + b.drop_last());
        assert((a + b).last() == b.last());
        assert(stmts_of(a + b) =~= stmts_of(a) + stmts_of(b));
    }
}

proof fn lemma_stmts_inline(body: Seq<ItemV>, m: Seq<SubstV>)
    ensures
        stmts_of(inline_with(body, m)) == subst_stmts(stmts_of(body), m),
    decreases body.len(),
{
    if body.len() == 0 {
        assert(stmts_of(inline_with(body, m)) =~= subst_stmts(stmts_of(body), m));
    } else {
        let rest = body.drop_last();
        lemma_stmts_inline(rest, m);
        lemma_stmts_concat(inline_with(rest, m), subst_item(body.last(), m));
        match body.last() {
            ItemV::Link { local, target } => {
                assert(stmts_of(subst_item(body.last(), m)) =~= Seq::<ExprV>::empty());
            },
            other => {
                lemma_stmts_single(subst_item(body.last(), m)[0]);
                assert(subst_item(body.last(), m) =~= seq![subst_item(body.last(), m)[0]]);
            },
        }
        assert(stmts_of(inline_with(body, m)) =~= subst_stmts(stmts_of(body), m));
    }
}

proof fn lemma_stmts_shake(body: Seq<ItemV>, rs: Set<IdentV>)
    ensures
        stmts_of(shake_with(body, rs)) == stmts_of(body),
    decreases body.len(),
{
    if body.len() > 0 {
        let rest = body.drop_last();
        lemma_stmts_shake(rest, rs);
        if item_kept(body.last(), rs) {
            lemma_stmts_concat(shake_with(rest, rs), seq![body.last()]);
            lemma_stmts_single(body.last());
            assert(stmts_of(shake_with(body, rs)) =~= stmts_of(body));
        } else {
            assert(!(body.last() is Stmt));
            assert(shake_with(body, rs) =~= shake_with(rest, rs));
            assert(stmts_of(body) =~= stmts_of(rest));
        }
    } else {
        assert(stmts_of(shake_with(body, rs)) =~= stmts_of(body));
    }
}

proof fn lemma_stmts_rename(body: Seq<ItemV>)
    ensures
        stmts_of(rename_body(body)) == rename_stmts(stmts_of(body)),
    decreases body.len(),
{
    if body.len() == 0 {
        assert(rename_body(body) =~= Seq::<ItemV>::empty());
        assert(stmts_of(rename_body(body)) =~= rename_stmts(stmts_of(body)));
    } else {
        let rest = body.drop_last();
        lemma_stmts_rename(rest);
        assert(rename_body(body).drop_last() =~= rename_body(rest));
        assert(rename_body(body).last() == rename_item(body.last()));
        assert(stmts_of(rename_body(body)) =~= rename_stmts(stmts_of(body)));
    }
}

proof fn lemma_stmts_imports_empty(body: Seq<ItemV>)
    ensures
        stmts_of(imports_of(body)) == Seq::<ExprV>::empty(),
    decreases body.len(),
{
    if body.len() > 0 {
        lemma_stmts_imports_empty(body.drop_last());
        if is_import_item(body.last()) {
            lemma_stmts_concat(imports_of(body.drop_last()), seq![body.last()]);
            lemma_stmts_single(body.last());
            assert(stmts_of(imports_of(body)) =~= Seq::<ExprV>::empty());
        } else {
            assert(imports_of(body) =~= imports_of(body.drop_last()));
        }
    }
}

proof fn lemma_stmts_non_imports(body: Seq<ItemV>)
    ensures
        stmts_of(non_imports_of(body)) == stmts_of(body),
    decreases body.len(),
{
    if body.len() > 0 {
        let rest = body.drop_last();
        lemma_stmts_non_imports(rest);
        if !is_import_item(body.last()) {
            lemma_stmts_concat(non_imports_of(rest), seq![body.last()]);
            lemma_stmts_single(body.last());
            assert(stmts_of(non_imports_of(body)) =~= stmts_of(body));
        } else {
            assert(non_imports_of(body) =~= non_imports_of(rest));
            assert(stmts_of(body) =~= stmts_of(rest));
        }
    } else {
        assert(stmts_of(non_imports_of(body)) =~= stmts_of(body));
    }
}

/// Source order preservation: finalization maps the side-effecting
/// statements of the merged body one-for-one and in order; inlining and
/// renaming change only the identifiers inside them, and no pass reorders,
/// duplicates, or drops a statement.
pub proof fn lemma_finalize_preserves_stmt_order(
    body: Seq<ItemV>,
    disable_inliner: bool,
    iife: bool,
)
    ensures
        stmts_of(finalize_body(body, disable_inliner, iife)) == rename_stmts(
            if disable_inliner {
                stmts_of(body)
            } else {
                subst_stmts(stmts_of(body), build_subst(body))
            },
        ),
{
    let b1 = if disable_inliner {
        body
    } else {
        inline_with(body, build_subst(body))
    };
    if !disable_inliner {
        lemma_stmts_inline(body, build_subst(body));
    }
    let b2 = shake_with(b1, body_reads(b1));
    lemma_stmts_shake(b1, body_reads(b1));
    let b3 = rename_body(b2);
    lemma_stmts_rename(b2);
    if iife {
        lemma_stmts_imports_empty(b3);
        lemma_stmts_non_imports(b3);
        lemma_stmts_concat(imports_of(b3), non_imports_of(b3));
        assert(stmts_of(hoist_imports(b3)) =~= stmts_of(b3));
    }
}

} // verus!
