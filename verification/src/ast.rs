//! The abstract syntax the bundler core operates on.
//!
//! The real toolchain parses JavaScript / TypeScript into a rich tree; the
//! bundler only reads and rewrites the small portion modelled here: module
//! identity, top-level items, identifier occurrences and their syntax
//! contexts, import/export forms, and the literal shapes the analyzer
//! inspects.  Every executable type has a ghost mirror (its view) over which
//! the contracts speak.

use vstd::prelude::*;

verus! {

/// A disambiguating mark applied to an identifier, forming its syntax
/// context.  Mark `0` is the root context (no mark applied).  Fresh marks are
/// allocated by the module registry; two marks are equal only if they come
/// from the same allocation.
pub type Mark = u128;

/// Identity of a source file: a canonicalized real path, a synthetic name
/// (such as a built-in module), or an anonymous placeholder.  Equality is
/// structural.
#[derive(Debug)]
pub enum FileName {
    Real { path: String },
    Custom { name: String },
    Anon,
}

pub enum FileNameV {
    Real { path: Seq<char> },
    Custom { name: Seq<char> },
    Anon,
}

impl View for FileName {
    type V = FileNameV;

    open spec fn view(&self) -> FileNameV {
        match self {
            FileName::Real { path } => FileNameV::Real { path: path@ },
            FileName::Custom { name } => FileNameV::Custom { name: name@ },
            FileName::Anon => FileNameV::Anon,
        }
    }
}

/// An identifier occurrence: its spelling and the mark of its syntax
/// context (`0` when no mark has been applied).
#[derive(Debug)]
pub struct Ident {
    pub sym: String,
    pub ctxt: Mark,
}

pub struct IdentV {
    pub sym: Seq<char>,
    pub ctxt: Mark,
}

impl View for Ident {
    type V = IdentV;

    open spec fn view(&self) -> IdentV {
        IdentV { sym: self.sym@, ctxt: self.ctxt }
    }
}

/// How a string literal should be printed by the external code generator.
#[derive(Clone, Copy, Debug, PartialEq, Eq, Structural)]
pub enum StrKind {
    /// The literal's span points at original source text.
    Normal { contains_quote: bool },
    /// The literal was synthesized by a pass and has no source span.
    Synthesized,
}

impl Default for StrKind {
    fn default() -> (r: Self)
        ensures
            r == StrKind::Synthesized,
    {
        StrKind::Synthesized
    }
}

impl StrKind {
    /// Always true: the kind only steers printing and carries no data of
    /// the literal, so span-insensitive comparison ignores it.
    pub fn eq_ignore_span(&self, other: &StrKind) -> (r: bool)
        ensures
            r,
    {
        true
    }
}

/// A string literal.
#[derive(Debug)]
pub struct Str {
    pub value: String,
    /// Whether the source text of the literal contains an escape.
    pub has_escape: bool,
    pub kind: StrKind,
}

pub struct StrV {
    pub value: Seq<char>,
    pub has_escape: bool,
    pub kind: StrKind,
}

impl View for Str {
    type V = StrV;

    open spec fn view(&self) -> StrV {
        StrV { value: self.value@, has_escape: self.has_escape, kind: self.kind }
    }
}

impl Str {
    pub fn is_empty(&self) -> (r: bool)
        ensures
            r == (self@.value.len() == 0),
    {
        self.value.as_str().is_empty()
    }
}

/// An expression, restricted to the forms the analyzer distinguishes.
#[derive(Debug)]
pub enum Expr {
    Ident(Ident),
    /// Static member access `obj.prop`.
    Member { obj: Box<Expr>, prop: String },
    /// Dynamic member access `obj[index]`.
    Index { obj: Box<Expr>, index: Box<Expr> },
    Call { callee: Box<Expr>, args: Vec<Expr> },
    /// Assignment to a plain name.
    Assign { target: Ident, value: Box<Expr> },
    /// Assignment to a static member `obj.prop = value`.
    MemberAssign { obj: Ident, prop: String, value: Box<Expr> },
    /// A parameterless function expression whose body is a single expression.
    Arrow { body: Box<Expr> },
    Lit(Str),
    Num(i64),
}

pub enum ExprV {
    Ident(IdentV),
    Member { obj: Box<ExprV>, prop: Seq<char> },
    Index { obj: Box<ExprV>, index: Box<ExprV> },
    Call { callee: Box<ExprV>, args: Seq<ExprV> },
    Assign { target: IdentV, value: Box<ExprV> },
    MemberAssign { obj: IdentV, prop: Seq<char>, value: Box<ExprV> },
    Arrow { body: Box<ExprV> },
    Lit(StrV),
    Num(i64),
}

pub open spec fn exprs_view(s: Seq<Expr>) -> Seq<ExprV>
    decreases s,
{
    if s.len() == 0 {
        Seq::empty()
    } else {
        exprs_view(s.drop_last()).push(expr_view(s.last()))
    }
}

pub open spec fn expr_view(e: Expr) -> ExprV
    decreases e,
{
    match e {
        Expr::Ident(i) => ExprV::Ident(i@),
        Expr::Member { obj, prop } => ExprV::Member { obj: Box::new(expr_view(*obj)), prop: prop@ },
        Expr::Index { obj, index } => ExprV::Index {
            obj: Box::new(expr_view(*obj)),
            index: Box::new(expr_view(*index)),
        },
        Expr::Call { callee, args } => ExprV::Call {
            callee: Box::new(expr_view(*callee)),
            args: exprs_view(args@),
        },
        Expr::Assign { target, value } => ExprV::Assign {
            target: target@,
            value: Box::new(expr_view(*value)),
        },
        Expr::MemberAssign { obj, prop, value } => ExprV::MemberAssign {
            obj: obj@,
            prop: prop@,
            value: Box::new(expr_view(*value)),
        },
        Expr::Arrow { body } => ExprV::Arrow { body: Box::new(expr_view(*body)) },
        Expr::Lit(s) => ExprV::Lit(s@),
        Expr::Num(n) => ExprV::Num(n),
    }
}

impl View for Expr {
    type V = ExprV;

    open spec fn view(&self) -> ExprV {
        expr_view(*self)
    }
}

/// A view is an `Ident` (or a `Lit`) exactly when the expression is, and
/// then carries the corresponding view.
pub proof fn lemma_expr_view_ident(e: Expr)
    ensures
        (expr_view(e) is Ident) == (e is Ident),
        e matches Expr::Ident(i) ==> expr_view(e) == ExprV::Ident(i@),
        (expr_view(e) is Lit) == (e is Lit),
        e matches Expr::Lit(s) ==> expr_view(e) == ExprV::Lit(s@),
{
    match e {
        Expr::Ident(i) => {},
        Expr::Member { obj, prop } => {},
        Expr::Index { obj, index } => {},
        Expr::Call { callee, args } => {},
        Expr::Assign { target, value } => {},
        Expr::MemberAssign { obj, prop, value } => {},
        Expr::Arrow { body } => {},
        Expr::Lit(s) => {},
        Expr::Num(n) => {},
    }
}

/// The view of a sequence of expressions is the element-wise view.
pub proof fn lemma_exprs_view(s: Seq<Expr>)
    ensures
        exprs_view(s).len() == s.len(),
        forall|i: int| 0 <= i < s.len() ==> exprs_view(s)[i] == expr_view(s[i]),
    decreases s.len(),
{
    if s.len() > 0 {
        lemma_exprs_view(s.drop_last());
    }
}

/// One binding introduced by an import declaration.
#[derive(Debug)]
pub enum ImportBinding {
    /// `import local from "src"`.
    Default { local: Ident },
    /// `import { imported as local } from "src"`.
    Named { imported: String, local: Ident },
    /// `import * as local from "src"`.
    Namespace { local: Ident },
    /// `const local = require("src")`, recognized when the configuration
    /// enables CommonJS support.
    Require { local: Ident },
}

pub enum ImportBindingV {
    Default { local: IdentV },
    Named { imported: Seq<char>, local: IdentV },
    Namespace { local: IdentV },
    Require { local: IdentV },
}

impl View for ImportBinding {
    type V = ImportBindingV;

    open spec fn view(&self) -> ImportBindingV {
        match self {
            ImportBinding::Default { local } => ImportBindingV::Default { local: local@ },
            ImportBinding::Named { imported, local } => ImportBindingV::Named {
                imported: imported@,
                local: local@,
            },
            ImportBinding::Namespace { local } => ImportBindingV::Namespace { local: local@ },
            ImportBinding::Require { local } => ImportBindingV::Require { local: local@ },
        }
    }
}

/// An import declaration: the source specifier and its bindings.  An empty
/// binding list is a bare (side-effect only) import.
#[derive(Debug)]
pub struct ImportDecl {
    pub src: String,
    pub bindings: Vec<ImportBinding>,
}

pub struct ImportDeclV {
    pub src: Seq<char>,
    pub bindings: Seq<ImportBindingV>,
}

impl View for ImportDecl {
    type V = ImportDeclV;

    open spec fn view(&self) -> ImportDeclV {
        ImportDeclV {
            src: self.src@,
            bindings: Seq::new(self.bindings@.len(), |i: int| self.bindings@[i]@),
        }
    }
}

/// A field of a synthesized namespace object: the exported name and the
/// identifier it resolves to.
#[derive(Debug)]
pub struct NsField {
    pub export: String,
    pub target: Ident,
}

pub struct NsFieldV {
    pub export: Seq<char>,
    pub target: IdentV,
}

impl View for NsField {
    type V = NsFieldV;

    open spec fn view(&self) -> NsFieldV {
        NsFieldV { export: self.export@, target: self.target@ }
    }
}

/// A top-level item of a module body.
#[derive(Debug)]
pub enum Item {
    Import(ImportDecl),
    /// `export * from "src"`.
    ExportStar { src: String },
    /// `const name = init;`, optionally exported.
    Var { name: Ident, init: Expr, exported: bool },
    /// `function name() { body }`, optionally exported.  The body is a
    /// sequence of expression statements.
    Func { name: Ident, body: Vec<Expr>, exported: bool },
    /// A side-effecting expression statement.
    Stmt(Expr),
    /// A synthesized linking declaration `local = target;` inserted while
    /// merging, connecting an importer's binding to an exporter's name.
    Link { local: Ident, target: Ident },
    /// A synthesized namespace object `const name = { export_i: target_i };`
    /// materialized for a namespace import that could not be deglobbed.
    Namespace { name: Ident, fields: Vec<NsField> },
}

pub enum ItemV {
    Import(ImportDeclV),
    ExportStar { src: Seq<char> },
    Var { name: IdentV, init: ExprV, exported: bool },
    Func { name: IdentV, body: Seq<ExprV>, exported: bool },
    Stmt(ExprV),
    Link { local: IdentV, target: IdentV },
    Namespace { name: IdentV, fields: Seq<NsFieldV> },
}

impl View for Item {
    type V = ItemV;

    open spec fn view(&self) -> ItemV {
        match self {
            Item::Import(d) => ItemV::Import(d@),
            Item::ExportStar { src } => ItemV::ExportStar { src: src@ },
            Item::Var { name, init, exported } => ItemV::Var {
                name: name@,
                init: init@,
                exported: *exported,
            },
            Item::Func { name, body, exported } => ItemV::Func {
                name: name@,
                body: Seq::new(body@.len(), |i: int| body@[i]@),
                exported: *exported,
            },
            Item::Stmt(e) => ItemV::Stmt(e@),
            Item::Link { local, target } => ItemV::Link { local: local@, target: target@ },
            Item::Namespace { name, fields } => ItemV::Namespace {
                name: name@,
                fields: Seq::new(fields@.len(), |i: int| fields@[i]@),
            },
        }
    }
}

/// Where a specifier leads.  The analyzer emits `Unresolved`; the driver
/// replaces it with one of the other three after consulting the external
/// set and the resolver.
#[derive(Clone, Copy, Debug, PartialEq, Eq, Structural)]
pub enum Target {
    Unresolved,
    /// Listed in `external_modules`: never followed, kept at the bundle
    /// boundary.
    External,
    /// Resolved to the registered module with this identity.
    Internal { id: usize },
    /// Not external and the resolver failed; surfaced as an error.
    Unresolvable,
}

/// One specifier record of a module's `RawImports`: the source string as
/// written, where it leads, and the bindings it introduces.
#[derive(Debug)]
pub struct Specifier {
    pub src: String,
    pub target: Target,
    pub bindings: Vec<ImportBinding>,
}

pub struct SpecifierV {
    pub src: Seq<char>,
    pub target: Target,
    pub bindings: Seq<ImportBindingV>,
}

impl View for Specifier {
    type V = SpecifierV;

    open spec fn view(&self) -> SpecifierV {
        SpecifierV {
            src: self.src@,
            target: self.target,
            bindings: Seq::new(self.bindings@.len(), |i: int| self.bindings@[i]@),
        }
    }
}

/// A namespace import the analyzer rewrote into named imports: the original
/// local name and the member names that were actually referenced, in order
/// of first use.
#[derive(Debug)]
pub struct DeglobRecord {
    pub ns: String,
    pub members: Vec<String>,
}

pub struct DeglobRecordV {
    pub ns: Seq<char>,
    pub members: Seq<Seq<char>>,
}

impl View for DeglobRecord {
    type V = DeglobRecordV;

    open spec fn view(&self) -> DeglobRecordV {
        DeglobRecordV {
            ns: self.ns@,
            members: Seq::new(self.members@.len(), |i: int| self.members@[i]@),
        }
    }
}

/// The analyzer's result for one module: its specifier records in source
/// order and the namespace imports that were deglobbed.
#[derive(Debug)]
pub struct RawImports {
    pub specifiers: Vec<Specifier>,
    pub idents_to_deglob: Vec<DeglobRecord>,
}

pub struct RawImportsV {
    pub specifiers: Seq<SpecifierV>,
    pub idents_to_deglob: Seq<DeglobRecordV>,
}

impl View for RawImports {
    type V = RawImportsV;

    open spec fn view(&self) -> RawImportsV {
        RawImportsV {
            specifiers: Seq::new(self.specifiers@.len(), |i: int| self.specifiers@[i]@),
            idents_to_deglob: Seq::new(
                self.idents_to_deglob@.len(),
                |i: int| self.idents_to_deglob@[i]@,
            ),
        }
    }
}

/// A parsed module body.
#[derive(Debug)]
pub struct Module {
    pub body: Vec<Item>,
}

pub struct ModuleV {
    pub body: Seq<ItemV>,
}

impl View for Module {
    type V = ModuleV;

    open spec fn view(&self) -> ModuleV {
        ModuleV { body: Seq::new(self.body@.len(), |i: int| self.body@[i]@) }
    }
}

} // verus!
