use bundler_core::analyze::analyze;
use bundler_core::ast::{
    Expr, Ident, ImportBinding, ImportDecl, Item, Module, Str, StrKind, Target,
};

fn ident(sym: &str) -> Ident {
    Ident { sym: sym.to_string(), ctxt: 0 }
}

fn read(sym: &str) -> Expr {
    Expr::Ident(ident(sym))
}

fn call(callee: Expr, args: Vec<Expr>) -> Expr {
    Expr::Call { callee: Box::new(callee), args }
}

fn member(obj: Expr, prop: &str) -> Expr {
    Expr::Member { obj: Box::new(obj), prop: prop.to_string() }
}

fn lit(s: &str) -> Expr {
    Expr::Lit(Str { value: s.to_string(), has_escape: false, kind: StrKind::Synthesized })
}

fn ns_import(src: &str, local: &str) -> Item {
    Item::Import(ImportDecl {
        src: src.to_string(),
        bindings: vec![ImportBinding::Namespace { local: ident(local) }],
    })
}

#[test]
fn deglob_eligible_namespace() {
    // import * as m from "./b"; m.foo(); m.bar;  -- every use is a static
    // member access, so m is deglobbed into exactly {foo, bar}.
    let module = Module {
        body: vec![
            ns_import("./b", "m"),
            Item::Stmt(call(member(read("m"), "foo"), vec![])),
            Item::Stmt(member(read("m"), "bar")),
        ],
    };
    let (rewritten, raw, wrap) = analyze(&module, 1, 2, false);
    assert!(!wrap);
    assert_eq!(raw.idents_to_deglob.len(), 1);
    let rec = &raw.idents_to_deglob[0];
    assert_eq!(rec.ns, "m");
    let mut members: Vec<String> = rec.members.clone();
    members.sort();
    assert_eq!(members, vec!["bar".to_string(), "foo".to_string()]);
    // the namespace import became named imports of the deglobbed locals
    match &rewritten.body[0] {
        Item::Import(d) => {
            assert_eq!(d.bindings.len(), 2);
            match &d.bindings[0] {
                ImportBinding::Named { imported, local } => {
                    assert_eq!(imported, "foo");
                    assert_eq!(local.sym, "m$foo");
                    assert_eq!(local.ctxt, 1);
                }
                other => panic!("unexpected binding {:?}", other),
            }
        }
        other => panic!("unexpected item {:?}", other),
    }
    // member accesses became reads of the deglobbed locals
    match &rewritten.body[1] {
        Item::Stmt(Expr::Call { callee, .. }) => match &**callee {
            Expr::Ident(i) => {
                assert_eq!(i.sym, "m$foo");
                assert_eq!(i.ctxt, 1);
            }
            other => panic!("unexpected callee {:?}", other),
        },
        other => panic!("unexpected item {:?}", other),
    }
}

#[test]
fn deglob_disqualified_by_value_use() {
    // send(m) uses the namespace as a value: no deglob happens.
    let module = Module {
        body: vec![
            ns_import("./b", "m"),
            Item::Stmt(call(read("send"), vec![read("m")])),
        ],
    };
    let (rewritten, raw, _) = analyze(&module, 1, 2, false);
    assert_eq!(raw.idents_to_deglob.len(), 0);
    match &rewritten.body[0] {
        Item::Import(d) => match &d.bindings[0] {
            ImportBinding::Namespace { local } => {
                assert_eq!(local.sym, "m");
                assert_eq!(local.ctxt, 1);
            }
            other => panic!("unexpected binding {:?}", other),
        },
        other => panic!("unexpected item {:?}", other),
    }
}

#[test]
fn deglob_disqualified_by_dynamic_access() {
    // m[k] is a dynamic member access: no deglob.
    let module = Module {
        body: vec![
            ns_import("./b", "m"),
            Item::Stmt(Expr::Index { obj: Box::new(read("m")), index: Box::new(read("k")) }),
        ],
    };
    let (_, raw, _) = analyze(&module, 1, 2, false);
    assert_eq!(raw.idents_to_deglob.len(), 0);
}

#[test]
fn deglob_disqualified_by_assignment() {
    // m.x = 1 assigns through the namespace: no deglob.
    let module = Module {
        body: vec![
            ns_import("./b", "m"),
            Item::Stmt(Expr::MemberAssign {
                obj: ident("m"),
                prop: "x".to_string(),
                value: Box::new(Expr::Num(1)),
            }),
        ],
    };
    let (_, raw, _) = analyze(&module, 1, 2, false);
    assert_eq!(raw.idents_to_deglob.len(), 0);
}

#[test]
fn specifier_order_is_source_order() {
    let module = Module {
        body: vec![
            Item::Import(ImportDecl { src: "./z".to_string(), bindings: vec![] }),
            Item::Stmt(read("x")),
            Item::Import(ImportDecl { src: "./a".to_string(), bindings: vec![] }),
        ],
    };
    let (rewritten, raw, _) = analyze(&module, 1, 2, false);
    assert_eq!(raw.specifiers.len(), 2);
    assert_eq!(raw.specifiers[0].src, "./z");
    assert_eq!(raw.specifiers[1].src, "./a");
    assert!(matches!(raw.specifiers[0].target, Target::Unresolved));
    // one output item per input item, in order
    assert_eq!(rewritten.body.len(), 3);
    assert!(matches!(&rewritten.body[1], Item::Stmt(_)));
}

#[test]
fn colorization_marks_module_level_names() {
    // export const a = ...; const b = ...; uses of both get marked, exported
    // names with the export mark; globals stay unmarked.
    let module = Module {
        body: vec![
            Item::Var { name: ident("a"), init: Expr::Num(1), exported: true },
            Item::Var { name: ident("b"), init: read("a"), exported: false },
            Item::Stmt(call(read("print"), vec![read("b")])),
        ],
    };
    let (rewritten, _, _) = analyze(&module, 7, 8, false);
    match &rewritten.body[0] {
        Item::Var { name, .. } => assert_eq!(name.ctxt, 8),
        other => panic!("unexpected item {:?}", other),
    }
    match &rewritten.body[1] {
        Item::Var { name, init, .. } => {
            assert_eq!(name.ctxt, 7);
            match init {
                Expr::Ident(i) => assert_eq!(i.ctxt, 8),
                other => panic!("unexpected init {:?}", other),
            }
        }
        other => panic!("unexpected item {:?}", other),
    }
    match &rewritten.body[2] {
        Item::Stmt(Expr::Call { callee, args }) => {
            match &**callee {
                Expr::Ident(i) => assert_eq!(i.ctxt, 0),
                other => panic!("unexpected callee {:?}", other),
            }
            match &args[0] {
                Expr::Ident(i) => assert_eq!(i.ctxt, 7),
                other => panic!("unexpected arg {:?}", other),
            }
        }
        other => panic!("unexpected item {:?}", other),
    }
}

#[test]
fn top_level_require_becomes_an_edge() {
    // const x = require("./b");  -- with CommonJS support this is an import
    // edge, and nothing needs wrapping.
    let module = Module {
        body: vec![
            Item::Var {
                name: ident("x"),
                init: call(read("require"), vec![lit("./b")]),
                exported: false,
            },
        ],
    };
    let (rewritten, raw, wrap) = analyze(&module, 1, 2, true);
    assert!(!wrap);
    assert_eq!(raw.specifiers.len(), 1);
    assert_eq!(raw.specifiers[0].src, "./b");
    match &rewritten.body[0] {
        Item::Import(d) => match &d.bindings[0] {
            ImportBinding::Require { local } => {
                assert_eq!(local.sym, "x");
                assert_eq!(local.ctxt, 1);
            }
            other => panic!("unexpected binding {:?}", other),
        },
        other => panic!("unexpected item {:?}", other),
    }
}

#[test]
fn nested_require_marks_wrapping() {
    // A require inside a function body is not statically hoistable.
    let module = Module {
        body: vec![
            Item::Func {
                name: ident("f"),
                body: vec![call(read("require"), vec![lit("./b")])],
                exported: false,
            },
        ],
    };
    let (_, raw, wrap) = analyze(&module, 1, 2, true);
    assert!(wrap);
    assert_eq!(raw.specifiers.len(), 0);
}

#[test]
fn non_literal_require_marks_wrapping() {
    let module = Module {
        body: vec![
            Item::Stmt(call(read("require"), vec![read("dynamic")])),
        ],
    };
    let (_, raw, wrap) = analyze(&module, 1, 2, true);
    assert!(wrap);
    assert_eq!(raw.specifiers.len(), 0);
}

#[test]
fn require_ignored_without_cjs_support() {
    let module = Module {
        body: vec![
            Item::Var {
                name: ident("x"),
                init: call(read("require"), vec![lit("./b")]),
                exported: false,
            },
        ],
    };
    let (rewritten, raw, wrap) = analyze(&module, 1, 2, false);
    assert!(!wrap);
    assert_eq!(raw.specifiers.len(), 0);
    assert!(matches!(&rewritten.body[0], Item::Var { .. }));
}

#[test]
fn unused_namespace_deglobs_to_nothing() {
    // A namespace import with no uses at all is trivially eligible: it is
    // deglobbed into an import with no bindings, keeping the edge.
    let module = Module {
        body: vec![ns_import("./b", "m")],
    };
    let (rewritten, raw, _) = analyze(&module, 1, 2, false);
    assert_eq!(raw.idents_to_deglob.len(), 1);
    assert_eq!(raw.idents_to_deglob[0].members.len(), 0);
    match &rewritten.body[0] {
        Item::Import(d) => {
            assert_eq!(d.src, "./b");
            assert_eq!(d.bindings.len(), 0);
        }
        other => panic!("unexpected item {:?}", other),
    }
}

#[test]
fn bare_import_keeps_its_edge() {
    let module = Module {
        body: vec![Item::Import(ImportDecl { src: "./fx".to_string(), bindings: vec![] })],
    };
    let (rewritten, raw, _) = analyze(&module, 1, 2, false);
    assert_eq!(raw.specifiers.len(), 1);
    assert_eq!(raw.specifiers[0].src, "./fx");
    assert!(matches!(&rewritten.body[0], Item::Import(_)));
}
