use bundler_core::ast::{
    Expr, FileName, Ident, ImportBinding, ImportDecl, Item, Module, Str, StrKind,
};
use bundler_core::bundler::{
    BundleError, Bundler, Config, EntryRequest, Host, HostModule, ModuleType, Resolution,
};

fn ident(sym: &str) -> Ident {
    Ident { sym: sym.to_string(), ctxt: 0 }
}

fn read(sym: &str) -> Expr {
    Expr::Ident(ident(sym))
}

fn call(callee: Expr, args: Vec<Expr>) -> Expr {
    Expr::Call { callee: Box::new(callee), args }
}

fn member(obj: Expr, prop: &str) -> Expr {
    Expr::Member { obj: Box::new(obj), prop: prop.to_string() }
}

fn lit(s: &str) -> Expr {
    Expr::Lit(Str { value: s.to_string(), has_escape: false, kind: StrKind::Synthesized })
}

fn real_path(p: &str) -> FileName {
    FileName::Real { path: p.to_string() }
}

fn import_named(src: &str, pairs: &[(&str, &str)]) -> Item {
    let mut bindings = Vec::new();
    for (imported, local) in pairs {
        bindings.push(ImportBinding::Named {
            imported: imported.to_string(),
            local: ident(local),
        });
    }
    Item::Import(ImportDecl { src: src.to_string(), bindings })
}

fn import_ns(src: &str, local: &str) -> Item {
    Item::Import(ImportDecl {
        src: src.to_string(),
        bindings: vec![ImportBinding::Namespace { local: ident(local) }],
    })
}

fn var(name: &str, init: Expr, exported: bool) -> Item {
    Item::Var { name: ident(name), init, exported }
}

fn source(path: &str, body: Vec<Item>) -> HostModule {
    HostModule { path: real_path(path), source: Some(Module { body }) }
}

fn edge(base: &str, spec: &str, target: &str) -> Resolution {
    Resolution {
        base: real_path(base),
        specifier: spec.to_string(),
        target: real_path(target),
    }
}

fn es_config() -> Config {
    Config {
        require: false,
        disable_inliner: false,
        external_modules: Vec::new(),
        module: ModuleType::Es,
    }
}

fn entry(name: &str, path: &str) -> EntryRequest {
    EntryRequest { name: name.to_string(), path: real_path(path) }
}

fn item_syms(items: &[Item]) -> Vec<String> {
    let mut out = Vec::new();
    for it in items {
        match it {
            Item::Var { name, init, .. } => {
                out.push(name.sym.clone());
                expr_syms(init, &mut out);
            }
            Item::Func { name, body, .. } => {
                out.push(name.sym.clone());
                for e in body {
                    expr_syms(e, &mut out);
                }
            }
            Item::Stmt(e) => expr_syms(e, &mut out),
            Item::Link { local, target } => {
                out.push(local.sym.clone());
                out.push(target.sym.clone());
            }
            Item::Namespace { name, fields } => {
                out.push(name.sym.clone());
                for f in fields {
                    out.push(f.target.sym.clone());
                }
            }
            Item::Import(d) => {
                for b in &d.bindings {
                    match b {
                        ImportBinding::Default { local }
                        | ImportBinding::Named { local, .. }
                        | ImportBinding::Namespace { local }
                        | ImportBinding::Require { local } => out.push(local.sym.clone()),
                    }
                }
            }
            Item::ExportStar { .. } => {}
        }
    }
    out
}

fn expr_syms(e: &Expr, out: &mut Vec<String>) {
    match e {
        Expr::Ident(i) => out.push(i.sym.clone()),
        Expr::Member { obj, .. } => expr_syms(obj, out),
        Expr::Index { obj, index } => {
            expr_syms(obj, out);
            expr_syms(index, out);
        }
        Expr::Call { callee, args } => {
            expr_syms(callee, out);
            for a in args {
                expr_syms(a, out);
            }
        }
        Expr::Assign { target, value } => {
            out.push(target.sym.clone());
            expr_syms(value, out);
        }
        Expr::MemberAssign { obj, value, .. } => {
            out.push(obj.sym.clone());
            expr_syms(value, out);
        }
        Expr::Arrow { body } => expr_syms(body, out),
        Expr::Lit(_) | Expr::Num(_) => {}
    }
}

#[test]
fn two_module_es_bundle() {
    // a.js: import {x} from "./b"; console.log(x);   b.js: export const x = 1;
    let host = Host {
        resolutions: vec![edge("/a.js", "./b", "/b.js")],
        modules: vec![
            source(
                "/a.js",
                vec![
                    import_named("./b", &[("x", "x")]),
                    Item::Stmt(call(member(read("console"), "log"), vec![read("x")])),
                ],
            ),
            source("/b.js", vec![var("x", Expr::Num(1), true)]),
        ],
    };
    let mut b = Bundler::new(es_config(), host);
    let bundles = b.bundle(&vec![entry("main", "/a.js")]).unwrap();
    assert_eq!(bundles.len(), 1);
    let body = &bundles[0].module.body;
    // no import declarations remain
    assert!(body.iter().all(|it| !matches!(it, Item::Import(_))));
    // b.js was loaded second, so its export mark is 4: x carries it
    assert_eq!(body.len(), 2);
    match &body[0] {
        Item::Var { name, exported, .. } => {
            assert_eq!(name.sym, "x$4");
            assert_eq!(name.ctxt, 0);
            assert!(*exported);
        }
        other => panic!("unexpected item {:?}", other),
    }
    match &body[1] {
        Item::Stmt(Expr::Call { callee, args }) => {
            match &**callee {
                Expr::Member { obj, prop } => {
                    assert_eq!(prop, "log");
                    match &**obj {
                        Expr::Ident(i) => assert_eq!(i.sym, "console"),
                        other => panic!("unexpected object {:?}", other),
                    }
                }
                other => panic!("unexpected callee {:?}", other),
            }
            match &args[0] {
                Expr::Ident(i) => assert_eq!(i.sym, "x$4"),
                other => panic!("unexpected arg {:?}", other),
            }
        }
        other => panic!("unexpected item {:?}", other),
    }
    // single production: two loads, each path once, host fully consumed
    assert_eq!(b.loads.len(), 2);
    assert!(b.host.modules.iter().all(|m| m.source.is_none()));
}

#[test]
fn namespace_deglob() {
    // a.js: import * as m from "./b"; m.foo(); m.bar;
    // b.js: export function foo(){}  export const bar = 2;
    let host = Host {
        resolutions: vec![edge("/a.js", "./b", "/b.js")],
        modules: vec![
            source(
                "/a.js",
                vec![
                    import_ns("./b", "m"),
                    Item::Stmt(call(member(read("m"), "foo"), vec![])),
                    Item::Stmt(member(read("m"), "bar")),
                ],
            ),
            source(
                "/b.js",
                vec![
                    Item::Func { name: ident("foo"), body: vec![], exported: true },
                    var("bar", Expr::Num(2), true),
                ],
            ),
        ],
    };
    let mut b = Bundler::new(es_config(), host);
    let bundles = b.bundle(&vec![entry("main", "/a.js")]).unwrap();
    let body = &bundles[0].module.body;
    // no namespace object is materialized, and the namespace name is gone
    assert!(body.iter().all(|it| !matches!(it, Item::Namespace { .. })));
    let syms = item_syms(body);
    assert!(!syms.iter().any(|s| s == "m" || s.starts_with("m$")));
    assert!(syms.iter().any(|s| s == "foo$4"));
    assert!(syms.iter().any(|s| s == "bar$4"));
}

#[test]
fn namespace_kept_when_disqualified() {
    // a.js: import * as m from "./b"; send(m);  -- the namespace object
    // must be materialized.
    let host = Host {
        resolutions: vec![edge("/a.js", "./b", "/b.js")],
        modules: vec![
            source(
                "/a.js",
                vec![import_ns("./b", "m"), Item::Stmt(call(read("send"), vec![read("m")]))],
            ),
            source(
                "/b.js",
                vec![Item::Func { name: ident("foo"), body: vec![], exported: true }],
            ),
        ],
    };
    let mut b = Bundler::new(es_config(), host);
    let bundles = b.bundle(&vec![entry("main", "/a.js")]).unwrap();
    let body = &bundles[0].module.body;
    let ns = body.iter().find_map(|it| match it {
        Item::Namespace { name, fields } => Some((name.sym.clone(), fields.len())),
        _ => None,
    });
    let (ns_name, n_fields) = ns.expect("namespace object expected");
    assert_eq!(ns_name, "m$1");
    assert_eq!(n_fields, 1);
}

#[test]
fn external_passthrough() {
    // Config external_modules=["fs"].  The import survives verbatim and fs
    // is never resolved (the resolver table is empty, yet bundling is Ok).
    let host = Host {
        resolutions: vec![],
        modules: vec![
            source(
                "/a.js",
                vec![
                    import_named("fs", &[("readFile", "readFile")]),
                    Item::Stmt(call(read("readFile"), vec![lit("x")])),
                ],
            ),
        ],
    };
    let config = Config {
        require: false,
        disable_inliner: false,
        external_modules: vec!["fs".to_string()],
        module: ModuleType::Es,
    };
    let mut b = Bundler::new(config, host);
    let bundles = b.bundle(&vec![entry("main", "/a.js")]).unwrap();
    let body = &bundles[0].module.body;
    let srcs: Vec<&str> = body
        .iter()
        .filter_map(|it| match it {
            Item::Import(d) => Some(d.src.as_str()),
            _ => None,
        })
        .collect();
    assert_eq!(srcs, vec!["fs"]);
}

#[test]
fn dependency_cycle_bundles() {
    // a.js: import {b} from "./b"; export const a = () => b();
    // b.js: import {a} from "./a"; export const b = () => a();
    fn build_host() -> Host {
        Host {
            resolutions: vec![edge("/a.js", "./b", "/b.js"), edge("/b.js", "./a", "/a.js")],
            modules: vec![
                source(
                    "/a.js",
                    vec![
                        import_named("./b", &[("b", "b")]),
                        var("a", Expr::Arrow { body: Box::new(call(read("b"), vec![])) }, true),
                    ],
                ),
                source(
                    "/b.js",
                    vec![
                        import_named("./a", &[("a", "a")]),
                        var("b", Expr::Arrow { body: Box::new(call(read("a"), vec![])) }, true),
                    ],
                ),
            ],
        }
    }
    let mut b1 = Bundler::new(es_config(), build_host());
    let out1 = b1.bundle(&vec![entry("main", "/a.js")]).unwrap();
    let syms = item_syms(&out1[0].module.body);
    assert!(syms.iter().any(|s| s == "a$2"));
    assert!(syms.iter().any(|s| s == "b$4"));
    // each module is loaded once even though the cycle revisits both
    assert_eq!(b1.loads.len(), 2);
    // deterministic: an identical run produces an identical bundle
    let mut b2 = Bundler::new(es_config(), build_host());
    let out2 = b2.bundle(&vec![entry("main", "/a.js")]).unwrap();
    assert_eq!(format!("{:?}", out1), format!("{:?}", out2));
}

#[test]
fn cjs_top_level_require() {
    // const x = require("./b"); use(x);  with supports_cjs=true: the edge is
    // recorded, the bundle includes b.js, and no flag is raised.
    let host = Host {
        resolutions: vec![edge("/a.js", "./b", "/b.js")],
        modules: vec![
            source(
                "/a.js",
                vec![
                    var("x", call(read("require"), vec![lit("./b")]), false),
                    Item::Stmt(call(read("use"), vec![read("x")])),
                ],
            ),
            source("/b.js", vec![var("val", Expr::Num(1), true)]),
        ],
    };
    let config = Config {
        require: true,
        disable_inliner: false,
        external_modules: Vec::new(),
        module: ModuleType::Es,
    };
    let mut b = Bundler::new(config, host);
    let bundles = b.bundle(&vec![entry("main", "/a.js")]).unwrap();
    let body = &bundles[0].module.body;
    // the required module was merged in, accessed through a namespace object
    let syms = item_syms(body);
    assert!(syms.iter().any(|s| s == "val$4"));
    assert!(body.iter().any(|it| matches!(it, Item::Namespace { .. })));
    assert_eq!(b.loads.len(), 2);
    assert!(!b.scope.is_cjs(0));
    assert!(!b.scope.wrapping_required(0));
}

#[test]
fn cjs_nested_require_needs_wrapping() {
    // A require inside a function marks the containing module as requiring
    // wrapping, and records no edge.
    let host = Host {
        resolutions: vec![],
        modules: vec![
            source(
                "/a.js",
                vec![
                    Item::Func {
                        name: ident("f"),
                        body: vec![call(read("require"), vec![lit("./b")])],
                        exported: false,
                    },
                    Item::Stmt(call(read("f"), vec![])),
                ],
            ),
        ],
    };
    let config = Config {
        require: true,
        disable_inliner: false,
        external_modules: Vec::new(),
        module: ModuleType::Es,
    };
    let mut b = Bundler::new(config, host);
    let bundles = b.bundle(&vec![entry("main", "/a.js")]).unwrap();
    assert_eq!(bundles.len(), 1);
    assert_eq!(b.loads.len(), 1);
    assert!(b.scope.wrapping_required(0));
}

#[test]
fn resolve_failure_is_reported() {
    let host = Host {
        resolutions: vec![],
        modules: vec![
            source("/a.js", vec![import_named("./missing", &[("x", "x")])]),
        ],
    };
    let mut b = Bundler::new(es_config(), host);
    let err = b.bundle(&vec![entry("main", "/a.js")]).unwrap_err();
    assert_eq!(err.len(), 1);
    match &err[0] {
        BundleError::Resolve { specifier, .. } => assert_eq!(specifier, "./missing"),
        other => panic!("unexpected error {:?}", other),
    }
}

#[test]
fn load_failure_is_reported() {
    let host = Host {
        resolutions: vec![edge("/a.js", "./b", "/b.js")],
        modules: vec![
            source("/a.js", vec![import_named("./b", &[("x", "x")])]),
        ],
    };
    let mut b = Bundler::new(es_config(), host);
    let err = b.bundle(&vec![entry("main", "/a.js")]).unwrap_err();
    assert_eq!(err.len(), 1);
    match &err[0] {
        BundleError::Load { path } => match path {
            FileName::Real { path } => assert_eq!(path, "/b.js"),
            other => panic!("unexpected path {:?}", other),
        },
        other => panic!("unexpected error {:?}", other),
    }
}

#[test]
fn disable_inliner_keeps_links() {
    // With the inliner disabled, the synthesized link declarations survive.
    let host = Host {
        resolutions: vec![edge("/a.js", "./b", "/b.js")],
        modules: vec![
            source(
                "/a.js",
                vec![
                    import_named("./b", &[("x", "x")]),
                    Item::Stmt(call(read("use"), vec![read("x")])),
                ],
            ),
            source("/b.js", vec![var("x", Expr::Num(1), true)]),
        ],
    };
    let config = Config {
        require: false,
        disable_inliner: true,
        external_modules: Vec::new(),
        module: ModuleType::Es,
    };
    let mut b = Bundler::new(config, host);
    let bundles = b.bundle(&vec![entry("main", "/a.js")]).unwrap();
    let body = &bundles[0].module.body;
    assert!(body.iter().any(|it| matches!(it, Item::Link { .. })));
}

#[test]
fn iife_framing_hoists_external_imports() {
    let host = Host {
        resolutions: vec![],
        modules: vec![
            source(
                "/a.js",
                vec![
                    Item::Stmt(call(read("boot"), vec![])),
                    import_named("fs", &[("readFile", "readFile")]),
                    Item::Stmt(call(read("readFile"), vec![lit("x")])),
                ],
            ),
        ],
    };
    let config = Config {
        require: false,
        disable_inliner: false,
        external_modules: vec!["fs".to_string()],
        module: ModuleType::Iife,
    };
    let mut b = Bundler::new(config, host);
    let bundles = b.bundle(&vec![entry("main", "/a.js")]).unwrap();
    let body = &bundles[0].module.body;
    // the import moved to the front; the statements keep their order
    assert!(matches!(&body[0], Item::Import(_)));
    assert!(matches!(&body[1], Item::Stmt(_)));
    assert!(matches!(&body[2], Item::Stmt(_)));
}

#[test]
fn tree_shaking_drops_unreferenced_locals() {
    // An unexported, unreferenced declaration disappears; referenced and
    // exported ones stay.
    let host = Host {
        resolutions: vec![],
        modules: vec![
            source(
                "/a.js",
                vec![
                    var("unused", Expr::Num(1), false),
                    var("used", Expr::Num(2), false),
                    var("kept", Expr::Num(3), true),
                    Item::Stmt(call(read("print"), vec![read("used")])),
                ],
            ),
        ],
    };
    let mut b = Bundler::new(es_config(), host);
    let bundles = b.bundle(&vec![entry("main", "/a.js")]).unwrap();
    let body = &bundles[0].module.body;
    let syms = item_syms(body);
    assert!(!syms.iter().any(|s| s.starts_with("unused")));
    assert!(syms.iter().any(|s| s == "used$1"));
    assert!(syms.iter().any(|s| s == "kept$2"));
}

#[test]
fn shared_dependency_loads_once() {
    // a imports b and c; both b and c import d: d is loaded exactly once.
    let host = Host {
        resolutions: vec![
            edge("/a.js", "./b", "/b.js"),
            edge("/a.js", "./c", "/c.js"),
            edge("/b.js", "./d", "/d.js"),
            edge("/c.js", "./d", "/d.js"),
        ],
        modules: vec![
            source(
                "/a.js",
                vec![
                    import_named("./b", &[("b", "b")]),
                    import_named("./c", &[("c", "c")]),
                    Item::Stmt(call(read("b"), vec![read("c")])),
                ],
            ),
            source(
                "/b.js",
                vec![import_named("./d", &[("d", "db")]), var("b", read("db"), true)],
            ),
            source(
                "/c.js",
                vec![import_named("./d", &[("d", "dc")]), var("c", read("dc"), true)],
            ),
            source("/d.js", vec![var("d", Expr::Num(9), true)]),
        ],
    };
    let mut b = Bundler::new(es_config(), host);
    let bundles = b.bundle(&vec![entry("main", "/a.js")]).unwrap();
    assert_eq!(bundles.len(), 1);
    assert_eq!(b.loads.len(), 4);
    let mut seen: Vec<String> = Vec::new();
    for p in &b.loads {
        let s = format!("{:?}", p);
        assert!(!seen.contains(&s));
        seen.push(s);
    }
}

#[test]
fn reexport_chain_links_through() {
    // a: import {x} from "./b"; use(x);   b: export * from "./c";
    // c: export const x = 1;  -- the re-export is expanded with c's exports.
    let host = Host {
        resolutions: vec![edge("/a.js", "./b", "/b.js"), edge("/b.js", "./c", "/c.js")],
        modules: vec![
            source(
                "/a.js",
                vec![
                    import_named("./b", &[("x", "x")]),
                    Item::Stmt(call(read("use"), vec![read("x")])),
                ],
            ),
            source("/b.js", vec![Item::ExportStar { src: "./c".to_string() }]),
            source("/c.js", vec![var("x", Expr::Num(1), true)]),
        ],
    };
    let mut b = Bundler::new(es_config(), host);
    let bundles = b.bundle(&vec![entry("main", "/a.js")]).unwrap();
    let body = &bundles[0].module.body;
    // c is the third module registered, so its export mark is 6
    let syms = item_syms(body);
    assert!(syms.iter().any(|s| s == "x$6"));
    match body.iter().find(|it| matches!(it, Item::Stmt(_))) {
        Some(Item::Stmt(Expr::Call { args, .. })) => match &args[0] {
            Expr::Ident(i) => assert_eq!(i.sym, "x$6"),
            other => panic!("unexpected arg {:?}", other),
        },
        other => panic!("unexpected item {:?}", other),
    }
    assert!(body.iter().all(|it| !matches!(it, Item::ExportStar { .. })));
}
