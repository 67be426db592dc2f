use bundler_core::ast::{Ident, Module, Str, StrKind};
use bundler_core::bundler::ModuleType;
use bundler_core::registry::Registry;
use bundler_core::resolver::is_core_module;
use bundler_core::strutil::{dec_str, mangle, str_eq};

#[test]
fn str_eq_basics() {
    assert!(str_eq("", ""));
    assert!(str_eq("abc", "abc"));
    assert!(!str_eq("abc", "abd"));
    assert!(!str_eq("abc", "ab"));
}

#[test]
fn dec_str_values() {
    assert_eq!(dec_str(0), "0");
    assert_eq!(dec_str(7), "7");
    assert_eq!(dec_str(10), "10");
    assert_eq!(dec_str(1234567890123), "1234567890123");
}

#[test]
fn mangle_builds_unique_spelling() {
    assert_eq!(mangle(&"x".to_string(), 4), "x$4");
    assert_eq!(mangle(&"foo".to_string(), 12), "foo$12");
}

#[test]
fn core_module_table() {
    assert!(is_core_module("fs"));
    assert!(is_core_module("fs/promises"));
    assert!(is_core_module("path"));
    assert!(is_core_module("_http_agent"));
    assert!(is_core_module("zlib"));
    assert!(!is_core_module("leftpad"));
    assert!(!is_core_module("FS"));
    assert!(!is_core_module(""));
}

#[test]
fn str_literal_is_empty() {
    let s = Str { value: String::new(), has_escape: false, kind: StrKind::Synthesized };
    assert!(s.is_empty());
    let t = Str { value: "a".to_string(), has_escape: false, kind: StrKind::default() };
    assert!(!t.is_empty());
}

#[test]
fn str_kind_default_is_synthesized() {
    assert_eq!(StrKind::default(), StrKind::Synthesized);
}

#[test]
fn module_type_default_is_es() {
    assert_eq!(ModuleType::default(), ModuleType::Es);
}

fn real_name(p: &str) -> bundler_core::ast::FileName {
    bundler_core::ast::FileName::Real { path: p.to_string() }
}

#[test]
fn identity_stability_concrete() {
    // Repeated registry queries return the same identity triple.
    let mut reg = Registry::new();
    let a = real_name("/a.js");
    let first = reg.id_for(&a);
    let second = reg.id_for(&a);
    assert_eq!(first.0, second.0);
    assert_eq!(first.1, second.1);
    assert_eq!(first.2, second.2);
    assert_eq!(reg.len(), 1);
}

#[test]
fn mark_disjointness_concrete() {
    // Local and export marks of distinct modules are pairwise distinct.
    let mut reg = Registry::new();
    let (_, la, ea) = reg.id_for(&real_name("/a.js"));
    let (_, lb, eb) = reg.id_for(&real_name("/b.js"));
    assert_ne!(la, ea);
    assert_ne!(lb, eb);
    assert_ne!(la, lb);
    assert_ne!(ea, eb);
    assert_ne!(la, eb);
    assert_ne!(lb, ea);
    assert_ne!(la, 0);
    assert_ne!(ea, 0);
}

#[test]
fn flags_are_monotone() {
    // Once set, no later operation clears a flag.
    let mut reg = Registry::new();
    let (a, _, _) = reg.id_for(&real_name("/a.js"));
    assert!(!reg.is_cjs(a));
    assert!(!reg.wrapping_required(a));
    reg.mark_as_cjs(a);
    assert!(reg.is_cjs(a));
    reg.mark_as_cjs(a);
    assert!(reg.is_cjs(a));
    reg.mark_as_wrapping_required(a);
    let (_, _, _) = reg.id_for(&real_name("/b.js"));
    let m = Module { body: Vec::new() };
    let raw = bundler_core::ast::RawImports {
        specifiers: Vec::new(),
        idents_to_deglob: Vec::new(),
    };
    reg.insert_module(a, m, raw);
    assert!(reg.is_cjs(a));
    assert!(reg.wrapping_required(a));
    let _ = reg.take_module(a);
    assert!(reg.is_cjs(a));
    assert!(reg.wrapping_required(a));
}

#[test]
fn publish_and_take() {
    let mut reg = Registry::new();
    let (a, _, _) = reg.id_for(&real_name("/a.js"));
    assert!(!reg.is_published(a));
    let m = Module {
        body: vec![bundler_core::ast::Item::Stmt(bundler_core::ast::Expr::Num(5))],
    };
    let raw = bundler_core::ast::RawImports {
        specifiers: Vec::new(),
        idents_to_deglob: Vec::new(),
    };
    reg.insert_module(a, m, raw);
    assert!(reg.is_published(a));
    let content = reg.take_module(a);
    assert!(!reg.is_published(a));
    assert_eq!(content.module.body.len(), 1);
    let _ = Ident { sym: "x".to_string(), ctxt: 0 };
}

#[test]
fn dec_str_largest_mark() {
    assert_eq!(dec_str(u128::MAX), "340282366920938463463374607431768211455");
}

#[test]
fn str_kind_comparison_ignores_span() {
    assert!(StrKind::Synthesized.eq_ignore_span(&StrKind::Normal { contains_quote: true }));
    assert!(StrKind::Normal { contains_quote: false }.eq_ignore_span(&StrKind::Synthesized));
}
