//! Small verified string helpers shared by the analyzer and the finalizer:
//! character-wise equality, copying, concatenation with a separator, and
//! decimal rendering of marks.

use vstd::prelude::*;
use crate::ast::{FileName, Ident, Mark};

verus! {

/// Character-wise equality of two string slices.
pub fn str_eq(a: &str, b: &str) -> (r: bool)
    ensures
        r == (a@ == b@),
{
    let alen = a.unicode_len();
    let blen = b.unicode_len();
    if alen != blen {
        return false;
    }
    let mut i: usize = 0;
    while i < alen
        invariant
            i <= alen,
            alen == a@.len(),
            alen == b@.len(),
            forall|j: int| 0 <= j < i ==> a@[j] == b@[j],
        decreases alen - i,
    {
        if a.get_char(i) != b.get_char(i) {
            return false;
        }
        i = i + 1;
    }
    proof {
        assert(a@ =~= b@);
    }
    true
}

/// Equality of two strings by their character sequences.
pub fn string_eq(a: &String, b: &String) -> (r: bool)
    ensures
        r == (a@ == b@),
{
    *a == *b
}

pub fn copy_ident(i: &Ident) -> (r: Ident)
    ensures
        r@ == i@,
{
    Ident { sym: i.sym.clone(), ctxt: i.ctxt }
}

pub fn copy_filename(f: &FileName) -> (r: FileName)
    ensures
        r@ == f@,
{
    match f {
        FileName::Real { path } => FileName::Real { path: path.clone() },
        FileName::Custom { name } => FileName::Custom { name: name.clone() },
        FileName::Anon => FileName::Anon,
    }
}

/// Structural equality of two file names.
pub fn filename_eq(a: &FileName, b: &FileName) -> (r: bool)
    ensures
        r == (a@ == b@),
{
    match (a, b) {
        (FileName::Real { path: p1 }, FileName::Real { path: p2 }) => *p1 == *p2,
        (FileName::Custom { name: n1 }, FileName::Custom { name: n2 }) => *n1 == *n2,
        (FileName::Anon, FileName::Anon) => true,
        _ => false,
    }
}

pub open spec fn digit_char(d: int) -> char {
    if d == 0 {
        '0'
    } else if d == 1 {
        '1'
    } else if d == 2 {
        '2'
    } else if d == 3 {
        '3'
    } else if d == 4 {
        '4'
    } else if d == 5 {
        '5'
    } else if d == 6 {
        '6'
    } else if d == 7 {
        '7'
    } else if d == 8 {
        '8'
    } else {
        '9'
    }
}

/// The decimal spelling of a non-negative integer.
pub open spec fn dec_seq(n: int) -> Seq<char>
    decreases n,
{
    if n < 10 {
        seq![digit_char(n)]
    } else {
        dec_seq(n / 10).push(digit_char(n % 10))
    }
}

fn digit_str(d: u128) -> (s: &'static str)
    requires
        d < 10,
    ensures
        s@ =~= seq![digit_char(d as int)],
{
    proof {
        reveal_strlit("0");
        reveal_strlit("1");
        reveal_strlit("2");
        reveal_strlit("3");
        reveal_strlit("4");
        reveal_strlit("5");
        reveal_strlit("6");
        reveal_strlit("7");
        reveal_strlit("8");
        reveal_strlit("9");
    }
    if d == 0 {
        "0"
    } else if d == 1 {
        "1"
    } else if d == 2 {
        "2"
    } else if d == 3 {
        "3"
    } else if d == 4 {
        "4"
    } else if d == 5 {
        "5"
    } else if d == 6 {
        "6"
    } else if d == 7 {
        "7"
    } else if d == 8 {
        "8"
    } else {
        "9"
    }
}

/// Renders a mark in decimal.
pub fn dec_str(n: u128) -> (s: String)
    ensures
        s@ == dec_seq(n as int),
    decreases n,
{
    if n < 10 {
        digit_str(n).to_string()
    } else {
        let mut s = dec_str(n / 10);
        s.append(digit_str(n % 10));
        proof {
            assert(s@ =~= dec_seq(n as int));
        }
        s
    }
}

/// The globally unique spelling the hygiene pass gives a marked identifier:
/// the original symbol, a separator, and the mark in decimal.
pub open spec fn mangled(sym: Seq<char>, ctxt: Mark) -> Seq<char> {
    sym + seq!['$'] + dec_seq(ctxt as int)
}

/// Builds `sym$ctxt`.
pub fn mangle(sym: &String, ctxt: Mark) -> (r: String)
    ensures
        r@ == mangled(sym@, ctxt),
{
    let mut s = sym.clone();
    s.append("$");
    let d = dec_str(ctxt);
    s.append(d.as_str());
    proof {
        reveal_strlit("$");
        assert(s@ =~= mangled(sym@, ctxt));
    }
    s
}

/// The deterministic local name the deglob rewrite gives a member access
/// `ns.prop`: the namespace name, a separator, and the member name.
pub open spec fn deglob_name(ns: Seq<char>, prop: Seq<char>) -> Seq<char> {
    ns + seq!['$'] + prop
}

/// Builds `ns$prop`.
pub fn deglob_ident(ns: &String, prop: &String) -> (r: String)
    ensures
        r@ == deglob_name(ns@, prop@),
{
    let mut s = ns.clone();
    s.append("$");
    s.append(prop.as_str());
    proof {
        reveal_strlit("$");
        assert(s@ =~= deglob_name(ns@, prop@));
    }
    s
}

} // verus!
