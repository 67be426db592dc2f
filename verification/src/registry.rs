//! The module registry: allocates a stable identity and a pair of fresh
//! contextual marks per file, tracks the monotone per-module flags, and
//! holds each analyzed module from its single publication until the chunker
//! takes it.
//!
//! Identities are indices into the registration sequence; the two marks of a
//! module are drawn deterministically from the identity (the fresh-mark
//! counter advances by two per registration), so distinctness of marks is a
//! consequence of distinctness of identities.

use vstd::prelude::*;
use crate::ast::{FileName, FileNameV, Mark, Module, ModuleV, RawImports, RawImportsV};
use crate::strutil::copy_filename;

verus! {

/// A published module: its rewritten body and its import records.
pub struct ModuleContent {
    pub module: Module,
    pub imports: RawImports,
}

pub struct ModuleContentV {
    pub module: ModuleV,
    pub imports: RawImportsV,
}

impl View for ModuleContent {
    type V = ModuleContentV;

    open spec fn view(&self) -> ModuleContentV {
        ModuleContentV { module: self.module@, imports: self.imports@ }
    }
}

/// One registration: the file's identity and state.  The module's two marks
/// are determined by its position in the registration sequence.
pub struct ModuleRecord {
    pub path: FileName,
    pub is_cjs: bool,
    pub wrapping_required: bool,
    pub content: Option<ModuleContent>,
}

pub struct ModuleRecordV {
    pub path: FileNameV,
    pub is_cjs: bool,
    pub wrapping_required: bool,
    pub content: Option<ModuleContentV>,
}

impl View for ModuleRecord {
    type V = ModuleRecordV;

    open spec fn view(&self) -> ModuleRecordV {
        ModuleRecordV {
            path: self.path@,
            is_cjs: self.is_cjs,
            wrapping_required: self.wrapping_required,
            content: match &self.content {
                Some(c) => Some(c@),
                None => None,
            },
        }
    }
}

/// The local mark of the module with identity `i`.
pub open spec fn local_mark_spec(i: int) -> int {
    2 * i + 1
}

/// The export mark of the module with identity `i`.
pub open spec fn export_mark_spec(i: int) -> int {
    2 * i + 2
}

/// Registered paths are pairwise distinct: one identity per file.
pub open spec fn reg_wf(rs: Seq<ModuleRecordV>) -> bool {
    forall|i: int, j: int| 0 <= i < j < rs.len() ==> rs[i].path != rs[j].path
}

/// The first registration with the given path, if any.
pub open spec fn spec_find(rs: Seq<ModuleRecordV>, p: FileNameV) -> Option<int>
    decreases rs.len(),
{
    if rs.len() == 0 {
        None
    } else if rs[0].path == p {
        Some(0int)
    } else {
        match spec_find(rs.drop_first(), p) {
            Some(i) => Some(i + 1),
            None => None,
        }
    }
}

/// What `spec_find` returns: the first index holding the path, or a witness
/// that no index does.
pub proof fn lemma_find_props(rs: Seq<ModuleRecordV>, p: FileNameV)
    ensures
        match spec_find(rs, p) {
            Some(i) => 0 <= i < rs.len() && rs[i].path == p && forall|j: int|
                0 <= j < i ==> rs[j].path != p,
            None => forall|j: int| 0 <= j < rs.len() ==> rs[j].path != p,
        },
    decreases rs.len(),
{
    if rs.len() == 0 {
    } else if rs[0].path == p {
    } else {
        let rest = rs.drop_first();
        lemma_find_props(rest, p);
        match spec_find(rest, p) {
            Some(i) => {
                assert(rest[i] == rs[i + 1]);
                assert forall|j: int| 0 <= j < i + 1 implies rs[j].path != p by {
                    if j > 0 {
                        assert(rest[j - 1] == rs[j]);
                    }
                }
            },
            None => {
                assert forall|j: int| 0 <= j < rs.len() implies rs[j].path != p by {
                    if j > 0 {
                        assert(rest[j - 1] == rs[j]);
                    }
                }
            },
        }
    }
}

/// If `i` is the first index holding the path, `spec_find` returns it.
pub proof fn lemma_find_first(rs: Seq<ModuleRecordV>, p: FileNameV, i: int)
    requires
        0 <= i < rs.len(),
        rs[i].path == p,
        forall|j: int| 0 <= j < i ==> rs[j].path != p,
    ensures
        spec_find(rs, p) == Some(i),
{
    lemma_find_props(rs, p);
    match spec_find(rs, p) {
        Some(k) => {
            if k < i {
                assert(rs[k].path != p);
            } else if k > i {
                assert(rs[i].path != p);
            }
        },
        None => {
            assert(rs[i].path != p);
        },
    }
}

/// A fresh, unpublished registration for a path.
pub open spec fn fresh_record(p: FileNameV) -> ModuleRecordV {
    ModuleRecordV { path: p, is_cjs: false, wrapping_required: false, content: None }
}

/// The registry step taken by an identity query: the new registration
/// sequence and the identity returned.
pub open spec fn spec_id_for(rs: Seq<ModuleRecordV>, p: FileNameV) -> (Seq<ModuleRecordV>, int) {
    match spec_find(rs, p) {
        Some(i) => (rs, i),
        None => (rs.push(fresh_record(p)), rs.len() as int),
    }
}

/// The per-module flags only ever turn on, and registrations are never
/// removed or re-pathed.
pub open spec fn flags_le(a: Seq<ModuleRecordV>, b: Seq<ModuleRecordV>) -> bool {
    &&& a.len() <= b.len()
    &&& forall|i: int| 0 <= i < a.len() ==> #[trigger] b[i].path == a[i].path
    &&& forall|i: int| 0 <= i < a.len() ==> (a[i].is_cjs ==> #[trigger] b[i].is_cjs)
    &&& forall|i: int|
        0 <= i < a.len() ==> (a[i].wrapping_required ==> #[trigger] b[i].wrapping_required)
}

pub struct Registry {
    pub records: Vec<ModuleRecord>,
}

impl View for Registry {
    type V = Seq<ModuleRecordV>;

    open spec fn view(&self) -> Seq<ModuleRecordV> {
        Seq::new(self.records@.len(), |i: int| self.records@[i]@)
    }
}

impl Registry {
    pub fn new() -> (r: Registry)
        ensures
            r@.len() == 0,
            reg_wf(r@),
    {
        Registry { records: Vec::new() }
    }

    pub fn len(&self) -> (r: usize)
        ensures
            r == self@.len(),
    {
        self.records.len()
    }

    /// The first registered identity for a path, if the path is known.
    pub fn find(&self, path: &FileName) -> (r: Option<usize>)
        ensures
            match r {
                Some(i) => spec_find(self@, path@) == Some(i as int),
                None => spec_find(self@, path@) is None,
            },
    {
        let mut i: usize = 0;
        let n = self.records.len();
        while i < n
            invariant
                i <= n,
                n == self@.len(),
                forall|j: int| 0 <= j < i ==> self@[j].path != path@,
            decreases n - i,
        {
            if crate::strutil::filename_eq(&self.records[i].path, path) {
                proof {
                    lemma_find_first(self@, path@, i as int);
                }
                return Some(i);
            }
            i = i + 1;
        }
        proof {
            lemma_find_props(self@, path@);
        }
        None
    }

    /// The local mark of a registered module.
    pub fn local_mark(&self, id: usize) -> (r: Mark)
        requires
            id < self@.len(),
        ensures
            r as int == local_mark_spec(id as int),
    {
        (id as u128) * 2 + 1
    }

    /// The export mark of a registered module.
    pub fn export_mark(&self, id: usize) -> (r: Mark)
        requires
            id < self@.len(),
        ensures
            r as int == export_mark_spec(id as int),
    {
        (id as u128) * 2 + 2
    }

    /// Idempotent identity allocation: returns the identity and mark pair of
    /// the path, registering it first if it is unknown.
    pub fn id_for(&mut self, path: &FileName) -> (r: (usize, Mark, Mark))
        requires
            reg_wf(old(self)@),
        ensures
            reg_wf(final(self)@),
            final(self)@ == spec_id_for(old(self)@, path@).0,
            r.0 as int == spec_id_for(old(self)@, path@).1,
            r.0 < final(self)@.len(),
            final(self)@[r.0 as int].path == path@,
            r.1 as int == local_mark_spec(r.0 as int),
            r.2 as int == export_mark_spec(r.0 as int),
            flags_le(old(self)@, final(self)@),
            forall|i: int| 0 <= i < old(self)@.len() ==> final(self)@[i] == old(self)@[i],
    {
        proof {
            lemma_find_props(self@, path@);
        }
        match self.find(path) {
            Some(i) => {
                let lm = self.local_mark(i);
                let em = self.export_mark(i);
                (i, lm, em)
            },
            None => {
                let id = self.records.len();
                self.records.push(
                    ModuleRecord {
                        path: copy_filename(path),
                        is_cjs: false,
                        wrapping_required: false,
                        content: None,
                    },
                );
                proof {
                    assert(self@ =~= spec_id_for(old(self)@, path@).0);
                }
                let lm = self.local_mark(id);
                let em = self.export_mark(id);
                (id, lm, em)
            },
        }
    }

    /// Whether the module's analyzed content is currently present.
    pub fn is_published(&self, id: usize) -> (r: bool)
        requires
            id < self@.len(),
        ensures
            r == (self@[id as int].content is Some),
    {
        self.records[id].content.is_some()
    }

    pub fn is_cjs(&self, id: usize) -> (r: bool)
        requires
            id < self@.len(),
        ensures
            r == self@[id as int].is_cjs,
    {
        self.records[id].is_cjs
    }

    pub fn wrapping_required(&self, id: usize) -> (r: bool)
        requires
            id < self@.len(),
        ensures
            r == self@[id as int].wrapping_required,
    {
        self.records[id].wrapping_required
    }

    /// Monotone flag setter: the module stays CommonJS once marked.
    pub fn mark_as_cjs(&mut self, id: usize)
        requires
            id < old(self)@.len(),
        ensures
            final(self)@ =~= old(self)@.update(
                id as int,
                ModuleRecordV { is_cjs: true, ..old(self)@[id as int] },
            ),
            flags_le(old(self)@, final(self)@),
            final(self)@[id as int].is_cjs,
    {
        let mut rec = self.records.remove(id);
        rec.is_cjs = true;
        self.records.insert(id, rec);
    }

    /// Monotone flag setter: the module keeps requiring wrapping once marked.
    pub fn mark_as_wrapping_required(&mut self, id: usize)
        requires
            id < old(self)@.len(),
        ensures
            final(self)@ =~= old(self)@.update(
                id as int,
                ModuleRecordV { wrapping_required: true, ..old(self)@[id as int] },
            ),
            flags_le(old(self)@, final(self)@),
            final(self)@[id as int].wrapping_required,
    {
        let mut rec = self.records.remove(id);
        rec.wrapping_required = true;
        self.records.insert(id, rec);
    }

    /// Single-shot publication of an analyzed module.
    pub fn insert_module(&mut self, id: usize, module: Module, imports: RawImports)
        requires
            id < old(self)@.len(),
            old(self)@[id as int].content is None,
        ensures
            final(self)@ =~= old(self)@.update(
                id as int,
                ModuleRecordV {
                    content: Some(ModuleContentV { module: module@, imports: imports@ }),
                    ..old(self)@[id as int]
                },
            ),
            flags_le(old(self)@, final(self)@),
    {
        let mut rec = self.records.remove(id);
        rec.content = Some(ModuleContent { module, imports });
        self.records.insert(id, rec);
    }

    /// Borrow a published module's content.
    pub fn module_ref(&self, id: usize) -> (r: &ModuleContent)
        requires
            id < self@.len(),
            self@[id as int].content is Some,
        ensures
            Some(r@) == self@[id as int].content,
    {
        match &self.records[id].content {
            Some(c) => c,
            None => {
                proof {
                    assert(false);
                }
                loop
                    invariant
                        false,
                    decreases 0int,
                {
                }
            },
        }
    }

    /// Destructive read used by the chunker: the content moves out and the
    /// registration becomes unpublished.
    pub fn take_module(&mut self, id: usize) -> (r: ModuleContent)
        requires
            id < old(self)@.len(),
            old(self)@[id as int].content is Some,
        ensures
            final(self)@ =~= old(self)@.update(
                id as int,
                ModuleRecordV { content: None, ..old(self)@[id as int] },
            ),
            Some(r@) == old(self)@[id as int].content,
            flags_le(old(self)@, final(self)@),
    {
        let mut rec = self.records.remove(id);
        let c = rec.content;
        rec.content = None;
        self.records.insert(id, rec);
        match c {
            Some(content) => content,
            None => {
                proof {
                    assert(false);
                }
                loop
                    invariant
                        false,
                    decreases 0int,
                {
                }
            },
        }
    }
}

/// Identity stability: querying a path twice returns the same identity, and
/// the second query does not change the registry.
pub proof fn lemma_identity_stability(rs: Seq<ModuleRecordV>, p: FileNameV)
    requires
        reg_wf(rs),
    ensures
        ({
            let (rs1, id1) = spec_id_for(rs, p);
            let (rs2, id2) = spec_id_for(rs1, p);
            id2 == id1 && rs2 == rs1
        }),
{
    lemma_find_props(rs, p);
    let (rs1, id1) = spec_id_for(rs, p);
    lemma_find_props(rs1, p);
    match spec_find(rs, p) {
        Some(i) => {},
        None => {
            match spec_find(rs1, p) {
                Some(k) => {
                    assert(k == rs.len());
                },
                None => {
                    assert(rs1[rs.len() as int].path == p);
                },
            }
        },
    }
}

/// Mark disjointness: the local and export marks of distinct modules differ,
/// and no module's local mark equals any module's export mark.
pub proof fn lemma_mark_disjointness(i: int, j: int)
    requires
        0 <= i,
        0 <= j,
    ensures
        i != j ==> local_mark_spec(i) != local_mark_spec(j),
        i != j ==> export_mark_spec(i) != export_mark_spec(j),
        local_mark_spec(i) != export_mark_spec(j),
        local_mark_spec(i) != 0,
        export_mark_spec(i) != 0,
{
}

/// Flag monotonicity is preserved across any chain of registry operations:
/// `flags_le` is reflexive and transitive, and every mutating operation of
/// [`Registry`] ensures it from the old state to the new.
pub proof fn lemma_flags_monotone(a: Seq<ModuleRecordV>, b: Seq<ModuleRecordV>, c: Seq<ModuleRecordV>)
    requires
        flags_le(a, b),
        flags_le(b, c),
    ensures
        flags_le(a, c),
        flags_le(a, a),
{
}

} // verus!
