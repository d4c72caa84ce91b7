//! The relation model: source positions, ranges, and declaration records.
//!
//! A `Position` identifies a span of source text.  Its identity — for
//! equality, ordering, and declaration keying — is the triple
//! `(file, offset, len)`; the optional `typ` tag is metadata and never takes
//! part in identity.  A `Relation` pairs one declared symbol with the
//! reference positions found for it in one analysis run.

use crate::order::{lemma_seq_le_antisym, lemma_seq_le_connex, lemma_seq_le_trans, seq_le, str_le};
use vstd::prelude::*;

verus! {

/// A span of source text: a file path, a byte offset, a byte length, and an
/// optional symbol-kind tag.
#[derive(Debug)]
pub struct Position {
    pub file: String,
    pub offset: usize,
    pub len: usize,
    pub typ: Option<String>,
}

/// Mathematical value of a `Position`.
#[verifier::ext_equal]
pub ghost struct PosV {
    pub file: Seq<char>,
    pub offset: nat,
    pub len: nat,
    pub typ: Option<Seq<char>>,
}

impl View for Position {
    type V = PosV;

    open spec fn view(&self) -> PosV {
        PosV {
            file: self.file@,
            offset: self.offset as nat,
            len: self.len as nat,
            typ: match self.typ {
                Some(t) => Some(t@),
                None => None,
            },
        }
    }
}

/// The mathematical values of a sequence of positions.
pub open spec fn pos_views(s: Seq<Position>) -> Seq<PosV> {
    s.map_values(|p: Position| p@)
}

/// The mathematical value of an optional duration.
pub open spec fn dur_view(o: Option<usize>) -> Option<nat> {
    match o {
        Some(d) => Some(d as nat),
        None => None,
    }
}

/// The mathematical value of an optional label.
pub open spec fn label_view(o: Option<String>) -> Option<Seq<char>> {
    match o {
        Some(s) => Some(s@),
        None => None,
    }
}

/// Two positions are the same position when file, offset and length agree;
/// the `typ` tag never takes part.
pub open spec fn key_eq(a: PosV, b: PosV) -> bool {
    a.file == b.file && a.offset == b.offset && a.len == b.len
}

/// Position order: by file path, then offset, then length.
pub open spec fn pos_le(a: PosV, b: PosV) -> bool {
    if a.file != b.file {
        seq_le(a.file, b.file)
    } else if a.offset != b.offset {
        a.offset < b.offset
    } else {
        a.len <= b.len
    }
}

pub proof fn lemma_pos_le_connex(a: PosV, b: PosV)
    ensures
        pos_le(a, b) || pos_le(b, a),
{
    lemma_seq_le_connex(a.file, b.file);
}

/// Positions below each other share a key.
pub proof fn lemma_pos_le_antisym(a: PosV, b: PosV)
    requires
        pos_le(a, b),
        pos_le(b, a),
    ensures
        key_eq(a, b),
{
    if a.file != b.file {
        lemma_seq_le_antisym(a.file, b.file);
    }
}

pub proof fn lemma_pos_le_trans(a: PosV, b: PosV, c: PosV)
    requires
        pos_le(a, b),
        pos_le(b, c),
    ensures
        pos_le(a, c),
{
    if a.file != b.file && b.file != c.file {
        lemma_seq_le_trans(a.file, b.file, c.file);
        if a.file == c.file {
            lemma_seq_le_antisym(a.file, b.file);
        }
    }
}

impl Position {
    /// Decides whether `self` and `other` are the same position, by the
    /// `(file, offset, len)` identity.
    pub fn key_equal(&self, other: &Position) -> (r: bool)
        ensures
            r == key_eq(self@, other@),
    {
        self.file == other.file && self.offset == other.offset && self.len == other.len
    }

    /// Decides the `(file, offset, len)` position order.
    pub fn key_le(&self, other: &Position) -> (r: bool)
        ensures
            r == pos_le(self@, other@),
    {
        if self.file == other.file {
            if self.offset == other.offset {
                self.len <= other.len
            } else {
                self.offset < other.offset
            }
        } else {
            str_le(self.file.as_str(), other.file.as_str())
        }
    }

    /// Copies a position, value for value.
    pub fn duplicate(&self) -> (r: Position)
        ensures
            r@ == self@,
    {
        Position {
            file: self.file.clone(),
            offset: self.offset,
            len: self.len,
            typ: match &self.typ {
                Some(t) => Some(t.clone()),
                None => None,
            },
        }
    }
}

impl PartialEq for Position {
    /// Position equality is the `(file, offset, len)` identity.
    fn eq(&self, other: &Self) -> (r: bool) {
        self.file == other.file && self.offset == other.offset && self.len == other.len
    }
}

impl vstd::std_specs::cmp::PartialEqSpecImpl for Position {
    open spec fn obeys_eq_spec() -> bool {
        true
    }

    open spec fn eq_spec(&self, other: &Self) -> bool {
        key_eq(self@, other@)
    }
}

impl Eq for Position {

}

/// A position stripped of its file: offset and length only.
#[derive(Debug, PartialEq, Eq, Structural, Hash, Clone, Copy)]
pub struct Range {
    pub offset: usize,
    pub len: usize,
}

/// Mathematical value of a `Range`.
#[verifier::ext_equal]
pub ghost struct RangeV {
    pub offset: nat,
    pub len: nat,
}

impl View for Range {
    type V = RangeV;

    open spec fn view(&self) -> RangeV {
        RangeV { offset: self.offset as nat, len: self.len as nat }
    }
}

/// The range of a position: its file dropped.
pub open spec fn range_of(p: PosV) -> RangeV {
    RangeV { offset: p.offset, len: p.len }
}

impl From<Position> for Range {
    /// Drops the file (and tag) of a position.
    fn from(p: Position) -> (r: Self) {
        Range { offset: p.offset, len: p.len }
    }
}

impl vstd::std_specs::convert::FromSpecImpl<Position> for Range {
    open spec fn obeys_from_spec() -> bool {
        true
    }

    open spec fn from_spec(p: Position) -> Self {
        Range { offset: p.offset, len: p.len }
    }
}

impl Range {
    /// Pairs the range with a file name, reconstructing a position.  The
    /// reconstructed position never carries a tag.
    pub fn with(&self, file: String) -> (r: Position)
        ensures
            r@.file == file@,
            r@.offset == self@.offset,
            r@.len == self@.len,
            r@.typ is None,
    {
        Position { file, offset: self.offset, len: self.len, typ: None }
    }
}

/// One declaration record: the declared symbol's position, the optional time
/// spent resolving its references, an optional symbol-kind search label, and
/// the reference positions found for it.
#[derive(Debug, PartialEq, Eq)]
pub struct Relation {
    pub decl: Position,
    pub duration: Option<usize>,
    /// Search type, e.g. local, type, method, static method, attribute,
    /// static attribute.
    pub search: Option<String>,
    pub refs: Vec<Position>,
}

/// Mathematical value of a `Relation`.
#[verifier::ext_equal]
pub ghost struct RelV {
    pub decl: PosV,
    pub duration: Option<nat>,
    pub search: Option<Seq<char>>,
    pub refs: Seq<PosV>,
}

impl View for Relation {
    type V = RelV;

    open spec fn view(&self) -> RelV {
        RelV {
            decl: self.decl@,
            duration: dur_view(self.duration),
            search: label_view(self.search),
            refs: pos_views(self.refs@),
        }
    }
}

/// The records of one analysis run.
pub type Relations = Vec<Relation>;

/// Declaration-identity normalization: when the search label is absent it is
/// populated from the declaration's tag; either way the tag is cleared, so
/// the declaration key used for matching never carries one.
pub open spec fn normalized(r: RelV) -> RelV {
    RelV {
        decl: PosV { file: r.decl.file, offset: r.decl.offset, len: r.decl.len, typ: None },
        duration: r.duration,
        search: if r.search is Some {
            r.search
        } else {
            r.decl.typ
        },
        refs: r.refs,
    }
}

/// Normalization never changes the declaration key, and the key used for
/// matching never carries a type tag.
pub proof fn lemma_normalized_key(r: RelV)
    ensures
        key_eq(normalized(r).decl, r.decl),
        normalized(r).decl.typ is None,
{
}

/// Normalizing twice is normalizing once.
pub proof fn lemma_normalized_idempotent(r: RelV)
    ensures
        normalized(normalized(r)) == normalized(r),
{
    assert(normalized(normalized(r)) =~= normalized(r));
}

impl Relation {
    /// Copies a relation, value for value.
    pub fn duplicate(&self) -> (r: Relation)
        ensures
            r@ == self@,
    {
        let mut refs: Vec<Position> = Vec::new();
        let mut i: usize = 0;
        while i < self.refs.len()
            invariant
                i <= self.refs.len(),
                refs@.len() == i as nat,
                forall|j: int| 0 <= j < i ==> refs@[j]@ == self.refs@[j]@,
            decreases self.refs.len() - i,
        {
            refs.push(self.refs[i].duplicate());
            i = i + 1;
        }
        let r = Relation {
            decl: self.decl.duplicate(),
            duration: self.duration,
            search: match &self.search {
                Some(s) => Some(s.clone()),
                None => None,
            },
            refs,
        };
        proof {
            assert(r@.refs =~= self@.refs);
            assert(r@ =~= self@);
        }
        r
    }

    /// Applies the normalization rule, consuming the record.
    pub fn normalize(self) -> (r: Relation)
        ensures
            r@ == normalized(self@),
    {
        let Relation { decl, duration, search, refs } = self;
        let Position { file, offset, len, typ } = decl;
        let r = match search {
            Some(s) => Relation {
                decl: Position { file, offset, len, typ: None },
                duration,
                search: Some(s),
                refs,
            },
            None => Relation {
                decl: Position { file, offset, len, typ: None },
                duration,
                search: typ,
                refs,
            },
        };
        proof {
            assert(r@ =~= normalized(self@));
        }
        r
    }
}

/// Whether some record in the run has the given declaration key.
pub open spec fn run_has_key(s: Seq<Relation>, k: PosV) -> bool {
    exists|i: int| 0 <= i < s.len() && key_eq(s[i].decl@, k)
}

/// Whether two records of the run share a declaration key.
pub open spec fn dup_in(s: Seq<Relation>) -> bool {
    exists|i: int, j: int|
        0 <= i < s.len() && 0 <= j < s.len() && i != j && key_eq(s[i].decl@, s[j].decl@)
}

/// Decides whether a run contains two records whose declarations share a key.
pub fn has_duplicate_key(s: &Vec<Relation>) -> (r: bool)
    ensures
        r == dup_in(s@),
{
    let mut i: usize = 0;
    while i < s.len()
        invariant
            i <= s.len(),
            forall|a: int, b: int|
                0 <= a < i && 0 <= b < s@.len() && a != b ==> !key_eq(s@[a].decl@, s@[b].decl@),
        decreases s.len() - i,
    {
        let mut j: usize = 0;
        while j < s.len()
            invariant
                i < s.len(),
                j <= s.len(),
                forall|a: int, b: int|
                    0 <= a < i && 0 <= b < s@.len() && a != b ==> !key_eq(s@[a].decl@, s@[b].decl@),
                forall|b: int| 0 <= b < j && b != i ==> !key_eq(s@[i as int].decl@, s@[b].decl@),
            decreases s.len() - j,
        {
            if j != i && s[i].decl.key_equal(&s[j].decl) {
                return true;
            }
            j = j + 1;
        }
        proof {
            assert forall|a: int, b: int|
                0 <= a < i + 1 && 0 <= b < s@.len() && a != b implies !key_eq(
                s@[a].decl@,
                s@[b].decl@,
            ) by {
                if a == i {
                } else if b == i {
                    assert(!key_eq(s@[b].decl@, s@[a].decl@));
                }
            }
        }
        i = i + 1;
    }
    false
}

/// The relations of one run, together with performance measurements of the
/// extraction that produced them.
#[derive(Debug, PartialEq, Eq)]
pub struct RelationsWithPerfs {
    pub relations: Option<Vec<PerModule<Vec<Relation>>>>,
    pub construction_perfs: Perfs,
    pub search_perfs: Option<Perfs>,
    pub info: Option<Info>,
}

/// A value attributed to one module of the analysed project.
#[derive(Debug, PartialEq, Eq)]
pub struct PerModule<T> {
    pub module: String,
    pub content: T,
}

/// Performance measurements of one extraction phase.
#[derive(Debug, PartialEq, Eq, Clone, Copy)]
pub struct Perfs {
    /// Time in nanoseconds.
    pub time: u128,
    /// Memory in bytes.
    pub memory: usize,
}

/// Provenance of one run's input data.
#[derive(Debug, PartialEq, Eq, Clone)]
pub struct Info {
    pub repo_name: String,
    pub commit: String,
    pub no: Option<usize>,
    pub batch_id: Option<String>,
}

} // verus!
