//! The comparator's output model.

use crate::refs::{distinct_keys, ref_has_key, sorted_positions};
use crate::relations::{pos_views, range_of, PosV, Range, RangeV, RelV, Position, Relation};
use vstd::prelude::*;

verus! {

/// A value reported by both runs, side by side.
#[derive(Debug, PartialEq, Eq, Clone)]
pub struct Versus<T> {
    pub baseline: T,
    pub evaluated: T,
}

/// The unmatched references of one source file within a matched declaration:
/// the ranges only the baseline found and the ranges only the evaluated run
/// found.
#[derive(Debug, PartialEq, Eq)]
pub struct PerFile {
    pub file: String,
    pub left: Vec<Range>,
    pub right: Vec<Range>,
}

/// One matched declaration: the shared declaration key, the optional
/// metadata pairings, the references found identically on both sides, the
/// per-file breakdown of the differences, and the flattened baseline-only
/// and evaluated-only reference lists.  The `contained` fields are reserved
/// for containment-style near-matches and are always empty.
#[derive(Debug, PartialEq, Eq)]
pub struct Comparison {
    pub decl: Position,
    pub duration: Option<Versus<usize>>,
    pub search: Option<Versus<String>>,
    pub exact: Vec<Position>,
    pub per_file: Vec<PerFile>,
    pub left: Vec<Position>,
    pub right: Vec<Position>,
    pub left_contained: Vec<Position>,
    pub right_contained: Vec<Position>,
}

/// The result of comparing two runs: names for the runs, one `Comparison`
/// per declaration present in both, and the records whose declaration
/// appears in only one run.
#[derive(Debug, PartialEq, Eq)]
pub struct Comparisons {
    pub left_name: String,
    pub right_name: String,
    pub exact: Vec<Comparison>,
    pub left: Vec<Relation>,
    pub right: Vec<Relation>,
}

/// The mathematical values of a sequence of ranges.
pub open spec fn range_views(s: Seq<Range>) -> Seq<RangeV> {
    s.map_values(|r: Range| r@)
}

/// The ranges of the positions lying in file `f`, in order.
pub open spec fn ranges_in(s: Seq<PosV>, f: Seq<char>) -> Seq<RangeV>
    decreases s.len(),
{
    if s.len() == 0 {
        Seq::empty()
    } else if s.last().file == f {
        ranges_in(s.drop_last(), f).push(range_of(s.last()))
    } else {
        ranges_in(s.drop_last(), f)
    }
}

/// What the duration pairing of a matched declaration states: absent only
/// when neither side reported a duration; otherwise the absent side defaults
/// to zero.
pub open spec fn duration_spec(d: Option<Versus<usize>>, l: Option<nat>, r: Option<nat>) -> bool {
    if l is None && r is None {
        d is None
    } else {
        &&& d is Some
        &&& d->0.baseline as nat == (if l is Some { l->0 } else { 0 })
        &&& d->0.evaluated as nat == (if r is Some { r->0 } else { 0 })
    }
}

/// What the search-label pairing states: absent only when neither side
/// reported a label; otherwise the absent side defaults to the empty label.
pub open spec fn search_spec(
    s: Option<Versus<String>>,
    l: Option<Seq<char>>,
    r: Option<Seq<char>>,
) -> bool {
    if l is None && r is None {
        s is None
    } else {
        &&& s is Some
        &&& s->0.baseline@ == (if l is Some { l->0 } else { Seq::<char>::empty() })
        &&& s->0.evaluated@ == (if r is Some { r->0 } else { Seq::<char>::empty() })
    }
}

/// What the per-file breakdown states, given the flattened baseline-only
/// (`lo`) and evaluated-only (`ro`) reference values: one entry per file with
/// a difference, holding exactly the unmatched ranges of that file; under
/// `il` (`intersection_left`) only files with at least one baseline-only
/// reference are kept.
/// Whether the breakdown holds an entry for file `f`.
pub open spec fn pf_has_file(pf: Seq<PerFile>, f: Seq<char>) -> bool {
    exists|i: int| 0 <= i < pf.len() && pf[i].file@ == f
}

pub open spec fn per_file_spec(pf: Seq<PerFile>, lo: Seq<PosV>, ro: Seq<PosV>, il: bool) -> bool {
    &&& forall|i: int|
        #![trigger pf[i]]
        0 <= i < pf.len() ==> {
            &&& range_views(pf[i].left@) == ranges_in(lo, pf[i].file@)
            &&& range_views(pf[i].right@) == ranges_in(ro, pf[i].file@)
            &&& (il ==> pf[i].left@.len() > 0)
            &&& pf[i].left@.len() + pf[i].right@.len() > 0
        }
    &&& forall|i: int, j: int| 0 <= i < j < pf.len() ==> pf[i].file@ != pf[j].file@
    &&& forall|j: int| #![trigger lo[j]] 0 <= j < lo.len() ==> pf_has_file(pf, lo[j].file)
    &&& (!il ==> forall|j: int|
        #![trigger ro[j]]
        0 <= j < ro.len() ==> pf_has_file(pf, ro[j].file))
}

/// Everything a `Comparison` of one matched declaration states, relative to
/// the two normalized records `lv` (baseline) and `rv` (evaluated).
pub open spec fn comparison_spec(cm: Comparison, lv: RelV, rv: RelV, il: bool) -> bool {
    let ex = pos_views(cm.exact@);
    let lo = pos_views(cm.left@);
    let ro = pos_views(cm.right@);
    // the shared declaration key
    &&& cm.decl@ == lv.decl
    // exact: one reference per key found on both sides, taken from the
    // evaluated side, in position order
    &&& sorted_positions(cm.exact@)
    &&& distinct_keys(ex)
    &&& forall|i: int|
        #![trigger ex[i]]
        0 <= i < ex.len() ==> rv.refs.contains(ex[i]) && ref_has_key(lv.refs, ex[i])
    &&& forall|j: int|
        #![trigger rv.refs[j]]
        0 <= j < rv.refs.len() && ref_has_key(lv.refs, rv.refs[j]) ==> ref_has_key(ex, rv.refs[j])
    // left: one reference per key found only by the baseline, in order
    &&& sorted_positions(cm.left@)
    &&& distinct_keys(lo)
    &&& forall|i: int|
        #![trigger lo[i]]
        0 <= i < lo.len() ==> lv.refs.contains(lo[i]) && !ref_has_key(rv.refs, lo[i])
    &&& forall|j: int|
        #![trigger lv.refs[j]]
        0 <= j < lv.refs.len() && !ref_has_key(rv.refs, lv.refs[j]) ==> ref_has_key(lo, lv.refs[j])
    // right: one reference per key found only by the evaluated run, in order
    &&& sorted_positions(cm.right@)
    &&& distinct_keys(ro)
    &&& forall|i: int|
        #![trigger ro[i]]
        0 <= i < ro.len() ==> rv.refs.contains(ro[i]) && !ref_has_key(lv.refs, ro[i])
    &&& forall|j: int|
        #![trigger rv.refs[j]]
        0 <= j < rv.refs.len() && !ref_has_key(lv.refs, rv.refs[j]) ==> ref_has_key(ro, rv.refs[j])
    // the per-file breakdown of the differences
    &&& per_file_spec(cm.per_file@, lo, ro, il)
    // metadata pairings
    &&& duration_spec(cm.duration, lv.duration, rv.duration)
    &&& search_spec(cm.search, lv.search, rv.search)
    // reserved containment fields, always empty
    &&& cm.left_contained@.len() == 0
    &&& cm.right_contained@.len() == 0
}

} // verus!
