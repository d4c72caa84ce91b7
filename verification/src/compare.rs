//! The comparator: joins two runs by normalized declaration identity.

use crate::comparisons::{
    comparison_spec, duration_spec, per_file_spec, pf_has_file, range_views, ranges_in,
    search_spec, Comparison, Comparisons, PerFile, Versus,
};
use crate::refs::{
    collect_files, dedup_refs, distinct_keys, find_key, has_file, has_file_name,
    lemma_has_key_after_remove, lemma_has_key_remove_subset, lemma_remove_sorted_distinct,
    ref_has_key, sorted_positions, value_in, value_in_prefix,
};
use crate::relations::{
    dup_in, dur_view, has_duplicate_key, key_eq, label_view, normalized, pos_le, pos_views,
    range_of, run_has_key,
    PosV, Position, Range, Relation, Relations, RelV,
};
use vstd::prelude::*;

verus! {

/// Failure of the comparison entry point.
#[derive(Debug, PartialEq, Eq, Structural, Clone, Copy)]
pub enum CompareError {
    /// One run holds two records whose declarations normalize to the same
    /// key; the producer must deduplicate declarations before comparing.
    DuplicateDeclaration,
}

/// Configuration of a comparison run.
pub struct Comparator {
    /// When set, a matched declaration's per-file breakdown keeps only the
    /// files with at least one baseline-only reference.
    pub intersection_left: bool,
}

impl Default for Comparator {
    /// The per-file breakdown keeps every file with a difference.
    fn default() -> (r: Self)
        ensures
            !r.intersection_left,
    {
        Comparator { intersection_left: false }
    }
}

impl Comparator {
    /// Chooses the per-file filtering policy.
    pub fn set_intersection_left(self, intersection_left: bool) -> (r: Self)
        ensures
            r.intersection_left == intersection_left,
    {
        Comparator { intersection_left }
    }
}

fn versus_duration(l: Option<usize>, r: Option<usize>) -> (d: Option<Versus<usize>>)
    ensures
        duration_spec(d, dur_view(l), dur_view(r)),
{
    match (l, r) {
        (None, None) => None,
        (lo, ro) => Some(
            Versus {
                baseline: lo.unwrap_or(0),
                evaluated: ro.unwrap_or(0),
            },
        ),
    }
}

fn versus_search(l: Option<String>, r: Option<String>) -> (s: Option<Versus<String>>)
    ensures
        search_spec(s, label_view(l), label_view(r)),
{
    match (l, r) {
        (None, None) => None,
        (lo, ro) => {
            let baseline = match lo {
                Some(x) => x,
                None => String::new(),
            };
            let evaluated = match ro {
                Some(x) => x,
                None => String::new(),
            };
            Some(Versus { baseline, evaluated })
        },
    }
}

/// The offset/length ranges of the positions of `v` lying in file `f`.
fn collect_ranges(v: &Vec<Position>, f: &String) -> (out: Vec<Range>)
    ensures
        range_views(out@) == ranges_in(pos_views(v@), f@),
{
    let mut out: Vec<Range> = Vec::new();
    let mut i: usize = 0;
    proof {
        assert(pos_views(v@.subrange(0, 0)) =~= Seq::<PosV>::empty());
        assert(range_views(out@) =~= ranges_in(pos_views(v@.subrange(0, 0)), f@));
    }
    while i < v.len()
        invariant
            i <= v@.len(),
            range_views(out@) == ranges_in(pos_views(v@.subrange(0, i as int)), f@),
        decreases v@.len() - i,
    {
        let ghost out_before = out@;
        let ghost prefix = pos_views(v@.subrange(0, i as int));
        let same = v[i].file.eq(f);
        if same {
            out.push(Range { offset: v[i].offset, len: v[i].len });
        }
        proof {
            let prefix1 = pos_views(v@.subrange(0, i + 1));
            assert(prefix1 =~= prefix.push(v@[i as int]@));
            assert(prefix1.drop_last() =~= prefix);
            assert(prefix1.last() == v@[i as int]@);
            if same {
                assert(prefix1.last().file == f@);
                assert(out@ =~= out_before.push(out@[out@.len() - 1]));
                assert(out@[out@.len() - 1]@ =~= range_of(prefix1.last()));
                assert(range_views(out@) =~= range_views(out_before).push(
                    range_of(prefix1.last()),
                ));
                assert(ranges_in(prefix1, f@) == ranges_in(prefix, f@).push(
                    range_of(prefix1.last()),
                ));
            } else {
                assert(prefix1.last().file != f@);
                assert(ranges_in(prefix1, f@) == ranges_in(prefix, f@));
            }
        }
        i = i + 1;
    }
    proof {
        assert(v@.subrange(0, v@.len() as int) =~= v@);
    }
    out
}

proof fn lemma_ranges_in_nonempty(s: Seq<PosV>, f: Seq<char>, m: int)
    requires
        0 <= m < s.len(),
        s[m].file == f,
    ensures
        ranges_in(s, f).len() > 0,
    decreases s.len(),
{
    if m == s.len() - 1 {
    } else {
        assert(s.drop_last()[m] == s[m]);
        lemma_ranges_in_nonempty(s.drop_last(), f, m);
    }
}

/// Groups the unmatched references by source file.
#[verifier::rlimit(60)]
fn build_per_file(left_only: &Vec<Position>, right_only: &Vec<Position>, il: bool) -> (pf: Vec<
    PerFile,
>)
    ensures
        per_file_spec(pf@, pos_views(left_only@), pos_views(right_only@), il),
{
    let ghost lo = pos_views(left_only@);
    let ghost ro = pos_views(right_only@);
    let files = collect_files(left_only, right_only);
    let mut pf: Vec<PerFile> = Vec::new();
    let mut fi: usize = 0;
    while fi < files.len()
        invariant
            fi <= files@.len(),
            forall|i: int, j: int| 0 <= i < j < files@.len() ==> files@[i]@ != files@[j]@,
            lo == pos_views(left_only@),
            ro == pos_views(right_only@),
            forall|i: int|
                #![trigger files@[i]]
                0 <= i < files@.len() ==> has_file(lo, files@[i]@) || has_file(ro, files@[i]@),
            forall|m: int|
                #![trigger pf@[m]]
                0 <= m < pf@.len() ==> {
                    &&& range_views(pf@[m].left@) == ranges_in(lo, pf@[m].file@)
                    &&& range_views(pf@[m].right@) == ranges_in(ro, pf@[m].file@)
                    &&& (il ==> pf@[m].left@.len() > 0)
                    &&& pf@[m].left@.len() + pf@[m].right@.len() > 0
                },
            forall|m: int|
                #![trigger pf@[m]]
                0 <= m < pf@.len() ==> exists|g: int| 0 <= g < fi && files@[g]@ == pf@[m].file@,
            forall|m1: int, m2: int| 0 <= m1 < m2 < pf@.len() ==> pf@[m1].file@ != pf@[m2].file@,
            forall|g: int|
                #![trigger files@[g]]
                0 <= g < fi && (!il || ranges_in(lo, files@[g]@).len() > 0) ==> exists|m: int|
                    0 <= m < pf@.len() && pf@[m].file@ == files@[g]@,
        decreases files@.len() - fi,
    {
        let ghost pf_before = pf@;
        let lr = collect_ranges(left_only, &files[fi]);
        let rr = collect_ranges(right_only, &files[fi]);
        let keep = if il {
            lr.len() > 0
        } else {
            true
        };
        if keep {
            proof {
                assert(range_views(lr@).len() == lr@.len());
                assert(range_views(rr@).len() == rr@.len());
                if lr@.len() == 0 && rr@.len() == 0 {
                    if has_file(lo, files@[fi as int]@) {
                        let m = choose|m: int| 0 <= m < lo.len() && lo[m].file == files@[
                            fi as int
                        ]@;
                        lemma_ranges_in_nonempty(lo, files@[fi as int]@, m);
                    } else {
                        let m = choose|m: int| 0 <= m < ro.len() && ro[m].file == files@[
                            fi as int
                        ]@;
                        lemma_ranges_in_nonempty(ro, files@[fi as int]@, m);
                    }
                    assert(false);
                }
            }
            let entry = PerFile { file: files[fi].clone(), left: lr, right: rr };
            pf.push(entry);
            proof {
                assert(pf@ =~= pf_before.push(pf@[pf@.len() - 1]));
                assert forall|m1: int, m2: int| 0 <= m1 < m2 < pf@.len() implies pf@[m1].file@
                    != pf@[m2].file@ by {
                    if m2 == pf@.len() - 1 {
                        assert(pf@[m1] == pf_before[m1]);
                        let g = choose|g: int|
                            0 <= g < fi && files@[g]@ == pf_before[m1].file@;
                        assert(files@[g]@ != files@[fi as int]@);
                    }
                }
            }
        }
        proof {
            assert forall|g: int|
                #![trigger files@[g]]
                0 <= g < fi + 1 && (!il || ranges_in(lo, files@[g]@).len() > 0) implies exists|
                m: int,
            |
                0 <= m < pf@.len() && pf@[m].file@ == files@[g]@ by {
                if g < fi {
                    let m = choose|m: int|
                        0 <= m < pf_before.len() && pf_before[m].file@ == files@[g]@;
                    assert(pf@[m].file@ == files@[g]@);
                } else {
                    if keep {
                        assert(pf@[pf@.len() - 1].file@ == files@[g]@);
                    } else {
                        assert(range_views(lr@).len() == lr@.len());
                        assert(ranges_in(lo, files@[g]@).len() == 0);
                    }
                }
            }
        }
        fi = fi + 1;
    }
    proof {
        assert forall|j: int| #![trigger lo[j]] 0 <= j < lo.len() implies pf_has_file(
            pf@,
            lo[j].file,
        ) by {
            assert(lo[j] == left_only@[j]@);
            assert(has_file_name(files@, left_only@[j]@.file));
            let g = choose|g: int| 0 <= g < files@.len() && files@[g]@ == lo[j].file;
            lemma_ranges_in_nonempty(lo, files@[g]@, j);
            let m = choose|m: int| 0 <= m < pf@.len() && pf@[m].file@ == files@[g]@;
            assert(pf@[m].file@ == lo[j].file);
        }
        if !il {
            assert forall|j: int| #![trigger ro[j]] 0 <= j < ro.len() implies pf_has_file(
                pf@,
                ro[j].file,
            ) by {
                assert(ro[j] == right_only@[j]@);
                assert(has_file_name(files@, right_only@[j]@.file));
                let g = choose|g: int| 0 <= g < files@.len() && files@[g]@ == ro[j].file;
                let m = choose|m: int| 0 <= m < pf@.len() && pf@[m].file@ == files@[g]@;
                assert(pf@[m].file@ == ro[j].file);
            }
        }
    }
    pf
}

/// Expands one matched declaration into a `Comparison`: deduplicates both
/// reference lists, matches the evaluated side against the remaining
/// baseline references removing each matched occurrence, and groups the
/// differences by file.
#[verifier::rlimit(100)]
fn build_comparison(l: Relation, r: Relation, il: bool) -> (cm: Comparison)
    requires
        l@.decl.typ is None,
        key_eq(l@.decl, r@.decl),
    ensures
        comparison_spec(cm, l@, r@, il),
{
    let ghost lv = l@;
    let ghost rv = r@;
    let Relation { decl, duration: ld, search: ls, refs: lrefs } = l;
    let Relation { decl: _rdecl, duration: rd, search: rs, refs: rrefs } = r;
    proof {
        assert(lv.refs == pos_views(lrefs@));
        assert(rv.refs == pos_views(rrefs@));
    }
    let sl = dedup_refs(lrefs);
    let mut sr = dedup_refs(rrefs);
    let ghost sl_seq = sl@;
    let ghost slv = pos_views(sl@);
    let ghost sr_orig = sr@;
    let mut remaining = sl;
    let mut exact: Vec<Position> = Vec::new();
    let mut not_matched: Vec<Position> = Vec::new();
    let ghost mut j: int = 0;
    proof {
        assert(sr@ =~= sr_orig.subrange(0, sr_orig.len() as int));
        assert(slv == pos_views(sl_seq));
        assert(remaining@ == sl_seq);
        assert forall|a: int| #![trigger sl_seq[a]] 0 <= a < sl_seq.len() implies ref_has_key(
            pos_views(remaining@),
            sl_seq[a]@,
        ) by {
            assert(pos_views(remaining@)[a] == sl_seq[a]@);
        }
        assert forall|m: int|
            #![trigger remaining@[m]]
            0 <= m < remaining@.len() implies value_in(sl_seq, remaining@[m]) by {
            assert(0 <= m < sl_seq.len() && sl_seq[m] == remaining@[m]);
        }
    }
    while sr.len() > 0
        invariant
            0 <= j <= sr_orig.len(),
            sr@ == sr_orig.subrange(j, sr_orig.len() as int),
            slv == pos_views(sl_seq),
            sorted_positions(sr_orig),
            distinct_keys(pos_views(sr_orig)),
            sorted_positions(remaining@),
            distinct_keys(pos_views(remaining@)),
            forall|m: int|
                #![trigger remaining@[m]]
                0 <= m < remaining@.len() ==> value_in(sl_seq, remaining@[m]),
            forall|a: int|
                #![trigger sl_seq[a]]
                0 <= a < sl_seq.len() ==> ref_has_key(pos_views(remaining@), sl_seq[a]@)
                    || ref_has_key(pos_views(exact@), sl_seq[a]@),
            forall|m: int|
                #![trigger exact@[m]]
                0 <= m < exact@.len() ==> !ref_has_key(pos_views(remaining@), exact@[m]@),
            distinct_keys(pos_views(exact@)),
            forall|m: int|
                #![trigger exact@[m]]
                0 <= m < exact@.len() ==> value_in_prefix(sr_orig, j, exact@[m]) && ref_has_key(
                    slv,
                    exact@[m]@,
                ),
            forall|a: int|
                #![trigger sr_orig[a]]
                0 <= a < j && ref_has_key(slv, sr_orig[a]@) ==> ref_has_key(
                    pos_views(exact@),
                    sr_orig[a]@,
                ),
            distinct_keys(pos_views(not_matched@)),
            forall|m: int|
                #![trigger not_matched@[m]]
                0 <= m < not_matched@.len() ==> value_in_prefix(sr_orig, j, not_matched@[m])
                    && !ref_has_key(slv, not_matched@[m]@),
            forall|a: int|
                #![trigger sr_orig[a]]
                0 <= a < j && !ref_has_key(slv, sr_orig[a]@) ==> ref_has_key(
                    pos_views(not_matched@),
                    sr_orig[a]@,
                ),
            sorted_positions(exact@),
            sorted_positions(not_matched@),
        decreases sr@.len(),
    {
        let ghost exact_before = exact@;
        let ghost nm_before = not_matched@;
        let ghost rem_before = remaining@;
        let x = sr.remove(0);
        proof {
            assert(x == sr_orig[j]);
            assert(sr@ =~= sr_orig.subrange(j + 1, sr_orig.len() as int));
        }
        let found = find_key(&remaining, &x);
        match found {
            Some(i) => {
                proof {
                    assert(key_eq(rem_before[i as int]@, x@));
                    assert(remaining@[i as int] == rem_before[i as int]);
                    assert(value_in(sl_seq, rem_before[i as int]));
                    assert(ref_has_key(slv, x@)) by {
                        let a = choose|a: int|
                            0 <= a < sl_seq.len() && sl_seq[a] == rem_before[i as int];
                        assert(pos_views(sl_seq)[a] == sl_seq[a]@);
                        assert(slv[a] == sl_seq[a]@);
                    }
                    lemma_remove_sorted_distinct(rem_before, i as int);
                }
                let _moved = remaining.remove(i);
                exact.push(x);
                proof {
                    assert(pos_views(remaining@) =~= pos_views(rem_before).remove(i as int));
                    assert(pos_views(exact@) =~= pos_views(exact_before).push(x@));
                    assert forall|m: int|
                        #![trigger exact@[m]]
                        0 <= m < exact@.len() implies value_in_prefix(
                        sr_orig,
                        j + 1,
                        exact@[m],
                    ) by {
                        if m < exact@.len() - 1 {
                            let a = choose|a: int| 0 <= a < j && sr_orig[a] == exact_before[m];
                            assert(0 <= a < j + 1 && sr_orig[a] == exact@[m]);
                        } else {
                            assert(sr_orig[j] == exact@[m]);
                        }
                    }
                    // partition of baseline keys
                    assert forall|a: int|
                        #![trigger sl_seq[a]]
                        0 <= a < sl_seq.len() implies ref_has_key(
                        pos_views(remaining@),
                        sl_seq[a]@,
                    ) || ref_has_key(pos_views(exact@), sl_seq[a]@) by {
                        if ref_has_key(pos_views(exact_before), sl_seq[a]@) {
                            let m = choose|m: int|
                                0 <= m < pos_views(exact_before).len() && key_eq(
                                    pos_views(exact_before)[m],
                                    sl_seq[a]@,
                                );
                            assert(key_eq(pos_views(exact@)[m], sl_seq[a]@));
                        } else if ref_has_key(pos_views(rem_before), sl_seq[a]@) {
                            if key_eq(sl_seq[a]@, x@) {
                                assert(key_eq(
                                    pos_views(exact@)[pos_views(exact@).len() - 1],
                                    sl_seq[a]@,
                                ));
                            } else {
                                assert(!key_eq(pos_views(rem_before)[i as int], sl_seq[a]@));
                                lemma_has_key_after_remove(
                                    pos_views(rem_before),
                                    i as int,
                                    sl_seq[a]@,
                                );
                            }
                        }
                    }
                    // disjointness
                    assert forall|m: int|
                        #![trigger exact@[m]]
                        0 <= m < exact@.len() implies !ref_has_key(
                        pos_views(remaining@),
                        exact@[m]@,
                    ) by {
                        if m < exact@.len() - 1 {
                            if ref_has_key(pos_views(remaining@), exact@[m]@) {
                                lemma_has_key_remove_subset(
                                    pos_views(rem_before),
                                    i as int,
                                    exact@[m]@,
                                );
                            }
                        } else {
                            if ref_has_key(pos_views(remaining@), x@) {
                                let m2 = choose|m2: int|
                                    0 <= m2 < pos_views(remaining@).len() && key_eq(
                                        pos_views(remaining@)[m2],
                                        x@,
                                    );
                                let i2: int = if m2 < i { m2 } else { m2 + 1 };
                                assert(pos_views(remaining@)[m2] == pos_views(rem_before)[i2]);
                                assert(key_eq(pos_views(rem_before)[i2], pos_views(rem_before)[i as int]));
                                assert(false);
                            }
                        }
                    }
                    // distinctness and order of the exact list
                    assert forall|m: int, n: int|
                        0 <= m < n < pos_views(exact@).len() implies !key_eq(
                        pos_views(exact@)[m],
                        pos_views(exact@)[n],
                    ) by {
                        if n == pos_views(exact@).len() - 1 {
                            let a = choose|a: int| 0 <= a < j && sr_orig[a] == exact_before[m];
                            assert(pos_views(sr_orig)[a] == sr_orig[a]@);
                            assert(pos_views(sr_orig)[j] == sr_orig[j]@);
                        } else {
                            assert(!key_eq(pos_views(exact_before)[m], pos_views(exact_before)[n]));
                        }
                    }
                    assert forall|m: int, n: int|
                        0 <= m < n < exact@.len() implies pos_le(exact@[m]@, exact@[n]@) by {
                        if n == exact@.len() - 1 {
                            let a = choose|a: int| 0 <= a < j && sr_orig[a] == exact_before[m];
                        }
                    }
                    // completeness for the prefix
                    assert forall|a: int|
                        #![trigger sr_orig[a]]
                        0 <= a < j + 1 && ref_has_key(slv, sr_orig[a]@) implies ref_has_key(
                        pos_views(exact@),
                        sr_orig[a]@,
                    ) by {
                        if a < j {
                            let m = choose|m: int|
                                0 <= m < pos_views(exact_before).len() && key_eq(
                                    pos_views(exact_before)[m],
                                    sr_orig[a]@,
                                );
                            assert(key_eq(pos_views(exact@)[m], sr_orig[a]@));
                        } else {
                            assert(key_eq(
                                pos_views(exact@)[pos_views(exact@).len() - 1],
                                sr_orig[j]@,
                            ));
                        }
                    }
                    j = j + 1;
                }
            },
            None => {
                proof {
                    assert(!ref_has_key(slv, x@)) by {
                        if ref_has_key(slv, x@) {
                            let a = choose|a: int| 0 <= a < slv.len() && key_eq(slv[a], x@);
                            assert(pos_views(sl_seq)[a] == sl_seq[a]@);
                        assert(slv[a] == sl_seq[a]@);
                            if ref_has_key(pos_views(exact_before), sl_seq[a]@) {
                                let m = choose|m: int|
                                    0 <= m < pos_views(exact_before).len() && key_eq(
                                        pos_views(exact_before)[m],
                                        sl_seq[a]@,
                                    );
                                let b = choose|b: int|
                                    0 <= b < j && sr_orig[b] == exact_before[m];
                                assert(pos_views(sr_orig)[b] == sr_orig[b]@);
                                assert(pos_views(sr_orig)[j] == sr_orig[j]@);
                                assert(key_eq(pos_views(sr_orig)[b], pos_views(sr_orig)[j]));
                                assert(false);
                            } else {
                                assert(ref_has_key(pos_views(rem_before), sl_seq[a]@));
                                let m = choose|m: int|
                                    0 <= m < pos_views(rem_before).len() && key_eq(
                                        pos_views(rem_before)[m],
                                        sl_seq[a]@,
                                    );
                                assert(key_eq(rem_before[m]@, x@));
                                assert(false);
                            }
                        }
                    }
                }
                not_matched.push(x);
                proof {
                    assert(pos_views(not_matched@) =~= pos_views(nm_before).push(x@));
                    assert forall|m: int|
                        #![trigger not_matched@[m]]
                        0 <= m < not_matched@.len() implies value_in_prefix(
                        sr_orig,
                        j + 1,
                        not_matched@[m],
                    ) by {
                        if m < not_matched@.len() - 1 {
                            let a = choose|a: int| 0 <= a < j && sr_orig[a] == nm_before[m];
                            assert(0 <= a < j + 1 && sr_orig[a] == not_matched@[m]);
                        } else {
                            assert(sr_orig[j] == not_matched@[m]);
                        }
                    }
                    assert forall|m: int, n: int|
                        0 <= m < n < pos_views(not_matched@).len() implies !key_eq(
                        pos_views(not_matched@)[m],
                        pos_views(not_matched@)[n],
                    ) by {
                        if n == pos_views(not_matched@).len() - 1 {
                            let a = choose|a: int| 0 <= a < j && sr_orig[a] == nm_before[m];
                            assert(pos_views(sr_orig)[a] == sr_orig[a]@);
                            assert(pos_views(sr_orig)[j] == sr_orig[j]@);
                        } else {
                            assert(!key_eq(pos_views(nm_before)[m], pos_views(nm_before)[n]));
                        }
                    }
                    assert forall|m: int, n: int|
                        0 <= m < n < not_matched@.len() implies pos_le(
                        not_matched@[m]@,
                        not_matched@[n]@,
                    ) by {
                        if n == not_matched@.len() - 1 {
                            let a = choose|a: int| 0 <= a < j && sr_orig[a] == nm_before[m];
                        }
                    }
                    assert forall|a: int|
                        #![trigger sr_orig[a]]
                        0 <= a < j + 1 && !ref_has_key(slv, sr_orig[a]@) implies ref_has_key(
                        pos_views(not_matched@),
                        sr_orig[a]@,
                    ) by {
                        if a < j {
                            let m = choose|m: int|
                                0 <= m < pos_views(nm_before).len() && key_eq(
                                    pos_views(nm_before)[m],
                                    sr_orig[a]@,
                                );
                            assert(key_eq(pos_views(not_matched@)[m], sr_orig[a]@));
                        } else {
                            assert(key_eq(
                                pos_views(not_matched@)[pos_views(not_matched@).len() - 1],
                                sr_orig[j]@,
                            ));
                        }
                    }
                    j = j + 1;
                }
            },
        }
    }
    proof {
        assert(j == sr_orig.len());
    }
    let per_file = build_per_file(&remaining, &not_matched, il);
    let duration = versus_duration(ld, rd);
    let search = versus_search(ls, rs);
    let cm = Comparison {
        decl,
        duration,
        search,
        exact,
        per_file,
        left: remaining,
        right: not_matched,
        left_contained: Vec::new(),
        right_contained: Vec::new(),
    };
    proof {
        let ex = pos_views(cm.exact@);
        let lo = pos_views(cm.left@);
        let ro = pos_views(cm.right@);
        // exact: membership and keys, against the original reference lists
        assert forall|i: int| #![trigger ex[i]] 0 <= i < ex.len() implies rv.refs.contains(ex[i])
            && ref_has_key(lv.refs, ex[i]) by {
            assert(ex[i] == cm.exact@[i]@);
            let a = choose|a: int| 0 <= a < sr_orig.len() && sr_orig[a] == cm.exact@[i];
            assert(pos_views(rrefs@).contains(sr_orig[a]@));
            assert(ref_has_key(slv, ex[i]));
        }
        assert forall|jj: int|
            #![trigger rv.refs[jj]]
            0 <= jj < rv.refs.len() && ref_has_key(lv.refs, rv.refs[jj]) implies ref_has_key(
            ex,
            rv.refs[jj],
        ) by {
            assert(ref_has_key(pos_views(sr_orig), rv.refs[jj]));
            let a = choose|a: int|
                0 <= a < pos_views(sr_orig).len() && key_eq(pos_views(sr_orig)[a], rv.refs[jj]);
            assert(pos_views(sr_orig)[a] == sr_orig[a]@);
            assert(ref_has_key(slv, sr_orig[a]@));
            assert(ref_has_key(ex, sr_orig[a]@));
        }
        // left: membership and keys
        assert forall|i: int| #![trigger lo[i]] 0 <= i < lo.len() implies lv.refs.contains(lo[i])
            && !ref_has_key(rv.refs, lo[i]) by {
            assert(lo[i] == cm.left@[i]@);
            let a = choose|a: int| 0 <= a < sl_seq.len() && sl_seq[a] == cm.left@[i];
            assert(pos_views(lrefs@).contains(sl_seq[a]@));
            if ref_has_key(rv.refs, lo[i]) {
                assert(ref_has_key(pos_views(sr_orig), lo[i]));
                let b = choose|b: int|
                    0 <= b < pos_views(sr_orig).len() && key_eq(pos_views(sr_orig)[b], lo[i]);
                assert(pos_views(sr_orig)[b] == sr_orig[b]@);
                assert(ref_has_key(slv, sr_orig[b]@)) by {
                    assert(pos_views(sl_seq)[a] == sl_seq[a]@);
                    assert(slv[a] == sl_seq[a]@);
                }
                assert(ref_has_key(pos_views(cm.exact@), sr_orig[b]@));
                let m = choose|m: int|
                    0 <= m < pos_views(cm.exact@).len() && key_eq(
                        pos_views(cm.exact@)[m],
                        sr_orig[b]@,
                    );
                assert(ref_has_key(lo, cm.exact@[m]@)) by {
                    assert(key_eq(lo[i], cm.exact@[m]@));
                }
                assert(!ref_has_key(pos_views(cm.left@), cm.exact@[m]@));
                assert(false);
            }
        }
        assert forall|jj: int|
            #![trigger lv.refs[jj]]
            0 <= jj < lv.refs.len() && !ref_has_key(rv.refs, lv.refs[jj]) implies ref_has_key(
            lo,
            lv.refs[jj],
        ) by {
            assert(ref_has_key(slv, lv.refs[jj]));
            let a = choose|a: int| 0 <= a < slv.len() && key_eq(slv[a], lv.refs[jj]);
            assert(pos_views(sl_seq)[a] == sl_seq[a]@);
            assert(slv[a] == sl_seq[a]@);
            if ref_has_key(pos_views(cm.exact@), sl_seq[a]@) {
                let m = choose|m: int|
                    0 <= m < pos_views(cm.exact@).len() && key_eq(
                        pos_views(cm.exact@)[m],
                        sl_seq[a]@,
                    );
                let b = choose|b: int| 0 <= b < sr_orig.len() && sr_orig[b] == cm.exact@[m];
                assert(pos_views(rrefs@).contains(sr_orig[b]@));
                let c = choose|c: int|
                    0 <= c < pos_views(rrefs@).len() && pos_views(rrefs@)[c] == sr_orig[b]@;
                assert(key_eq(rv.refs[c], lv.refs[jj]));
                assert(false);
            } else {
                assert(ref_has_key(pos_views(cm.left@), sl_seq[a]@));
            }
        }
        // right: membership and keys
        assert forall|i: int| #![trigger ro[i]] 0 <= i < ro.len() implies rv.refs.contains(ro[i])
            && !ref_has_key(lv.refs, ro[i]) by {
            assert(ro[i] == cm.right@[i]@);
            let a = choose|a: int| 0 <= a < sr_orig.len() && sr_orig[a] == cm.right@[i];
            assert(pos_views(rrefs@).contains(sr_orig[a]@));
            if ref_has_key(lv.refs, ro[i]) {
                assert(ref_has_key(slv, ro[i]));
            }
        }
        assert forall|jj: int|
            #![trigger rv.refs[jj]]
            0 <= jj < rv.refs.len() && !ref_has_key(lv.refs, rv.refs[jj]) implies ref_has_key(
            ro,
            rv.refs[jj],
        ) by {
            assert(ref_has_key(pos_views(sr_orig), rv.refs[jj]));
            let a = choose|a: int|
                0 <= a < pos_views(sr_orig).len() && key_eq(pos_views(sr_orig)[a], rv.refs[jj]);
            assert(pos_views(sr_orig)[a] == sr_orig[a]@);
            if ref_has_key(slv, sr_orig[a]@) {
                assert(ref_has_key(pos_views(lrefs@), sr_orig[a]@));
                let b = choose|b: int|
                    0 <= b < pos_views(lrefs@).len() && key_eq(
                        pos_views(lrefs@)[b],
                        sr_orig[a]@,
                    );
                assert(key_eq(lv.refs[b], rv.refs[jj]));
                assert(false);
            }
            assert(ref_has_key(pos_views(cm.right@), sr_orig[a]@));
        }
        assert(comparison_spec(cm, lv, rv, il));
    }
    cm
}

/// Whether `x` is the normalization of a record of `s` whose key the run
/// `other` does not hold.
pub open spec fn bucket_from(s: Seq<Relation>, other: Seq<Relation>, x: Relation) -> bool {
    exists|j: int| 0 <= j < s.len() && x@ == normalized(s[j]@) && !run_has_key(other, s[j].decl@)
}

/// Whether the bucket holds a record with value `v`.
pub open spec fn bucket_has(b: Seq<Relation>, v: RelV) -> bool {
    exists|i: int| 0 <= i < b.len() && b[i]@ == v
}

/// Whether `cm` is the comparison of a baseline record and an evaluated
/// record whose declarations share a key.
pub open spec fn exact_entry(l: Seq<Relation>, r: Seq<Relation>, il: bool, cm: Comparison) -> bool {
    exists|jl: int, jr: int|
        0 <= jl < l.len() && 0 <= jr < r.len() && key_eq(l[jl].decl@, r[jr].decl@)
            && comparison_spec(cm, normalized(l[jl]@), normalized(r[jr]@), il)
}

/// Whether some comparison carries the declaration key `k`.
pub open spec fn exact_has_key(ex: Seq<Comparison>, k: PosV) -> bool {
    exists|i: int| 0 <= i < ex.len() && key_eq(ex[i].decl@, k)
}

/// Whether one of the first `n` records of the run has key `k`.
pub open spec fn prefix_has_key(s: Seq<Relation>, n: int, k: PosV) -> bool {
    exists|j: int| 0 <= j < n && key_eq(s[j].decl@, k)
}

/// Everything a successful comparison states, relative to the two input
/// runs `l` (baseline) and `r` (evaluated): the three buckets partition the
/// normalized declaration keys, and every matched declaration's `Comparison`
/// meets `comparison_spec`.
pub open spec fn compare_spec(il: bool, l: Seq<Relation>, r: Seq<Relation>, c: Comparisons) -> bool {
    &&& !dup_in(l)
    &&& !dup_in(r)
    &&& c.left_name@.len() == 0
    &&& c.right_name@.len() == 0
    &&& forall|i: int|
        #![trigger c.left@[i]]
        0 <= i < c.left@.len() ==> bucket_from(l, r, c.left@[i])
    &&& forall|j: int|
        #![trigger l[j]]
        0 <= j < l.len() && !run_has_key(r, l[j].decl@) ==> bucket_has(c.left@, normalized(l[j]@))
    &&& forall|i: int|
        #![trigger c.right@[i]]
        0 <= i < c.right@.len() ==> bucket_from(r, l, c.right@[i])
    &&& forall|j: int|
        #![trigger r[j]]
        0 <= j < r.len() && !run_has_key(l, r[j].decl@) ==> bucket_has(c.right@, normalized(r[j]@))
    &&& forall|i: int|
        #![trigger c.exact@[i]]
        0 <= i < c.exact@.len() ==> exact_entry(l, r, il, c.exact@[i])
    &&& forall|j: int|
        #![trigger l[j]]
        0 <= j < l.len() && run_has_key(r, l[j].decl@) ==> exact_has_key(c.exact@, l[j].decl@)
    &&& forall|i1: int, i2: int|
        0 <= i1 < i2 < c.exact@.len() ==> !key_eq(c.exact@[i1].decl@, c.exact@[i2].decl@)
}

fn contains_rel_key(v: &Vec<Relation>, k: &Position) -> (r: bool)
    ensures
        r == run_has_key(v@, k@),
{
    let mut i: usize = 0;
    while i < v.len()
        invariant
            i <= v@.len(),
            forall|j: int| 0 <= j < i ==> !key_eq(v@[j].decl@, k@),
        decreases v@.len() - i,
    {
        if v[i].decl.key_equal(k) {
            return true;
        }
        i = i + 1;
    }
    false
}

fn find_rel_key(v: &Vec<Relation>, k: &Position) -> (o: Option<usize>)
    ensures
        match o {
            Some(i) => i < v@.len() && key_eq(v@[i as int].decl@, k@),
            None => !run_has_key(v@, k@),
        },
{
    let mut i: usize = 0;
    while i < v.len()
        invariant
            i <= v@.len(),
            forall|j: int| 0 <= j < i ==> !key_eq(v@[j].decl@, k@),
        decreases v@.len() - i,
    {
        if v[i].decl.key_equal(k) {
            return Some(i);
        }
        i = i + 1;
    }
    None
}

/// Normalizes every record of a run (the records themselves are unchanged).
fn normalize_run(v: &Vec<Relation>) -> (out: Vec<Relation>)
    ensures
        out@.len() == v@.len(),
        forall|i: int| #![trigger out@[i]] 0 <= i < v@.len() ==> out@[i]@ == normalized(v@[i]@),
{
    let mut out: Vec<Relation> = Vec::new();
    let mut i: usize = 0;
    while i < v.len()
        invariant
            i <= v@.len(),
            out@.len() == i as nat,
            forall|j: int| #![trigger out@[j]] 0 <= j < i ==> out@[j]@ == normalized(v@[j]@),
        decreases v@.len() - i,
    {
        out.push(v[i].duplicate().normalize());
        i = i + 1;
    }
    out
}

impl Comparator {
    /// Compares the two runs: normalizes every declaration key, then
    /// partitions the declarations into matched, baseline-only and
    /// evaluated-only buckets, expanding every matched declaration into a
    /// `Comparison`.  Fails exactly when one run holds two records whose
    /// declarations share a normalized key.
    #[verifier::rlimit(100)]
    pub fn compare(&self, left: Relations, right: Relations) -> (res: Result<
        Comparisons,
        CompareError,
    >)
        ensures
            res is Err <==> (dup_in(left@) || dup_in(right@)),
            res matches Ok(c) ==> compare_spec(self.intersection_left, left@, right@, c),
            res matches Err(e) ==> e == CompareError::DuplicateDeclaration,
    {
        if has_duplicate_key(&left) {
            return Err(CompareError::DuplicateDeclaration);
        }
        if has_duplicate_key(&right) {
            return Err(CompareError::DuplicateDeclaration);
        }
        let il = self.intersection_left;
        let nl = normalize_run(&left);
        let nr = normalize_run(&right);
        let mut exact: Vec<Comparison> = Vec::new();
        let mut lout: Vec<Relation> = Vec::new();
        let mut i: usize = 0;
        while i < nl.len()
            invariant
                i <= nl@.len(),
                nl@.len() == left@.len(),
                nr@.len() == right@.len(),
                forall|m: int| #![trigger nl@[m]] 0 <= m < left@.len() ==> nl@[m]@ == normalized(left@[m]@),
                forall|m: int| #![trigger nr@[m]] 0 <= m < right@.len() ==> nr@[m]@ == normalized(right@[m]@),
                !dup_in(left@),
                forall|m: int| #![trigger lout@[m]] 0 <= m < lout@.len() ==> bucket_from(left@, right@, lout@[m]),
                forall|j: int|
                    #![trigger left@[j]]
                    0 <= j < i && !run_has_key(right@, left@[j].decl@) ==> bucket_has(
                        lout@,
                        normalized(left@[j]@),
                    ),
                forall|m: int|
                    #![trigger exact@[m]]
                    0 <= m < exact@.len() ==> exact_entry(left@, right@, il, exact@[m])
                        && prefix_has_key(left@, i as int, exact@[m].decl@),
                forall|j: int|
                    #![trigger left@[j]]
                    0 <= j < i && run_has_key(right@, left@[j].decl@) ==> exact_has_key(
                        exact@,
                        left@[j].decl@,
                    ),
                forall|m1: int, m2: int|
                    0 <= m1 < m2 < exact@.len() ==> !key_eq(exact@[m1].decl@, exact@[m2].decl@),
                il == self.intersection_left,
            decreases nl@.len() - i,
        {
            let ghost exact_before = exact@;
            let ghost lout_before = lout@;
            proof {
                assert(nl@[i as int]@ == normalized(left@[i as int]@));
                assert(key_eq(nl@[i as int].decl@, left@[i as int].decl@));
            }
            match find_rel_key(&nr, &nl[i].decl) {
                Some(jr) => {
                    proof {
                        assert(nr@[jr as int]@ == normalized(right@[jr as int]@));
                        assert(key_eq(nr@[jr as int].decl@, right@[jr as int].decl@));
                        assert(key_eq(left@[i as int].decl@, right@[jr as int].decl@));
                        assert(run_has_key(right@, left@[i as int].decl@));
                    }
                    let cm = build_comparison(nl[i].duplicate(), nr[jr].duplicate(), il);
                    proof {
                        assert(comparison_spec(
                            cm,
                            normalized(left@[i as int]@),
                            normalized(right@[jr as int]@),
                            il,
                        ));
                        assert(key_eq(cm.decl@, left@[i as int].decl@));
                    }
                    exact.push(cm);
                    proof {
                        assert(exact@ =~= exact_before.push(cm));
                        assert(exact_entry(left@, right@, il, cm));
                        assert forall|m1: int, m2: int|
                            0 <= m1 < m2 < exact@.len() implies !key_eq(
                            exact@[m1].decl@,
                            exact@[m2].decl@,
                        ) by {
                            if m2 == exact@.len() - 1 {
                                let jp = choose|jp: int|
                                    0 <= jp < i && key_eq(exact_before[m1].decl@, left@[jp].decl@);
                                if key_eq(exact@[m1].decl@, exact@[m2].decl@) {
                                    assert(key_eq(left@[jp].decl@, left@[i as int].decl@));
                                    assert(false);
                                }
                            }
                        }
                        assert forall|m: int|
                            #![trigger exact@[m]]
                            0 <= m < exact@.len() implies exact_entry(left@, right@, il, exact@[m])
                            && prefix_has_key(left@, i + 1, exact@[m].decl@) by {
                            if m < exact@.len() - 1 {
                                let jp = choose|jp: int|
                                    0 <= jp < i && key_eq(exact_before[m].decl@, left@[jp].decl@);
                                assert(key_eq(exact@[m].decl@, left@[jp].decl@));
                            } else {
                                assert(key_eq(exact@[m].decl@, left@[i as int].decl@));
                            }
                        }
                        assert forall|j: int|
                            #![trigger left@[j]]
                            0 <= j < i + 1 && run_has_key(right@, left@[j].decl@) implies
                            exact_has_key(exact@, left@[j].decl@) by {
                            if j < i {
                                let m = choose|m: int|
                                    0 <= m < exact_before.len() && key_eq(
                                        exact_before[m].decl@,
                                        left@[j].decl@,
                                    );
                                assert(key_eq(exact@[m].decl@, left@[j].decl@));
                            } else {
                                assert(key_eq(
                                    exact@[exact@.len() - 1].decl@,
                                    left@[i as int].decl@,
                                ));
                            }
                        }
                    }
                },
                None => {
                    proof {
                        assert(!run_has_key(right@, left@[i as int].decl@)) by {
                            if run_has_key(right@, left@[i as int].decl@) {
                                let j = choose|j: int|
                                    0 <= j < right@.len() && key_eq(
                                        right@[j].decl@,
                                        left@[i as int].decl@,
                                    );
                                assert(key_eq(nr@[j].decl@, right@[j].decl@));
                                assert(key_eq(nr@[j].decl@, nl@[i as int].decl@));
                                assert(false);
                            }
                        }
                    }
                    let x = nl[i].duplicate();
                    lout.push(x);
                    proof {
                        assert(lout@ =~= lout_before.push(lout@[lout@.len() - 1]));
                        assert(lout@[lout@.len() - 1]@ == normalized(left@[i as int]@));
                        assert(bucket_from(left@, right@, lout@[lout@.len() - 1]));
                        assert forall|j: int|
                            #![trigger left@[j]]
                            0 <= j < i + 1 && !run_has_key(right@, left@[j].decl@) implies
                            bucket_has(lout@, normalized(left@[j]@)) by {
                            if j < i {
                                let m = choose|m: int|
                                    0 <= m < lout_before.len() && lout_before[m]@ == normalized(
                                        left@[j]@,
                                    );
                                assert(lout@[m]@ == normalized(left@[j]@));
                            } else {
                                assert(lout@[lout@.len() - 1]@ == normalized(left@[j]@));
                            }
                        }
                    }
                },
            }
            i = i + 1;
        }
        let mut rout: Vec<Relation> = Vec::new();
        let mut j: usize = 0;
        while j < nr.len()
            invariant
                j <= nr@.len(),
                nl@.len() == left@.len(),
                nr@.len() == right@.len(),
                forall|m: int| #![trigger nl@[m]] 0 <= m < left@.len() ==> nl@[m]@ == normalized(left@[m]@),
                forall|m: int| #![trigger nr@[m]] 0 <= m < right@.len() ==> nr@[m]@ == normalized(right@[m]@),
                forall|m: int| #![trigger rout@[m]] 0 <= m < rout@.len() ==> bucket_from(right@, left@, rout@[m]),
                forall|jj: int|
                    #![trigger right@[jj]]
                    0 <= jj < j && !run_has_key(left@, right@[jj].decl@) ==> bucket_has(
                        rout@,
                        normalized(right@[jj]@),
                    ),
            decreases nr@.len() - j,
        {
            let ghost rout_before = rout@;
            proof {
                assert(nr@[j as int]@ == normalized(right@[j as int]@));
                assert(key_eq(nr@[j as int].decl@, right@[j as int].decl@));
            }
            let present = contains_rel_key(&nl, &nr[j].decl);
            proof {
                assert(present == run_has_key(left@, right@[j as int].decl@)) by {
                    if run_has_key(nl@, nr@[j as int].decl@) {
                        let m = choose|m: int|
                            0 <= m < nl@.len() && key_eq(nl@[m].decl@, nr@[j as int].decl@);
                        assert(key_eq(nl@[m].decl@, left@[m].decl@));
                        assert(key_eq(left@[m].decl@, right@[j as int].decl@));
                    }
                    if run_has_key(left@, right@[j as int].decl@) {
                        let m = choose|m: int|
                            0 <= m < left@.len() && key_eq(left@[m].decl@, right@[j as int].decl@);
                        assert(key_eq(nl@[m].decl@, left@[m].decl@));
                        assert(key_eq(nl@[m].decl@, nr@[j as int].decl@));
                    }
                }
            }
            if !present {
                rout.push(nr[j].duplicate());
                proof {
                    assert(rout@ =~= rout_before.push(rout@[rout@.len() - 1]));
                    assert(rout@[rout@.len() - 1]@ == normalized(right@[j as int]@));
                    assert(bucket_from(right@, left@, rout@[rout@.len() - 1]));
                    assert forall|jj: int|
                        #![trigger right@[jj]]
                        0 <= jj < j + 1 && !run_has_key(left@, right@[jj].decl@) implies bucket_has(
                        rout@,
                        normalized(right@[jj]@),
                    ) by {
                        if jj < j {
                            let m = choose|m: int|
                                0 <= m < rout_before.len() && rout_before[m]@ == normalized(
                                    right@[jj]@,
                                );
                            assert(rout@[m]@ == normalized(right@[jj]@));
                        } else {
                            assert(rout@[rout@.len() - 1]@ == normalized(right@[jj]@));
                        }
                    }
                }
            }
            j = j + 1;
        }
        let c = Comparisons {
            left_name: String::new(),
            right_name: String::new(),
            exact,
            left: lout,
            right: rout,
        };
        Ok(c)
    }
}

/// Whether the result's baseline-only bucket holds declaration key `k`.
pub open spec fn in_left(c: Comparisons, k: PosV) -> bool {
    exists|i: int| 0 <= i < c.left@.len() && key_eq(c.left@[i].decl@, k)
}

/// Whether the result's evaluated-only bucket holds declaration key `k`.
pub open spec fn in_right(c: Comparisons, k: PosV) -> bool {
    exists|i: int| 0 <= i < c.right@.len() && key_eq(c.right@[i].decl@, k)
}

/// Whether the result's matched bucket holds declaration key `k`.
pub open spec fn in_exact(c: Comparisons, k: PosV) -> bool {
    exact_has_key(c.exact@, k)
}

/// Partition completeness: every declaration key appearing in either run
/// appears in one of the result's three buckets, and no key appears in two.
pub proof fn lemma_partition_completeness(
    il: bool,
    l: Seq<Relation>,
    r: Seq<Relation>,
    c: Comparisons,
    k: PosV,
)
    requires
        compare_spec(il, l, r, c),
        run_has_key(l, k) || run_has_key(r, k),
    ensures
        in_exact(c, k) || in_left(c, k) || in_right(c, k),
        !(in_exact(c, k) && in_left(c, k)),
        !(in_exact(c, k) && in_right(c, k)),
        !(in_left(c, k) && in_right(c, k)),
{
    // Membership in some bucket.
    if run_has_key(l, k) {
        let j = choose|j: int| 0 <= j < l.len() && key_eq(l[j].decl@, k);
        if run_has_key(r, l[j].decl@) {
            assert(exact_has_key(c.exact@, l[j].decl@));
            let i = choose|i: int| 0 <= i < c.exact@.len() && key_eq(c.exact@[i].decl@, l[j].decl@);
            assert(key_eq(c.exact@[i].decl@, k));
        } else {
            assert(bucket_has(c.left@, normalized(l[j]@)));
            let i = choose|i: int| 0 <= i < c.left@.len() && c.left@[i]@ == normalized(l[j]@);
            assert(key_eq(c.left@[i].decl@, k));
        }
    } else {
        let j = choose|j: int| 0 <= j < r.len() && key_eq(r[j].decl@, k);
        if run_has_key(l, r[j].decl@) {
            let jl = choose|jl: int| 0 <= jl < l.len() && key_eq(l[jl].decl@, r[j].decl@);
            assert(run_has_key(r, l[jl].decl@));
            assert(exact_has_key(c.exact@, l[jl].decl@));
            let i = choose|i: int|
                0 <= i < c.exact@.len() && key_eq(c.exact@[i].decl@, l[jl].decl@);
            assert(key_eq(c.exact@[i].decl@, k));
        } else {
            assert(bucket_has(c.right@, normalized(r[j]@)));
            let i = choose|i: int| 0 <= i < c.right@.len() && c.right@[i]@ == normalized(r[j]@);
            assert(key_eq(c.right@[i].decl@, k));
        }
    }
    // A key never lands in two buckets.
    if in_exact(c, k) && in_left(c, k) {
        let i1 = choose|i: int| 0 <= i < c.exact@.len() && key_eq(c.exact@[i].decl@, k);
        let i2 = choose|i: int| 0 <= i < c.left@.len() && key_eq(c.left@[i].decl@, k);
        assert(exact_entry(l, r, il, c.exact@[i1]));
        let (jl, jr) = choose|jl: int, jr: int|
            0 <= jl < l.len() && 0 <= jr < r.len() && key_eq(l[jl].decl@, r[jr].decl@)
                && comparison_spec(c.exact@[i1], normalized(l[jl]@), normalized(r[jr]@), il);
        assert(key_eq(c.exact@[i1].decl@, l[jl].decl@));
        assert(bucket_from(l, r, c.left@[i2]));
        let j2 = choose|j: int|
            0 <= j < l.len() && c.left@[i2]@ == normalized(l[j]@) && !run_has_key(r, l[j].decl@);
        assert(key_eq(c.left@[i2].decl@, l[j2].decl@));
        assert(key_eq(r[jr].decl@, l[j2].decl@));
        assert(run_has_key(r, l[j2].decl@));
        assert(false);
    }
    if in_exact(c, k) && in_right(c, k) {
        let i1 = choose|i: int| 0 <= i < c.exact@.len() && key_eq(c.exact@[i].decl@, k);
        let i2 = choose|i: int| 0 <= i < c.right@.len() && key_eq(c.right@[i].decl@, k);
        assert(exact_entry(l, r, il, c.exact@[i1]));
        let (jl, jr) = choose|jl: int, jr: int|
            0 <= jl < l.len() && 0 <= jr < r.len() && key_eq(l[jl].decl@, r[jr].decl@)
                && comparison_spec(c.exact@[i1], normalized(l[jl]@), normalized(r[jr]@), il);
        assert(key_eq(c.exact@[i1].decl@, l[jl].decl@));
        assert(bucket_from(r, l, c.right@[i2]));
        let j2 = choose|j: int|
            0 <= j < r.len() && c.right@[i2]@ == normalized(r[j]@) && !run_has_key(l, r[j].decl@);
        assert(key_eq(c.right@[i2].decl@, r[j2].decl@));
        assert(key_eq(l[jl].decl@, r[j2].decl@));
        assert(run_has_key(l, r[j2].decl@));
        assert(false);
    }
    if in_left(c, k) && in_right(c, k) {
        let i1 = choose|i: int| 0 <= i < c.left@.len() && key_eq(c.left@[i].decl@, k);
        let i2 = choose|i: int| 0 <= i < c.right@.len() && key_eq(c.right@[i].decl@, k);
        assert(bucket_from(l, r, c.left@[i1]));
        let j1 = choose|j: int|
            0 <= j < l.len() && c.left@[i1]@ == normalized(l[j]@) && !run_has_key(r, l[j].decl@);
        assert(key_eq(c.left@[i1].decl@, l[j1].decl@));
        assert(bucket_from(r, l, c.right@[i2]));
        let j2 = choose|j: int|
            0 <= j < r.len() && c.right@[i2]@ == normalized(r[j]@) && !run_has_key(l, r[j].decl@);
        assert(key_eq(c.right@[i2].decl@, r[j2].decl@));
        assert(key_eq(r[j2].decl@, l[j1].decl@));
        assert(run_has_key(r, l[j1].decl@));
        assert(false);
    }
}

/// Key-normalization idempotence: normalizing already-normalized runs leaves
/// every declaration key in the same bucket, so the partitioning of a
/// comparison is unchanged by an extra normalization pass over its inputs.
pub proof fn lemma_normalized_runs_same_partition(
    il: bool,
    l: Seq<Relation>,
    r: Seq<Relation>,
    nl: Seq<Relation>,
    nr: Seq<Relation>,
    c1: Comparisons,
    c2: Comparisons,
    k: PosV,
)
    requires
        compare_spec(il, l, r, c1),
        compare_spec(il, nl, nr, c2),
        nl.len() == l.len(),
        nr.len() == r.len(),
        forall|j: int| 0 <= j < l.len() ==> #[trigger] nl[j]@ == normalized(l[j]@),
        forall|j: int| 0 <= j < r.len() ==> #[trigger] nr[j]@ == normalized(r[j]@),
        run_has_key(l, k) || run_has_key(r, k),
    ensures
        in_exact(c1, k) == in_exact(c2, k),
        in_left(c1, k) == in_left(c2, k),
        in_right(c1, k) == in_right(c2, k),
{
    // Normalization never changes a declaration key, so the two runs hold
    // the same keys, record for record.
    assert forall|k2: PosV| run_has_key(l, k2) == run_has_key(nl, k2) by {
        if run_has_key(l, k2) {
            let j = choose|j: int| 0 <= j < l.len() && key_eq(l[j].decl@, k2);
            assert(key_eq(nl[j].decl@, k2));
        }
        if run_has_key(nl, k2) {
            let j = choose|j: int| 0 <= j < nl.len() && key_eq(nl[j].decl@, k2);
            assert(key_eq(l[j].decl@, k2));
        }
    }
    assert forall|k2: PosV| run_has_key(r, k2) == run_has_key(nr, k2) by {
        if run_has_key(r, k2) {
            let j = choose|j: int| 0 <= j < r.len() && key_eq(r[j].decl@, k2);
            assert(key_eq(nr[j].decl@, k2));
        }
        if run_has_key(nr, k2) {
            let j = choose|j: int| 0 <= j < nr.len() && key_eq(nr[j].decl@, k2);
            assert(key_eq(r[j].decl@, k2));
        }
    }
    lemma_partition_completeness(il, l, r, c1, k);
    lemma_partition_completeness(il, nl, nr, c2, k);
    // Which bucket a key lands in depends only on which runs hold it.
    lemma_bucket_of_key(il, l, r, c1, k);
    lemma_bucket_of_key(il, nl, nr, c2, k);
}

/// Which bucket a key lands in is decided by which runs hold it.
pub proof fn lemma_bucket_of_key(il: bool, l: Seq<Relation>, r: Seq<Relation>, c: Comparisons, k: PosV)
    requires
        compare_spec(il, l, r, c),
    ensures
        in_exact(c, k) == (run_has_key(l, k) && run_has_key(r, k)),
        in_left(c, k) == (run_has_key(l, k) && !run_has_key(r, k)),
        in_right(c, k) == (run_has_key(r, k) && !run_has_key(l, k)),
{
    if in_exact(c, k) {
        let i = choose|i: int| 0 <= i < c.exact@.len() && key_eq(c.exact@[i].decl@, k);
        assert(exact_entry(l, r, il, c.exact@[i]));
        let (jl, jr) = choose|jl: int, jr: int|
            0 <= jl < l.len() && 0 <= jr < r.len() && key_eq(l[jl].decl@, r[jr].decl@)
                && comparison_spec(c.exact@[i], normalized(l[jl]@), normalized(r[jr]@), il);
        assert(key_eq(c.exact@[i].decl@, l[jl].decl@));
        assert(key_eq(l[jl].decl@, k));
        assert(key_eq(r[jr].decl@, k));
        assert(run_has_key(l, k) && run_has_key(r, k));
    }
    if in_left(c, k) {
        let i = choose|i: int| 0 <= i < c.left@.len() && key_eq(c.left@[i].decl@, k);
        assert(bucket_from(l, r, c.left@[i]));
        let j = choose|j: int|
            0 <= j < l.len() && c.left@[i]@ == normalized(l[j]@) && !run_has_key(r, l[j].decl@);
        assert(key_eq(c.left@[i].decl@, l[j].decl@));
        assert(key_eq(l[j].decl@, k));
        assert(run_has_key(l, k));
        if run_has_key(r, k) {
            let jj = choose|jj: int| 0 <= jj < r.len() && key_eq(r[jj].decl@, k);
            assert(key_eq(r[jj].decl@, l[j].decl@));
            assert(false);
        }
    }
    if in_right(c, k) {
        let i = choose|i: int| 0 <= i < c.right@.len() && key_eq(c.right@[i].decl@, k);
        assert(bucket_from(r, l, c.right@[i]));
        let j = choose|j: int|
            0 <= j < r.len() && c.right@[i]@ == normalized(r[j]@) && !run_has_key(l, r[j].decl@);
        assert(key_eq(c.right@[i].decl@, r[j].decl@));
        assert(key_eq(r[j].decl@, k));
        assert(run_has_key(r, k));
        if run_has_key(l, k) {
            let jj = choose|jj: int| 0 <= jj < l.len() && key_eq(l[jj].decl@, k);
            assert(key_eq(l[jj].decl@, r[j].decl@));
            assert(false);
        }
    }
    if run_has_key(l, k) && run_has_key(r, k) && !in_exact(c, k) {
        let j = choose|j: int| 0 <= j < l.len() && key_eq(l[j].decl@, k);
        assert(run_has_key(r, l[j].decl@)) by {
            let jj = choose|jj: int| 0 <= jj < r.len() && key_eq(r[jj].decl@, k);
            assert(key_eq(r[jj].decl@, l[j].decl@));
        }
        assert(exact_has_key(c.exact@, l[j].decl@));
        let i = choose|i: int| 0 <= i < c.exact@.len() && key_eq(c.exact@[i].decl@, l[j].decl@);
        assert(key_eq(c.exact@[i].decl@, k));
        assert(false);
    }
    if run_has_key(l, k) && !run_has_key(r, k) && !in_left(c, k) {
        let j = choose|j: int| 0 <= j < l.len() && key_eq(l[j].decl@, k);
        if run_has_key(r, l[j].decl@) {
            let jj = choose|jj: int| 0 <= jj < r.len() && key_eq(r[jj].decl@, l[j].decl@);
            assert(key_eq(r[jj].decl@, k));
            assert(false);
        }
        assert(bucket_has(c.left@, normalized(l[j]@)));
        let i = choose|i: int| 0 <= i < c.left@.len() && c.left@[i]@ == normalized(l[j]@);
        assert(key_eq(c.left@[i].decl@, k));
        assert(false);
    }
    if run_has_key(r, k) && !run_has_key(l, k) && !in_right(c, k) {
        let j = choose|j: int| 0 <= j < r.len() && key_eq(r[j].decl@, k);
        if run_has_key(l, r[j].decl@) {
            let jj = choose|jj: int| 0 <= jj < l.len() && key_eq(l[jj].decl@, r[j].decl@);
            assert(key_eq(l[jj].decl@, k));
            assert(false);
        }
        assert(bucket_has(c.right@, normalized(r[j]@)));
        let i = choose|i: int| 0 <= i < c.right@.len() && c.right@[i]@ == normalized(r[j]@);
        assert(key_eq(c.right@[i].decl@, k));
        assert(false);
    }
}

/// Symmetry: swapping the baseline and evaluated runs swaps the
/// baseline-only and evaluated-only buckets and keeps the matched bucket.
pub proof fn lemma_swap_symmetry(
    il: bool,
    l: Seq<Relation>,
    r: Seq<Relation>,
    c1: Comparisons,
    c2: Comparisons,
    k: PosV,
)
    requires
        compare_spec(il, l, r, c1),
        compare_spec(il, r, l, c2),
    ensures
        in_left(c1, k) == in_right(c2, k),
        in_right(c1, k) == in_left(c2, k),
        in_exact(c1, k) == in_exact(c2, k),
{
    lemma_bucket_of_key(il, l, r, c1, k);
    lemma_bucket_of_key(il, r, l, c2, k);
}

} // verus!
