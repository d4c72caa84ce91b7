//! Verified list operations on reference positions.
//!
//! A declaration's reference list is logically a set: before two sides are
//! compared, each list is sorted by the position order and deduplicated by
//! the `(file, offset, len)` key.

use crate::relations::{
    key_eq, lemma_pos_le_connex, lemma_pos_le_trans, pos_le, pos_views, PosV, Position,
};
use vstd::multiset::Multiset;
use vstd::prelude::*;

verus! {

broadcast use vstd::seq_lib::group_to_multiset_ensures;

/// Whether some position in the sequence has the given `(file, offset, len)` key.
pub open spec fn ref_has_key(s: Seq<PosV>, k: PosV) -> bool {
    exists|i: int| 0 <= i < s.len() && key_eq(s[i], k)
}

/// Ordered by the position order.
pub open spec fn sorted_positions(s: Seq<Position>) -> bool {
    forall|i: int, j: int| 0 <= i < j < s.len() ==> pos_le(s[i]@, s[j]@)
}

/// No two positions share a key.
pub open spec fn distinct_keys(s: Seq<PosV>) -> bool {
    forall|i: int, j: int| 0 <= i < j < s.len() ==> !key_eq(s[i], s[j])
}

/// How many distinct `(file, offset, len)` keys the sequence holds.
pub open spec fn distinct_key_count(s: Seq<PosV>) -> nat
    decreases s.len(),
{
    if s.len() == 0 {
        0
    } else if ref_has_key(s.drop_last(), s.last()) {
        distinct_key_count(s.drop_last())
    } else {
        distinct_key_count(s.drop_last()) + 1
    }
}

/// Decides whether the list holds a position with `p`'s key.
pub fn contains_key(v: &Vec<Position>, p: &Position) -> (r: bool)
    ensures
        r == ref_has_key(pos_views(v@), p@),
{
    let mut i: usize = 0;
    while i < v.len()
        invariant
            i <= v@.len(),
            forall|j: int| 0 <= j < i ==> !key_eq(v@[j]@, p@),
        decreases v@.len() - i,
    {
        if v[i].key_equal(p) {
            assert(key_eq(pos_views(v@)[i as int], p@));
            return true;
        }
        i = i + 1;
    }
    assert forall|j: int| 0 <= j < pos_views(v@).len() implies !key_eq(pos_views(v@)[j], p@) by {
        assert(pos_views(v@)[j] == v@[j]@);
    }
    false
}

proof fn lemma_insert_multiset<A>(s: Seq<A>, j: int, x: A)
    requires
        0 <= j <= s.len(),
    ensures
        s.insert(j, x).to_multiset() =~= s.to_multiset().insert(x),
{
    let t = s.insert(j, x);
    s.insert_ensures(j, x);
    assert(t.remove(j) =~= s);
    assert(t.remove(j).to_multiset() =~= t.to_multiset().remove(t[j]));
    assert(t[j] == x);
    assert(t.contains(x));
    assert(t.to_multiset().count(x) > 0);
    assert forall|y: A| t.to_multiset().count(y) == s.to_multiset().insert(x).count(y) by {
        assert(s.to_multiset().count(y) == t.to_multiset().remove(x).count(y));
    }
    assert(t.to_multiset() =~= s.to_multiset().insert(x));
}

proof fn lemma_sorted_insert(s: Seq<Position>, j: int, x: Position)
    requires
        sorted_positions(s),
        0 <= j <= s.len(),
        forall|k: int| 0 <= k < j ==> pos_le(s[k]@, x@),
        forall|k: int| j <= k < s.len() ==> pos_le(x@, s[k]@),
    ensures
        sorted_positions(s.insert(j, x)),
{
    s.insert_ensures(j, x);
    let t = s.insert(j, x);
    assert forall|a: int, b: int| 0 <= a < b < t.len() implies pos_le(t[a]@, t[b]@) by {
        if a < j && b > j {
            assert(t[a] == s[a]);
            assert(t[b] == s[b - 1]);
            assert(a <= b - 1);
            if a == b - 1 {
                assert(pos_le(s[a]@, x@));
                assert(pos_le(x@, s[b - 1]@));
                lemma_pos_le_trans(s[a]@, x@, s[b - 1]@);
            }
        }
    }
}

/// Sorts positions by the `(file, offset, len)` order.  The result holds
/// exactly the input's positions.
pub fn sort_positions(v: Vec<Position>) -> (r: Vec<Position>)
    ensures
        sorted_positions(r@),
        r@.len() == v@.len(),
        forall|i: int| 0 <= i < r@.len() ==> v@.contains(r@[i]),
        forall|i: int| 0 <= i < v@.len() ==> r@.contains(v@[i]),
{
    let ghost orig = v@;
    let mut v = v;
    let mut r: Vec<Position> = Vec::new();
    proof {
        assert(orig.to_multiset() =~= r@.to_multiset().add(v@.to_multiset()));
    }
    while v.len() > 0
        invariant
            sorted_positions(r@),
            orig.to_multiset() =~= r@.to_multiset().add(v@.to_multiset()),
        decreases v@.len(),
    {
        let ghost v_before = v@;
        let x = v.pop().unwrap();
        proof {
            assert(v_before =~= v@.push(x));
            assert(v_before.to_multiset() =~= v@.to_multiset().insert(x));
        }
        let mut j: usize = r.len();
        loop
            invariant
                j <= r@.len(),
                sorted_positions(r@),
                forall|k: int| j <= k < r@.len() ==> pos_le(x@, r@[k]@),
            ensures
                j <= r@.len(),
                forall|k: int| j <= k < r@.len() ==> pos_le(x@, r@[k]@),
                j == 0 || pos_le(r@[j - 1]@, x@),
            decreases j,
        {
            if j == 0 {
                break ;
            }
            if r[j - 1].key_le(&x) {
                break ;
            }
            proof {
                lemma_pos_le_connex(r@[j - 1]@, x@);
            }
            j = j - 1;
        }
        proof {
            assert forall|k: int| 0 <= k < j implies pos_le(r@[k]@, x@) by {
                if k < j - 1 {
                    lemma_pos_le_trans(r@[k]@, r@[j - 1]@, x@);
                }
            }
            lemma_sorted_insert(r@, j as int, x);
            lemma_insert_multiset(r@, j as int, x);
        }
        r.insert(j, x);
    }
    proof {
        assert(v@.to_multiset() =~= Multiset::<Position>::empty());
        assert(r@.to_multiset() =~= orig.to_multiset());
        assert(r@.to_multiset().len() == r@.len());
        assert(orig.to_multiset().len() == orig.len());
        assert(r@.len() == orig.len());
        assert forall|i: int| 0 <= i < r@.len() implies orig.contains(r@[i]) by {
            assert(r@.contains(r@[i]));
            assert(r@.to_multiset().count(r@[i]) > 0);
        }
        assert forall|i: int| 0 <= i < orig.len() implies r@.contains(orig[i]) by {
            assert(orig.contains(orig[i]));
            assert(orig.to_multiset().count(orig[i]) > 0);
        }
    }
    r
}

/// Removes key-duplicates from a sorted position list, keeping one position
/// per key.  The result's length is the number of distinct keys.
pub fn dedup_positions(v: Vec<Position>) -> (r: Vec<Position>)
    requires
        sorted_positions(v@),
    ensures
        sorted_positions(r@),
        distinct_keys(pos_views(r@)),
        forall|i: int| 0 <= i < r@.len() ==> v@.contains(r@[i]),
        forall|j: int| 0 <= j < v@.len() ==> ref_has_key(pos_views(r@), v@[j]@),
        r@.len() == distinct_key_count(pos_views(v@)),
{
    let ghost orig = v@;
    let mut v = v;
    let mut r: Vec<Position> = Vec::new();
    let ghost mut i: int = 0;
    proof {
        assert(v@ =~= orig.subrange(0, orig.len() as int));
        assert(pos_views(orig.subrange(0, 0)) =~= Seq::<PosV>::empty());
    }
    while v.len() > 0
        invariant
            0 <= i <= orig.len(),
            v@ == orig.subrange(i, orig.len() as int),
            sorted_positions(orig),
            sorted_positions(r@),
            distinct_keys(pos_views(r@)),
            forall|m: int|
                #![trigger r@[m]]
                0 <= m < r@.len() ==> exists|a: int| 0 <= a < i && orig[a] == r@[m],
            forall|j: int| 0 <= j < i ==> ref_has_key(pos_views(r@), orig[j]@),
            r@.len() == distinct_key_count(pos_views(orig.subrange(0, i))),
        decreases v@.len(),
    {
        let ghost r_before = r@;
        let x = v.remove(0);
        proof {
            assert(x == orig[i]);
            assert(v@ =~= orig.subrange(i + 1, orig.len() as int));
        }
        let present = contains_key(&r, &x);
        if !present {
            proof {
                assert forall|m: int| 0 <= m < r@.len() implies pos_le(r@[m]@, x@) by {
                    let a = choose|a: int| 0 <= a < i && orig[a] == r@[m];
                    assert(pos_le(orig[a]@, orig[i]@));
                }
                assert forall|m: int| 0 <= m < r@.len() implies !key_eq(r@[m]@, x@) by {
                    assert(pos_views(r@)[m] == r@[m]@);
                }
            }
            r.push(x);
            proof {
                assert(pos_views(r@) =~= pos_views(r_before).push(x@));
                assert forall|m: int, n: int|
                    0 <= m < n < r@.len() implies !key_eq(pos_views(r@)[m], pos_views(r@)[n]) by {
                    if n < r@.len() - 1 {
                        assert(!key_eq(pos_views(r_before)[m], pos_views(r_before)[n]));
                    }
                }
            }
        }
        proof {
            // The key of `x` is in `r` exactly when it occurs in the prefix.
            let ghost prefix = pos_views(orig.subrange(0, i));
            if present {
                assert(ref_has_key(pos_views(r@), x@));
            }
            assert(ref_has_key(prefix, x@) ==> ref_has_key(pos_views(r_before), x@)) by {
                if ref_has_key(prefix, x@) {
                    let j = choose|j: int| 0 <= j < prefix.len() && key_eq(prefix[j], x@);
                    assert(prefix[j] == orig.subrange(0, i)[j]@);
                    assert(ref_has_key(pos_views(r_before), orig[j]@));
                    let m = choose|m: int|
                        0 <= m < pos_views(r_before).len() && key_eq(
                            pos_views(r_before)[m],
                            orig[j]@,
                        );
                    assert(key_eq(pos_views(r_before)[m], x@));
                }
            }
            assert(ref_has_key(pos_views(r_before), x@) ==> ref_has_key(prefix, x@)) by {
                if ref_has_key(pos_views(r_before), x@) {
                    let m = choose|m: int|
                        0 <= m < pos_views(r_before).len() && key_eq(pos_views(r_before)[m], x@);
                    let a = choose|a: int| 0 <= a < i && orig[a] == r_before[m];
                    assert(prefix[a] == orig.subrange(0, i)[a]@);
                    assert(key_eq(prefix[a], x@));
                }
            }
            // Count step: the prefix grown by one.
            let ghost prefix1 = pos_views(orig.subrange(0, i + 1));
            assert(prefix1 =~= prefix.push(x@));
            assert(prefix1.drop_last() =~= prefix);
            assert(prefix1.last() == x@);
            assert(ref_has_key(prefix, x@) == present);
            // Coverage for index i itself.
            assert(ref_has_key(pos_views(r@), orig[i]@)) by {
                if present {
                } else {
                    assert(pos_views(r@)[r@.len() - 1] == x@);
                }
            }
            assert forall|j: int| 0 <= j < i implies ref_has_key(pos_views(r@), orig[j]@) by {
                if !present {
                    let m = choose|m: int|
                        0 <= m < pos_views(r_before).len() && key_eq(
                            pos_views(r_before)[m],
                            orig[j]@,
                        );
                    assert(pos_views(r@)[m] == pos_views(r_before)[m]);
                }
            }
            i = i + 1;
        }
    }
    proof {
        assert(i == orig.len());
        assert(orig.subrange(0, i) =~= orig);
    }
    r
}


/// Finds a position with `p`'s key, if any.
pub fn find_key(v: &Vec<Position>, p: &Position) -> (o: Option<usize>)
    ensures
        match o {
            Some(i) => i < v@.len() && key_eq(v@[i as int]@, p@),
            None => !ref_has_key(pos_views(v@), p@),
        },
{
    let mut i: usize = 0;
    while i < v.len()
        invariant
            i <= v@.len(),
            forall|j: int| 0 <= j < i ==> !key_eq(v@[j]@, p@),
        decreases v@.len() - i,
    {
        if v[i].key_equal(p) {
            return Some(i);
        }
        i = i + 1;
    }
    assert forall|j: int| 0 <= j < pos_views(v@).len() implies !key_eq(pos_views(v@)[j], p@) by {
        assert(pos_views(v@)[j] == v@[j]@);
    }
    None
}

/// Sorts and key-deduplicates a reference list: one position per distinct
/// key of the input, in position order, each taken from the input.
pub fn dedup_refs(refs: Vec<Position>) -> (r: Vec<Position>)
    ensures
        sorted_positions(r@),
        distinct_keys(pos_views(r@)),
        forall|i: int| 0 <= i < r@.len() ==> #[trigger] pos_views(refs@).contains(r@[i]@),
        forall|k: PosV|
            #![trigger ref_has_key(pos_views(r@), k)]
            ref_has_key(pos_views(r@), k) <==> ref_has_key(pos_views(refs@), k),
{
    let ghost orig = refs@;
    let s = sort_positions(refs);
    let r = dedup_positions(s);
    proof {
        assert forall|i: int| 0 <= i < r@.len() implies pos_views(orig).contains(r@[i]@) by {
            assert(s@.contains(r@[i]));
            let m = choose|m: int| 0 <= m < s@.len() && s@[m] == r@[i];
            assert(orig.contains(s@[m]));
            let a = choose|a: int| 0 <= a < orig.len() && orig[a] == s@[m];
            assert(pos_views(orig)[a] == orig[a]@);
        }
        assert forall|k: PosV| ref_has_key(pos_views(r@), k) implies ref_has_key(
            pos_views(orig),
            k,
        ) by {
            let m = choose|m: int| 0 <= m < pos_views(r@).len() && key_eq(pos_views(r@)[m], k);
            assert(pos_views(r@)[m] == r@[m]@);
            assert(pos_views(orig).contains(r@[m]@));
            let a = choose|a: int| 0 <= a < pos_views(orig).len() && pos_views(orig)[a] == r@[m]@;
            assert(key_eq(pos_views(orig)[a], k));
        }
        assert forall|k: PosV| ref_has_key(pos_views(orig), k) implies ref_has_key(
            pos_views(r@),
            k,
        ) by {
            let a = choose|a: int| 0 <= a < pos_views(orig).len() && key_eq(pos_views(orig)[a], k);
            assert(pos_views(orig)[a] == orig[a]@);
            assert(s@.contains(orig[a]));
            let m = choose|m: int| 0 <= m < s@.len() && s@[m] == orig[a];
            assert(ref_has_key(pos_views(r@), s@[m]@));
            let m2 = choose|m2: int|
                0 <= m2 < pos_views(r@).len() && key_eq(pos_views(r@)[m2], s@[m]@);
            assert(key_eq(pos_views(r@)[m2], k));
        }
    }
    r
}

/// Removal keeps a sorted, key-distinct list sorted and key-distinct.
pub proof fn lemma_remove_sorted_distinct(s: Seq<Position>, i: int)
    requires
        sorted_positions(s),
        distinct_keys(pos_views(s)),
        0 <= i < s.len(),
    ensures
        sorted_positions(s.remove(i)),
        distinct_keys(pos_views(s.remove(i))),
{
    let t = s.remove(i);
    assert forall|a: int, b: int| 0 <= a < b < t.len() implies pos_le(t[a]@, t[b]@) && !key_eq(
        pos_views(t)[a],
        pos_views(t)[b],
    ) by {
        let a0: int = if a < i { a } else { a + 1 };
        let b0: int = if b < i { b } else { b + 1 };
        assert(t[a] == s[a0]);
        assert(t[b] == s[b0]);
        assert(pos_views(t)[a] == t[a]@ && pos_views(t)[b] == t[b]@);
        assert(pos_views(s)[a0] == s[a0]@ && pos_views(s)[b0] == s[b0]@);
    }
}

/// A key other than the removed element's survives a removal.
pub proof fn lemma_has_key_after_remove(s: Seq<PosV>, i: int, k: PosV)
    requires
        0 <= i < s.len(),
        ref_has_key(s, k),
        !key_eq(s[i], k),
    ensures
        ref_has_key(s.remove(i), k),
{
    let m = choose|m: int| 0 <= m < s.len() && key_eq(s[m], k);
    if m < i {
        assert(s.remove(i)[m] == s[m]);
    } else {
        assert(s.remove(i)[m - 1] == s[m]);
    }
}

/// A key of the remainder was a key of the whole.
pub proof fn lemma_has_key_remove_subset(s: Seq<PosV>, i: int, k: PosV)
    requires
        0 <= i < s.len(),
        ref_has_key(s.remove(i), k),
    ensures
        ref_has_key(s, k),
{
    let m = choose|m: int| 0 <= m < s.remove(i).len() && key_eq(s.remove(i)[m], k);
    if m < i {
        assert(s.remove(i)[m] == s[m]);
    } else {
        assert(s.remove(i)[m] == s[m + 1]);
    }
}

/// No two equal file names.
pub open spec fn distinct_files(s: Seq<String>) -> bool {
    forall|i: int, j: int| 0 <= i < j < s.len() ==> s[i]@ != s[j]@
}

/// Whether some position lies in file `f`.
pub open spec fn has_file(s: Seq<PosV>, f: Seq<char>) -> bool {
    exists|i: int| 0 <= i < s.len() && s[i].file == f
}

/// Whether `p` occurs, value for value, in the list.
pub open spec fn value_in(s: Seq<Position>, p: Position) -> bool {
    exists|a: int| 0 <= a < s.len() && s[a] == p
}

/// Whether `p` occurs among the first `n` elements of the list.
pub open spec fn value_in_prefix(s: Seq<Position>, n: int, p: Position) -> bool {
    exists|a: int| 0 <= a < n && s[a] == p
}

/// Whether the list holds the file name `f`.
pub open spec fn has_file_name(s: Seq<String>, f: Seq<char>) -> bool {
    exists|i: int| 0 <= i < s.len() && s[i]@ == f
}

proof fn lemma_has_file_name_push(s: Seq<String>, x: String, f: Seq<char>)
    requires
        has_file_name(s, f) || x@ == f,
    ensures
        has_file_name(s.push(x), f),
{
    if has_file_name(s, f) {
        let i = choose|i: int| 0 <= i < s.len() && s[i]@ == f;
        assert(s.push(x)[i]@ == f);
    } else {
        assert(s.push(x)[s.len() as int]@ == f);
    }
}

fn contains_file(v: &Vec<String>, f: &String) -> (r: bool)
    ensures
        r == has_file_name(v@, f@),
{
    let mut i: usize = 0;
    while i < v.len()
        invariant
            i <= v@.len(),
            forall|j: int| 0 <= j < i ==> v@[j]@ != f@,
        decreases v@.len() - i,
    {
        if v[i].eq(f) {
            assert(has_file_name(v@, f@));
            return true;
        }
        i = i + 1;
    }
    false
}

/// Collects the distinct file names occurring in two position lists.
pub fn collect_files(a: &Vec<Position>, b: &Vec<Position>) -> (files: Vec<String>)
    ensures
        distinct_files(files@),
        forall|i: int|
            #![trigger files@[i]]
            0 <= i < files@.len() ==> has_file(pos_views(a@), files@[i]@) || has_file(
                pos_views(b@),
                files@[i]@,
            ),
        forall|m: int|
            #![trigger a@[m]]
            0 <= m < a@.len() ==> has_file_name(files@, a@[m]@.file),
        forall|m: int|
            #![trigger b@[m]]
            0 <= m < b@.len() ==> has_file_name(files@, b@[m]@.file),
{
    let mut files: Vec<String> = Vec::new();
    let mut m: usize = 0;
    while m < a.len()
        invariant
            m <= a@.len(),
            distinct_files(files@),
            forall|i: int|
                #![trigger files@[i]]
                0 <= i < files@.len() ==> has_file(pos_views(a@), files@[i]@),
            forall|n: int|
                #![trigger a@[n]]
                0 <= n < m ==> has_file_name(files@, a@[n]@.file),
        decreases a@.len() - m,
    {
        let ghost files_before = files@;
        let present = contains_file(&files, &a[m].file);
        if !present {
            files.push(a[m].file.clone());
            proof {
                assert(pos_views(a@)[m as int] == a@[m as int]@);
                assert(files@ =~= files_before.push(files@[files@.len() - 1]));
            }
        }
        proof {
            assert forall|n: int| #![trigger a@[n]] 0 <= n < m + 1 implies has_file_name(
                files@,
                a@[n]@.file,
            ) by {
                if n < m {
                    if !present {
                        lemma_has_file_name_push(
                            files_before,
                            files@[files@.len() - 1],
                            a@[n]@.file,
                        );
                    }
                } else {
                    if present {
                    } else {
                        assert(files@[files@.len() - 1]@ == a@[m as int]@.file);
                        assert(has_file_name(files@, a@[m as int]@.file));
                    }
                }
            }
        }
        m = m + 1;
    }
    let mut m: usize = 0;
    while m < b.len()
        invariant
            m <= b@.len(),
            distinct_files(files@),
            forall|i: int|
                #![trigger files@[i]]
                0 <= i < files@.len() ==> has_file(pos_views(a@), files@[i]@) || has_file(
                    pos_views(b@),
                    files@[i]@,
                ),
            forall|n: int|
                #![trigger a@[n]]
                0 <= n < a@.len() ==> has_file_name(files@, a@[n]@.file),
            forall|n: int|
                #![trigger b@[n]]
                0 <= n < m ==> has_file_name(files@, b@[n]@.file),
        decreases b@.len() - m,
    {
        let ghost files_before = files@;
        let present = contains_file(&files, &b[m].file);
        if !present {
            files.push(b[m].file.clone());
            proof {
                assert(pos_views(b@)[m as int] == b@[m as int]@);
                assert(files@ =~= files_before.push(files@[files@.len() - 1]));
            }
        }
        proof {
            let ghost x = if present { files@[0] } else { files@[files@.len() - 1] };
            assert forall|n: int| #![trigger a@[n]] 0 <= n < a@.len() implies has_file_name(
                files@,
                a@[n]@.file,
            ) by {
                if !present {
                    lemma_has_file_name_push(files_before, files@[files@.len() - 1], a@[n]@.file);
                }
            }
            assert forall|n: int| #![trigger b@[n]] 0 <= n < m + 1 implies has_file_name(
                files@,
                b@[n]@.file,
            ) by {
                if n < m {
                    if !present {
                        lemma_has_file_name_push(
                            files_before,
                            files@[files@.len() - 1],
                            b@[n]@.file,
                        );
                    }
                } else {
                    if !present {
                        assert(files@[files@.len() - 1]@ == b@[m as int]@.file);
                        assert(has_file_name(files@, b@[m as int]@.file));
                    }
                }
            }
        }
        m = m + 1;
    }
    files
}

} // verus!
