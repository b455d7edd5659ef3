//! Small helpers shared by the graph structures: flat-index arithmetic for
//! square matrices, duplicate detection over name slices, and order-preserving
//! de-duplication of a vector.

use vstd::prelude::*;

verus! {

/// True when the sequence holds the same character at two distinct positions.
pub open spec fn has_dup(s: Seq<char>) -> bool {
    exists|i: int, j: int| 0 <= i < j < s.len() && s[i] == s[j]
}

/// Order-preserving de-duplication: keeps the first occurrence of each value,
/// drops every later exact repeat.
pub open spec fn dedup_first<T>(s: Seq<T>) -> Seq<T>
    decreases s.len(),
{
    if s.len() == 0 {
        Seq::empty()
    } else {
        let d = dedup_first(s.drop_last());
        if d.contains(s.last()) {
            d
        } else {
            d.push(s.last())
        }
    }
}

/// The de-duplicated sequence holds exactly the values of the original.
pub proof fn lemma_dedup_first_contains<T>(s: Seq<T>, x: T)
    ensures
        dedup_first(s).contains(x) <==> s.contains(x),
    decreases s.len(),
{
    if s.len() > 0 {
        lemma_dedup_first_contains(s.drop_last(), x);
        assert(s.contains(x) <==> s.drop_last().contains(x) || s.last() == x) by {
            if s.contains(x) {
                let i = choose|i: int| 0 <= i < s.len() && s[i] == x;
                if i < s.len() - 1 {
                    assert(s.drop_last()[i] == x);
                }
            }
            if s.drop_last().contains(x) {
                let i = choose|i: int| 0 <= i < s.drop_last().len() && s.drop_last()[i] == x;
                assert(s[i] == x);
            }
        }
        let d = dedup_first(s.drop_last());
        if !d.contains(s.last()) {
            let dd = d.push(s.last());
            assert(dd.contains(x) <==> d.contains(x) || x == s.last()) by {
                if dd.contains(x) {
                    let i = choose|i: int| 0 <= i < dd.len() && dd[i] == x;
                    if i < d.len() {
                        assert(d[i] == x);
                    }
                }
                if d.contains(x) {
                    let i = choose|i: int| 0 <= i < d.len() && d[i] == x;
                    assert(dd[i] == x);
                }
                if x == s.last() {
                    assert(dd[d.len() as int] == x);
                }
            }
        }
    }
}

/// Every value of the de-duplicated sequence appears there exactly once.
pub proof fn lemma_dedup_first_distinct<T>(s: Seq<T>)
    ensures
        forall|i: int, j: int|
            0 <= i < j < dedup_first(s).len() ==> dedup_first(s)[i] != dedup_first(s)[j],
    decreases s.len(),
{
    if s.len() > 0 {
        lemma_dedup_first_distinct(s.drop_last());
        let d = dedup_first(s.drop_last());
        if !d.contains(s.last()) {
            assert(forall|i: int| 0 <= i < d.len() ==> d[i] != s.last());
            assert(forall|i: int| 0 <= i < d.len() ==> dedup_first(s)[i] == d[i]);
        }
    }
}

/// Whether the vector holds the character `c`.
pub(crate) fn contains_char(v: &Vec<char>, c: char) -> (r: bool)
    ensures
        r == v@.contains(c),
{
    let n = v.len();
    for k in 0..n
        invariant
            n == v@.len(),
            forall|j: int| 0 <= j < k ==> v@[j] != c,
    {
        if v[k] == c {
            assert(v@.contains(c));
            return true;
        }
        assert(v@[k as int] != c);
    }
    false
}

/// Flat index of the cell in column `x`, row `y` of a square matrix of width
/// `w`, stored row-major with `x` as the fast axis.
pub fn coords_to_idx(x: usize, y: usize, w: usize) -> (r: usize)
    requires
        x + w * y <= usize::MAX,
    ensures
        r == x + w * y,
{
    x + w * y
}

/// Splits a flat index back into `(column, row)` coordinates.
pub fn idx_to_coords(i: usize, w: usize) -> (r: (usize, usize))
    requires
        w > 0,
    ensures
        r.0 == i as int % w as int,
        r.1 == i as int / w as int,
        r == (((i as int % w as int) as usize, (i as int / w as int) as usize)),
{
    (i % w, i / w)
}

/// Removes every later exact repeat of a value already seen, keeping the
/// first occurrences in their original order. The de-duplicated content is
/// pinned whenever the element type's `==` decides plain equality.
pub fn dedup<T: Eq>(v: &mut Vec<T>)
    ensures
        final(v)@.len() <= old(v)@.len(),
        vstd::laws_eq::obeys_concrete_eq::<T>() ==> final(v)@ == dedup_first(old(v)@),
{
    let ghost all = old(v)@;
    let mut tmp: Vec<T> = Vec::new();
    core::mem::swap(v, &mut tmp);
    let mut src = crate::reversed(tmp);
    let ghost mut k: int = 0;
    while src.len() > 0
        invariant
            0 <= k <= all.len(),
            src@.len() == all.len() - k,
            forall|t: int| 0 <= t < src@.len() ==> src@[t] == all[all.len() - 1 - t],
            v@.len() <= k,
            vstd::laws_eq::obeys_concrete_eq::<T>() ==> v@ == dedup_first(all.take(k)),
        decreases src@.len(),
    {
        let x = src.pop().unwrap();
        proof {
            assert(x == all[k]);
            assert(all.take(k + 1).drop_last() =~= all.take(k));
            assert(all.take(k + 1).last() == all[k]);
        }
        let m = v.len();
        let mut found = false;
        let mut i: usize = 0;
        while i < m
            invariant
                m == v@.len(),
                i <= m,
                vstd::laws_eq::obeys_concrete_eq::<T>() ==> (found <==> exists|t: int|
                    0 <= t < i && v@[t] == x),
            decreases m - i,
        {
            let hit = v[i] == x;
            proof {
                if vstd::laws_eq::obeys_concrete_eq::<T>() {
                    reveal(vstd::laws_eq::obeys_concrete_eq);
                    assert(hit == (v@[i as int] == x));
                    if hit {
                        assert(exists|t: int| 0 <= t < i + 1 && v@[t] == x);
                    }
                }
            }
            if hit {
                found = true;
            }
            i += 1;
        }
        proof {
            if vstd::laws_eq::obeys_concrete_eq::<T>() {
                assert(found == v@.contains(x));
                assert(found == dedup_first(all.take(k)).contains(all[k]));
            }
        }
        if !found {
            v.push(x);
        }
        proof {
            if vstd::laws_eq::obeys_concrete_eq::<T>() {
                assert(v@ == dedup_first(all.take(k + 1)));
            }
            k = k + 1;
        }
    }
    proof {
        assert(all.take(k) =~= all);
    }
}

/// Reports whether any character occurs twice in the slice.
pub fn has_duplicates(names: &[char]) -> (r: bool)
    ensures
        r == has_dup(names@),
{
    let n = names.len();
    for i in 0..n
        invariant
            n == names@.len(),
            forall|p: int, q: int| 0 <= p < q < names@.len() && p < i ==> names@[p] != names@[q],
    {
        for j in (i + 1)..n
            invariant
                n == names@.len(),
                i < n,
                forall|p: int, q: int| 0 <= p < q < names@.len() && p < i ==> names@[p] != names@[q],
                forall|q: int| i < q < j ==> names@[i as int] != names@[q],
        {
            if names[i] == names[j] {
                assert(has_dup(names@));
                return true;
            }
        }
    }
    false
}

} // verus!
