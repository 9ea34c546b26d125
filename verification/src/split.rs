//! Splitting byte sequences on a literal separator, the primitive that the
//! request parser builds on.

use vstd::prelude::*;

verus! {

/// True when `pat` occurs in `b` starting at index `i`.
pub open spec fn match_at(b: Seq<u8>, pat: Seq<u8>, i: int) -> bool {
    &&& 0 <= i
    &&& i + pat.len() <= b.len()
    &&& b.subrange(i, i + pat.len() as int) == pat
}

/// The first index at or after `from` where `pat` occurs in `b`.
pub open spec fn find_from(b: Seq<u8>, pat: Seq<u8>, from: int) -> Option<int>
    decreases b.len() - from,
{
    if pat.len() == 0 || from < 0 || from + pat.len() > b.len() {
        None
    } else if match_at(b, pat, from) {
        Some(from)
    } else {
        find_from(b, pat, from + 1)
    }
}

/// A found index is the first match at or after `from`.
pub proof fn lemma_find_from_some(b: Seq<u8>, pat: Seq<u8>, from: int)
    requires
        find_from(b, pat, from) is Some,
    ensures
        ({
            let i = find_from(b, pat, from)->Some_0;
            &&& from <= i
            &&& pat.len() >= 1
            &&& i + pat.len() <= b.len()
            &&& match_at(b, pat, i)
            &&& forall|j: int| from <= j < i ==> !match_at(b, pat, j)
        }),
    decreases b.len() - from,
{
    if !match_at(b, pat, from) {
        lemma_find_from_some(b, pat, from + 1);
    }
}

/// A match at `cut` with none before it is what the search returns.
pub proof fn lemma_find_from_exact(b: Seq<u8>, pat: Seq<u8>, from: int, cut: int)
    requires
        pat.len() >= 1,
        0 <= from <= cut,
        match_at(b, pat, cut),
        forall|j: int| from <= j < cut ==> !match_at(b, pat, j),
    ensures
        find_from(b, pat, from) == Some(cut),
    decreases cut - from,
{
    if from < cut {
        lemma_find_from_exact(b, pat, from + 1, cut);
    }
}

/// A match within the tail of `b` is a match within `b`, shifted.
pub proof fn lemma_match_at_skip(b: Seq<u8>, pat: Seq<u8>, d: int, j: int)
    requires
        0 <= d <= b.len(),
        0 <= j,
    ensures
        match_at(b.skip(d), pat, j) == match_at(b, pat, d + j),
{
    if 0 <= j && j + pat.len() <= b.len() - d {
        assert(b.skip(d).subrange(j, j + pat.len() as int) =~= b.subrange(
            d + j,
            d + j + pat.len(),
        ));
    }
}

/// Searching the tail of `b` is searching `b` from a shifted start.
pub proof fn lemma_find_from_skip(b: Seq<u8>, pat: Seq<u8>, d: int, from: int)
    requires
        0 <= d <= b.len(),
        0 <= from,
    ensures
        find_from(b.skip(d), pat, from) == match find_from(b, pat, d + from) {
            Some(i) => Some(i - d),
            None => None::<int>,
        },
    decreases b.len() + 1 - d - from,
{
    lemma_match_at_skip(b, pat, d, from);
    if pat.len() >= 1 && from + pat.len() <= b.len() - d && !match_at(b.skip(d), pat, from) {
        lemma_find_from_skip(b, pat, d, from + 1);
    }
}

/// The pieces of `b` between the occurrences of `pat`, in order: the view
/// that splitting a byte string on a separator leaves behind.
pub open spec fn split_by(b: Seq<u8>, pat: Seq<u8>) -> Seq<Seq<u8>>
    decreases b.len(),
    via split_by_decreases
{
    match find_from(b, pat, 0) {
        None => seq![b],
        Some(i) => seq![b.subrange(0, i)] + split_by(b.skip(i + pat.len()), pat),
    }
}

#[via_fn]
proof fn split_by_decreases(b: Seq<u8>, pat: Seq<u8>) {
    if find_from(b, pat, 0) is Some {
        lemma_find_from_some(b, pat, 0);
    }
}

/// Splitting never yields an empty list of pieces.
pub proof fn lemma_split_by_nonempty(b: Seq<u8>, pat: Seq<u8>)
    ensures
        split_by(b, pat).len() >= 1,
{
    if find_from(b, pat, 0) is Some {
        lemma_find_from_some(b, pat, 0);
    }
}

/// For byte vectors the deep view is the view itself.
pub proof fn lemma_vec_u8_deep_view(v: Vec<u8>)
    ensures
        v.deep_view() == v@,
{
    assert(v.deep_view() =~= v@);
}

/// Whether `pat` matches `b` starting at `i`.
pub fn match_range(b: &[u8], pat: &[u8], i: usize) -> (r: bool)
    requires
        i + pat@.len() <= b@.len(),
    ensures
        r == match_at(b@, pat@, i as int),
{
    let blen: usize = b.len();
    let plen: usize = pat.len();
    let mut k: usize = 0;
    while k < plen
        invariant
            plen == pat@.len(),
            blen == b@.len(),
            i + pat@.len() <= b@.len(),
            0 <= k <= pat@.len(),
            forall|j: int| 0 <= j < k ==> b@[i + j] == pat@[j],
        decreases pat@.len() - k,
    {
        if b[i + k] != pat[k] {
            proof {
                if match_at(b@, pat@, i as int) {
                    assert(b@.subrange(i as int, i + pat@.len() as int)[k as int] == pat@[
                        k as int
                    ]);
                }
            }
            return false;
        }
        k += 1;
    }
    proof {
        assert(b@.subrange(i as int, i + pat@.len() as int) =~= pat@);
    }
    true
}

/// The first index at or after `from` where `pat` occurs in `b`, if any.
pub fn find_pat(b: &[u8], pat: &[u8], from: usize) -> (r: Option<usize>)
    requires
        pat@.len() >= 1,
        from <= b@.len(),
    ensures
        match r {
            Some(i) => find_from(b@, pat@, from as int) == Some(i as int),
            None => find_from(b@, pat@, from as int) is None,
        },
{
    let mut i: usize = from;
    loop
        invariant
            pat@.len() >= 1,
            from <= i <= b@.len(),
            find_from(b@, pat@, from as int) == find_from(b@, pat@, i as int),
        decreases b@.len() - i,
    {
        if b.len() < pat.len() || i > b.len() - pat.len() {
            return None;
        }
        if match_range(b, pat, i) {
            return Some(i);
        }
        i += 1;
    }
}

/// The bytes of `b` from `lo` up to `hi`, as a fresh vector.
pub fn copy_range(b: &[u8], lo: usize, hi: usize) -> (r: Vec<u8>)
    requires
        lo <= hi <= b@.len(),
    ensures
        r@ == b@.subrange(lo as int, hi as int),
{
    let mut r: Vec<u8> = Vec::new();
    let mut j: usize = lo;
    while j < hi
        invariant
            lo <= j <= hi <= b@.len(),
            r@ =~= b@.subrange(lo as int, j as int),
        decreases hi - j,
    {
        r.push(b[j]);
        proof {
            assert(r@ =~= b@.subrange(lo as int, j + 1));
        }
        j += 1;
    }
    proof {
        assert(r@ =~= b@.subrange(lo as int, hi as int));
    }
    r
}

/// Split `b` on every occurrence of `pat`.
pub fn split_bytes(b: &[u8], pat: &[u8]) -> (r: Vec<Vec<u8>>)
    requires
        pat@.len() >= 1,
    ensures
        r.deep_view() == split_by(b@, pat@),
{
    let blen: usize = b.len();
    let mut r: Vec<Vec<u8>> = Vec::new();
    let mut pos: usize = 0;
    proof {
        assert(b@.skip(0) =~= b@);
        assert(r.deep_view() =~~= Seq::<Seq<u8>>::empty());
        assert(r.deep_view() + split_by(b@, pat@) =~= split_by(b@, pat@));
    }
    loop
        invariant
            pat@.len() >= 1,
            blen == b@.len(),
            pos <= b@.len(),
            split_by(b@, pat@) == r.deep_view() + split_by(b@.skip(pos as int), pat@),
        decreases b@.len() - pos,
    {
        let ghost prefix = r.deep_view();
        match find_pat(b, pat, pos) {
            None => {
                let piece = copy_range(b, pos, b.len());
                r.push(piece);
                proof {
                    lemma_find_from_skip(b@, pat@, pos as int, 0);
                    assert(b@.skip(pos as int) =~= b@.subrange(pos as int, b@.len() as int));
                    assert(r.deep_view() =~~= prefix + seq![b@.skip(pos as int)]);
                    assert(split_by(b@, pat@) == r.deep_view());
                }
                return r;
            },
            Some(i) => {
                proof {
                    lemma_find_from_some(b@, pat@, pos as int);
                }
                let piece = copy_range(b, pos, i);
                r.push(piece);
                proof {
                    lemma_find_from_skip(b@, pat@, pos as int, 0);
                    let tail = b@.skip(pos as int);
                    assert(find_from(tail, pat@, 0) == Some(i - pos));
                    assert(tail.subrange(0, i - pos) =~= b@.subrange(pos as int, i as int));
                    assert(tail.skip(i - pos + pat@.len()) =~= b@.skip(i + pat@.len()));
                    assert(r.deep_view() =~~= prefix + seq![b@.subrange(pos as int, i as int)]);
                    assert(split_by(b@, pat@) == r.deep_view() + split_by(
                        b@.skip(i + pat@.len()),
                        pat@,
                    ));
                }
                pos = i + pat.len();
            },
        }
    }
}

} // verus!
