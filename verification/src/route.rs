//! The routing grammar: which screen, if any, a URL path names.
//! `"/"` names the first screen; `"/screen/<digits>"` names screen
//! `<digits> - 1`; every other shape names none.

use vstd::prelude::*;
use crate::split::{match_at, match_range};
use crate::ServerError;

verus! {

/// Whether `b` is the code of a decimal digit.
pub open spec fn is_digit(b: u8) -> bool {
    48 <= b && b <= 57
}

/// Whether every byte of `s` is a decimal digit.
pub open spec fn all_digits(s: Seq<u8>) -> bool {
    forall|i: int| 0 <= i < s.len() ==> is_digit(s[i])
}

/// The number that a digit string denotes, most significant digit first.
pub open spec fn digits_val(s: Seq<u8>) -> int
    decreases s.len(),
{
    if s.len() == 0 {
        0
    } else {
        digits_val(s.drop_last()) * 10 + (s.last() - 48)
    }
}

/// The eight bytes of `"/screen/"`.
pub open spec fn screen_prefix() -> Seq<u8> {
    seq![47u8, 115u8, 99u8, 114u8, 101u8, 101u8, 110u8, 47u8]
}

/// The single byte of `"/"`.
pub open spec fn root_path() -> Seq<u8> {
    seq![47u8]
}

/// Whether `p` has the shape `"/screen/<digits>"` with at least one digit.
pub open spec fn is_screen_path(p: Seq<u8>) -> bool {
    &&& p.len() > 8
    &&& p.subrange(0, 8) == screen_prefix()
    &&& all_digits(p.skip(8))
}

/// Where a path routes: `Ok(Some(i))` is the zero-based screen index,
/// `Ok(None)` is an unrecognized shape or screen number zero, and `Err`
/// is a digit string beyond the machine's integer range.
pub open spec fn spec_resolve(p: Seq<u8>) -> Result<Option<int>, ()> {
    if p == root_path() {
        Result::Ok(Option::Some(0int))
    } else if is_screen_path(p) {
        let n = digits_val(p.skip(8));
        if n > usize::MAX as int {
            Result::Err(())
        } else if n == 0 {
            Result::Ok(Option::None)
        } else {
            Result::Ok(Option::Some(n - 1))
        }
    } else {
        Result::Ok(Option::None)
    }
}

/// A digit string denotes a number that is not negative.
pub proof fn lemma_digits_val_nonneg(s: Seq<u8>)
    requires
        all_digits(s),
    ensures
        digits_val(s) >= 0,
    decreases s.len(),
{
    if s.len() > 0 {
        assert forall|i: int| 0 <= i < s.drop_last().len() implies is_digit(s.drop_last()[i]) by {
            assert(s.drop_last()[i] == s[i]);
        }
        lemma_digits_val_nonneg(s.drop_last());
    }
}

/// A digit string denotes at least what any of its prefixes denotes.
pub proof fn lemma_digits_val_prefix_le(s: Seq<u8>, i: int)
    requires
        all_digits(s),
        0 <= i <= s.len(),
    ensures
        digits_val(s.subrange(0, i)) <= digits_val(s),
    decreases s.len() - i,
{
    if i == s.len() {
        assert(s.subrange(0, i) =~= s);
    } else {
        lemma_digits_val_prefix_le(s, i + 1);
        let a = s.subrange(0, i);
        let b = s.subrange(0, i + 1);
        assert(b.drop_last() =~= a);
        assert forall|j: int| 0 <= j < a.len() implies is_digit(a[j]) by {
            assert(a[j] == s[j]);
        }
        lemma_digits_val_nonneg(a);
        assert(digits_val(b) == digits_val(a) * 10 + (b.last() - 48));
    }
}

/// The routing surface over a digit string: `"/screen/<d>"` resolves to
/// the zero-based index `<d> - 1` whenever `<d>` is at least one, and to
/// nothing when `<d>` is zero; a digit string beyond the machine's range
/// is the one erroneous shape.
pub proof fn lemma_resolve_screen_path(d: Seq<u8>)
    requires
        all_digits(d),
        d.len() >= 1,
    ensures
        ({
            let p = screen_prefix() + d;
            let n = digits_val(d);
            &&& n > usize::MAX as int ==> spec_resolve(p) == Result::<Option<int>, ()>::Err(())
            &&& n == 0 ==> spec_resolve(p) == Result::<Option<int>, ()>::Ok(Option::None)
            &&& 1 <= n <= usize::MAX as int ==> spec_resolve(p) == Result::<Option<int>, ()>::Ok(
                Option::Some(n - 1),
            )
        }),
{
    let p = screen_prefix() + d;
    assert(p.subrange(0, 8) =~= screen_prefix());
    assert(p.skip(8) =~= d);
    assert(is_screen_path(p));
    assert(p.len() != root_path().len());
    lemma_digits_val_nonneg(d);
}

/// The `"/screen/"` bytes as a vector.
pub fn screen_prefix_bytes() -> (r: Vec<u8>)
    ensures
        r@ == screen_prefix(),
{
    let mut r: Vec<u8> = Vec::new();
    r.push(47);
    r.push(115);
    r.push(99);
    r.push(114);
    r.push(101);
    r.push(101);
    r.push(110);
    r.push(47);
    proof {
        assert(r@ =~= screen_prefix());
    }
    r
}

/// Resolve a path to the zero-based screen index it names, if any.
/// Only a digit string too large for the machine is an error; every
/// unrecognized shape, and screen number zero, is merely not found.
pub fn resolve(path: &[u8]) -> (r: Result<Option<usize>, ServerError>)
    ensures
        match spec_resolve(path@) {
            Result::Ok(o) => match o {
                Option::Some(i) => r matches Ok(Some(x)) && x == i,
                Option::None => r == Result::<Option<usize>, ServerError>::Ok(Option::None),
            },
            Result::Err(u) => r == Result::<Option<usize>, ServerError>::Err(
                ServerError::InvalidScreenNumber,
            ),
        },
{
    let n: usize = path.len();
    if n == 1 && path[0] == 47 {
        proof {
            assert(path@ =~= root_path());
        }
        return Ok(Some(0));
    }
    if n <= 8 {
        return Ok(None);
    }
    let pre = screen_prefix_bytes();
    if !match_range(path, pre.as_slice(), 0) {
        return Ok(None);
    }
    let ghost ds = path@.skip(8);
    let mut i: usize = 8;
    while i < n
        invariant
            8 <= i <= n,
            n == path@.len(),
            ds == path@.skip(8),
            forall|j: int| 8 <= j < i ==> is_digit(path@[j]),
        decreases n - i,
    {
        let c = path[i];
        if c < 48 || c > 57 {
            proof {
                assert(ds[i - 8] == path@[i as int]);
                assert(!all_digits(ds));
            }
            return Ok(None);
        }
        i += 1;
    }
    proof {
        assert forall|j: int| 0 <= j < ds.len() implies is_digit(ds[j]) by {
            assert(ds[j] == path@[j + 8]);
        }
        assert(is_screen_path(path@));
    }
    let mut acc: usize = 0;
    let mut k: usize = 8;
    while k < n
        invariant
            8 <= k <= n,
            n == path@.len(),
            ds == path@.skip(8),
            all_digits(ds),
            is_screen_path(path@),
            acc == digits_val(ds.subrange(0, k - 8)),
        decreases n - k,
    {
        proof {
            assert(ds[k - 8] == path@[k as int]);
            assert(is_digit(path@[k as int]));
        }
        let d: usize = (path[k] - 48) as usize;
        proof {
            assert(ds.subrange(0, k - 8 + 1).drop_last() =~= ds.subrange(0, k - 8));
            assert(digits_val(ds.subrange(0, k - 8 + 1)) == acc * 10 + d);
        }
        if acc > (usize::MAX - d) / 10 {
            proof {
                let q = ((usize::MAX - d) as int) / 10;
                let rm = ((usize::MAX - d) as int) % 10;
                assert((usize::MAX - d) as int == 10 * q + rm && 0 <= rm < 10);
                assert(acc * 10 >= 10 * q + 10);
                assert(digits_val(ds.subrange(0, k - 8 + 1)) > usize::MAX as int);
                lemma_digits_val_prefix_le(ds, k - 8 + 1);
                assert(digits_val(ds) > usize::MAX as int);
            }
            return Err(ServerError::InvalidScreenNumber);
        }
        proof {
            let q = ((usize::MAX - d) as int) / 10;
            let rm = ((usize::MAX - d) as int) % 10;
            assert((usize::MAX - d) as int == 10 * q + rm && 0 <= rm < 10);
            assert(acc * 10 <= 10 * q);
            assert(acc * 10 + d <= usize::MAX as int);
        }
        acc = acc * 10 + d;
        k += 1;
    }
    proof {
        assert(ds.subrange(0, n - 8) =~= ds);
        assert(acc == digits_val(ds));
    }
    if acc == 0 {
        return Ok(None);
    }
    Ok(Some(acc - 1))
}

} // verus!
