//! Small byte-sequence helpers shared across the crate.

use vstd::prelude::*;

verus! {

/// Compares two byte strings for equality.
pub fn bytes_eq(a: &[u8], b: &[u8]) -> (r: bool)
    ensures
        r == (a@ == b@),
{
    if a.len() != b.len() {
        assert(a@ != b@) by {
            assert(a@.len() != b@.len());
        }
        return false;
    }
    let n = a.len();
    let mut i: usize = 0;
    while i < n
        invariant
            n == a@.len() == b@.len(),
            i <= n,
            forall|j: int| 0 <= j < i ==> a@[j] == b@[j],
        decreases n - i,
    {
        if a[i] != b[i] {
            return false;
        }
        i = i + 1;
    }
    assert(a@ =~= b@);
    true
}

/// Whether `prefix` is a prefix of `s`.
pub fn bytes_starts_with(s: &[u8], prefix: &[u8]) -> (r: bool)
    ensures
        r == (prefix@.len() <= s@.len() && s@.take(prefix@.len() as int) == prefix@),
{
    if prefix.len() > s.len() {
        return false;
    }
    let head = vstd::slice::slice_subrange(s, 0, prefix.len());
    assert(head@ =~= s@.take(prefix@.len() as int));
    bytes_eq(head, prefix)
}

/// The index of the last occurrence of `b` in `s`, or -1 when `s` holds no
/// `b`.
pub open spec fn last_byte_index(s: Seq<u8>, b: u8) -> int
    decreases s.len(),
{
    if s.len() == 0 {
        -1
    } else if s.last() == b {
        s.len() - 1
    } else {
        last_byte_index(s.drop_last(), b)
    }
}

/// What `last_byte_index` returns: either there is no `b`, or the index of
/// a `b` with none after it.
pub proof fn lemma_last_byte_index(s: Seq<u8>, b: u8)
    ensures
        last_byte_index(s, b) == -1 ==> forall|i: int| 0 <= i < s.len() ==> s[i] != b,
        last_byte_index(s, b) != -1 ==> 0 <= last_byte_index(s, b) < s.len() && s[last_byte_index(
            s,
            b,
        )] == b && forall|i: int| last_byte_index(s, b) < i < s.len() ==> s[i] != b,
    decreases s.len(),
{
    if s.len() > 0 && s.last() != b {
        lemma_last_byte_index(s.drop_last(), b);
        assert forall|i: int| 0 <= i < s.len() - 1 implies s.drop_last()[i] == s[i] by {}
    }
}

/// Finds the last occurrence of `b` in `s`.
pub fn rfind_byte(s: &[u8], b: u8) -> (r: Option<usize>)
    ensures
        match r {
            Some(k) => last_byte_index(s@, b) == k,
            None => last_byte_index(s@, b) == -1,
        },
{
    proof {
        lemma_last_byte_index(s@, b);
    }
    let n = s.len();
    let mut k: usize = n;
    while k > 0
        invariant
            n == s@.len(),
            k <= n,
            forall|i: int| k <= i < n ==> s@[i] != b,
        decreases k,
    {
        k = k - 1;
        if s[k] == b {
            proof {
                lemma_last_byte_index(s@, b);
                let r = last_byte_index(s@, b);
                if r < k {
                    assert(s@[k as int] != b);
                }
                if r > k {
                    assert(s@[r] != b);
                }
            }
            return Some(k);
        }
    }
    proof {
        lemma_last_byte_index(s@, b);
        let r = last_byte_index(s@, b);
        if r != -1 {
            assert(s@[r] != b);
        }
    }
    None
}

/// Relies on `String::from_utf8`: bytes below 128 are valid UTF-8 and decode
/// to the characters of the same code points.
#[verifier::external_body]
pub fn ascii_to_string(v: Vec<u8>) -> (r: String)
    requires
        forall|i: int| 0 <= i < v@.len() ==> v@[i] < 128,
    ensures
        r@ == v@.map_values(|b: u8| b as char),
{
    String::from_utf8(v).unwrap_or_default()
}

} // verus!
