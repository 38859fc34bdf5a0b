//! C strings held in byte buffers: a string ends at its first NUL byte.
use vstd::prelude::*;

verus! {

/// The index of the first NUL byte of `s` at or after `i`, or the length of
/// `s` if there is none.
pub open spec fn nul_from(s: Seq<u8>, i: int) -> int
    decreases s.len() - i,
{
    if i >= s.len() {
        s.len() as int
    } else if s[i] == 0 {
        i
    } else {
        nul_from(s, i + 1)
    }
}

/// The length of the C string in `s`: the bytes before its first NUL.
pub open spec fn c_str_len(s: Seq<u8>) -> int {
    nul_from(s, 0)
}

/// The bytes of the C string in `s`.
pub open spec fn c_str(s: Seq<u8>) -> Seq<u8> {
    s.take(c_str_len(s))
}

proof fn lemma_nul_from_bounds(s: Seq<u8>, i: int)
    requires
        0 <= i <= s.len(),
    ensures
        i <= nul_from(s, i) <= s.len(),
        forall|j: int| i <= j < nul_from(s, i) ==> #[trigger] s[j] != 0,
        nul_from(s, i) < s.len() ==> s[nul_from(s, i)] == 0,
    decreases s.len() - i,
{
    if i < s.len() && s[i] != 0 {
        lemma_nul_from_bounds(s, i + 1);
    }
}

/// The C string in `s` is its bytes up to, and without, the first NUL; a
/// buffer without NUL holds its whole self.
pub proof fn lemma_c_str(s: Seq<u8>)
    ensures
        0 <= c_str_len(s) <= s.len(),
        c_str(s).len() == c_str_len(s),
        forall|j: int| 0 <= j < c_str_len(s) ==> #[trigger] s[j] != 0,
        c_str_len(s) < s.len() ==> s[c_str_len(s)] == 0,
        (forall|j: int| 0 <= j < s.len() ==> #[trigger] s[j] != 0) ==> c_str(s) == s,
{
    lemma_nul_from_bounds(s, 0);
    if forall|j: int| 0 <= j < s.len() ==> #[trigger] s[j] != 0 {
        if c_str_len(s) < s.len() {
            assert(s[c_str_len(s)] != 0);
        }
        assert(c_str(s) =~= s);
    }
}

/// The length of the C string held in `s`.
pub fn c_string_len(s: &[u8]) -> (n: usize)
    ensures
        n == c_str_len(s@),
{
    let len = s.len();
    let mut i: usize = 0;
    while i < len && s[i] != 0
        invariant
            len == s@.len(),
            i <= len,
            nul_from(s@, i as int) == c_str_len(s@),
        decreases len - i,
    {
        i = i + 1;
    }
    i
}

/// The bytes of the C string held in `s`.
pub fn c_string_bytes(s: &[u8]) -> (r: &[u8])
    ensures
        r@ == c_str(s@),
{
    let n = c_string_len(s);
    proof {
        lemma_c_str(s@);
    }
    vstd::slice::slice_subrange(s, 0, n)
}

} // verus!
