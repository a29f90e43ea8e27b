//! C character classification and NUL-terminated string helpers. A C
//! string is a byte buffer holding a NUL byte; a null pointer is `None`.
use vstd::prelude::*;

verus! {

/// Whether `c` is an ASCII lower-case letter, as 1 or 0.
pub fn islower(c: i32) -> (r: i32)
    ensures
        r == (if 'a' as i32 <= c <= 'z' as i32 { 1i32 } else { 0i32 }),
{
    if c >= 'a' as i32 && c <= 'z' as i32 {
        1
    } else {
        0
    }
}

/// Whether `c` is an ASCII upper-case letter, as 1 or 0.
pub fn isupper(c: i32) -> (r: i32)
    ensures
        r == (if 'A' as i32 <= c <= 'Z' as i32 { 1i32 } else { 0i32 }),
{
    if c >= 'A' as i32 && c <= 'Z' as i32 {
        1
    } else {
        0
    }
}

/// `c` mapped to lower case when it is an ASCII upper-case letter.
pub open spec fn lower_of(c: int) -> int {
    if 'A' as int <= c <= 'Z' as int { c + 32 } else { c }
}

/// `c` mapped to upper case when it is an ASCII lower-case letter.
pub open spec fn upper_of(c: int) -> int {
    if 'a' as int <= c <= 'z' as int { c - 32 } else { c }
}

/// `c` mapped to lower case when it is an ASCII upper-case letter.
pub fn tolower(c: i32) -> (r: i32)
    ensures
        r == lower_of(c as int),
{
    if isupper(c) != 0 {
        c + ('a' as i32 - 'A' as i32)
    } else {
        c
    }
}

/// `c` mapped to upper case when it is an ASCII lower-case letter.
pub fn toupper(c: i32) -> (r: i32)
    ensures
        r == upper_of(c as int),
{
    if islower(c) != 0 {
        c - ('a' as i32 - 'A' as i32)
    } else {
        c
    }
}

/// The buffer holds a NUL byte.
pub open spec fn nul_terminated(s: Seq<u8>) -> bool {
    exists|k: int| 0 <= k < s.len() && s[k] == 0
}

/// `n` is the length of the C string in `s`: the index of its first NUL.
pub open spec fn is_c_string_length(s: Seq<u8>, n: int) -> bool {
    &&& 0 <= n < s.len()
    &&& s[n] == 0
    &&& forall|j: int| 0 <= j < n ==> s[j] != 0
}

/// Index of the first NUL byte of a buffer that holds one.
fn c_string_length(s: &[u8]) -> (r: usize)
    requires
        nul_terminated(s@),
    ensures
        is_c_string_length(s@, r as int),
{
    let mut len: usize = 0;
    while s[len] != 0
        invariant
            nul_terminated(s@),
            len < s@.len(),
            forall|j: int| 0 <= j < len ==> s@[j] != 0,
        decreases s@.len() - len,
    {
        assert(len + 1 < s@.len()) by {
            let k = choose|k: int| 0 <= k < s@.len() && s@[k] == 0;
            assert(k > len);
        }
        len = len + 1;
    }
    len
}

/// Length of the C string `s`; 0 for a null string.
pub fn strlen(s: Option<&[u8]>) -> (r: usize)
    requires
        s matches Some(b) ==> nul_terminated(b@),
    ensures
        s is None ==> r == 0,
        s matches Some(b) ==> is_c_string_length(b@, r as int),
{
    match s {
        None => 0,
        Some(b) => c_string_length(b),
    }
}

/// Index at which two C strings first differ, or where both end.
pub open spec fn is_compare_stop(s1: Seq<u8>, s2: Seq<u8>, k: int) -> bool {
    &&& 0 <= k < s1.len()
    &&& k < s2.len()
    &&& (s1[k] != s2[k] || s1[k] == 0)
    &&& forall|j: int| 0 <= j < k ==> s1[j] == s2[j] && s1[j] != 0
}

/// Compares two non-null C strings byte by byte.
fn compare_c_strings(a: &[u8], b: &[u8]) -> (r: i32)
    requires
        nul_terminated(a@),
        nul_terminated(b@),
    ensures
        exists|k: int| #[trigger] is_compare_stop(a@, b@, k) && r == a@[k] - b@[k],
{
    let ghost na = choose|k: int| 0 <= k < a@.len() && a@[k] == 0;
    let ghost nb = choose|k: int| 0 <= k < b@.len() && b@[k] == 0;
    let mut i: usize = 0;
    loop
        invariant
            0 <= na < a@.len(),
            a@[na] == 0,
            0 <= nb < b@.len(),
            b@[nb] == 0,
            i <= na,
            i <= nb,
            forall|j: int| 0 <= j < i ==> a@[j] == b@[j] && a@[j] != 0,
        decreases na - i,
    {
        let c1 = a[i];
        let c2 = b[i];
        if c1 != c2 || c1 == 0 {
            assert(is_compare_stop(a@, b@, i as int));
            return (c1 as i32) - (c2 as i32);
        }
        assert(i < na && i < nb) by {
            if i == na {
                assert(c1 == 0);
            }
            if i == nb {
                assert(c2 == 0);
            }
        }
        i = i + 1;
    }
}

/// Compares two C strings byte by byte: the difference of the first pair
/// of bytes that differ, or 0 when the strings are equal; -1 when either is
/// null.
pub fn strcmp(s1: Option<&[u8]>, s2: Option<&[u8]>) -> (r: i32)
    requires
        s1 matches Some(a) ==> nul_terminated(a@),
        s2 matches Some(b) ==> nul_terminated(b@),
    ensures
        (s1 is None || s2 is None) ==> r == -1,
        s1 matches Some(a) ==> (s2 matches Some(b) ==> r == c_string_compare(a@, b@)),
{
    match (s1, s2) {
        (Some(a), Some(b)) => {
            proof {
                lemma_compare_stop_unique(a@, b@);
            }
            compare_c_strings(a, b)
        },
        _ => -1,
    }
}

/// Copies the C string `src`, with its NUL, to the start of `dest`.
/// Returns whether the destination was handed back (false when either
/// string is null, in which case nothing is copied).
pub fn strcpy(dest: Option<&mut Vec<u8>>, src: Option<&[u8]>) -> (r: bool)
    requires
        src matches Some(s) ==> nul_terminated(s@),
        dest matches Some(d) ==> (src matches Some(s) ==> forall|n: int| is_c_string_length(s@, n) ==> n < d@.len()),
    ensures
        r == (dest is Some && src is Some),
        dest matches Some(d) ==> final(d)@.len() == (*d)@.len(),
        dest matches Some(d) ==> (src is None ==> final(d)@ == (*d)@),
        dest matches Some(d) ==> (src matches Some(s) ==> forall|n: int|
            is_c_string_length(s@, n) ==> {
                &&& final(d)@.subrange(0, n + 1) == s@.subrange(0, n + 1)
                &&& final(d)@.subrange(n + 1, final(d)@.len() as int) == (*d)@.subrange(n + 1, (*d)@.len() as int)
            }),
{
    match (dest, src) {
        (Some(d), Some(s)) => {
            str_copy(d, s);
            true
        },
        _ => false,
    }
}

/// Copies the C string `src`, with its NUL, to the start of `dest`.
pub fn str_copy(dest: &mut Vec<u8>, src: &[u8])
    requires
        nul_terminated(src@),
        forall|n: int| is_c_string_length(src@, n) ==> n < old(dest)@.len(),
    ensures
        final(dest)@.len() == old(dest)@.len(),
        forall|n: int|
            is_c_string_length(src@, n) ==> {
                &&& final(dest)@.subrange(0, n + 1) == src@.subrange(0, n + 1)
                &&& final(dest)@.subrange(n + 1, final(dest)@.len() as int) == old(dest)@.subrange(n + 1, old(dest)@.len() as int)
            },
{
    let n = c_string_length(src);
    proof {
        assert forall|m: int| is_c_string_length(src@, m) implies m == n by {
            if m < n {
                assert(src@[m] != 0);
            } else if m > n {
                assert(src@[n as int] != 0);
            }
        }
    }
    let mut i: usize = 0;
    while src[i] != 0
        invariant
            is_c_string_length(src@, n as int),
            n < dest@.len(),
            i <= n,
            dest@.len() == old(dest)@.len(),
            forall|j: int| 0 <= j < i ==> dest@[j] == src@[j],
            forall|j: int| n < j < dest@.len() ==> dest@[j] == old(dest)@[j],
        decreases n - i,
    {
        assert(i < n);
        dest.set(i, src[i]);
        i = i + 1;
    }
    assert(i == n);
    dest.set(i, 0);
    proof {
        assert(dest@.subrange(0, n + 1) =~= src@.subrange(0, n + 1));
        assert(dest@.subrange(n + 1, dest@.len() as int) =~= old(dest)@.subrange(n + 1, old(dest)@.len() as int));
    }
}

/// Upper-casing a lower-case letter and lower-casing the result gives the
/// letter back, and the other way round; case mapping is idempotent.
pub proof fn lemma_case_mapping(c: int)
    ensures
        'a' as int <= c <= 'z' as int ==> lower_of(upper_of(c)) == c,
        'A' as int <= c <= 'Z' as int ==> upper_of(lower_of(c)) == c,
        lower_of(lower_of(c)) == lower_of(c),
        upper_of(upper_of(c)) == upper_of(c),
{
}

/// The result of comparing two C strings.
pub open spec fn c_string_compare(a: Seq<u8>, b: Seq<u8>) -> int {
    let k = choose|k: int| is_compare_stop(a, b, k);
    a[k] - b[k]
}

/// Two C strings have exactly one index where their comparison stops.
pub proof fn lemma_compare_stop_unique(a: Seq<u8>, b: Seq<u8>)
    requires
        nul_terminated(a),
        nul_terminated(b),
    ensures
        exists|k: int| is_compare_stop(a, b, k),
        forall|k1: int, k2: int| is_compare_stop(a, b, k1) && is_compare_stop(a, b, k2) ==> k1 == k2,
{
    let na = choose|k: int| 0 <= k < a.len() && a[k] == 0;
    let nb = choose|k: int| 0 <= k < b.len() && b[k] == 0;
    let n = if na < nb { na } else { nb };
    lemma_first_stop(a, b, 0, n);
    assert forall|k1: int, k2: int| is_compare_stop(a, b, k1) && is_compare_stop(a, b, k2) implies k1 == k2 by {
        if k1 < k2 {
            assert(a[k1] == b[k1] && a[k1] != 0);
        } else if k2 < k1 {
            assert(a[k2] == b[k2] && a[k2] != 0);
        }
    }
}

/// Scanning from `i`, the comparison stops at or before `n`, where one of
/// the strings has its NUL.
proof fn lemma_first_stop(a: Seq<u8>, b: Seq<u8>, i: int, n: int)
    requires
        0 <= i <= n,
        n < a.len(),
        n < b.len(),
        a[n] == 0 || b[n] == 0,
        forall|j: int| 0 <= j < i ==> a[j] == b[j] && a[j] != 0,
    ensures
        exists|k: int| is_compare_stop(a, b, k),
    decreases n - i,
{
    if a[i] != b[i] || a[i] == 0 {
        assert(is_compare_stop(a, b, i));
    } else {
        assert(i < n);
        lemma_first_stop(a, b, i + 1, n);
    }
}

/// A C string compares equal to itself, and swapping the strings negates
/// the comparison.
pub proof fn lemma_compare_laws(a: Seq<u8>, b: Seq<u8>)
    requires
        nul_terminated(a),
        nul_terminated(b),
    ensures
        c_string_compare(a, a) == 0,
        c_string_compare(a, b) == -c_string_compare(b, a),
{
    lemma_compare_stop_unique(a, a);
    lemma_compare_stop_unique(a, b);
    lemma_compare_stop_unique(b, a);
    let k = choose|k: int| is_compare_stop(a, b, k);
    assert(is_compare_stop(b, a, k));
}

} // verus!
