//! Byte-level helpers: whitespace trimming, substring search, tag scanning
//! and byte-to-text decoding.
use vstd::prelude::*;
use vstd::slice::slice_subrange;
use vstd::slice::slice_to_vec;

verus! {

/// The four ASCII whitespace bytes that framing trims: space, tab, LF, CR.
pub open spec fn is_ws(b: u8) -> bool {
    b == 32 || b == 9 || b == 10 || b == 13
}

/// Whether `b` is one of the whitespace bytes that framing trims.
pub fn is_ws_byte(b: u8) -> (r: bool)
    ensures
        r == is_ws(b),
{
    b == 32 || b == 9 || b == 10 || b == 13
}

/// `s` without its leading whitespace bytes.
pub open spec fn trim_start_spec(s: Seq<u8>) -> Seq<u8>
    decreases s.len(),
{
    if s.len() > 0 && is_ws(s[0]) {
        trim_start_spec(s.drop_first())
    } else {
        s
    }
}

/// `s` without its trailing whitespace bytes.
pub open spec fn trim_end_spec(s: Seq<u8>) -> Seq<u8>
    decreases s.len(),
{
    if s.len() > 0 && is_ws(s.last()) {
        trim_end_spec(s.drop_last())
    } else {
        s
    }
}

/// `s` without whitespace at either end.
pub open spec fn trim_spec(s: Seq<u8>) -> Seq<u8> {
    trim_end_spec(trim_start_spec(s))
}

/// `n` occurs in `h` at index `i`.
pub open spec fn occurs_at(h: Seq<u8>, n: Seq<u8>, i: int) -> bool {
    0 <= i && i + n.len() <= h.len() && h.subrange(i, i + n.len()) == n
}

/// `i` is the first index at or after `from` where `n` occurs in `h`.
pub open spec fn first_occurrence_from(h: Seq<u8>, n: Seq<u8>, from: int, i: int) -> bool {
    &&& from <= i
    &&& occurs_at(h, n, i)
    &&& forall|j: int| #![trigger occurs_at(h, n, j)] from <= j < i ==> !occurs_at(h, n, j)
}

/// `n` does not occur in `h` at or after `from`.
pub open spec fn absent_from(h: Seq<u8>, n: Seq<u8>, from: int) -> bool {
    forall|j: int| #![trigger occurs_at(h, n, j)] from <= j ==> !occurs_at(h, n, j)
}

/// What a search for `n` in `h` starting at `from` returns.
pub open spec fn search_result(h: Seq<u8>, n: Seq<u8>, from: int, r: Option<usize>) -> bool {
    match r {
        Some(i) => first_occurrence_from(h, n, from, i as int),
        None => absent_from(h, n, from),
    }
}

/// `s` starts with `p`.
pub open spec fn starts_with(s: Seq<u8>, p: Seq<u8>) -> bool {
    p.len() <= s.len() && s.subrange(0, p.len() as int) == p
}

/// `s` ends with `p`.
pub open spec fn ends_with(s: Seq<u8>, p: Seq<u8>) -> bool {
    p.len() <= s.len() && s.subrange(s.len() - p.len(), s.len() as int) == p
}

/// Relies on memchr::memmem::find: the index of the first occurrence of
/// `needle` in `haystack`, or `None` when it does not occur.
#[verifier::external_body]
fn memmem_find(haystack: &[u8], needle: &[u8]) -> (r: Option<usize>)
    ensures
        search_result(haystack@, needle@, 0, r),
{
    memchr::memmem::find(haystack, needle)
}

/// Relies on memchr::memchr: the index of the first occurrence of the byte
/// `needle` in `haystack`, or `None` when it does not occur.
#[verifier::external_body]
fn memchr_find(needle: u8, haystack: &[u8]) -> (r: Option<usize>)
    ensures
        search_result(haystack@, seq![needle], 0, r),
{
    memchr::memchr(needle, haystack)
}

/// First index at or after `from` where `needle` occurs in `haystack`.
pub fn find_from(haystack: &[u8], needle: &[u8], from: usize) -> (r: Option<usize>)
    requires
        from <= haystack@.len(),
    ensures
        search_result(haystack@, needle@, from as int, r),
{
    let tail = slice_subrange(haystack, from, haystack.len());
    let found = memmem_find(tail, needle);
    assert forall|j: int| 0 <= j implies #[trigger] occurs_at(tail@, needle@, j) == occurs_at(
        haystack@,
        needle@,
        from + j,
    ) by {
        if 0 <= j && j + needle@.len() <= tail@.len() {
            assert(tail@.subrange(j, j + needle@.len()) =~= haystack@.subrange(
                from + j,
                from + j + needle@.len(),
            ));
        }
    }
    match found {
        Some(i) => {
            assert forall|j: int| from <= j < from + i implies !#[trigger] occurs_at(
                haystack@,
                needle@,
                j,
            ) by {
                assert(occurs_at(tail@, needle@, j - from) == occurs_at(haystack@, needle@, j));
            }
            Some(from + i)
        },
        None => {
            assert forall|j: int| from <= j implies !#[trigger] occurs_at(
                haystack@,
                needle@,
                j,
            ) by {
                assert(occurs_at(tail@, needle@, j - from) == occurs_at(haystack@, needle@, j));
            }
            None
        },
    }
}

/// First index of `needle` in `haystack`.
pub fn find(haystack: &[u8], needle: &[u8]) -> (r: Option<usize>)
    ensures
        search_result(haystack@, needle@, 0, r),
{
    memmem_find(haystack, needle)
}

/// First index of the byte `needle` in `haystack`.
pub fn find_byte(needle: u8, haystack: &[u8]) -> (r: Option<usize>)
    ensures
        search_result(haystack@, seq![needle], 0, r),
{
    memchr_find(needle, haystack)
}

proof fn lemma_trim_start_step(s: Seq<u8>, i: int)
    requires
        0 <= i < s.len(),
        is_ws(s[i]),
    ensures
        trim_start_spec(s.subrange(i, s.len() as int)) == trim_start_spec(
            s.subrange(i + 1, s.len() as int),
        ),
{
    assert(s.subrange(i, s.len() as int).drop_first() =~= s.subrange(i + 1, s.len() as int));
}

proof fn lemma_trim_end_step(s: Seq<u8>, e: int)
    requires
        0 < e <= s.len(),
        is_ws(s[e - 1]),
    ensures
        trim_end_spec(s.subrange(0, e)) == trim_end_spec(s.subrange(0, e - 1)),
{
    assert(s.subrange(0, e).drop_last() =~= s.subrange(0, e - 1));
}

/// Index of the first non-whitespace byte (or the length).
pub fn trim_start_index(data: &[u8]) -> (r: usize)
    ensures
        r <= data@.len(),
        data@.subrange(r as int, data@.len() as int) == trim_start_spec(data@),
{
    let mut i: usize = 0;
    proof {
        assert(data@.subrange(0, data@.len() as int) =~= data@);
    }
    while i < data.len() && is_ws_byte(data[i])
        invariant
            i <= data@.len(),
            trim_start_spec(data@.subrange(i as int, data@.len() as int)) == trim_start_spec(
                data@,
            ),
        decreases data@.len() - i,
    {
        proof {
            lemma_trim_start_step(data@, i as int);
        }
        i = i + 1;
    }
    i
}

/// Length of `data` once trailing whitespace is removed.
pub fn trim_end_index(data: &[u8]) -> (r: usize)
    ensures
        r <= data@.len(),
        data@.subrange(0, r as int) == trim_end_spec(data@),
{
    let mut e: usize = data.len();
    proof {
        assert(data@.subrange(0, data@.len() as int) =~= data@);
    }
    while e > 0 && is_ws_byte(data[e - 1])
        invariant
            e <= data@.len(),
            trim_end_spec(data@.subrange(0, e as int)) == trim_end_spec(data@),
        decreases e,
    {
        proof {
            lemma_trim_end_step(data@, e as int);
        }
        e = e - 1;
    }
    e
}

/// `data` without leading ASCII whitespace.
pub fn trim_start(data: &[u8]) -> (r: &[u8])
    ensures
        r@ == trim_start_spec(data@),
{
    let i = trim_start_index(data);
    slice_subrange(data, i, data.len())
}

/// `data` without trailing ASCII whitespace.
pub fn trim_end(data: &[u8]) -> (r: &[u8])
    ensures
        r@ == trim_end_spec(data@),
{
    let e = trim_end_index(data);
    slice_subrange(data, 0, e)
}

/// `data` without ASCII whitespace at either end.
pub fn trim(data: &[u8]) -> (r: &[u8])
    ensures
        r@ == trim_spec(data@),
{
    trim_end(trim_start(data))
}

/// Copy of `data` without ASCII whitespace at either end.
pub fn trim_to_vec(data: &[u8]) -> (r: Vec<u8>)
    ensures
        r@ == trim_spec(data@),
{
    slice_to_vec(trim(data))
}

/// The first index of the byte `b` in `s`, if any.
pub open spec fn first_byte(s: Seq<u8>, b: u8) -> Option<int>
    decreases s.len(),
{
    if s.len() == 0 {
        None
    } else if s[0] == b {
        Some(0)
    } else {
        match first_byte(s.drop_first(), b) {
            Some(i) => Some(i + 1),
            None => None,
        }
    }
}

/// `first_byte` is the first index holding `b`.
pub proof fn lemma_first_byte(s: Seq<u8>, b: u8, p: int)
    requires
        0 <= p <= s.len(),
        forall|k: int| 0 <= k < p ==> s[k] != b,
        p < s.len() ==> s[p] == b,
    ensures
        first_byte(s, b) == (if p < s.len() {
            Some(p)
        } else {
            None::<int>
        }),
    decreases s.len(),
{
    if s.len() > 0 && s[0] != b {
        lemma_first_byte(s.drop_first(), b, p - 1);
    }
}

/// The lines of `s`: split at each LF, with no empty last line when `s`
/// ends with LF.
pub open spec fn lines_of(s: Seq<u8>) -> Seq<Seq<u8>>
    decreases s.len(),
{
    if s.len() == 0 {
        Seq::empty()
    } else {
        match first_byte(s, 10) {
            Some(p) => if 0 <= p < s.len() {
                seq![s.subrange(0, p)] + lines_of(s.subrange(p + 1, s.len() as int))
            } else {
                seq![s]
            },
            None => seq![s],
        }
    }
}

/// The lines of `data`, as `lines_of` states them.
pub fn split_lines(data: &[u8]) -> (r: Vec<Vec<u8>>)
    ensures
        r@.len() == lines_of(data@).len(),
        forall|i: int| 0 <= i < r@.len() ==> (#[trigger] r@[i])@ == lines_of(data@)[i],
{
    let mut out: Vec<Vec<u8>> = Vec::new();
    let ghost done: Seq<Seq<u8>> = Seq::empty();
    let mut pos: usize = 0;
    let n = data.len();
    proof {
        assert(data@.subrange(0, n as int) =~= data@);
    }
    while pos < n
        invariant
            pos <= n == data@.len(),
            out@.len() == done.len(),
            forall|i: int| 0 <= i < out@.len() ==> (#[trigger] out@[i])@ == done[i],
            lines_of(data@) == done + lines_of(data@.subrange(pos as int, n as int)),
        decreases n - pos,
    {
        let mut j: usize = pos;
        while j < n && data[j] != 10
            invariant
                pos <= j <= n == data@.len(),
                forall|k: int| pos <= k < j ==> data@[k] != 10,
            decreases n - j,
        {
            j = j + 1;
        }
        let ghost rest = data@.subrange(pos as int, n as int);
        let line = slice_to_vec(slice_subrange(data, pos, j));
        proof {
            lemma_first_byte(rest, 10, j - pos);
            assert(rest.subrange(0, j - pos) =~= line@);
        }
        out.push(line);
        if j < n {
            proof {
                assert(rest.subrange(j - pos + 1, rest.len() as int) =~= data@.subrange(
                    j + 1,
                    n as int,
                ));
                assert(done.push(line@) + lines_of(data@.subrange(j + 1, n as int)) =~= done + (
                seq![line@] + lines_of(data@.subrange(j + 1, n as int))));
                done = done.push(line@);
            }
            pos = j + 1;
        } else {
            proof {
                assert(rest =~= line@);
                assert(done.push(line@) =~= done + seq![line@]);
                done = done.push(line@);
                assert(data@.subrange(n as int, n as int) =~= Seq::<u8>::empty());
            }
            pos = n;
        }
    }
    proof {
        assert(data@.subrange(n as int, n as int) =~= Seq::<u8>::empty());
        assert(done + Seq::<Seq<u8>>::empty() =~= done);
    }
    out
}

} // verus!
