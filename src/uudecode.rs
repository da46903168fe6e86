//! Detection and decoding of UU-encoded payloads.
use vstd::prelude::*;
use crate::bytes::{
    find_byte, first_byte, lemma_first_byte, lines_of, occurs_at, search_result, split_lines,
    trim_start, trim_start_spec,
};

verus! {

/// Why a strict decode of one line failed.
#[derive(Debug, PartialEq, Eq, Structural)]
pub enum UuDecodeError {
    IllegalChar,
    TrailingGarbage,
}

impl UuDecodeError {
    /// The message for this error.
    pub fn message(&self) -> (r: &'static str) {
        match self {
            UuDecodeError::IllegalChar => "Illegal char",
            UuDecodeError::TrailingGarbage => "Trailing garbage",
        }
    }
}

/// The byte count that a line's first char encodes: `(c - 32) mod 64`.
pub open spec fn count_of(c: u8) -> nat {
    ((c as int + 224) % 64) as nat
}

/// Number of encoded chars that `n` bytes take: the ceiling of `4n/3`.
pub open spec fn chars_needed(n: nat) -> nat {
    (8 * n + 5) / 6
}

/// The six bits a legal char in `[32, 96]` stands for.
pub open spec fn sextet(c: u8) -> u8 {
    if c == 96 {
        0
    } else {
        (c - 32) as u8
    }
}

pub open spec fn legal_uu_char(c: u8) -> bool {
    32 <= c <= 96
}

/// The six bits at position `j` of `s`, zero past its end.
pub open spec fn six_at(s: Seq<u8>, j: int) -> int {
    if 0 <= j < s.len() {
        s[j] as int
    } else {
        0
    }
}

/// Byte `m` of the bit string that the sextets `s` spell, four sextets to
/// three bytes.
pub open spec fn byte_at(s: Seq<u8>, m: int) -> u8 {
    let g = 4 * (m / 3);
    let r = m % 3;
    if r == 0 {
        (six_at(s, g) * 4 + six_at(s, g + 1) / 16) as u8
    } else if r == 1 {
        ((six_at(s, g + 1) % 16) * 16 + six_at(s, g + 2) / 4) as u8
    } else {
        ((six_at(s, g + 2) % 4) * 64 + six_at(s, g + 3)) as u8
    }
}

/// The first `n` bytes that the sextets `s` spell.
pub open spec fn bytes_of_sextets(s: Seq<u8>, n: nat) -> Seq<u8> {
    Seq::new(n, |m: int| byte_at(s, m))
}

/// A char that the strict decoder reads: CR and LF stand for zero.
pub open spec fn strict_ok(c: u8) -> bool {
    c == 10 || c == 13 || legal_uu_char(c)
}

pub open spec fn strict_sextet(c: u8) -> u8 {
    if c == 10 || c == 13 {
        0
    } else {
        sextet(c)
    }
}

/// A char allowed after the encoded chars of a line.
pub open spec fn trailing_ok(c: u8) -> bool {
    c == 32 || c == 96 || c == 10 || c == 13
}

/// The encoded chars of a line: those after the count char, as many as
/// the count needs, or fewer where the line ends early.
pub open spec fn encoded_part(line: Seq<u8>) -> Seq<u8> {
    let k = chars_needed(count_of(line[0]));
    line.subrange(1, if 1 + k <= line.len() { 1 + k as int } else { line.len() as int })
}

/// What the strict decoder returns for `line`.
pub open spec fn a2b_uu_spec(line: Seq<u8>) -> Result<Seq<u8>, UuDecodeError> {
    if line.len() == 0 {
        Ok(Seq::empty())
    } else {
        let n = count_of(line[0]);
        let enc = encoded_part(line);
        if exists|j: int| 0 <= j < enc.len() && !strict_ok(#[trigger] enc[j]) {
            Err(UuDecodeError::IllegalChar)
        } else if exists|j: int|
            1 + chars_needed(n) <= j < line.len() && !trailing_ok(#[trigger] line[j]) {
            Err(UuDecodeError::TrailingGarbage)
        } else {
            Ok(bytes_of_sextets(enc.map_values(|c: u8| strict_sextet(c)), n))
        }
    }
}

fn count_char(c: u8) -> (r: usize)
    ensures
        r == count_of(c),
        r < 64,
{
    ((c as u32 + 224) % 64) as usize
}

fn decode_sextets(s: &Vec<u8>, n: usize) -> (r: Vec<u8>)
    requires
        n < 64,
        forall|j: int| 0 <= j < s@.len() ==> s@[j] < 64,
    ensures
        r@ == bytes_of_sextets(s@, n as nat),
{
    let mut out: Vec<u8> = Vec::new();
    let mut m: usize = 0;
    while m < n
        invariant
            m <= n < 64,
            forall|j: int| 0 <= j < s@.len() ==> s@[j] < 64,
            out@ == bytes_of_sextets(s@, m as nat),
        decreases n - m,
    {
        let g = 4 * (m / 3);
        let r = m % 3;
        let a: u32 = if g < s.len() { s[g] as u32 } else { 0 };
        let b: u32 = if g + 1 < s.len() { s[g + 1] as u32 } else { 0 };
        let c: u32 = if g + 2 < s.len() { s[g + 2] as u32 } else { 0 };
        let d: u32 = if g + 3 < s.len() { s[g + 3] as u32 } else { 0 };
        let v: u32 = if r == 0 {
            a * 4 + b / 16
        } else if r == 1 {
            (b % 16) * 16 + c / 4
        } else {
            (c % 4) * 64 + d
        };
        assert(v < 256);
        out.push(v as u8);
        m = m + 1;
        proof {
            assert(out@ =~= bytes_of_sextets(s@, m as nat));
        }
    }
    out
}

/// Decodes one UU-encoded line strictly: the first char gives the byte
/// count, each following char six bits. A char outside `[32, 96]` (CR and
/// LF read as zero) among the encoded chars is `IllegalChar`; a char past
/// them other than space, backtick, CR or LF is `TrailingGarbage`.
pub fn a2b_uu(data: &[u8]) -> (r: Result<Vec<u8>, UuDecodeError>)
    ensures
        match a2b_uu_spec(data@) {
            Ok(b) => r matches Ok(v) && v@ == b,
            Err(e) => r matches Err(f) && f == e,
        },
{
    if data.len() == 0 {
        return Ok(Vec::new());
    }
    let n = count_char(data[0]);
    let k = (8 * n + 5) / 6;
    let end = if k < data.len() - 1 { 1 + k } else { data.len() };
    let ghost enc = encoded_part(data@);
    assert(enc =~= data@.subrange(1, end as int));
    let mut sx: Vec<u8> = Vec::new();
    let mut i: usize = 1;
    while i < end
        invariant
            1 <= i <= end <= data@.len(),
            n == count_of(data@[0]),
            n < 64,
            enc == encoded_part(data@),
            enc == data@.subrange(1, end as int),
            forall|j: int| 1 <= j < i ==> strict_ok(data@[j]),
            sx@ == data@.subrange(1, i as int).map_values(|c: u8| strict_sextet(c)),
            forall|j: int| 0 <= j < sx@.len() ==> sx@[j] < 64,
        decreases end - i,
    {
        let c = data[i];
        if c == 10 || c == 13 {
            sx.push(0);
        } else if c < 32 || c > 96 {
            assert(enc[i - 1] == c);
            assert(!strict_ok(enc[i - 1]));
            assert(exists|j: int| 0 <= j < enc.len() && !strict_ok(#[trigger] enc[j]));
            return Err(UuDecodeError::IllegalChar);
        } else if c == 96 {
            sx.push(0);
        } else {
            sx.push(c - 32);
        }
        i = i + 1;
        proof {
            assert(sx@ =~= data@.subrange(1, i as int).map_values(|c: u8| strict_sextet(c)));
        }
    }
    assert(!exists|j: int| 0 <= j < enc.len() && !strict_ok(#[trigger] enc[j])) by {
        assert forall|j: int| 0 <= j < enc.len() implies strict_ok(#[trigger] enc[j]) by {
            assert(enc[j] == data@[j + 1]);
        }
    }
    let mut t: usize = 1 + k;
    while t < data.len()
        invariant
            1 + k <= t,
            data@.len() > 0,
            n == count_of(data@[0]),
            k == chars_needed(n as nat),
            enc == encoded_part(data@),
            forall|j: int| 0 <= j < enc.len() ==> strict_ok(#[trigger] enc[j]),
            forall|j: int| 1 + k <= j < t && j < data@.len() ==> trailing_ok(data@[j]),
        decreases data@.len() - t,
    {
        let c = data[t];
        if !(c == 32 || c == 96 || c == 10 || c == 13) {
            assert(!trailing_ok(data@[t as int]));
            assert(exists|j: int|
                1 + chars_needed(count_of(data@[0])) <= j < data@.len() && !trailing_ok(
                    #[trigger] data@[j],
                ));
            return Err(UuDecodeError::TrailingGarbage);
        }
        t = t + 1;
    }
    assert(sx@ =~= enc.map_values(|c: u8| strict_sextet(c)));
    Ok(decode_sextets(&sx, n))
}


/// The legal chars of `l`, in order.
pub open spec fn legal_chars(l: Seq<u8>) -> Seq<u8> {
    l.filter(|c: u8| legal_uu_char(c))
}

/// What the lenient decoder makes of one line: chars outside `[32, 96]`
/// are dropped, the first remaining char gives the count, and only the
/// chars that the count needs are read. `None` when no char remains.
pub open spec fn lenient_line(l: Seq<u8>) -> Option<Seq<u8>> {
    let f = legal_chars(l);
    if f.len() == 0 {
        None
    } else {
        Some(bytes_of_sextets(encoded_part(f).map_values(|c: u8| sextet(c)), count_of(f[0])))
    }
}

/// Decodes one line leniently.
pub fn decode_uu_line(line: &[u8]) -> (r: Option<Vec<u8>>)
    ensures
        match lenient_line(line@) {
            Some(b) => r matches Some(v) && v@ == b,
            None => r is None,
        },
{
    let mut f: Vec<u8> = Vec::new();
    let mut i: usize = 0;
    while i < line.len()
        invariant
            i <= line@.len(),
            f@ == legal_chars(line@.subrange(0, i as int)),
        decreases line@.len() - i,
    {
        let c = line[i];
        let ghost s1 = line@.subrange(0, i + 1);
        proof {
            assert(s1.drop_last() =~= line@.subrange(0, i as int));
            assert(s1.last() == c);
            assert(s1.len() > 0);
            reveal_with_fuel(Seq::filter, 1);
            assert(legal_chars(s1) == (if legal_uu_char(c) {
                legal_chars(s1.drop_last()).push(c)
            } else {
                legal_chars(s1.drop_last())
            }));
        }
        if 32 <= c && c <= 96 {
            f.push(c);
        }
        proof {
            assert(f@ == legal_chars(s1));
        }
        i = i + 1;
    }
    proof {
        assert(line@.subrange(0, line@.len() as int) =~= line@);
    }
    if f.len() == 0 {
        return None;
    }
    let n = count_char(f[0]);
    let k = (8 * n + 5) / 6;
    let end = if k < f.len() - 1 { 1 + k } else { f.len() };
    let t = vstd::slice::slice_subrange(f.as_slice(), 0, end);
    proof {
        let fs = legal_chars(line@);
        assert forall|j: int| 0 <= j < fs.len() implies legal_uu_char(#[trigger] fs[j]) by {
            broadcast use vstd::seq_lib::group_filter_ensures;

        }
        assert(t@[0] == f@[0]);
        assert(encoded_part(t@) =~= encoded_part(f@));
        let enc = encoded_part(t@);
        assert forall|j: int| 0 <= j < enc.len() implies strict_ok(#[trigger] enc[j]) by {
            assert(enc[j] == f@[j + 1]);
        }
        assert(enc.map_values(|c: u8| strict_sextet(c)) =~= enc.map_values(|c: u8| sextet(c)));
    }
    match a2b_uu(t) {
        Ok(v) => Some(v),
        Err(_) => None,
    }
}

/// `"begin "` as bytes.
pub open spec fn begin_word() -> Seq<u8> {
    seq![98u8, 101, 103, 105, 110, 32]
}

/// A `begin DDD f...` line: three digits for the mode, then at least one
/// more char.
pub open spec fn is_begin_line(l: Seq<u8>) -> bool {
    &&& l.len() >= 11
    &&& l.subrange(0, 6) == begin_word()
    &&& 48 <= l[6] <= 57
    &&& 48 <= l[7] <= 57
    &&& 48 <= l[8] <= 57
}

/// Whether `line` opens with `begin DDD` and a name.
pub fn check_begin_line(line: &[u8]) -> (r: bool)
    ensures
        r == is_begin_line(line@),
{
    if line.len() < 11 {
        return false;
    }
    let ok = line[0] == 98 && line[1] == 101 && line[2] == 103 && line[3] == 105 && line[4] == 110
        && line[5] == 32;
    proof {
        if ok {
            assert(line@.subrange(0, 6) =~= begin_word());
        } else {
            assert(line@.subrange(0, 6) != begin_word()) by {
                if line@.subrange(0, 6) == begin_word() {
                    assert(line@.subrange(0, 6)[0] == line@[0]);
                    assert(line@.subrange(0, 6)[1] == line@[1]);
                    assert(line@.subrange(0, 6)[2] == line@[2]);
                    assert(line@.subrange(0, 6)[3] == line@[3]);
                    assert(line@.subrange(0, 6)[4] == line@[4]);
                    assert(line@.subrange(0, 6)[5] == line@[5]);
                }
            }
        }
    }
    ok && 48 <= line[6] && line[6] <= 57 && 48 <= line[7] && line[7] <= 57 && 48 <= line[8]
        && line[8] <= 57
}

/// Whether `content` is UU-encoded: after leading whitespace, its first or
/// second line is a `begin` line.
pub open spec fn is_uu(content: Seq<u8>) -> bool {
    let t = trim_start_spec(content);
    is_begin_line(t) || match first_byte(t, 10) {
        Some(p) => is_begin_line(t.subrange(p + 1, t.len() as int)),
        None => false,
    }
}

/// Whether `content` is UU-encoded: after leading whitespace, its first or
/// second line reads `begin DDD name`.
pub fn is_uuencoded(content: &[u8]) -> (r: bool)
    ensures
        r == is_uu(content@),
{
    let t = trim_start(content);
    if check_begin_line(t) {
        return true;
    }
    let found = find_byte(10, t);
    match found {
        Some(p) => {
            proof {
                assert forall|k: int| 0 <= k < p implies t@[k] != 10 by {
                    if t@[k] == 10 {
                        assert(t@.subrange(k, k + 1) =~= seq![10u8]);
                        assert(occurs_at(t@, seq![10u8], k));
                    }
                }
                assert(t@.subrange(p as int, p + 1)[0] == t@[p as int]);
                lemma_first_byte(t@, 10, p as int);
            }
            let tl = t.len();
            assert(p < tl);
            let rest = vstd::slice::slice_subrange(t, p + 1, tl);
            check_begin_line(rest)
        },
        None => {
            proof {
                assert forall|k: int| 0 <= k < t@.len() implies t@[k] != 10 by {
                    if t@[k] == 10 {
                        assert(t@.subrange(k, k + 1) =~= seq![10u8]);
                        assert(occurs_at(t@, seq![10u8], k));
                    }
                }
                lemma_first_byte(t@, 10, t@.len() as int);
            }
            false
        },
    }
}


/// `l` without trailing CRs.
pub open spec fn strip_cr(l: Seq<u8>) -> Seq<u8>
    decreases l.len(),
{
    if l.len() > 0 && l.last() == 13 {
        strip_cr(l.drop_last())
    } else {
        l
    }
}

/// The line starts with `begin`.
pub open spec fn opens_with_begin(l: Seq<u8>) -> bool {
    l.len() >= 5 && l.subrange(0, 5) == seq![98u8, 101, 103, 105, 110]
}

/// The first line at or after `i` that starts with `begin`.
pub open spec fn begin_from(ls: Seq<Seq<u8>>, i: int) -> Option<int>
    decreases ls.len() - i,
{
    if i < 0 || i >= ls.len() {
        None
    } else if opens_with_begin(ls[i]) {
        Some(i)
    } else {
        begin_from(ls, i + 1)
    }
}

/// The bytes that one data line decodes to.
pub open spec fn line_bytes(l: Seq<u8>) -> Seq<u8> {
    match lenient_line(l) {
        Some(b) => b,
        None => Seq::empty(),
    }
}

/// The bytes that the lines from `i` on decode to, up to the first blank
/// line or `end` line.
pub open spec fn data_from(ls: Seq<Seq<u8>>, i: int) -> Seq<u8>
    decreases ls.len() - i,
{
    if i < 0 || i >= ls.len() {
        Seq::empty()
    } else {
        let l = strip_cr(ls[i]);
        if l.len() == 0 || l == seq![101u8, 110, 100] {
            Seq::empty()
        } else {
            line_bytes(l) + data_from(ls, i + 1)
        }
    }
}

/// What `content` decodes to: the data lines after the first `begin` line.
pub open spec fn uu_decoded(content: Seq<u8>) -> Seq<u8> {
    let ls = lines_of(content);
    match begin_from(ls, 0) {
        Some(b) => data_from(ls, b + 1),
        None => Seq::empty(),
    }
}

fn opens_with_begin_exec(l: &Vec<u8>) -> (r: bool)
    ensures
        r == opens_with_begin(l@),
{
    if l.len() < 5 {
        return false;
    }
    let r = l[0] == 98 && l[1] == 101 && l[2] == 103 && l[3] == 105 && l[4] == 110;
    proof {
        if r {
            assert(l@.subrange(0, 5) =~= seq![98u8, 101, 103, 105, 110]);
        } else if l@.subrange(0, 5) == seq![98u8, 101, 103, 105, 110] {
            assert(l@.subrange(0, 5)[0] == l@[0]);
            assert(l@.subrange(0, 5)[1] == l@[1]);
            assert(l@.subrange(0, 5)[2] == l@[2]);
            assert(l@.subrange(0, 5)[3] == l@[3]);
            assert(l@.subrange(0, 5)[4] == l@[4]);
        }
    }
    r
}

/// Length of `l` without its trailing CRs.
fn strip_cr_len(l: &Vec<u8>) -> (r: usize)
    ensures
        r <= l@.len(),
        l@.subrange(0, r as int) == strip_cr(l@),
{
    let mut e = l.len();
    proof {
        assert(l@.subrange(0, e as int) =~= l@);
    }
    while e > 0 && l[e - 1] == 13
        invariant
            e <= l@.len(),
            strip_cr(l@.subrange(0, e as int)) == strip_cr(l@),
        decreases e,
    {
        proof {
            assert(l@.subrange(0, e as int).drop_last() =~= l@.subrange(0, e - 1));
        }
        e = e - 1;
    }
    e
}

/// Decodes UU-encoded content: finds the first line that starts with
/// `begin`, then decodes each following line leniently until a blank
/// line, an `end` line or the end of the input.
pub fn decode_uuencoded(content: &[u8]) -> (r: Vec<u8>)
    ensures
        r@ == uu_decoded(content@),
{
    let lines = split_lines(content);
    let ghost ls = lines_of(content@);
    let mut i: usize = 0;
    while i < lines.len() && !opens_with_begin_exec(&lines[i])
        invariant
            i <= lines@.len() == ls.len(),
            forall|j: int| 0 <= j < lines@.len() ==> (#[trigger] lines@[j])@ == ls[j],
            begin_from(ls, 0) == begin_from(ls, i as int),
        decreases lines@.len() - i,
    {
        i = i + 1;
    }
    let mut out: Vec<u8> = Vec::new();
    if i == lines.len() {
        return out;
    }
    let ghost b = i as int;
    i = i + 1;
    while i < lines.len()
        invariant
            b < i <= lines@.len() == ls.len(),
            ls == lines_of(content@),
            forall|j: int| 0 <= j < lines@.len() ==> (#[trigger] lines@[j])@ == ls[j],
            begin_from(ls, 0) == Some(b),
            out@ + data_from(ls, i as int) == data_from(ls, b + 1),
        decreases lines@.len() - i,
    {
        let line = &lines[i];
        let e = strip_cr_len(line);
        let l = vstd::slice::slice_subrange(line.as_slice(), 0, e);
        if e == 0 || (e == 3 && l[0] == 101 && l[1] == 110 && l[2] == 100) {
            proof {
                assert(l@ == strip_cr(ls[i as int]));
                if e == 3 {
                    assert(l@ =~= seq![101u8, 110, 100]);
                }
                assert(data_from(ls, i as int) == Seq::<u8>::empty());
                assert(out@ + Seq::<u8>::empty() =~= out@);
            }
            return out;
        }
        proof {
            assert(l@ == strip_cr(ls[i as int]));
            if l@ == seq![101u8, 110, 100] {
                assert(l@[0] == 101 && l@[1] == 110 && l@[2] == 100);
            }
        }
        match decode_uu_line(l) {
            Some(v) => {
                let mut v = v;
                proof {
                    assert(out@ + v@ + data_from(ls, i + 1) =~= out@ + data_from(ls, i as int));
                }
                out.append(&mut v);
            },
            None => {
                proof {
                    assert(out@ + data_from(ls, i + 1) =~= out@ + data_from(ls, i as int));
                }
            },
        }
        i = i + 1;
    }
    proof {
        assert(out@ + Seq::<u8>::empty() =~= out@);
    }
    out
}

/// The char that stands for the six bits `v` in the standard encoding:
/// `v + 32`; zero is a space, or a backtick where `backtick` is set (both
/// conventions are in use).
pub open spec fn uu_char(v: int, backtick: bool) -> u8 {
    if v == 0 && backtick {
        96
    } else {
        (v + 32) as u8
    }
}

/// Byte `m` of `b`, zero past its end.
pub open spec fn byte_or_zero(b: Seq<u8>, m: int) -> int {
    if 0 <= m < b.len() {
        b[m] as int
    } else {
        0
    }
}

/// Sextet `j` of the standard encoding of `b`: each three bytes, zero
/// padded, give four sextets.
pub open spec fn sextet_of(b: Seq<u8>, j: int) -> int {
    let g = 3 * (j / 4);
    let r = j % 4;
    let b0 = byte_or_zero(b, g);
    let b1 = byte_or_zero(b, g + 1);
    let b2 = byte_or_zero(b, g + 2);
    if r == 0 {
        b0 / 4
    } else if r == 1 {
        (b0 % 4) * 16 + b1 / 16
    } else if r == 2 {
        (b1 % 16) * 4 + b2 / 64
    } else {
        b2 % 64
    }
}

/// The standard UU encoding of one line of at most 45 bytes: the count
/// char, then four chars for each three bytes.
pub open spec fn uu_encode_line(b: Seq<u8>, backtick: bool) -> Seq<u8> {
    seq![uu_char(b.len() as int, backtick)] + Seq::new(
        (4 * ((b.len() + 2) / 3)) as nat,
        |j: int| uu_char(sextet_of(b, j), backtick),
    )
}

proof fn lemma_sextet_range(b: Seq<u8>, j: int)
    requires
        0 <= j,
    ensures
        0 <= sextet_of(b, j) < 64,
{
    let g = 3 * (j / 4);
    let b0 = byte_or_zero(b, g);
    let b1 = byte_or_zero(b, g + 1);
    let b2 = byte_or_zero(b, g + 2);
    assert(0 <= b0 < 256 && 0 <= b1 < 256 && 0 <= b2 < 256);
}

proof fn lemma_byte_from_sextets(b0: int, b1: int, b2: int)
    requires
        0 <= b0 < 256,
        0 <= b1 < 256,
        0 <= b2 < 256,
    ensures
        (b0 / 4) * 4 + ((b0 % 4) * 16 + b1 / 16) / 16 == b0,
        (((b0 % 4) * 16 + b1 / 16) % 16) * 16 + ((b1 % 16) * 4 + b2 / 64) / 4 == b1,
        (((b1 % 16) * 4 + b2 / 64) % 4) * 64 + b2 % 64 == b2,
{
    assert((b0 / 4) * 4 + ((b0 % 4) * 16 + b1 / 16) / 16 == b0) by (nonlinear_arith)
        requires
            0 <= b0 < 256,
            0 <= b1 < 256,
    ;
    assert((((b0 % 4) * 16 + b1 / 16) % 16) * 16 + ((b1 % 16) * 4 + b2 / 64) / 4 == b1)
        by (nonlinear_arith)
        requires
            0 <= b0 < 256,
            0 <= b1 < 256,
            0 <= b2 < 256,
    ;
    assert((((b1 % 16) * 4 + b2 / 64) % 4) * 64 + b2 % 64 == b2) by (nonlinear_arith)
        requires
            0 <= b1 < 256,
            0 <= b2 < 256,
    ;
}

proof fn lemma_encoding_legal(b: Seq<u8>, backtick: bool)
    requires
        b.len() <= 45,
    ensures
        legal_chars(uu_encode_line(b, backtick)) == uu_encode_line(b, backtick),
        count_of(uu_encode_line(b, backtick)[0]) == b.len(),
{
    let e = uu_encode_line(b, backtick);
    assert forall|j: int| 0 <= j < e.len() implies legal_uu_char(#[trigger] e[j]) by {
        if j > 0 {
            lemma_sextet_range(b, j - 1);
        }
    }
    lemma_filter_all(e);
}

proof fn lemma_encoded_sextets(b: Seq<u8>, backtick: bool)
    requires
        b.len() <= 45,
    ensures
        ({
            let sx = encoded_part(uu_encode_line(b, backtick)).map_values(|c: u8| sextet(c));
            &&& sx.len() == chars_needed(b.len())
            &&& forall|j: int| 0 <= j < sx.len() ==> #[trigger] sx[j] == sextet_of(b, j)
        }),
{
    let e = uu_encode_line(b, backtick);
    let n = b.len();
    let k = chars_needed(n);
    lemma_encoding_legal(b, backtick);
    assert(k <= 4 * ((n + 2) / 3));
    let enc = encoded_part(e);
    let sx = enc.map_values(|c: u8| sextet(c));
    assert(enc.len() == k);
    assert forall|j: int| 0 <= j < sx.len() implies #[trigger] sx[j] == sextet_of(b, j) by {
        lemma_sextet_range(b, j);
        assert(j < 4 * ((n + 2) / 3));
        assert(enc[j] == e[j + 1]);
        assert(e[j + 1] == uu_char(sextet_of(b, j), backtick));
        assert(sx[j] == sextet(enc[j]));
    }
}

proof fn lemma_byte_back(b: Seq<u8>, sx: Seq<u8>, m: int)
    requires
        0 <= m < b.len() <= 45,
        sx.len() == chars_needed(b.len()),
        forall|j: int| 0 <= j < sx.len() ==> #[trigger] sx[j] == sextet_of(b, j),
    ensures
        byte_at(sx, m) == b[m],
{
    let n = b.len();
    let g = m / 3;
    let r = m % 3;
    let b0 = byte_or_zero(b, 3 * g);
    let b1 = byte_or_zero(b, 3 * g + 1);
    let b2 = byte_or_zero(b, 3 * g + 2);
    lemma_byte_from_sextets(b0, b1, b2);
    let k = sx.len() as int;
    if r == 0 {
        assert(4 * g + 1 < k);
        assert(sx[4 * g] == sextet_of(b, 4 * g));
        assert(sx[4 * g + 1] == sextet_of(b, 4 * g + 1));
        assert((4 * g) / 4 == g && (4 * g) % 4 == 0);
        assert((4 * g + 1) / 4 == g && (4 * g + 1) % 4 == 1);
    } else if r == 1 {
        assert(4 * g + 2 < k);
        assert(sx[4 * g + 1] == sextet_of(b, 4 * g + 1));
        assert(sx[4 * g + 2] == sextet_of(b, 4 * g + 2));
        assert((4 * g + 1) / 4 == g && (4 * g + 1) % 4 == 1);
        assert((4 * g + 2) / 4 == g && (4 * g + 2) % 4 == 2);
    } else {
        assert(4 * g + 3 < k);
        assert(sx[4 * g + 2] == sextet_of(b, 4 * g + 2));
        assert(sx[4 * g + 3] == sextet_of(b, 4 * g + 3));
        assert((4 * g + 2) / 4 == g && (4 * g + 2) % 4 == 2);
        assert((4 * g + 3) / 4 == g && (4 * g + 3) % 4 == 3);
    }
}

/// The lenient decoder undoes the standard encoding, whichever char
/// stands for zero: a line that encodes at most 45 bytes decodes to
/// exactly those bytes.
pub proof fn lemma_uu_line_round_trip(b: Seq<u8>, backtick: bool)
    requires
        b.len() <= 45,
    ensures
        lenient_line(uu_encode_line(b, backtick)) == Some(b),
{
    lemma_encoding_legal(b, backtick);
    lemma_encoded_sextets(b, backtick);
    let sx = encoded_part(uu_encode_line(b, backtick)).map_values(|c: u8| sextet(c));
    assert forall|m: int| 0 <= m < b.len() implies #[trigger] byte_at(sx, m) == b[m] by {
        lemma_byte_back(b, sx, m);
    }
    assert(bytes_of_sextets(sx, b.len()) =~= b);
}

proof fn lemma_filter_all(e: Seq<u8>)
    requires
        forall|j: int| 0 <= j < e.len() ==> legal_uu_char(#[trigger] e[j]),
    ensures
        e.filter(|c: u8| legal_uu_char(c)) == e,
    decreases e.len(),
{
    reveal_with_fuel(Seq::filter, 1);
    if e.len() > 0 {
        lemma_filter_all(e.drop_last());
        assert(e.drop_last().push(e.last()) =~= e);
    }
}

/// A whole stream for one line: `begin 644 name`, the encoded line, the
/// backtick line, and `end`.
pub open spec fn uu_encode_stream(b: Seq<u8>, backtick: bool, name: Seq<u8>) -> Seq<u8> {
    seq![98u8, 101, 103, 105, 110, 32, 54, 52, 52, 32] + name + seq![10u8] + uu_encode_line(
        b,
        backtick,
    ) + seq![10u8] + seq![96u8] + seq![10u8] + seq![101u8, 110, 100] + seq![10u8]
}

proof fn lemma_lines_cons(a: Seq<u8>, rest: Seq<u8>)
    requires
        forall|k: int| 0 <= k < a.len() ==> a[k] != 10,
    ensures
        lines_of(a + seq![10u8] + rest) == seq![a] + lines_of(rest),
{
    let s = a + seq![10u8] + rest;
    lemma_first_byte(s, 10, a.len() as int);
    assert(s.subrange(0, a.len() as int) =~= a);
    assert(s.subrange(a.len() + 1 as int, s.len() as int) =~= rest);
}

/// The lenient decoder undoes the standard encoding of a whole stream: a
/// `begin` line, one encoded line of at most 45 bytes (zero written as a
/// space or as a backtick), the backtick line and `end` decode to exactly
/// those bytes.
pub proof fn lemma_uu_stream_round_trip(b: Seq<u8>, backtick: bool, name: Seq<u8>)
    requires
        b.len() <= 45,
        forall|i: int| 0 <= i < name.len() ==> #[trigger] name[i] != 10,
    ensures
        uu_decoded(uu_encode_stream(b, backtick, name)) == b,
{
    let l0 = seq![98u8, 101, 103, 105, 110, 32, 54, 52, 52, 32] + name;
    assert forall|j: int| 0 <= j < l0.len() implies l0[j] != 10 by {
        if j >= 10 {
            assert(l0[j] == name[j - 10]);
        }
    }
    let l1 = uu_encode_line(b, backtick);
    let l2 = seq![96u8];
    let l3 = seq![101u8, 110, 100];
    let e: Seq<u8> = Seq::empty();
    assert forall|j: int| 0 <= j < l1.len() implies l1[j] != 10 && l1[j] != 13 by {
        if j > 0 {
            lemma_sextet_range(b, j - 1);
        }
    }
    lemma_lines_cons(l3, e);
    lemma_lines_cons(l2, l3 + seq![10u8] + e);
    lemma_lines_cons(l1, l2 + seq![10u8] + (l3 + seq![10u8] + e));
    lemma_lines_cons(l0, l1 + seq![10u8] + (l2 + seq![10u8] + (l3 + seq![10u8] + e)));
    assert(uu_encode_stream(b, backtick, name) =~= l0 + seq![10u8] + (l1 + seq![10u8] + (l2 + seq![10u8] + (l3
        + seq![10u8] + e))));
    let ls = lines_of(uu_encode_stream(b, backtick, name));
    assert(lines_of(e) == Seq::<Seq<u8>>::empty());
    assert(ls =~= seq![l0, l1, l2, l3]);
    assert(l0.subrange(0, 5) =~= seq![98u8, 101, 103, 105, 110]);
    assert(begin_from(ls, 0) == Some(0int));
    assert(strip_cr(l1) == l1);
    assert(strip_cr(l2) == l2);
    assert(strip_cr(l3) == l3);
    lemma_uu_line_round_trip(b, backtick);
    assert(legal_chars(l2) == l2) by {
        lemma_filter_all(l2);
    }
    assert(lenient_line(l2) == Some(Seq::<u8>::empty())) by {
        assert(bytes_of_sextets(encoded_part(l2).map_values(|c: u8| sextet(c)), 0) =~= Seq::<
            u8,
        >::empty());
    }
    assert(data_from(ls, 3) == Seq::<u8>::empty());
    assert(data_from(ls, 2) =~= Seq::<u8>::empty());
    assert(data_from(ls, 1) =~= b);
}

} // verus!
