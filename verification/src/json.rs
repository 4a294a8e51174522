//! Canonical JSON primitives for the wire formats: fixed key
//! fragments, decimal numbers, escaped strings and byte arrays, each
//! with an encoder, a parser over a byte buffer, and the lemmas that
//! tie the two together.

use vstd::prelude::*;

verus! {

/// `"` begins and ends a JSON string.
pub const QUOTE: u8 = 34;

/// `\` begins an escape.
pub const BACKSLASH: u8 = 92;

/// The text `{"Handshake":{"version":` as bytes.
pub open spec fn lit_hs_open() -> Seq<u8> {
    seq![123u8, 34u8, 72u8, 97u8, 110u8, 100u8, 115u8, 104u8, 97u8, 107u8, 101u8, 34u8, 58u8, 123u8, 34u8, 118u8, 101u8, 114u8, 115u8, 105u8, 111u8, 110u8, 34u8, 58u8]
}

pub fn make_hs_open() -> (r: Vec<u8>)
    ensures
        r@ == lit_hs_open(),
{
    let mut v: Vec<u8> = Vec::new();
    v.push(123);
    v.push(34);
    v.push(72);
    v.push(97);
    v.push(110);
    v.push(100);
    v.push(115);
    v.push(104);
    v.push(97);
    v.push(107);
    v.push(101);
    v.push(34);
    v.push(58);
    v.push(123);
    v.push(34);
    v.push(118);
    v.push(101);
    v.push(114);
    v.push(115);
    v.push(105);
    v.push(111);
    v.push(110);
    v.push(34);
    v.push(58);
    proof { assert(v@ =~= lit_hs_open()); }
    v
}

/// The text `,"device_id":` as bytes.
pub open spec fn lit_device_id_key() -> Seq<u8> {
    seq![44u8, 34u8, 100u8, 101u8, 118u8, 105u8, 99u8, 101u8, 95u8, 105u8, 100u8, 34u8, 58u8]
}

pub fn make_device_id_key() -> (r: Vec<u8>)
    ensures
        r@ == lit_device_id_key(),
{
    let mut v: Vec<u8> = Vec::new();
    v.push(44);
    v.push(34);
    v.push(100);
    v.push(101);
    v.push(118);
    v.push(105);
    v.push(99);
    v.push(101);
    v.push(95);
    v.push(105);
    v.push(100);
    v.push(34);
    v.push(58);
    proof { assert(v@ =~= lit_device_id_key()); }
    v
}

/// The text `"Ping"` as bytes.
pub open spec fn lit_ping() -> Seq<u8> {
    seq![34u8, 80u8, 105u8, 110u8, 103u8, 34u8]
}

pub fn make_ping() -> (r: Vec<u8>)
    ensures
        r@ == lit_ping(),
{
    let mut v: Vec<u8> = Vec::new();
    v.push(34);
    v.push(80);
    v.push(105);
    v.push(110);
    v.push(103);
    v.push(34);
    proof { assert(v@ =~= lit_ping()); }
    v
}

/// The text `"Pong"` as bytes.
pub open spec fn lit_pong() -> Seq<u8> {
    seq![34u8, 80u8, 111u8, 110u8, 103u8, 34u8]
}

pub fn make_pong() -> (r: Vec<u8>)
    ensures
        r@ == lit_pong(),
{
    let mut v: Vec<u8> = Vec::new();
    v.push(34);
    v.push(80);
    v.push(111);
    v.push(110);
    v.push(103);
    v.push(34);
    proof { assert(v@ =~= lit_pong()); }
    v
}

/// The text `{"RequestChunk":{"file_id":` as bytes.
pub open spec fn lit_rc_open() -> Seq<u8> {
    seq![123u8, 34u8, 82u8, 101u8, 113u8, 117u8, 101u8, 115u8, 116u8, 67u8, 104u8, 117u8, 110u8, 107u8, 34u8, 58u8, 123u8, 34u8, 102u8, 105u8, 108u8, 101u8, 95u8, 105u8, 100u8, 34u8, 58u8]
}

pub fn make_rc_open() -> (r: Vec<u8>)
    ensures
        r@ == lit_rc_open(),
{
    let mut v: Vec<u8> = Vec::new();
    v.push(123);
    v.push(34);
    v.push(82);
    v.push(101);
    v.push(113);
    v.push(117);
    v.push(101);
    v.push(115);
    v.push(116);
    v.push(67);
    v.push(104);
    v.push(117);
    v.push(110);
    v.push(107);
    v.push(34);
    v.push(58);
    v.push(123);
    v.push(34);
    v.push(102);
    v.push(105);
    v.push(108);
    v.push(101);
    v.push(95);
    v.push(105);
    v.push(100);
    v.push(34);
    v.push(58);
    proof { assert(v@ =~= lit_rc_open()); }
    v
}

/// The text `,"index":` as bytes.
pub open spec fn lit_index_key() -> Seq<u8> {
    seq![44u8, 34u8, 105u8, 110u8, 100u8, 101u8, 120u8, 34u8, 58u8]
}

pub fn make_index_key() -> (r: Vec<u8>)
    ensures
        r@ == lit_index_key(),
{
    let mut v: Vec<u8> = Vec::new();
    v.push(44);
    v.push(34);
    v.push(105);
    v.push(110);
    v.push(100);
    v.push(101);
    v.push(120);
    v.push(34);
    v.push(58);
    proof { assert(v@ =~= lit_index_key()); }
    v
}

/// The text `{"ChunkData":{"file_id":` as bytes.
pub open spec fn lit_cd_open() -> Seq<u8> {
    seq![123u8, 34u8, 67u8, 104u8, 117u8, 110u8, 107u8, 68u8, 97u8, 116u8, 97u8, 34u8, 58u8, 123u8, 34u8, 102u8, 105u8, 108u8, 101u8, 95u8, 105u8, 100u8, 34u8, 58u8]
}

pub fn make_cd_open() -> (r: Vec<u8>)
    ensures
        r@ == lit_cd_open(),
{
    let mut v: Vec<u8> = Vec::new();
    v.push(123);
    v.push(34);
    v.push(67);
    v.push(104);
    v.push(117);
    v.push(110);
    v.push(107);
    v.push(68);
    v.push(97);
    v.push(116);
    v.push(97);
    v.push(34);
    v.push(58);
    v.push(123);
    v.push(34);
    v.push(102);
    v.push(105);
    v.push(108);
    v.push(101);
    v.push(95);
    v.push(105);
    v.push(100);
    v.push(34);
    v.push(58);
    proof { assert(v@ =~= lit_cd_open()); }
    v
}

/// The text `,"data":[` as bytes.
pub open spec fn lit_data_key() -> Seq<u8> {
    seq![44u8, 34u8, 100u8, 97u8, 116u8, 97u8, 34u8, 58u8, 91u8]
}

pub fn make_data_key() -> (r: Vec<u8>)
    ensures
        r@ == lit_data_key(),
{
    let mut v: Vec<u8> = Vec::new();
    v.push(44);
    v.push(34);
    v.push(100);
    v.push(97);
    v.push(116);
    v.push(97);
    v.push(34);
    v.push(58);
    v.push(91);
    proof { assert(v@ =~= lit_data_key()); }
    v
}

/// The text `}}` as bytes.
pub open spec fn lit_obj_close() -> Seq<u8> {
    seq![125u8, 125u8]
}

pub fn make_obj_close() -> (r: Vec<u8>)
    ensures
        r@ == lit_obj_close(),
{
    let mut v: Vec<u8> = Vec::new();
    v.push(125);
    v.push(125);
    proof { assert(v@ =~= lit_obj_close()); }
    v
}

/// The text `{"device_id":` as bytes.
pub open spec fn lit_beacon_open() -> Seq<u8> {
    seq![123u8, 34u8, 100u8, 101u8, 118u8, 105u8, 99u8, 101u8, 95u8, 105u8, 100u8, 34u8, 58u8]
}

pub fn make_beacon_open() -> (r: Vec<u8>)
    ensures
        r@ == lit_beacon_open(),
{
    let mut v: Vec<u8> = Vec::new();
    v.push(123);
    v.push(34);
    v.push(100);
    v.push(101);
    v.push(118);
    v.push(105);
    v.push(99);
    v.push(101);
    v.push(95);
    v.push(105);
    v.push(100);
    v.push(34);
    v.push(58);
    proof { assert(v@ =~= lit_beacon_open()); }
    v
}

/// The text `,"name":` as bytes.
pub open spec fn lit_name_key() -> Seq<u8> {
    seq![44u8, 34u8, 110u8, 97u8, 109u8, 101u8, 34u8, 58u8]
}

pub fn make_name_key() -> (r: Vec<u8>)
    ensures
        r@ == lit_name_key(),
{
    let mut v: Vec<u8> = Vec::new();
    v.push(44);
    v.push(34);
    v.push(110);
    v.push(97);
    v.push(109);
    v.push(101);
    v.push(34);
    v.push(58);
    proof { assert(v@ =~= lit_name_key()); }
    v
}

/// The text `,"port":` as bytes.
pub open spec fn lit_port_key() -> Seq<u8> {
    seq![44u8, 34u8, 112u8, 111u8, 114u8, 116u8, 34u8, 58u8]
}

pub fn make_port_key() -> (r: Vec<u8>)
    ensures
        r@ == lit_port_key(),
{
    let mut v: Vec<u8> = Vec::new();
    v.push(44);
    v.push(34);
    v.push(112);
    v.push(111);
    v.push(114);
    v.push(116);
    v.push(34);
    v.push(58);
    proof { assert(v@ =~= lit_port_key()); }
    v
}

/// The text `}` as bytes.
pub open spec fn lit_brace_close() -> Seq<u8> {
    seq![125u8]
}

pub fn make_brace_close() -> (r: Vec<u8>)
    ensures
        r@ == lit_brace_close(),
{
    let mut v: Vec<u8> = Vec::new();
    v.push(125);
    proof { assert(v@ =~= lit_brace_close()); }
    v
}

/// The literal stands at `pos` in `s`; the position after it, or
/// `None`.
pub open spec fn spec_expect(s: Seq<u8>, pos: int, lit: Seq<u8>) -> Option<int> {
    if 0 <= pos && pos + lit.len() <= s.len() && s.subrange(pos, pos + lit.len()) == lit {
        Some(pos + lit.len())
    } else {
        None
    }
}

/// Checks that the literal stands at `pos` in `s` and steps past it.
pub fn expect(s: &Vec<u8>, pos: usize, lit: &Vec<u8>) -> (r: Option<usize>)
    ensures
        match r {
            Some(e) => spec_expect(s@, pos as int, lit@) == Some(e as int),
            None => spec_expect(s@, pos as int, lit@) is None,
        },
{
    let n = lit.len();
    if pos > s.len() || n > s.len() - pos {
        return None;
    }
    let mut i: usize = 0;
    while i < n
        invariant
            i <= n,
            n == lit@.len(),
            pos + n <= s@.len(),
            pos + n <= usize::MAX,
            forall|j: int| 0 <= j < i ==> s@[pos + j] == lit@[j],
        decreases n - i,
    {
        if s[pos + i] != lit[i] {
            proof {
                assert(s@.subrange(pos as int, pos + lit@.len())[i as int] != lit@[i as int]);
            }
            return None;
        }
        i = i + 1;
    }
    proof {
        assert(s@.subrange(pos as int, pos + lit@.len()) =~= lit@);
    }
    Some(pos + n)
}

/// A decimal digit byte, `0` through `9`.
pub open spec fn is_digit(b: u8) -> bool {
    48 <= b <= 57
}

/// The shortest decimal representation of `n`, most significant digit
/// first.
pub open spec fn dec_rep(n: nat) -> Seq<u8>
    decreases n,
{
    if n < 10 {
        seq![(48 + n) as u8]
    } else {
        dec_rep(n / 10).push((48 + n % 10) as u8)
    }
}

/// The value a run of digit bytes denotes, most significant first.
pub open spec fn fold_digits(ds: Seq<u8>) -> int
    decreases ds.len(),
{
    if ds.len() == 0 {
        0
    } else {
        fold_digits(ds.drop_last()) * 10 + (ds.last() - 48)
    }
}

/// Where the run of digit bytes that begins at `pos` ends.
pub open spec fn digits_end(s: Seq<u8>, pos: int) -> int
    decreases s.len() - pos,
    when 0 <= pos <= s.len()
{
    if pos < s.len() && is_digit(s[pos]) {
        digits_end(s, pos + 1)
    } else {
        pos
    }
}

/// Parse of an unsigned decimal at `pos`: the value and the position
/// just past the digits. `None` when no digit stands at `pos`, or the
/// value does not fit in a `u64`.
pub open spec fn spec_parse_u64(s: Seq<u8>, pos: int) -> Option<(u64, int)> {
    let end = digits_end(s, pos);
    if end == pos {
        None
    } else {
        let v = fold_digits(s.subrange(pos, end));
        if v <= u64::MAX {
            Some(((v as u64), end))
        } else {
            None
        }
    }
}

proof fn lemma_digits_end_bounds(s: Seq<u8>, pos: int)
    requires
        0 <= pos <= s.len(),
    ensures
        pos <= digits_end(s, pos) <= s.len(),
        forall|j: int| pos <= j < digits_end(s, pos) ==> is_digit(s[j]),
        digits_end(s, pos) < s.len() ==> !is_digit(s[digits_end(s, pos)]),
    decreases s.len() - pos,
{
    if pos < s.len() && is_digit(s[pos]) {
        lemma_digits_end_bounds(s, pos + 1);
    }
}

proof fn lemma_digits_end_run(s: Seq<u8>, pos: int, end: int)
    requires
        0 <= pos <= end <= s.len(),
        forall|j: int| pos <= j < end ==> is_digit(s[j]),
        end == s.len() || !is_digit(s[end]),
    ensures
        digits_end(s, pos) == end,
    decreases end - pos,
{
    if pos < end {
        lemma_digits_end_run(s, pos + 1, end);
    }
}

proof fn lemma_fold_digits_nonneg(ds: Seq<u8>)
    requires
        forall|j: int| 0 <= j < ds.len() ==> is_digit(ds[j]),
    ensures
        fold_digits(ds) >= 0,
    decreases ds.len(),
{
    if ds.len() > 0 {
        lemma_fold_digits_nonneg(ds.drop_last());
        assert(fold_digits(ds.drop_last()) * 10 >= 0) by (nonlinear_arith)
            requires
                fold_digits(ds.drop_last()) >= 0,
        ;
    }
}

/// A longer run of digits denotes at least as large a value.
proof fn lemma_fold_digits_prefix(ds: Seq<u8>, k: int)
    requires
        forall|j: int| 0 <= j < ds.len() ==> is_digit(ds[j]),
        0 <= k <= ds.len(),
    ensures
        fold_digits(ds.subrange(0, k)) <= fold_digits(ds),
    decreases ds.len() - k,
{
    if k < ds.len() {
        lemma_fold_digits_prefix(ds, k + 1);
        let p = ds.subrange(0, k + 1);
        assert(p.drop_last() =~= ds.subrange(0, k));
        lemma_fold_digits_nonneg(ds.subrange(0, k));
        assert(fold_digits(ds.subrange(0, k)) <= fold_digits(ds.subrange(0, k)) * 10 + (p.last()
            - 48)) by (nonlinear_arith)
            requires
                fold_digits(ds.subrange(0, k)) >= 0,
                48 <= p.last() <= 57,
        ;
    } else {
        assert(ds.subrange(0, k) =~= ds);
    }
}

/// Every byte of a decimal representation is a digit.
pub proof fn lemma_dec_rep_digits(n: nat)
    ensures
        dec_rep(n).len() >= 1,
        forall|j: int| 0 <= j < dec_rep(n).len() ==> is_digit(#[trigger] dec_rep(n)[j]),
    decreases n,
{
    if n >= 10 {
        lemma_dec_rep_digits(n / 10);
    }
}

/// Reading a decimal representation back gives the number.
pub proof fn lemma_fold_dec_rep(n: nat)
    ensures
        fold_digits(dec_rep(n)) == n,
    decreases n,
{
    if n < 10 {
        assert(dec_rep(n) == seq![(48 + n) as u8]);
        assert(dec_rep(n).drop_last() =~= Seq::<u8>::empty());
        assert(dec_rep(n).last() == (48 + n) as u8);
        assert(((48 + n) as u8) - 48 == n);
        assert(fold_digits(dec_rep(n)) == fold_digits(Seq::<u8>::empty()) * 10 + (dec_rep(
            n,
        ).last() - 48));
    } else {
        lemma_fold_dec_rep(n / 10);
        assert(dec_rep(n).drop_last() =~= dec_rep(n / 10));
        assert(dec_rep(n).last() == (48 + n % 10) as u8);
        assert(fold_digits(dec_rep(n)) == (n / 10) * 10 + n % 10);
        assert((n / 10) * 10 + n % 10 == n) by (nonlinear_arith);
    }
}

/// A decimal representation followed by a non-digit parses back to the
/// number it represents.
pub proof fn lemma_parse_dec_rep(s: Seq<u8>, pos: int, n: u64)
    requires
        0 <= pos,
        pos + dec_rep(n as nat).len() <= s.len(),
        s.subrange(pos, pos + dec_rep(n as nat).len()) == dec_rep(n as nat),
        pos + dec_rep(n as nat).len() == s.len() || !is_digit(s[pos + dec_rep(n as nat).len()]),
    ensures
        spec_parse_u64(s, pos) == Some((n, pos + dec_rep(n as nat).len())),
{
    let d = dec_rep(n as nat);
    let end = pos + d.len();
    lemma_dec_rep_digits(n as nat);
    assert forall|j: int| pos <= j < end implies is_digit(s[j]) by {
        assert(s[j] == s.subrange(pos, end)[j - pos]);
    }
    lemma_digits_end_run(s, pos, end);
    lemma_fold_dec_rep(n as nat);
}

/// Appends the decimal representation of `n`.
pub fn push_u64(out: &mut Vec<u8>, n: u64)
    ensures
        final(out)@ == old(out)@ + dec_rep(n as nat),
    decreases n,
{
    if n < 10 {
        out.push(48 + (n as u8));
        proof {
            assert(out@ =~= old(out)@ + dec_rep(n as nat));
        }
    } else {
        push_u64(out, n / 10);
        out.push(48 + ((n % 10) as u8));
        proof {
            assert(out@ =~= old(out)@ + dec_rep(n as nat));
        }
    }
}

/// Parses an unsigned decimal at `pos`, exactly as `spec_parse_u64`
/// reads it.
pub fn parse_u64(s: &Vec<u8>, pos: usize) -> (r: Option<(u64, usize)>)
    requires
        pos <= s@.len(),
    ensures
        match r {
            Some(ve) => spec_parse_u64(s@, pos as int) == Some((ve.0, ve.1 as int)),
            None => spec_parse_u64(s@, pos as int) is None,
        },
{
    proof {
        lemma_digits_end_bounds(s@, pos as int);
    }
    let ghost end = digits_end(s@, pos as int);
    let n = s.len();
    if pos == n || s[pos] < 48 || s[pos] > 57 {
        return None;
    }
    let mut i: usize = pos;
    let mut acc: u64 = 0;
    while i < n && 48 <= s[i] && s[i] <= 57
        invariant
            pos <= i <= end <= n,
            n == s@.len(),
            forall|j: int| pos <= j < i ==> is_digit(s@[j]),
            i < end ==> is_digit(s@[i as int]),
            acc == fold_digits(s@.subrange(pos as int, i as int)),
            end == digits_end(s@, pos as int),
            forall|j: int| pos <= j < end ==> is_digit(s@[j]),
            end < s@.len() ==> !is_digit(s@[end]),
        decreases n - i,
    {
        let d = s[i] - 48;
        if acc > (u64::MAX - (d as u64)) / 10 {
            proof {
                let run = s@.subrange(pos as int, end);
                let p = s@.subrange(pos as int, i + 1);
                assert(p.drop_last() =~= s@.subrange(pos as int, i as int));
                assert(fold_digits(p) == acc * 10 + d);
                assert(acc * 10 + d > u64::MAX) by (nonlinear_arith)
                    requires
                        acc > (u64::MAX - (d as u64)) / 10,
                        0 <= d <= 9,
                        acc >= 0,
                ;
                assert forall|j: int| 0 <= j < run.len() implies is_digit(run[j]) by {
                    assert(run[j] == s@[pos + j]);
                }
                lemma_fold_digits_prefix(run, i + 1 - pos);
                assert(run.subrange(0, i + 1 - pos) =~= p);
            }
            return None;
        }
        proof {
            let p = s@.subrange(pos as int, i + 1);
            assert(p.drop_last() =~= s@.subrange(pos as int, i as int));
            assert(acc * 10 + d <= u64::MAX) by (nonlinear_arith)
                requires
                    acc <= (u64::MAX - (d as u64)) / 10,
                    0 <= d <= 9,
                    acc >= 0,
            ;
        }
        acc = acc * 10 + (d as u64);
        i = i + 1;
        proof {
            if i < end {
                assert(is_digit(s@[i as int]));
            } else {
                lemma_digits_end_run(s@, pos as int, i as int);
            }
        }
    }
    proof {
        lemma_digits_end_run(s@, pos as int, i as int);
    }
    Some((acc, i))
}

/// The lowercase hex digit for a value below 16.
pub open spec fn hex_digit(v: int) -> u8 {
    if v < 10 {
        (48 + v) as u8
    } else {
        (87 + v) as u8
    }
}

/// A lowercase hex digit byte.
pub open spec fn is_hex(b: u8) -> bool {
    is_digit(b) || (97 <= b <= 102)
}

/// The value of a lowercase hex digit byte.
pub open spec fn hex_val(b: u8) -> int {
    if is_digit(b) {
        b - 48
    } else {
        b - 87
    }
}

proof fn lemma_hex_digit(v: int)
    requires
        0 <= v < 16,
    ensures
        is_hex(hex_digit(v)),
        hex_val(hex_digit(v)) == v,
{
}

/// How one byte of a string body is written: quotes and backslashes
/// get a backslash escape, control bytes a `\u00xx` escape, and
/// everything else stands as itself.
pub open spec fn esc_byte(b: u8) -> Seq<u8> {
    if b == QUOTE {
        seq![BACKSLASH, QUOTE]
    } else if b == BACKSLASH {
        seq![BACKSLASH, BACKSLASH]
    } else if b < 32 {
        seq![BACKSLASH, 117u8, 48u8, 48u8, hex_digit(b as int / 16), hex_digit(b as int % 16)]
    } else {
        seq![b]
    }
}

/// A string body, escaped byte for byte.
pub open spec fn esc(bs: Seq<u8>) -> Seq<u8>
    decreases bs.len(),
{
    if bs.len() == 0 {
        Seq::empty()
    } else {
        esc_byte(bs[0]) + esc(bs.drop_first())
    }
}

/// Escaping distributes over concatenation.
proof fn lemma_esc_concat(a: Seq<u8>, b: Seq<u8>)
    ensures
        esc(a + b) == esc(a) + esc(b),
    decreases a.len(),
{
    if a.len() == 0 {
        assert(a + b =~= b);
        assert(esc(a) + esc(b) =~= esc(b));
    } else {
        assert((a + b).drop_first() =~= a.drop_first() + b);
        assert((a + b)[0] == a[0]);
        lemma_esc_concat(a.drop_first(), b);
        assert(esc(a + b) =~= esc(a) + esc(b));
    }
}

/// Appends the escaped form of the bytes.
pub fn push_escaped(out: &mut Vec<u8>, bs: &[u8])
    ensures
        final(out)@ == old(out)@ + esc(bs@),
{
    let n = bs.len();
    let mut i: usize = 0;
    while i < n
        invariant
            i <= n,
            n == bs@.len(),
            out@ == old(out)@ + esc(bs@.take(i as int)),
        decreases n - i,
    {
        let b = *vstd::slice::slice_index_get(bs, i);
        if b == 34 {
            out.push(92);
            out.push(34);
        } else if b == 92 {
            out.push(92);
            out.push(92);
        } else if b < 32 {
            out.push(92);
            out.push(117);
            out.push(48);
            out.push(48);
            let hi = b / 16;
            let lo = b % 16;
            out.push(if hi < 10 { 48 + hi } else { 87 + hi });
            out.push(if lo < 10 { 48 + lo } else { 87 + lo });
        } else {
            out.push(b);
        }
        proof {
            lemma_esc_concat(bs@.take(i as int), seq![b]);
            assert(bs@.take(i + 1) =~= bs@.take(i as int) + seq![b]);
            assert(seq![b].drop_first() =~= Seq::<u8>::empty());
            assert(esc(Seq::<u8>::empty()) =~= Seq::<u8>::empty());
            assert(seq![b][0] == b);
            assert(esc(seq![b]) =~= esc_byte(b));
            assert(out@ =~= old(out)@ + esc(bs@.take(i + 1)));
        }
        i = i + 1;
    }
    proof {
        assert(bs@.take(n as int) =~= bs@);
    }
}

/// Parse of a string body at `pos` up to and including its closing
/// quote: the unescaped bytes and the position after the quote. `None`
/// on a bare control byte, an unknown escape, an escape that does not
/// name a control byte, or a missing closing quote.
pub open spec fn spec_parse_string(s: Seq<u8>, pos: int) -> Option<(Seq<u8>, int)>
    decreases s.len() - pos,
    when 0 <= pos <= s.len()
{
    if pos == s.len() {
        None
    } else if s[pos] == QUOTE {
        Some((Seq::empty(), pos + 1))
    } else if s[pos] == BACKSLASH {
        if pos + 2 <= s.len() && (s[pos + 1] == QUOTE || s[pos + 1] == BACKSLASH) {
            match spec_parse_string(s, pos + 2) {
                Some(be) => Some((seq![s[pos + 1]] + be.0, be.1)),
                None => None,
            }
        } else if pos + 6 <= s.len() && s[pos + 1] == 117 && s[pos + 2] == 48 && s[pos + 3] == 48
            && is_hex(s[pos + 4]) && is_hex(s[pos + 5]) && hex_val(s[pos + 4]) * 16 + hex_val(
            s[pos + 5],
        ) < 32 {
            match spec_parse_string(s, pos + 6) {
                Some(be) => Some(
                    (seq![((hex_val(s[pos + 4]) * 16 + hex_val(s[pos + 5])) as u8)] + be.0, be.1),
                ),
                None => None,
            }
        } else {
            None
        }
    } else if s[pos] < 32 {
        None
    } else {
        match spec_parse_string(s, pos + 1) {
            Some(be) => Some((seq![s[pos]] + be.0, be.1)),
            None => None,
        }
    }
}

/// An escaped body followed by a closing quote parses back to the
/// bytes it was made from.
pub proof fn lemma_parse_esc(s: Seq<u8>, pos: int, bs: Seq<u8>)
    requires
        0 <= pos,
        pos + esc(bs).len() + 1 <= s.len(),
        s.subrange(pos, pos + esc(bs).len()) == esc(bs),
        s[pos + esc(bs).len()] == QUOTE,
    ensures
        spec_parse_string(s, pos) == Some((bs, pos + esc(bs).len() + 1)),
    decreases bs.len(),
{
    if bs.len() == 0 {
        assert(s[pos] == QUOTE);
    } else {
        let b = bs[0];
        let eb = esc_byte(b);
        let rest = esc(bs.drop_first());
        assert(esc(bs) == eb + rest);
        assert forall|j: int| 0 <= j < eb.len() implies s[pos + j] == eb[j] by {
            assert(s[pos + j] == s.subrange(pos, pos + esc(bs).len())[j]);
            assert(esc(bs)[j] == eb[j]);
        }
        assert(s.subrange(pos + eb.len(), pos + eb.len() + rest.len()) =~= rest) by {
            assert forall|j: int| 0 <= j < rest.len() implies s.subrange(
                pos + eb.len(),
                pos + eb.len() + rest.len(),
            )[j] == rest[j] by {
                assert(s[pos + eb.len() + j] == s.subrange(pos, pos + esc(bs).len())[eb.len() + j]);
                assert(esc(bs)[eb.len() + j] == rest[j]);
            }
        }
        lemma_parse_esc(s, pos + eb.len(), bs.drop_first());
        assert(s[pos + 0] == eb[0]);
        assert(eb.len() >= 2 ==> s[pos + 1] == eb[1]);
        if b == QUOTE || b == BACKSLASH {
            assert(s[pos] == BACKSLASH && s[pos + 1] == b);
            assert(seq![b] + bs.drop_first() =~= bs);
        } else if b < 32 {
            lemma_hex_digit(b as int / 16);
            lemma_hex_digit(b as int % 16);
            assert(s[pos] == BACKSLASH && s[pos + 1] == 117 && s[pos + 2] == 48 && s[pos + 3]
                == 48);
            assert(s[pos + 4] == hex_digit(b as int / 16) && s[pos + 5] == hex_digit(b as int % 16));
            assert(hex_val(s[pos + 4]) * 16 + hex_val(s[pos + 5]) == b) by {
                assert((b as int / 16) * 16 + b as int % 16 == b) by (nonlinear_arith);
            }
            assert(seq![b] + bs.drop_first() =~= bs);
        } else {
            assert(s[pos] == b);
            assert(seq![b] + bs.drop_first() =~= bs);
        }
    }
}

/// The value of a lowercase hex digit byte.
fn hexv(b: u8) -> (r: u8)
    requires
        is_hex(b),
    ensures
        r == hex_val(b),
{
    if b <= 57 {
        b - 48
    } else {
        b - 87
    }
}

/// Parses a string body at `pos` up to and including its closing
/// quote, exactly as `spec_parse_string` reads it.
pub fn parse_string(s: &Vec<u8>, pos: usize) -> (r: Option<(Vec<u8>, usize)>)
    requires
        pos <= s@.len(),
    ensures
        match r {
            Some(be) => spec_parse_string(s@, pos as int) == Some((be.0@, be.1 as int)),
            None => spec_parse_string(s@, pos as int) is None,
        },
{
    let n = s.len();
    let mut out: Vec<u8> = Vec::new();
    let mut i: usize = pos;
    loop
        invariant
            pos <= i <= n,
            n == s@.len(),
            match spec_parse_string(s@, i as int) {
                Some(be) => spec_parse_string(s@, pos as int) == Some((out@ + be.0, be.1)),
                None => spec_parse_string(s@, pos as int) is None,
            },
        decreases n - i,
    {
        if i == n {
            return None;
        }
        let b = s[i];
        if b == 34 {
            proof {
                assert(out@ + Seq::<u8>::empty() =~= out@);
            }
            return Some((out, i + 1));
        } else if b == 92 {
            if n - i >= 2 && (s[i + 1] == 34 || s[i + 1] == 92) {
                let ghost prev = out@;
                out.push(s[i + 1]);
                proof {
                    if let Some(be) = spec_parse_string(s@, i + 2) {
                        assert(prev + (seq![s@[i + 1]] + be.0) =~= out@ + be.0);
                    }
                }
                i = i + 2;
            } else if n - i >= 6 && s[i + 1] == 117 && s[i + 2] == 48 && s[i + 3] == 48 && (48 <= s[i
                + 4] && s[i + 4] <= 57 || 97 <= s[i + 4] && s[i + 4] <= 102) && (48 <= s[i + 5]
                && s[i + 5] <= 57 || 97 <= s[i + 5] && s[i + 5] <= 102) && hexv(s[i + 4]) * 16
                + hexv(s[i + 5]) < 32 {
                let v = hexv(s[i + 4]) * 16 + hexv(s[i + 5]);
                let ghost prev = out@;
                out.push(v);
                proof {
                    if let Some(be) = spec_parse_string(s@, i + 6) {
                        assert(prev + (seq![v] + be.0) =~= out@ + be.0);
                    }
                }
                i = i + 6;
            } else {
                return None;
            }
        } else if b < 32 {
            return None;
        } else {
            let ghost prev = out@;
            out.push(b);
            proof {
                if let Some(be) = spec_parse_string(s@, i + 1) {
                    assert(prev + (seq![b] + be.0) =~= out@ + be.0);
                }
            }
            i = i + 1;
        }
    }
}


/// A byte array's elements as decimal numbers with commas between,
/// without the surrounding brackets.
pub open spec fn enc_byte_array(data: Seq<u8>) -> Seq<u8>
    decreases data.len(),
{
    if data.len() == 0 {
        Seq::empty()
    } else if data.len() == 1 {
        dec_rep(data[0] as nat)
    } else {
        enc_byte_array(data.drop_last()) + seq![44u8] + dec_rep(data.last() as nat)
    }
}

/// The front decomposition of the array encoding.
proof fn lemma_enc_bytes_first(data: Seq<u8>)
    requires
        data.len() >= 2,
    ensures
        enc_byte_array(data) == dec_rep(data[0] as nat) + seq![44u8] + enc_byte_array(
            data.drop_first(),
        ),
    decreases data.len(),
{
    if data.len() == 2 {
        assert(data.drop_last().len() == 1);
        assert(data.drop_last()[0] == data[0]);
        assert(data.drop_first().len() == 1);
        assert(data.drop_first()[0] == data.last());
        assert(enc_byte_array(data.drop_last()) == dec_rep(data[0] as nat));
        assert(enc_byte_array(data.drop_first()) == dec_rep(data.last() as nat));
        assert(enc_byte_array(data) =~= dec_rep(data[0] as nat) + seq![44u8] + enc_byte_array(
            data.drop_first(),
        ));
    } else {
        let d0s = dec_rep(data[0] as nat);
        let ddl = data.drop_last();
        let df = data.drop_first();
        lemma_enc_bytes_first(ddl);
        assert(ddl[0] == data[0]);
        assert(ddl.drop_first() =~= df.drop_last());
        assert(df.last() == data.last());
        assert(df.len() >= 2);
        assert(enc_byte_array(data) == enc_byte_array(ddl) + seq![44u8] + dec_rep(
            data.last() as nat,
        ));
        assert(enc_byte_array(ddl) == d0s + seq![44u8] + enc_byte_array(ddl.drop_first()));
        assert(enc_byte_array(df) == enc_byte_array(df.drop_last()) + seq![44u8] + dec_rep(
            df.last() as nat,
        ));
        assert(enc_byte_array(data) =~= d0s + seq![44u8] + enc_byte_array(df));
    }
}

/// Appends the elements of `data` as decimal numbers with commas
/// between.
pub fn push_byte_array(out: &mut Vec<u8>, data: &Vec<u8>)
    ensures
        final(out)@ == old(out)@ + enc_byte_array(data@),
{
    let n = data.len();
    let mut i: usize = 0;
    while i < n
        invariant
            i <= n,
            n == data@.len(),
            out@ == old(out)@ + enc_byte_array(data@.take(i as int)),
        decreases n - i,
    {
        if i > 0 {
            out.push(44);
        }
        push_u64(out, data[i] as u64);
        proof {
            let p = data@.take(i + 1);
            assert(p.drop_last() =~= data@.take(i as int));
            assert(p.last() == data@[i as int]);
            assert(out@ =~= old(out)@ + enc_byte_array(data@.take(i + 1)));
        }
        i = i + 1;
    }
    proof {
        assert(data@.take(n as int) =~= data@);
    }
}

/// Parse of the items of a non-empty byte array at `pos`, up to and
/// including the closing bracket.
pub open spec fn spec_parse_bytes_rest(s: Seq<u8>, pos: int) -> Option<(Seq<u8>, int)>
    decreases s.len() - pos,
    when 0 <= pos <= s.len()
{
    match spec_parse_u64(s, pos) {
        None => None,
        Some(ve) => {
            if !(pos < ve.1 <= s.len()) {
                None
            } else if ve.0 > 255 {
                None
            } else if ve.1 < s.len() && s[ve.1] == 44 {
                match spec_parse_bytes_rest(s, ve.1 + 1) {
                    Some(be) => Some((seq![(ve.0 as u8)] + be.0, be.1)),
                    None => None,
                }
            } else if ve.1 < s.len() && s[ve.1] == 93 {
                Some((seq![(ve.0 as u8)], ve.1 + 1))
            } else {
                None
            }
        },
    }
}

/// Parse of a byte array at `pos` (just past the opening bracket), up
/// to and including the closing bracket: the bytes and the position
/// after the bracket.
pub open spec fn spec_parse_byte_array(s: Seq<u8>, pos: int) -> Option<(Seq<u8>, int)> {
    if 0 <= pos < s.len() && s[pos] == 93 {
        Some((Seq::empty(), pos + 1))
    } else {
        spec_parse_bytes_rest(s, pos)
    }
}

/// An encoded byte array followed by its closing bracket parses back
/// to the bytes it was made from.
pub proof fn lemma_parse_enc_bytes(s: Seq<u8>, pos: int, data: Seq<u8>)
    requires
        0 <= pos,
        pos + enc_byte_array(data).len() + 1 <= s.len(),
        s.subrange(pos, pos + enc_byte_array(data).len()) == enc_byte_array(data),
        s[pos + enc_byte_array(data).len()] == 93,
    ensures
        spec_parse_byte_array(s, pos) == Some((data, pos + enc_byte_array(data).len() + 1)),
    decreases data.len(),
{
    let e = enc_byte_array(data);
    if data.len() == 0 {
        assert(s[pos] == 93);
    } else {
        let d0 = dec_rep(data[0] as nat);
        lemma_dec_rep_digits(data[0] as nat);
        let head = if data.len() == 1 {
            d0
        } else {
            d0 + seq![44u8]
        };
        if data.len() >= 2 {
            lemma_enc_bytes_first(data);
        }
        assert forall|j: int| 0 <= j < d0.len() implies s[pos + j] == d0[j] by {
            assert(s[pos + j] == s.subrange(pos, pos + e.len())[j]);
            assert(e[j] == d0[j]);
        }
        assert(s.subrange(pos, pos + d0.len()) =~= d0);
        let after = pos + d0.len();
        if data.len() == 1 {
            assert(s[after] == 93);
            lemma_parse_dec_rep(s, pos, data[0] as u64);
            assert(s[pos] == d0[0]);
            assert(is_digit(s[pos]));
            assert(seq![data[0]] =~= data);
        } else {
            assert(s[after] == e[d0.len() as int]);
            assert(e[d0.len() as int] == 44);
            lemma_parse_dec_rep(s, pos, data[0] as u64);
            let rest = enc_byte_array(data.drop_first());
            assert forall|j: int| 0 <= j < rest.len() implies s[after + 1 + j] == rest[j] by {
                assert(s[after + 1 + j] == s.subrange(pos, pos + e.len())[d0.len() + 1 + j]);
                assert(e[d0.len() + 1 + j] == rest[j]);
            }
            assert(s.subrange(after + 1, after + 1 + rest.len()) =~= rest);
            lemma_parse_enc_bytes(s, after + 1, data.drop_first());
            assert(rest.len() >= 1) by {
                lemma_dec_rep_digits(data.drop_first()[0] as nat);
                if data.drop_first().len() >= 2 {
                    lemma_enc_bytes_first(data.drop_first());
                }
            }
            assert(s[after + 1] == rest[0]);
            assert(is_digit(rest[0])) by {
                lemma_dec_rep_digits(data.drop_first()[0] as nat);
                if data.drop_first().len() >= 2 {
                    lemma_enc_bytes_first(data.drop_first());
                    assert(rest[0] == dec_rep(data.drop_first()[0] as nat)[0]);
                }
            }
            assert(s[pos] == d0[0]);
            assert(is_digit(s[pos]));
            assert(seq![data[0]] + data.drop_first() =~= data);
        }
    }
}

/// Parses a byte array at `pos` (just past the opening bracket),
/// exactly as `spec_parse_byte_array` reads it.
pub fn parse_byte_array(s: &Vec<u8>, pos: usize) -> (r: Option<(Vec<u8>, usize)>)
    requires
        pos <= s@.len(),
    ensures
        match r {
            Some(be) => spec_parse_byte_array(s@, pos as int) == Some((be.0@, be.1 as int)),
            None => spec_parse_byte_array(s@, pos as int) is None,
        },
{
    let n = s.len();
    let mut out: Vec<u8> = Vec::new();
    if pos < n && s[pos] == 93 {
        return Some((out, pos + 1));
    }
    let mut i: usize = pos;
    loop
        invariant
            pos <= i <= n,
            n == s@.len(),
            match spec_parse_bytes_rest(s@, i as int) {
                Some(be) => spec_parse_byte_array(s@, pos as int) == Some((out@ + be.0, be.1)),
                None => spec_parse_byte_array(s@, pos as int) is None,
            },
        decreases n - i,
    {
        let ve = match parse_u64(s, i) {
            Some(ve) => ve,
            None => {
                return None;
            },
        };
        proof {
            lemma_digits_end_bounds(s@, i as int);
        }
        let v = ve.0;
        let e = ve.1;
        if v > 255 {
            return None;
        }
        if e < n && s[e] == 44 {
            let ghost prev = out@;
            out.push(v as u8);
            proof {
                if let Some(be) = spec_parse_bytes_rest(s@, e + 1) {
                    assert(prev + (seq![(v as u8)] + be.0) =~= out@ + be.0);
                }
            }
            i = e + 1;
        } else if e < n && s[e] == 93 {
            out.push(v as u8);
            proof {
                assert(out@ =~= out@ + Seq::<u8>::empty());
            }
            return Some((out, e + 1));
        } else {
            return None;
        }
    }
}

} // verus!
