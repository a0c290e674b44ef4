//! The canonical text form of the record set, and its parser. Each field is
//! written as a 16-digit lowercase-hex byte length followed by the field's
//! UTF-8 bytes; an entry is its three fields in order; the record set is its
//! entries in order. The format is deterministic and round-trips losslessly,
//! which is proved in [`lemma_store_round_trip`].

use crate::models::EntryView;
use crate::text::{bytes_to_string, lemma_ascii_bytes_decode};
use vstd::prelude::*;
use vstd::slice::{slice_index_get, slice_subrange, slice_to_vec};
use vstd::utf8::{decode_utf8, encode_utf8, valid_utf8};

verus! {

/// Number of hex digits in a field's length prefix.
pub const LEN_DIGITS: usize = 16;

/// The lowercase-hex digit for a value below 16.
pub open spec fn hex_digit(n: int) -> u8 {
    if n < 10 {
        (0x30 + n) as u8
    } else {
        (0x57 + n) as u8
    }
}

/// The value of a hex digit byte, or -1 if the byte is no lowercase-hex digit.
pub open spec fn hex_val(b: u8) -> int {
    if 0x30 <= b <= 0x39 {
        b - 0x30
    } else if 0x61 <= b <= 0x66 {
        b - 0x57
    } else {
        -1
    }
}

/// Every byte of the sequence is a lowercase-hex digit.
pub open spec fn all_hex(s: Seq<u8>) -> bool {
    forall|i: int| 0 <= i < s.len() ==> hex_val(#[trigger] s[i]) >= 0
}

/// The number the big-endian hex digit sequence denotes.
pub open spec fn hex_num(s: Seq<u8>) -> int
    decreases s.len(),
{
    if s.len() == 0 {
        0
    } else {
        16 * hex_num(s.drop_last()) + hex_val(s.last())
    }
}

/// Powers of 16.
pub open spec fn pow16(w: nat) -> nat
    decreases w,
{
    if w == 0 {
        1nat
    } else {
        16 * pow16((w - 1) as nat)
    }
}

/// The number `n` written as exactly `w` big-endian hex digits.
pub open spec fn hex_rec(n: nat, w: nat) -> Seq<u8>
    decreases w,
{
    if w == 0 {
        Seq::empty()
    } else {
        hex_rec(n / 16, (w - 1) as nat).push(hex_digit((n % 16) as int))
    }
}

/// Sixteen hex digits write every number below 16^16, which is 2^64.
proof fn lemma_pow16_16()
    ensures
        pow16(LEN_DIGITS as nat) == 0x1_0000_0000_0000_0000,
{
    assert(pow16(0) == 1);
    assert(pow16(1) == 16);
    assert(pow16(2) == 0x100);
    assert(pow16(3) == 0x1000);
    assert(pow16(4) == 0x1_0000);
    assert(pow16(5) == 0x10_0000);
    assert(pow16(6) == 0x100_0000);
    assert(pow16(7) == 0x1000_0000);
    assert(pow16(8) == 0x1_0000_0000);
    assert(pow16(9) == 0x10_0000_0000);
    assert(pow16(10) == 0x100_0000_0000);
    assert(pow16(11) == 0x1000_0000_0000);
    assert(pow16(12) == 0x1_0000_0000_0000);
    assert(pow16(13) == 0x10_0000_0000_0000);
    assert(pow16(14) == 0x100_0000_0000_0000);
    assert(pow16(15) == 0x1000_0000_0000_0000);
    assert(pow16(16) == 0x1_0000_0000_0000_0000);
}

/// Powers of 16 do not decrease.
proof fn lemma_pow16_mono(a: nat, b: nat)
    requires
        a <= b,
    ensures
        pow16(a) <= pow16(b),
    decreases b,
{
    if a < b {
        lemma_pow16_mono(a, (b - 1) as nat);
        assert(pow16(b) == 16 * pow16((b - 1) as nat));
    }
}

/// Writing a number below 16^w as w hex digits and reading it back yields
/// the number; all written bytes are hex digits, hence ASCII.
proof fn lemma_hex_round_trip(n: nat, w: nat)
    requires
        n < pow16(w),
    ensures
        hex_rec(n, w).len() == w,
        all_hex(hex_rec(n, w)),
        hex_num(hex_rec(n, w)) == n,
        forall|i: int| 0 <= i < w ==> #[trigger] hex_rec(n, w)[i] < 0x80,
    decreases w,
{
    if w == 0 {
        assert(n == 0);
    } else {
        let q = n / 16;
        let m = (n % 16) as int;
        vstd::arithmetic::div_mod::lemma_fundamental_div_mod(n as int, 16);
        assert(n == 16 * q + m);
        assert(pow16(w) == 16 * pow16((w - 1) as nat));
        assert(q < pow16((w - 1) as nat));
        lemma_hex_round_trip(q, (w - 1) as nat);
        let tail = hex_rec(q, (w - 1) as nat);
        let s = hex_rec(n, w);
        assert(s == tail.push(hex_digit(m)));
        assert(s.drop_last() =~= tail);
        assert(s.last() == hex_digit(m));
        assert(0 <= m < 16);
        assert(hex_val(hex_digit(m)) == m);
        assert(hex_num(s) == 16 * hex_num(tail) + hex_val(hex_digit(m)));
        assert(all_hex(s)) by {
            assert(forall|i: int| 0 <= i < w - 1 ==> s[i] == tail[i]);
        }
        assert(forall|i: int| 0 <= i < w ==> #[trigger] s[i] < 0x80) by {
            assert(forall|i: int| 0 <= i < w - 1 ==> s[i] == tail[i]);
            assert(hex_digit(m) < 0x80);
        }
    }
}

/// A field on the wire: the byte length of its UTF-8 form as 16 hex digits,
/// then those bytes.
pub open spec fn encode_field(f: Seq<char>) -> Seq<u8> {
    hex_rec(encode_utf8(f).len(), LEN_DIGITS as nat) + encode_utf8(f)
}

/// An entry on the wire: service, username and password fields in order.
pub open spec fn encode_entry(e: EntryView) -> Seq<u8> {
    encode_field(e.service) + encode_field(e.username) + encode_field(e.password)
}

/// The record set on the wire: its entries in order.
pub open spec fn encode_store(es: Seq<EntryView>) -> Seq<u8>
    decreases es.len(),
{
    if es.len() == 0 {
        Seq::empty()
    } else {
        encode_entry(es[0]) + encode_store(es.drop_first())
    }
}

/// An entry whose field lengths a 16-digit prefix can carry. Every entry
/// held in memory satisfies this: lengths are machine words.
pub open spec fn entry_fits(e: EntryView) -> bool {
    &&& encode_utf8(e.service).len() < pow16(LEN_DIGITS as nat)
    &&& encode_utf8(e.username).len() < pow16(LEN_DIGITS as nat)
    &&& encode_utf8(e.password).len() < pow16(LEN_DIGITS as nat)
}

/// Reading one field off the front of the bytes: the decoded field and how
/// many bytes it occupied, or nothing if the bytes do not start with a
/// well-formed field.
pub open spec fn parse_field(b: Seq<u8>) -> Option<(Seq<char>, nat)> {
    if b.len() < LEN_DIGITS {
        None
    } else {
        let pre = b.take(LEN_DIGITS as int);
        if !all_hex(pre) {
            None
        } else {
            let n = hex_num(pre);
            if b.len() - LEN_DIGITS < n {
                None
            } else {
                let fb = b.subrange(LEN_DIGITS as int, LEN_DIGITS + n);
                if valid_utf8(fb) {
                    Some((decode_utf8(fb), (LEN_DIGITS + n) as nat))
                } else {
                    None
                }
            }
        }
    }
}

/// Reading one entry off the front of the bytes: three fields in order.
pub open spec fn parse_entry(b: Seq<u8>) -> Option<(EntryView, nat)> {
    match parse_field(b) {
        None => None,
        Some((s1, c1)) => match parse_field(b.skip(c1 as int)) {
            None => None,
            Some((s2, c2)) => match parse_field(b.skip(c1 + c2 as int)) {
                None => None,
                Some((s3, c3)) => Some(
                    (
                        EntryView { service: s1, username: s2, password: s3 },
                        (c1 + c2 + c3) as nat,
                    ),
                ),
            },
        },
    }
}

/// Reading the whole record set: entries until the bytes are exhausted, or
/// nothing if any entry is malformed.
pub open spec fn parse_store(b: Seq<u8>) -> Option<Seq<EntryView>>
    decreases b.len(),
{
    if b.len() == 0 {
        Some(Seq::empty())
    } else {
        match parse_entry(b) {
            None => None,
            Some((e, used)) => if 0 < used <= b.len() {
                match parse_store(b.skip(used as int)) {
                    None => None,
                    Some(rest) => Some(seq![e] + rest),
                }
            } else {
                None
            },
        }
    }
}

/// An encoded field in front of anything parses back to the field.
proof fn lemma_parse_field_prefix(f: Seq<char>, rest: Seq<u8>)
    requires
        encode_utf8(f).len() < pow16(LEN_DIGITS as nat),
    ensures
        parse_field(encode_field(f) + rest) == Some(
            (f, (LEN_DIGITS + encode_utf8(f).len()) as nat),
        ),
        encode_field(f).len() == LEN_DIGITS + encode_utf8(f).len(),
{
    let fb = encode_utf8(f);
    let n = fb.len();
    lemma_hex_round_trip(n, LEN_DIGITS as nat);
    let b = encode_field(f) + rest;
    assert(b.take(LEN_DIGITS as int) =~= hex_rec(n, LEN_DIGITS as nat));
    assert(b.subrange(LEN_DIGITS as int, LEN_DIGITS + n) =~= fb);
    vstd::utf8::encode_utf8_valid_utf8(f);
    vstd::utf8::encode_utf8_decode_utf8(f);
}

/// An encoded field is valid UTF-8: an ASCII length prefix, then the UTF-8
/// encoding of the field.
proof fn lemma_encode_field_valid(f: Seq<char>)
    requires
        encode_utf8(f).len() < pow16(LEN_DIGITS as nat),
    ensures
        valid_utf8(encode_field(f)),
{
    let n = encode_utf8(f).len();
    lemma_hex_round_trip(n, LEN_DIGITS as nat);
    lemma_ascii_bytes_decode(hex_rec(n, LEN_DIGITS as nat));
    vstd::utf8::encode_utf8_valid_utf8(f);
    vstd::utf8::valid_utf8_concat(hex_rec(n, LEN_DIGITS as nat), encode_utf8(f));
}

/// An encoded entry in front of anything parses back to the entry, and is
/// valid UTF-8.
proof fn lemma_parse_entry_prefix(e: EntryView, rest: Seq<u8>)
    requires
        entry_fits(e),
    ensures
        parse_entry(encode_entry(e) + rest) == Some((e, encode_entry(e).len() as nat)),
        encode_entry(e).len() >= 3 * LEN_DIGITS,
        valid_utf8(encode_entry(e)),
{
    let b = encode_entry(e) + rest;
    let e1 = encode_field(e.service);
    let e2 = encode_field(e.username);
    let e3 = encode_field(e.password);
    let c1 = LEN_DIGITS + encode_utf8(e.service).len();
    let c2 = LEN_DIGITS + encode_utf8(e.username).len();
    let c3 = LEN_DIGITS + encode_utf8(e.password).len();
    assert(b =~= e1 + (e2 + (e3 + rest)));
    lemma_parse_field_prefix(e.service, e2 + (e3 + rest));
    assert(b.skip(c1 as int) =~= e2 + (e3 + rest));
    lemma_parse_field_prefix(e.username, e3 + rest);
    assert(b.skip(c1 + c2) =~= e3 + rest);
    lemma_parse_field_prefix(e.password, rest);
    assert(parse_entry(b) == Some((e, (c1 + c2 + c3) as nat)));
    assert(encode_entry(e).len() == c1 + c2 + c3);
    lemma_encode_field_valid(e.service);
    lemma_encode_field_valid(e.username);
    lemma_encode_field_valid(e.password);
    vstd::utf8::valid_utf8_concat(e2, e3);
    vstd::utf8::valid_utf8_concat(e1, e2 + e3);
    assert(encode_entry(e) =~= e1 + (e2 + e3));
}

/// Appending one entry to the record set appends its encoding on the wire.
pub proof fn lemma_encode_store_push(es: Seq<EntryView>, e: EntryView)
    ensures
        encode_store(es.push(e)) == encode_store(es) + encode_entry(e),
    decreases es.len(),
{
    let p = es.push(e);
    if es.len() == 0 {
        assert(p.drop_first() =~= Seq::<EntryView>::empty());
        assert(encode_store(p) == encode_entry(e) + encode_store(Seq::<EntryView>::empty()));
        assert(encode_store(p) =~= encode_store(es) + encode_entry(e));
    } else {
        assert(p[0] == es[0]);
        assert(p.drop_first() =~= es.drop_first().push(e));
        lemma_encode_store_push(es.drop_first(), e);
        assert(encode_store(p) == encode_entry(es[0]) + (encode_store(es.drop_first())
            + encode_entry(e)));
        assert(encode_store(p) =~= encode_store(es) + encode_entry(e));
    }
}

/// The codec round-trips losslessly: the canonical form of any record set is
/// valid UTF-8 text, and parsing it back yields exactly the record set.
pub proof fn lemma_store_round_trip(es: Seq<EntryView>)
    requires
        forall|i: int| 0 <= i < es.len() ==> entry_fits(#[trigger] es[i]),
    ensures
        valid_utf8(encode_store(es)),
        parse_store(encode_store(es)) == Some(es),
    decreases es.len(),
{
    let b = encode_store(es);
    if es.len() == 0 {
        assert(b.len() == 0);
        assert(valid_utf8(b));
        assert(es =~= Seq::<EntryView>::empty());
    } else {
        let tail = es.drop_first();
        assert(forall|i: int| 0 <= i < tail.len() ==> entry_fits(#[trigger] tail[i])) by {
            assert(forall|i: int| 0 <= i < tail.len() ==> tail[i] == es[i + 1]);
        }
        lemma_store_round_trip(tail);
        assert(entry_fits(es[0]));
        lemma_parse_entry_prefix(es[0], encode_store(tail));
        let used = encode_entry(es[0]).len();
        assert(b == encode_entry(es[0]) + encode_store(tail));
        assert(parse_entry(b) == Some((es[0], used as nat)));
        assert(0 < used <= b.len());
        assert(b.skip(used as int) =~= encode_store(tail));
        assert(parse_store(b.skip(used as int)) == Some(tail));
        assert(seq![es[0]] + tail =~= es);
        vstd::utf8::valid_utf8_concat(encode_entry(es[0]), encode_store(tail));
    }
}

/// The lowercase-hex digit byte for a value below 16.
fn hex_digit_byte(d: u8) -> (r: u8)
    requires
        d < 16,
    ensures
        r == hex_digit(d as int),
{
    if d < 10 {
        0x30 + d
    } else {
        0x57 + d
    }
}

/// The value of a hex digit byte, if it is one.
fn hex_val_byte(b: u8) -> (r: Option<u8>)
    ensures
        match r {
            Some(d) => hex_val(b) == d && d < 16,
            None => hex_val(b) < 0,
        },
{
    if 0x30 <= b && b <= 0x39 {
        Some(b - 0x30)
    } else if 0x61 <= b && b <= 0x66 {
        Some(b - 0x57)
    } else {
        None
    }
}

/// Appends the `w`-digit big-endian hex form of `n` to `out`.
fn push_hex_width(out: &mut Vec<u8>, n: u64, w: usize)
    ensures
        final(out)@ == old(out)@ + hex_rec(n as nat, w as nat),
    decreases w,
{
    if w == 0 {
        proof {
            assert(final(out)@ =~= old(out)@ + hex_rec(n as nat, 0));
        }
        return ;
    }
    push_hex_width(out, n / 16, w - 1);
    let d: u8 = (n % 16) as u8;
    out.push(hex_digit_byte(d));
    proof {
        assert(n as nat / 16 == (n / 16) as nat);
        assert((n as nat % 16) as int == d as int);
        assert(hex_rec(n as nat, w as nat) == hex_rec((n / 16) as nat, (w - 1) as nat).push(
            hex_digit(d as int),
        ));
        assert(final(out)@ =~= old(out)@ + hex_rec(n as nat, w as nat));
    }
}

/// Appends the bytes of a slice to `out`.
fn push_bytes(out: &mut Vec<u8>, b: &[u8])
    ensures
        final(out)@ == old(out)@ + b@,
{
    let mut k: usize = 0;
    while k < b.len()
        invariant
            0 <= k <= b@.len(),
            out@ == old(out)@ + b@.take(k as int),
        decreases b@.len() - k,
    {
        out.push(*slice_index_get(b, k));
        k += 1;
        proof {
            assert(old(out)@ + b@.take(k as int) =~= (old(out)@ + b@.take(k - 1)).push(
                b@[k - 1],
            ));
        }
    }
    proof {
        assert(old(out)@ + b@.take(b@.len() as int) =~= old(out)@ + b@);
    }
}

/// Appends the wire form of one field to `out`.
pub fn encode_field_bytes(out: &mut Vec<u8>, f: &str)
    ensures
        final(out)@ == old(out)@ + encode_field(f@),
        encode_utf8(f@).len() < pow16(LEN_DIGITS as nat),
{
    let b = f.as_bytes();
    let n = b.len();
    proof {
        lemma_pow16_16();
    }
    push_hex_width(out, n as u64, LEN_DIGITS);
    push_bytes(out, b);
    proof {
        assert(final(out)@ =~= old(out)@ + encode_field(f@));
    }
}

/// Reads a 16-digit hex length starting at `i`.
fn parse_hex16(b: &[u8], i: usize) -> (r: Option<u64>)
    requires
        i + LEN_DIGITS <= b@.len(),
    ensures
        match r {
            Some(n) => all_hex(b@.subrange(i as int, i + LEN_DIGITS)) && n as int == hex_num(
                b@.subrange(i as int, i + LEN_DIGITS),
            ),
            None => !all_hex(b@.subrange(i as int, i + LEN_DIGITS)),
        },
{
    let blen = b.len();
    let mut acc: u64 = 0;
    let mut j: usize = 0;
    proof {
        lemma_pow16_16();
    }
    while j < LEN_DIGITS
        invariant
            0 <= j <= LEN_DIGITS,
            i + LEN_DIGITS <= blen == b@.len(),
            all_hex(b@.subrange(i as int, i + j)),
            acc as int == hex_num(b@.subrange(i as int, i + j)),
            (acc as nat) < pow16(j as nat),
            pow16(LEN_DIGITS as nat) == 0x1_0000_0000_0000_0000,
        decreases LEN_DIGITS - j,
    {
        let byte = *slice_index_get(b, i + j);
        match hex_val_byte(byte) {
            Some(d) => {
                proof {
                    lemma_pow16_mono((j + 1) as nat, LEN_DIGITS as nat);
                    assert(pow16((j + 1) as nat) == 16 * pow16(j as nat));
                    let sub = b@.subrange(i as int, i + j);
                    let sub2 = b@.subrange(i as int, i + j + 1);
                    assert(sub2 =~= sub.push(b@[i + j]));
                    assert(sub2.drop_last() =~= sub);
                    assert(hex_num(sub2) == 16 * hex_num(sub) + hex_val(b@[i + j]));
                    assert(forall|k: int|
                        0 <= k < sub2.len() ==> hex_val(#[trigger] sub2[k]) >= 0) by {
                        assert(forall|k: int| 0 <= k < sub.len() ==> sub2[k] == sub[k]);
                        assert(sub2[j as int] == b@[i + j]);
                    }
                }
                acc = acc * 16 + (d as u64);
                j += 1;
            },
            None => {
                proof {
                    let full = b@.subrange(i as int, i + LEN_DIGITS);
                    assert(full[j as int] == b@[i + j]);
                    assert(hex_val(full[j as int]) < 0);
                }
                return None;
            },
        }
    }
    proof {
        assert(b@.subrange(i as int, i + LEN_DIGITS) =~= b@.subrange(i as int, i + LEN_DIGITS));
    }
    Some(acc)
}

/// Reads one field starting at `i`: the field text and the position just
/// after it, or nothing if no well-formed field starts there.
fn parse_field_at(b: &[u8], i: usize) -> (r: Option<(String, usize)>)
    requires
        i <= b@.len(),
    ensures
        match r {
            Some((s, j)) => i + LEN_DIGITS <= j <= b@.len() && parse_field(b@.skip(i as int))
                == Some((s@, (j - i) as nat)),
            None => parse_field(b@.skip(i as int)) is None,
        },
{
    let ghost tail = b@.skip(i as int);
    if b.len() - i < LEN_DIGITS {
        return None;
    }
    proof {
        assert(tail.take(LEN_DIGITS as int) =~= b@.subrange(i as int, i + LEN_DIGITS));
    }
    let n = match parse_hex16(b, i) {
        Some(n) => n,
        None => {
            return None;
        },
    };
    let remaining = b.len() - i - LEN_DIGITS;
    if n > remaining as u64 {
        proof {
            assert(tail.len() - LEN_DIGITS < hex_num(tail.take(LEN_DIGITS as int)));
        }
        return None;
    }
    let start = i + LEN_DIGITS;
    let end = start + (n as usize);
    let fb = slice_subrange(b, start, end);
    proof {
        assert(tail.subrange(LEN_DIGITS as int, LEN_DIGITS + hex_num(tail.take(LEN_DIGITS as int)))
            =~= b@.subrange(start as int, end as int));
    }
    match bytes_to_string(slice_to_vec(fb)) {
        Some(s) => Some((s, end)),
        None => None,
    }
}

/// Reads one entry starting at `i`: the entry and the position just after
/// it, or nothing if no well-formed entry starts there.
fn parse_entry_at(b: &[u8], i: usize) -> (r: Option<(crate::models::PasswordEntry, usize)>)
    requires
        i <= b@.len(),
    ensures
        match r {
            Some((e, j)) => i < j <= b@.len() && parse_entry(b@.skip(i as int)) == Some(
                (e@, (j - i) as nat),
            ),
            None => parse_entry(b@.skip(i as int)) is None,
        },
{
    let ghost tail = b@.skip(i as int);
    let (service, j1) = match parse_field_at(b, i) {
        Some(x) => x,
        None => {
            return None;
        },
    };
    proof {
        assert(tail.skip((j1 - i) as int) =~= b@.skip(j1 as int));
    }
    let (username, j2) = match parse_field_at(b, j1) {
        Some(x) => x,
        None => {
            return None;
        },
    };
    proof {
        assert(tail.skip((j1 - i) + (j2 - j1) as int) =~= b@.skip(j2 as int));
    }
    let (password, j3) = match parse_field_at(b, j2) {
        Some(x) => x,
        None => {
            return None;
        },
    };
    let e = crate::models::PasswordEntry { service, username, password };
    Some((e, j3))
}

/// Reads all entries from position `i` to the end of the bytes.
pub fn parse_entries_at(b: &[u8], i: usize) -> (r: Option<Vec<crate::models::PasswordEntry>>)
    requires
        i <= b@.len(),
    ensures
        match r {
            Some(v) => parse_store(b@.skip(i as int)) == Some(crate::models::entries_view(v@)),
            None => parse_store(b@.skip(i as int)) is None,
        },
    decreases b@.len() - i,
{
    let ghost tail = b@.skip(i as int);
    if i == b.len() {
        let v: Vec<crate::models::PasswordEntry> = Vec::new();
        proof {
            assert(tail =~= Seq::<u8>::empty());
            assert(crate::models::entries_view(v@) =~= Seq::<EntryView>::empty());
        }
        return Some(v);
    }
    match parse_entry_at(b, i) {
        None => None,
        Some((e, j)) => {
            proof {
                assert(tail.skip((j - i) as int) =~= b@.skip(j as int));
            }
            match parse_entries_at(b, j) {
                None => None,
                Some(mut rest) => {
                    rest.insert(0, e);
                    proof {
                        assert(crate::models::entries_view(rest@) =~= seq![e@]
                            + crate::models::entries_view(rest@.skip(1)));
                    }
                    Some(rest)
                },
            }
        },
    }
}

} // verus!
