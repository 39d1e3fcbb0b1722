use vstd::prelude::*;

use crate::error::{ZLError, ZLResult};

verus! {

/// Bytes taken by the list header: total length, tail offset, entry count.
pub const ZIPLIST_HEADER_SIZE: usize = 10;
/// Value of the count field once the count no longer fits in it.
pub const ZIPLIST_COUNT_SATURATED: u16 = 0xffff;

/// Tag of an integer stored in one byte.
pub const ZIPLIST_I8_ENC: u8 = 0xfe;
/// Tag of an integer stored in two bytes.
pub const ZIPLIST_I16_ENC: u8 = 0xc0;
/// Tag of an integer stored in three bytes.
pub const ZIPLIST_I24_ENC: u8 = 0xf0;
/// Tag of an integer stored in four bytes.
pub const ZIPLIST_I32_ENC: u8 = 0xd0;
/// Tag of an integer stored in eight bytes.
pub const ZIPLIST_I64_ENC: u8 = 0xe0;
/// Tag of the immediate integer 0; the immediates 0 to 12 take the tags up to 0xfd.
pub const ZIPLIST_IMM_BASE: u8 = 0xf1;
/// Tag of a string whose length takes the four bytes that follow.
pub const ZIPLIST_STR32_ENC: u8 = 0x80;
/// Marker of a previous-entry length stored in the four bytes that follow.
pub const ZIPLIST_PREVLEN_LONG: u8 = 0xfe;

/// 256 to the power `w`.
pub open spec fn pow256(w: nat) -> nat
    decreases w,
{
    if w == 0 {
        1
    } else {
        256 * pow256((w - 1) as nat)
    }
}

/// The `w` low bytes of `x`, most significant first.
pub open spec fn be_bytes(x: nat, w: nat) -> Seq<u8>
    decreases w,
{
    if w == 0 {
        Seq::empty()
    } else {
        be_bytes(x / 256, (w - 1) as nat).push((x % 256) as u8)
    }
}

/// The number that `s` spells in base 256, most significant byte first.
pub open spec fn be_value(s: Seq<u8>) -> nat
    decreases s.len(),
{
    if s.len() == 0 {
        0
    } else {
        (be_value(s.drop_last()) * 256 + s.last()) as nat
    }
}

pub proof fn lemma_pow256_values()
    ensures
        pow256(1) == 256,
        pow256(2) == 65536,
        pow256(3) == 16777216,
        pow256(4) == 4294967296,
        pow256(8) == 18446744073709551616,
{
    reveal_with_fuel(pow256, 9);
}

proof fn lemma_pow256_pos(w: nat)
    ensures
        pow256(w) >= 1,
    decreases w,
{
    if w > 0 {
        lemma_pow256_pos((w - 1) as nat);
    }
}

pub proof fn lemma_be_bytes_len(x: nat, w: nat)
    ensures
        be_bytes(x, w).len() == w,
    decreases w,
{
    if w > 0 {
        lemma_be_bytes_len(x / 256, (w - 1) as nat);
    }
}

/// Reading back the bytes of a number that fits gives the number.
pub proof fn lemma_be_round_trip(x: nat, w: nat)
    requires
        x < pow256(w),
    ensures
        be_value(be_bytes(x, w)) == x,
    decreases w,
{
    if w > 0 {
        let p = pow256((w - 1) as nat);
        assert(x / 256 < p) by (nonlinear_arith)
            requires
                x < 256 * p,
        ;
        lemma_be_round_trip(x / 256, (w - 1) as nat);
        let s = be_bytes(x, w);
        assert(s.drop_last() =~= be_bytes(x / 256, (w - 1) as nat));
    }
}

pub proof fn lemma_be_value_bound(s: Seq<u8>)
    ensures
        be_value(s) < pow256(s.len()),
    decreases s.len(),
{
    if s.len() > 0 {
        lemma_be_value_bound(s.drop_last());
        let v = be_value(s.drop_last());
        let p = pow256((s.len() - 1) as nat);
        let b = s.last();
        assert(v * 256 + b < 256 * p) by (nonlinear_arith)
            requires
                v < p,
                b < 256,
        ;
    }
}

/// A value held in a ziplist entry.
pub ghost enum ZipItem {
    Bytes(Seq<u8>),
    Int(i64),
}

/// The type-and-length part of an entry: a string with its length, or an integer.
#[derive(Clone, Copy)]
pub enum Encoding {
    String(usize),
    Integer(i64),
}

/// Bytes of content after the integer tag: 0 for the immediates 0 to 12, else the
/// least of 1, 2, 3, 4, 8 that holds the value in two's complement.
pub open spec fn int_width(i: i64) -> nat {
    if 0 <= i <= 12 {
        0
    } else if -128 <= i <= 127 {
        1
    } else if -32768 <= i <= 32767 {
        2
    } else if -8388608 <= i <= 8388607 {
        3
    } else if -2147483648 <= i <= 2147483647 {
        4
    } else {
        8
    }
}

/// Tag byte of an integer.
pub open spec fn int_tag(i: i64) -> u8 {
    let w = int_width(i);
    if w == 0 {
        (ZIPLIST_IMM_BASE + i) as u8
    } else if w == 1 {
        ZIPLIST_I8_ENC
    } else if w == 2 {
        ZIPLIST_I16_ENC
    } else if w == 3 {
        ZIPLIST_I24_ENC
    } else if w == 4 {
        ZIPLIST_I32_ENC
    } else {
        ZIPLIST_I64_ENC
    }
}

/// Two's complement of `i` on `w` bytes, as a number.
pub open spec fn twos(i: int, w: nat) -> nat {
    if i < 0 {
        (i + pow256(w)) as nat
    } else {
        i as nat
    }
}

/// The signed number whose two's complement on `w` bytes is `u`.
pub open spec fn signed_of(u: nat, w: nat) -> int {
    if 2 * u >= pow256(w) {
        u - pow256(w)
    } else {
        u as int
    }
}

/// Header of a string of `n` bytes: one byte below 64, two below 16384, else five.
pub open spec fn str_header(n: nat) -> Seq<u8> {
    if n < 64 {
        seq![n as u8]
    } else if n < 16384 {
        seq![(64 + n / 256) as u8, (n % 256) as u8]
    } else {
        seq![ZIPLIST_STR32_ENC] + be_bytes(n, 4)
    }
}

/// Bytes of an encoding.
pub open spec fn enc_header(e: Encoding) -> Seq<u8> {
    match e {
        Encoding::String(n) => str_header(n as nat),
        Encoding::Integer(i) => seq![int_tag(i)] + be_bytes(twos(i as int, int_width(i)), int_width(i)),
    }
}

/// Content bytes that follow an encoding.
pub open spec fn enc_content_len(e: Encoding) -> nat {
    match e {
        Encoding::String(n) => n as nat,
        Encoding::Integer(_) => 0,
    }
}

/// An encoding that can be written: a string length fits in four bytes.
pub open spec fn enc_valid(e: Encoding) -> bool {
    match e {
        Encoding::String(n) => n < 4294967296,
        Encoding::Integer(_) => true,
    }
}

/// The encoding that stores an item.
pub open spec fn enc_of(v: ZipItem) -> Encoding {
    match v {
        ZipItem::Bytes(s) => Encoding::String(s.len() as usize),
        ZipItem::Int(i) => Encoding::Integer(i),
    }
}

/// An item that can be stored: a string shorter than 2^32 bytes.
pub open spec fn item_valid(v: ZipItem) -> bool {
    match v {
        ZipItem::Bytes(s) => s.len() < 4294967296,
        ZipItem::Int(_) => true,
    }
}

/// Encoding and content of an item.
pub open spec fn item_bytes(v: ZipItem) -> Seq<u8> {
    match v {
        ZipItem::Bytes(s) => str_header(s.len()) + s,
        ZipItem::Int(i) => enc_header(Encoding::Integer(i)),
    }
}

/// The field that records the size `p` of the previous entry.
pub open spec fn prev_field(p: nat) -> Seq<u8> {
    if p < 254 {
        seq![p as u8]
    } else {
        seq![ZIPLIST_PREVLEN_LONG] + be_bytes(p, 4)
    }
}

/// A whole entry: previous-entry size, encoding, content.
pub open spec fn entry_bytes(p: nat, v: ZipItem) -> Seq<u8> {
    prev_field(p) + item_bytes(v)
}

/// The entries that store `vs` one after another, the first recording `p` as the
/// size of its predecessor.
pub open spec fn body(p: nat, vs: Seq<ZipItem>) -> Seq<u8>
    decreases vs.len(),
{
    if vs.len() == 0 {
        Seq::empty()
    } else {
        entry_bytes(p, vs[0]) + body(entry_bytes(p, vs[0]).len(), vs.drop_first())
    }
}

/// The previous-entry size that an entry written after `body(p, vs)` records.
pub open spec fn next_prev(p: nat, vs: Seq<ZipItem>) -> nat
    decreases vs.len(),
{
    if vs.len() == 0 {
        p
    } else {
        next_prev(entry_bytes(p, vs[0]).len(), vs.drop_first())
    }
}

/// Width of the content of an integer tag other than the immediates.
pub open spec fn int_tag_width(b: u8) -> Option<nat> {
    if b == ZIPLIST_I8_ENC {
        Some(1nat)
    } else if b == ZIPLIST_I16_ENC {
        Some(2nat)
    } else if b == ZIPLIST_I24_ENC {
        Some(3nat)
    } else if b == ZIPLIST_I32_ENC {
        Some(4nat)
    } else if b == ZIPLIST_I64_ENC {
        Some(8nat)
    } else {
        None
    }
}

/// Reads the encoding at the start of `s`: the encoding and its width in bytes.
pub open spec fn decode_header(s: Seq<u8>) -> Result<(Encoding, nat), ZLError> {
    if s.len() == 0 {
        Err(ZLError::Zlend)
    } else {
        let b = s[0];
        if b >= 0xc0 {
            match int_tag_width(b) {
                Some(w) => if s.len() < 1 + w {
                    Err(ZLError::Zlend)
                } else {
                    Ok((Encoding::Integer(signed_of(be_value(s.subrange(1, 1 + w as int)), w) as i64), (1 + w) as nat))
                },
                None => if ZIPLIST_IMM_BASE <= b <= 0xfd {
                    Ok((Encoding::Integer((b - ZIPLIST_IMM_BASE) as i64), 1nat))
                } else {
                    Err(ZLError::InvalidEntryEncoding)
                },
            }
        } else if b < 64 {
            Ok((Encoding::String(b as usize), 1nat))
        } else if b < 128 {
            if s.len() < 2 {
                Err(ZLError::Zlend)
            } else {
                Ok((Encoding::String(((b - 64) * 256 + s[1]) as usize), 2nat))
            }
        } else if b == ZIPLIST_STR32_ENC {
            if s.len() < 5 {
                Err(ZLError::Zlend)
            } else {
                Ok((Encoding::String(be_value(s.subrange(1, 5)) as usize), 5nat))
            }
        } else {
            Err(ZLError::InvalidEntryEncoding)
        }
    }
}

/// Appends the `w` low bytes of `x`, most significant first.
fn write_be(out: &mut Vec<u8>, x: u64, w: usize)
    ensures
        final(out)@ == old(out)@ + be_bytes(x as nat, w as nat),
    decreases w,
{
    if w == 0 {
        assert(old(out)@ + be_bytes(x as nat, 0) =~= old(out)@);
        return;
    }
    write_be(out, x / 256, w - 1);
    out.push((x % 256) as u8);
    assert(final(out)@ =~= old(out)@ + be_bytes(x as nat, w as nat));
}

/// Reads `w` bytes at `off` as a big-endian number.
fn read_be(buf: &Vec<u8>, off: usize, w: usize) -> (r: u64)
    requires
        off + w <= buf@.len(),
        w <= 8,
    ensures
        r == be_value(buf@.subrange(off as int, off + w)),
{
    let n = buf.len();
    let mut v: u64 = 0;
    let mut k: usize = 0;
    proof {
        lemma_pow256_values();
        assert(buf@.subrange(off as int, off as int) =~= Seq::<u8>::empty());
    }
    while k < w
        invariant
            off + w <= buf@.len(),
            w <= 8,
            k <= w,
            n == buf@.len(),
            v == be_value(buf@.subrange(off as int, off + k)),
        decreases w - k,
    {
        let ghost prev = buf@.subrange(off as int, off + k);
        proof {
            lemma_be_value_bound(prev);
            lemma_pow256_mono(k as nat, 7);
            lemma_pow256_values();
        }
        let b = buf[off + k];
        assert(v * 256 + b < 18446744073709551616) by (nonlinear_arith)
            requires
                v < pow256(k as nat),
                pow256(k as nat) <= 72057594037927936,
                b < 256,
        ;
        v = v * 256 + b as u64;
        k = k + 1;
        assert(buf@.subrange(off as int, off + k).drop_last() =~= prev);
    }
    v
}

proof fn lemma_pow256_mono(a: nat, b: nat)
    requires
        a <= b,
    ensures
        pow256(a) <= pow256(b),
    decreases b,
{
    if a < b {
        lemma_pow256_mono(a, (b - 1) as nat);
        lemma_pow256_pos((b - 1) as nat);
    }
}


/// An integer's two's complement on its chosen width fits that width and reads back as the integer.
pub proof fn lemma_int_round_trip(i: i64)
    ensures
        int_width(i) > 0 ==> twos(i as int, int_width(i)) < pow256(int_width(i)),
        int_width(i) > 0 ==> signed_of(twos(i as int, int_width(i)), int_width(i)) == i,
{
    lemma_pow256_values();
}

/// The length of an encoding's bytes.
pub open spec fn enc_header_len(e: Encoding) -> nat {
    match e {
        Encoding::String(n) => if n < 64 {
            1nat
        } else if n < 16384 {
            2nat
        } else {
            5nat
        },
        Encoding::Integer(i) => 1 + int_width(i),
    }
}

pub proof fn lemma_enc_header_len(e: Encoding)
    ensures
        enc_header(e).len() == enc_header_len(e),
{
    match e {
        Encoding::String(n) => {
            lemma_be_bytes_len(n as nat, 4);
        },
        Encoding::Integer(i) => {
            lemma_be_bytes_len(twos(i as int, int_width(i)), int_width(i));
        },
    }
}

/// Reading the bytes of a valid encoding gives the encoding back, whatever follows it.
#[verifier::rlimit(100)]
pub proof fn lemma_header_round_trip(e: Encoding, rest: Seq<u8>)
    requires
        enc_valid(e),
    ensures
        decode_header(enc_header(e) + rest) == Ok::<(Encoding, nat), ZLError>((e, enc_header_len(e))),
{
    lemma_enc_header_len(e);
    lemma_pow256_values();
    let s = enc_header(e) + rest;
    match e {
        Encoding::String(n) => {
            if n < 64 {
            } else if n < 16384 {
                assert((((64 + n / 256) as u8) - 64) * 256 + ((n % 256) as u8) == n);
            } else {
                lemma_be_bytes_len(n as nat, 4);
                assert(s.subrange(1, 5) =~= be_bytes(n as nat, 4));
                lemma_be_round_trip(n as nat, 4);
            }
        },
        Encoding::Integer(i) => {
            let w = int_width(i);
            lemma_int_round_trip(i);
            if w > 0 {
                lemma_be_bytes_len(twos(i as int, w), w);
                assert(s.subrange(1, 1 + w as int) =~= be_bytes(twos(i as int, w), w));
                lemma_be_round_trip(twos(i as int, w), w);
            }
        },
    }
}


/// A parsed entry: the recorded size of the previous entry, the width of that
/// field, the encoding and the width of the encoding.
pub struct ZipEntry {
    pub prevrawlen: usize,
    pub prevrawlen_size: usize,
    pub encoding: Encoding,
    pub encoding_size: usize,
}

/// Reads the previous-entry field at the start of `s`: its value and width.
pub open spec fn decode_prev(s: Seq<u8>) -> Result<(nat, nat), ZLError> {
    if s.len() == 0 {
        Err(ZLError::Zlend)
    } else if s[0] < ZIPLIST_PREVLEN_LONG {
        Ok((s[0] as nat, 1nat))
    } else if s.len() < 5 {
        Err(ZLError::Zlend)
    } else {
        Ok((be_value(s.subrange(1, 5)), 5nat))
    }
}

/// Reads the entry at the start of `s`; its content must lie inside `s`.
pub open spec fn decode_entry(s: Seq<u8>) -> Result<ZipEntry, ZLError> {
    match decode_prev(s) {
        Err(e) => Err(e),
        Ok((p, pw)) => match decode_header(s.subrange(pw as int, s.len() as int)) {
            Err(e) => Err(e),
            Ok((enc, hw)) => if pw + hw + enc_content_len(enc) > s.len() {
                Err(ZLError::Zlend)
            } else {
                Ok(
                    ZipEntry {
                        prevrawlen: p as usize,
                        prevrawlen_size: pw as usize,
                        encoding: enc,
                        encoding_size: hw as usize,
                    },
                )
            },
        },
    }
}

/// A parsed entry lies inside the bytes it was parsed from.
pub proof fn lemma_decode_entry_fits(s: Seq<u8>)
    ensures
        decode_entry(s) is Ok ==> entry_size(decode_entry(s)->Ok_0) <= s.len(),
{
    match decode_prev(s) {
        Err(e) => {},
        Ok((p, pw)) => {
            match decode_header(s.subrange(pw as int, s.len() as int)) {
                Err(e) => {},
                Ok((enc, hw)) => {},
            }
        },
    }
}

/// Bytes taken by a parsed entry.
pub open spec fn entry_size(z: ZipEntry) -> nat {
    (z.prevrawlen_size + z.encoding_size + enc_content_len(z.encoding)) as nat
}

/// What parsing the entry that stores `v` after a predecessor of size `p` yields.
pub open spec fn canonical_entry(p: nat, v: ZipItem) -> ZipEntry {
    ZipEntry {
        prevrawlen: p as usize,
        prevrawlen_size: prev_field(p).len() as usize,
        encoding: enc_of(v),
        encoding_size: enc_header_len(enc_of(v)) as usize,
    }
}

/// The content bytes of an item.
pub open spec fn item_content(v: ZipItem) -> Seq<u8> {
    match v {
        ZipItem::Bytes(s) => s,
        ZipItem::Int(_) => Seq::empty(),
    }
}

pub proof fn lemma_item_bytes(v: ZipItem)
    requires
        item_valid(v),
    ensures
        item_bytes(v) == enc_header(enc_of(v)) + item_content(v),
        enc_valid(enc_of(v)),
        enc_content_len(enc_of(v)) == item_content(v).len(),
{
    match v {
        ZipItem::Bytes(s) => {},
        ZipItem::Int(i) => {
            assert(enc_header(enc_of(v)) + Seq::<u8>::empty() =~= enc_header(enc_of(v)));
        },
    }
}

pub proof fn lemma_prev_field(p: nat)
    requires
        p < 4294967296,
    ensures
        prev_field(p).len() == (if p < 254 { 1nat } else { 5nat }),
        forall|rest: Seq<u8>|
            decode_prev(#[trigger] (prev_field(p) + rest)) == Ok::<(nat, nat), ZLError>(
                (p, prev_field(p).len()),
            ),
{
    lemma_pow256_values();
    lemma_be_bytes_len(p, 4);
    assert forall|rest: Seq<u8>|
        decode_prev(#[trigger] (prev_field(p) + rest)) == Ok::<(nat, nat), ZLError>(
            (p, prev_field(p).len()),
        ) by {
        if p >= 254 {
            assert((prev_field(p) + rest).subrange(1, 5) =~= be_bytes(p, 4));
            lemma_be_round_trip(p, 4);
        }
    }
}

/// Parsing the bytes of an entry gives back what was written, whatever follows it.
#[verifier::rlimit(100)]
pub proof fn lemma_entry_round_trip(p: nat, v: ZipItem, rest: Seq<u8>)
    requires
        item_valid(v),
        p < 4294967296,
    ensures
        decode_entry(entry_bytes(p, v) + rest) == Ok::<ZipEntry, ZLError>(canonical_entry(p, v)),
        entry_size(canonical_entry(p, v)) == entry_bytes(p, v).len(),
        prev_field(p).len() + enc_header_len(enc_of(v)) + item_content(v).len() == entry_bytes(p, v).len(),
{
    lemma_item_bytes(v);
    lemma_prev_field(p);
    lemma_enc_header_len(enc_of(v));
    let s = entry_bytes(p, v) + rest;
    let pw = prev_field(p).len();
    assert(s =~= prev_field(p) + (item_bytes(v) + rest));
    assert(s.subrange(pw as int, s.len() as int) =~= enc_header(enc_of(v)) + (item_content(v) + rest));
    lemma_header_round_trip(enc_of(v), item_content(v) + rest);
}


/// Exec form of `int_width`.
fn int_width_of(i: i64) -> (r: usize)
    ensures
        r == int_width(i),
{
    if 0 <= i && i <= 12 {
        0
    } else if -128 <= i && i <= 127 {
        1
    } else if -32768 <= i && i <= 32767 {
        2
    } else if -8388608 <= i && i <= 8388607 {
        3
    } else if -2147483648 <= i && i <= 2147483647 {
        4
    } else {
        8
    }
}

/// Two's complement of `i` on `w` bytes.
fn twos_of(i: i64, w: usize) -> (r: u64)
    requires
        w == int_width(i),
        w > 0,
    ensures
        r == twos(i as int, w as nat),
{
    proof {
        lemma_pow256_values();
    }
    if i >= 0 {
        i as u64
    } else if w == 8 {
        ((i + 1 + 9223372036854775807i64) as u64) + 9223372036854775808u64
    } else {
        let pow: i64 = if w == 1 {
            256
        } else if w == 2 {
            65536
        } else if w == 3 {
            16777216
        } else {
            4294967296
        };
        (i + pow) as u64
    }
}

/// The signed number whose two's complement on `w` bytes is `u`.
fn signed_from(u: u64, w: usize) -> (r: i64)
    requires
        w == 1 || w == 2 || w == 3 || w == 4 || w == 8,
        u < pow256(w as nat),
    ensures
        r == signed_of(u as nat, w as nat),
{
    proof {
        lemma_pow256_values();
    }
    if w == 8 {
        if u >= 9223372036854775808u64 {
            ((u - 9223372036854775808u64) as i64) - 9223372036854775807i64 - 1
        } else {
            u as i64
        }
    } else {
        let pow: u64 = if w == 1 {
            256
        } else if w == 2 {
            65536
        } else if w == 3 {
            16777216
        } else {
            4294967296
        };
        if 2 * u >= pow {
            (u as i64) - (pow as i64)
        } else {
            u as i64
        }
    }
}

/// Exec form of `int_tag_width`, with 0 for a tag that has no fixed width.
fn int_tag_width_of(b: u8) -> (r: usize)
    ensures
        match int_tag_width(b) {
            Some(w) => r == w,
            None => r == 0,
        },
{
    if b == ZIPLIST_I8_ENC {
        1
    } else if b == ZIPLIST_I16_ENC {
        2
    } else if b == ZIPLIST_I24_ENC {
        3
    } else if b == ZIPLIST_I32_ENC {
        4
    } else if b == ZIPLIST_I64_ENC {
        8
    } else {
        0
    }
}

/// `r` is the exec form of the spec result `d`.
pub open spec fn header_result(r: ZLResult<(Encoding, usize)>, d: Result<(Encoding, nat), ZLError>) -> bool {
    match d {
        Ok((e, w)) => r == Ok::<(Encoding, usize), ZLError>((e, w as usize)),
        Err(x) => r == Err::<(Encoding, usize), ZLError>(x),
    }
}

impl Encoding {
    pub open spec fn is_string(&self) -> bool {
        self is String
    }

    pub fn is_str(&self) -> (r: bool)
        ensures
            r == self.is_string(),
    {
        match self {
            Encoding::String(_) => true,
            _ => false,
        }
    }

    /// Bytes taken by the encoding itself.
    pub fn encoding_len(&self) -> (r: usize)
        ensures
            r == enc_header_len(*self),
    {
        match self {
            Encoding::String(sz) => {
                if *sz < 64 {
                    1
                } else if *sz < 16384 {
                    2
                } else {
                    5
                }
            },
            Encoding::Integer(i) => 1 + int_width_of(*i),
        }
    }

    /// Bytes taken by the encoding and the content that follows it.
    pub fn encoding_len_with_content(&self) -> (r: usize)
        requires
            enc_content_len(*self) + 5 <= usize::MAX,
        ensures
            r == enc_header_len(*self) + enc_content_len(*self),
    {
        match self {
            Encoding::String(sz) => self.encoding_len() + *sz,
            Encoding::Integer(_) => self.encoding_len(),
        }
    }

    /// Appends the bytes of the encoding.
    fn write_to(&self, out: &mut Vec<u8>)
        requires
            enc_valid(*self),
        ensures
            final(out)@ == old(out)@ + enc_header(*self),
    {
        match self {
            Encoding::String(sz) => {
                let n = *sz;
                if n < 64 {
                    out.push(n as u8);
                    assert(final(out)@ =~= old(out)@ + enc_header(*self));
                } else if n < 16384 {
                    out.push((64 + n / 256) as u8);
                    out.push((n % 256) as u8);
                    assert(final(out)@ =~= old(out)@ + enc_header(*self));
                } else {
                    out.push(ZIPLIST_STR32_ENC);
                    write_be(out, n as u64, 4);
                    assert(final(out)@ =~= old(out)@ + enc_header(*self));
                }
            },
            Encoding::Integer(i) => {
                let w = int_width_of(*i);
                if w == 0 {
                    out.push((ZIPLIST_IMM_BASE as i64 + *i) as u8);
                    assert(be_bytes(twos(*i as int, 0), 0) =~= Seq::<u8>::empty());
                    assert(final(out)@ =~= old(out)@ + enc_header(*self));
                } else {
                    let tag: u8 = if w == 1 {
                        ZIPLIST_I8_ENC
                    } else if w == 2 {
                        ZIPLIST_I16_ENC
                    } else if w == 3 {
                        ZIPLIST_I24_ENC
                    } else if w == 4 {
                        ZIPLIST_I32_ENC
                    } else {
                        ZIPLIST_I64_ENC
                    };
                    out.push(tag);
                    let u = twos_of(*i, w);
                    write_be(out, u, w);
                    assert(final(out)@ =~= old(out)@ + enc_header(*self));
                }
            },
        }
    }

    /// The byte at `idx` of the encoding, if the encoding is that long.
    pub fn encoding_bytes_by_index(&self, idx: usize) -> (r: Option<u8>)
        requires
            enc_valid(*self),
        ensures
            idx < enc_header(*self).len() ==> r == Some(enc_header(*self)[idx as int]),
            idx >= enc_header(*self).len() ==> r.is_none(),
    {
        let mut bytes: Vec<u8> = Vec::new();
        self.write_to(&mut bytes);
        assert(bytes@ =~= enc_header(*self));
        if idx < bytes.len() {
            Some(bytes[idx])
        } else {
            None
        }
    }

    /// The length of a string encoding.
    pub fn unwrap_str(&self) -> (r: usize)
        requires
            self is String,
        ensures
            *self == Encoding::String(r),
    {
        match self {
            Encoding::String(sz) => *sz,
            Encoding::Integer(_) => 0,
        }
    }

    /// The value of an integer encoding.
    pub fn unwrap_int(&self) -> (r: i64)
        requires
            self is Integer,
        ensures
            *self == Encoding::Integer(r),
    {
        match self {
            Encoding::String(_) => 0,
            Encoding::Integer(i) => *i,
        }
    }

    /// Reads the encoding that starts at `off`, with its width.
    #[verifier::rlimit(100)]
    pub fn parse(buf: &Vec<u8>, off: usize) -> (r: ZLResult<(Encoding, usize)>)
        requires
            off <= buf@.len(),
        ensures
            header_result(r, decode_header(buf@.subrange(off as int, buf@.len() as int))),
    {
        let ghost s = buf@.subrange(off as int, buf@.len() as int);
        let n = buf.len();
        if off >= n {
            return Err(ZLError::Zlend);
        }
        let b = buf[off];
        if b >= 0xc0 {
            let w = int_tag_width_of(b);
            if w > 0 {
                if n - off < 1 + w {
                    return Err(ZLError::Zlend);
                }
                let u = read_be(buf, off + 1, w);
                proof {
                    assert(buf@.subrange(off + 1, off + 1 + w) =~= s.subrange(1, 1 + w as int));
                    lemma_be_value_bound(s.subrange(1, 1 + w as int));
                }
                let v = signed_from(u, w);
                Ok((Encoding::Integer(v), 1 + w))
            } else if ZIPLIST_IMM_BASE <= b && b <= 0xfd {
                Ok((Encoding::Integer((b - ZIPLIST_IMM_BASE) as i64), 1))
            } else {
                Err(ZLError::InvalidEntryEncoding)
            }
        } else if b < 64 {
            Ok((Encoding::String(b as usize), 1))
        } else if b < 128 {
            if n - off < 2 {
                return Err(ZLError::Zlend);
            }
            let lo = buf[off + 1];
            Ok((Encoding::String((b as usize - 64) * 256 + lo as usize), 2))
        } else if b == ZIPLIST_STR32_ENC {
            if n - off < 5 {
                return Err(ZLError::Zlend);
            }
            let u = read_be(buf, off + 1, 4);
            proof {
                assert(buf@.subrange(off + 1, off + 5) =~= s.subrange(1, 5));
                lemma_be_value_bound(s.subrange(1, 5));
                lemma_pow256_values();
            }
            Ok((Encoding::String(u as usize), 5))
        } else {
            Err(ZLError::InvalidEntryEncoding)
        }
    }
}


/// Every item in `vs` can be stored.
pub open spec fn items_valid(vs: Seq<ZipItem>) -> bool {
    forall|i: int| 0 <= i < vs.len() ==> item_valid(#[trigger] vs[i])
}

/// The entries of `a + b` are those of `a` followed by those of `b`.
pub proof fn lemma_body_split(p: nat, a: Seq<ZipItem>, b: Seq<ZipItem>)
    ensures
        body(p, a + b) == body(p, a) + body(next_prev(p, a), b),
        next_prev(p, a + b) == next_prev(next_prev(p, a), b),
    decreases a.len(),
{
    if a.len() == 0 {
        assert(a + b =~= b);
        assert(body(p, a) + body(p, b) =~= body(p, b));
    } else {
        let q = entry_bytes(p, a[0]).len();
        assert((a + b).drop_first() =~= a.drop_first() + b);
        lemma_body_split(q, a.drop_first(), b);
        assert(body(p, a + b) =~= body(p, a) + body(next_prev(p, a), b));
    }
}

/// One entry at the end.
pub proof fn lemma_body_push(p: nat, a: Seq<ZipItem>, v: ZipItem)
    ensures
        body(p, a.push(v)) == body(p, a) + entry_bytes(next_prev(p, a), v),
        next_prev(p, a.push(v)) == entry_bytes(next_prev(p, a), v).len(),
{
    let one = seq![v];
    assert(a.push(v) =~= a + one);
    lemma_body_split(p, a, one);
    let q = next_prev(p, a);
    assert(one.drop_first() =~= Seq::<ZipItem>::empty());
    let sz = entry_bytes(q, v).len();
    assert(body(sz, one.drop_first()) == Seq::<u8>::empty());
    assert(next_prev(sz, one.drop_first()) == sz);
    assert(body(q, one) =~= entry_bytes(q, v) + Seq::<u8>::empty());
    assert(entry_bytes(q, v) + Seq::<u8>::empty() =~= entry_bytes(q, v));
}

pub proof fn lemma_entry_len(p: nat, v: ZipItem)
    ensures
        entry_bytes(p, v).len() >= 2,
{
    lemma_enc_header_len(enc_of(v));
    match v {
        ZipItem::Bytes(s) => {},
        ZipItem::Int(i) => {},
    }
}

/// After a non-empty run of entries, the recorded size is that of the last one,
/// which lies within the run.
pub proof fn lemma_next_prev_bound(p: nat, a: Seq<ZipItem>)
    ensures
        a.len() == 0 ==> next_prev(p, a) == p,
        a.len() > 0 ==> 2 <= next_prev(p, a) <= body(p, a).len(),
    decreases a.len(),
{
    if a.len() > 0 {
        lemma_entry_len(p, a[0]);
        lemma_next_prev_bound(entry_bytes(p, a[0]).len(), a.drop_first());
    }
}

/// Header of a list: total length, offset of the last entry, entry count.
pub open spec fn header_of(total: nat, tail: nat, cnt: nat) -> Seq<u8> {
    be_bytes(total, 4) + be_bytes(tail, 4) + be_bytes(cnt, 2)
}

/// The count field: the number of entries, or the sentinel once it no longer fits.
pub open spec fn saturated_count(n: nat) -> nat {
    if n < 65535 {
        n
    } else {
        65535
    }
}

/// Offset of the last entry; the header size for an empty list.
pub open spec fn tail_of(vs: Seq<ZipItem>) -> nat {
    if vs.len() == 0 {
        ZIPLIST_HEADER_SIZE as nat
    } else {
        (ZIPLIST_HEADER_SIZE + body(0, vs.drop_last()).len()) as nat
    }
}

/// Total size of the list that stores `vs`.
pub open spec fn list_size(vs: Seq<ZipItem>) -> nat {
    (ZIPLIST_HEADER_SIZE + body(0, vs).len()) as nat
}

/// The whole buffer of the list that stores `vs`.
pub open spec fn list_bytes(vs: Seq<ZipItem>) -> Seq<u8> {
    header_of(list_size(vs), tail_of(vs), saturated_count(vs.len())) + body(0, vs)
}

/// A list of entries in one byte buffer; each entry records the size of its predecessor.
pub struct ZipList {
    buf: Vec<u8>,
    items: Ghost<Seq<ZipItem>>,
}

impl View for ZipList {
    type V = Seq<ZipItem>;

    closed spec fn view(&self) -> Seq<ZipItem> {
        self.items@
    }
}

/// A value read out of a list.
pub enum ZipEntryValue {
    Bytes(Vec<u8>),
    Int(i64),
}

impl View for ZipEntryValue {
    type V = ZipItem;

    open spec fn view(&self) -> ZipItem {
        match self {
            ZipEntryValue::Bytes(v) => ZipItem::Bytes(v@),
            ZipEntryValue::Int(i) => ZipItem::Int(*i),
        }
    }
}

impl ZipEntryValue {
    /// The bytes of a string value.
    pub fn unwrap_bytes(&self) -> (r: &[u8])
        requires
            self is Bytes,
        ensures
            self@ == ZipItem::Bytes(r@),
    {
        match self {
            ZipEntryValue::Bytes(v) => v.as_slice(),
            ZipEntryValue::Int(_) => &[],
        }
    }

    /// The number of an integer value.
    pub fn unwrap_int(&self) -> (r: i64)
        requires
            self is Int,
        ensures
            self@ == ZipItem::Int(r),
    {
        match self {
            ZipEntryValue::Bytes(_) => 0,
            ZipEntryValue::Int(k) => *k,
        }
    }
}

/// Sets the ten header bytes of `buf`.
fn set_header(buf: &mut Vec<u8>, total: u64, tail: u64, cnt: u64)
    requires
        old(buf)@.len() >= ZIPLIST_HEADER_SIZE,
    ensures
        final(buf)@ == header_of(total as nat, tail as nat, cnt as nat) + old(buf)@.subrange(
            ZIPLIST_HEADER_SIZE as int,
            old(buf)@.len() as int,
        ),
{
    let mut hdr: Vec<u8> = Vec::new();
    write_be(&mut hdr, total, 4);
    write_be(&mut hdr, tail, 4);
    write_be(&mut hdr, cnt, 2);
    proof {
        lemma_be_bytes_len(total as nat, 4);
        lemma_be_bytes_len(tail as nat, 4);
        lemma_be_bytes_len(cnt as nat, 2);
        assert(hdr@ =~= header_of(total as nat, tail as nat, cnt as nat));
    }
    let mut k: usize = 0;
    while k < ZIPLIST_HEADER_SIZE
        invariant
            k <= ZIPLIST_HEADER_SIZE,
            old(buf)@.len() >= ZIPLIST_HEADER_SIZE,
            hdr@.len() == ZIPLIST_HEADER_SIZE,
            buf@.len() == old(buf)@.len(),
            buf@ =~= hdr@.subrange(0, k as int) + old(buf)@.subrange(k as int, old(buf)@.len() as int),
        decreases ZIPLIST_HEADER_SIZE - k,
    {
        buf.set(k, hdr[k]);
        k = k + 1;
        assert(buf@ =~= hdr@.subrange(0, k as int) + old(buf)@.subrange(k as int, old(buf)@.len() as int));
    }
}

/// Appends `src[from..to]` to `out`.
fn copy_range(out: &mut Vec<u8>, src: &Vec<u8>, from: usize, to: usize)
    requires
        from <= to <= src@.len(),
    ensures
        final(out)@ == old(out)@ + src@.subrange(from as int, to as int),
{
    let mut k = from;
    while k < to
        invariant
            from <= k <= to <= src@.len(),
            out@ == old(out)@ + src@.subrange(from as int, k as int),
        decreases to - k,
    {
        out.push(src[k]);
        k = k + 1;
        assert(out@ =~= old(out)@ + src@.subrange(from as int, k as int));
    }
}

/// Appends the field that records the previous entry's size `p`.
fn write_prev(out: &mut Vec<u8>, p: usize)
    requires
        p < 4294967296,
    ensures
        final(out)@ == old(out)@ + prev_field(p as nat),
{
    if p < 254 {
        out.push(p as u8);
        assert(final(out)@ =~= old(out)@ + prev_field(p as nat));
    } else {
        out.push(ZIPLIST_PREVLEN_LONG);
        write_be(out, p as u64, 4);
        assert(final(out)@ =~= old(out)@ + prev_field(p as nat));
    }
}

/// Reads the previous-entry field at `off`: its value and width.
fn parse_prevrawlen(buf: &Vec<u8>, off: usize) -> (r: ZLResult<(usize, usize)>)
    requires
        off <= buf@.len(),
    ensures
        match decode_prev(buf@.subrange(off as int, buf@.len() as int)) {
            Ok((p, w)) => r == Ok::<(usize, usize), ZLError>((p as usize, w as usize)),
            Err(x) => r == Err::<(usize, usize), ZLError>(x),
        },
{
    let ghost s = buf@.subrange(off as int, buf@.len() as int);
    let n = buf.len();
    if off >= n {
        return Err(ZLError::Zlend);
    }
    let b = buf[off];
    if b < ZIPLIST_PREVLEN_LONG {
        return Ok((b as usize, 1));
    }
    if n - off < 5 {
        return Err(ZLError::Zlend);
    }
    let v = read_be(buf, off + 1, 4);
    proof {
        assert(buf@.subrange(off + 1, off + 5) =~= s.subrange(1, 5));
        lemma_be_value_bound(s.subrange(1, 5));
        lemma_pow256_values();
    }
    Ok((v as usize, 5))
}

impl ZipEntry {
    /// Width of the field that records a previous-entry size of `len`.
    pub fn prevrawlen_size(len: usize) -> (r: usize)
        requires
            len < 4294967296,
        ensures
            r == prev_field(len as nat).len(),
    {
        proof {
            lemma_prev_field(len as nat);
        }
        if len < 254 {
            1
        } else {
            5
        }
    }

    /// Parses the entry that starts at `off`.
    #[verifier::rlimit(100)]
    pub fn parse(buf: &Vec<u8>, off: usize) -> (r: ZLResult<ZipEntry>)
        requires
            off <= buf@.len(),
        ensures
            r == decode_entry(buf@.subrange(off as int, buf@.len() as int)),
    {
        let ghost s = buf@.subrange(off as int, buf@.len() as int);
        let n = buf.len();
        let (p, pw) = match parse_prevrawlen(buf, off) {
            Ok(x) => x,
            Err(e) => return Err(e),
        };
        proof {
            assert(buf@.subrange((off + pw) as int, buf@.len() as int) =~= s.subrange(pw as int, s.len() as int));
        }
        let (enc, hw) = match Encoding::parse(buf, off + pw) {
            Ok(x) => x,
            Err(e) => return Err(e),
        };
        let content: usize = match enc {
            Encoding::String(sz) => sz,
            Encoding::Integer(_) => 0,
        };
        if content > n - off - pw - hw {
            return Err(ZLError::Zlend);
        }
        Ok(ZipEntry { prevrawlen: p, prevrawlen_size: pw, encoding: enc, encoding_size: hw })
    }

    /// Bytes taken by the previous-entry field and the encoding.
    pub fn header_size(&self) -> (r: usize)
        requires
            self.prevrawlen_size + self.encoding_size <= usize::MAX,
        ensures
            r == self.prevrawlen_size + self.encoding_size,
    {
        self.prevrawlen_size + self.encoding_size
    }

    /// Bytes taken by the whole entry.
    pub fn entry_size(&self) -> (r: usize)
        requires
            entry_size(*self) <= usize::MAX,
        ensures
            r == entry_size(*self),
    {
        match self.encoding {
            Encoding::String(sz) => self.prevrawlen_size + self.encoding_size + sz,
            Encoding::Integer(_) => self.prevrawlen_size + self.encoding_size,
        }
    }

    /// The value stored by this entry, which starts at `off` in `buf`.
    #[verifier::rlimit(100)]
    pub fn value(&self, buf: &Vec<u8>, off: usize) -> (r: ZipEntryValue)
        requires
            off <= buf@.len(),
            decode_entry(buf@.subrange(off as int, buf@.len() as int)) == Ok::<ZipEntry, ZLError>(*self),
        ensures
            r@ == (match self.encoding {
                Encoding::String(sz) => ZipItem::Bytes(
                    buf@.subrange(
                        off + self.prevrawlen_size + self.encoding_size,
                        off + self.prevrawlen_size + self.encoding_size + sz,
                    ),
                ),
                Encoding::Integer(i) => ZipItem::Int(i),
            }),
    {
        let _n = buf.len();
        proof {
            lemma_decode_entry_fits(buf@.subrange(off as int, buf@.len() as int));
        }
        match self.encoding {
            Encoding::String(sz) => {
                let start = off + self.prevrawlen_size + self.encoding_size;
                let mut out: Vec<u8> = Vec::new();
                copy_range(&mut out, buf, start, start + sz);
                assert(out@ =~= Seq::<u8>::empty() + buf@.subrange(start as int, start + sz));
                ZipEntryValue::Bytes(out)
            },
            Encoding::Integer(i) => ZipEntryValue::Int(i),
        }
    }
}


/// The item that an encoding and its content store.
pub open spec fn item_of(e: Encoding, content: Seq<u8>) -> ZipItem {
    match e {
        Encoding::String(_) => ZipItem::Bytes(content),
        Encoding::Integer(i) => ZipItem::Int(i),
    }
}

/// Appends the bytes of `src`.
fn append_slice(out: &mut Vec<u8>, src: &[u8])
    ensures
        final(out)@ == old(out)@ + src@,
{
    let mut k: usize = 0;
    while k < src.len()
        invariant
            k <= src@.len(),
            out@ == old(out)@ + src@.subrange(0, k as int),
        decreases src@.len() - k,
    {
        out.push(src[k]);
        k = k + 1;
        assert(out@ =~= old(out)@ + src@.subrange(0, k as int));
    }
    assert(src@.subrange(0, src@.len() as int) =~= src@);
}

impl ZipList {
    /// The buffer is the header followed by the entries of the items, and fits the
    /// four-byte length field.
    pub closed spec fn wf(&self) -> bool {
        &&& items_valid(self.items@)
        &&& list_size(self.items@) < 4294967296
        &&& self.buf@ == list_bytes(self.items@)
    }

    /// The bytes of the list.
    pub closed spec fn spec_bytes(&self) -> Seq<u8> {
        self.buf@
    }

    /// The bytes of a well-formed list are the header (total size, offset of the
    /// last entry, saturated count) followed by the entries, each recording the
    /// size of its predecessor in the shortest field that holds it.
    pub proof fn lemma_bytes(&self)
        requires
            self.wf(),
        ensures
            self.spec_bytes() == list_bytes(self@),
            list_size(self@) < 4294967296,
            items_valid(self@),
    {
    }

    #[verifier::rlimit(100)]
    proof fn lemma_layout(&self)
        requires
            self.wf(),
        ensures
            self.buf@.len() == list_size(self@),
            self.buf@.subrange(0, 4) == be_bytes(list_size(self@), 4),
            self.buf@.subrange(4, 8) == be_bytes(tail_of(self@), 4),
            self.buf@.subrange(8, 10) == be_bytes(saturated_count(self@.len()), 2),
            self.buf@.subrange(ZIPLIST_HEADER_SIZE as int, self.buf@.len() as int) == body(0, self@),
            ZIPLIST_HEADER_SIZE <= tail_of(self@) <= list_size(self@),
            self@.len() > 0 ==> tail_of(self@) < list_size(self@),
            self@.len() == 0 <==> list_size(self@) == ZIPLIST_HEADER_SIZE,
    {
        let vs = self@;
        lemma_be_bytes_len(list_size(vs), 4);
        lemma_be_bytes_len(tail_of(vs), 4);
        lemma_be_bytes_len(saturated_count(vs.len()), 2);
        assert(self.buf@.subrange(0, 4) =~= be_bytes(list_size(vs), 4));
        assert(self.buf@.subrange(4, 8) =~= be_bytes(tail_of(vs), 4));
        assert(self.buf@.subrange(8, 10) =~= be_bytes(saturated_count(vs.len()), 2));
        assert(self.buf@.subrange(ZIPLIST_HEADER_SIZE as int, self.buf@.len() as int) =~= body(0, vs));
        if vs.len() > 0 {
            assert(vs =~= vs.drop_last().push(vs.last()));
            lemma_body_push(0, vs.drop_last(), vs.last());
            lemma_entry_len(next_prev(0, vs.drop_last()), vs.last());
        } else {
            assert(body(0, vs) == Seq::<u8>::empty());
        }
    }

    /// An empty list: the header alone.
    pub fn new() -> (r: Self)
        ensures
            r.wf(),
            r@ == Seq::<ZipItem>::empty(),
    {
        let mut src: Vec<u8> = Vec::new();
        write_be(&mut src, ZIPLIST_HEADER_SIZE as u64, 4);
        write_be(&mut src, ZIPLIST_HEADER_SIZE as u64, 4);
        write_be(&mut src, 0, 2);
        let r = ZipList { buf: src, items: Ghost(Seq::empty()) };
        proof {
            let vs = Seq::<ZipItem>::empty();
            assert(body(0, vs) == Seq::<u8>::empty());
            assert(r.buf@ =~= list_bytes(vs));
        }
        r
    }

    /// Total size of the list in bytes, from its header.
    pub fn bytes_size(&self) -> (r: usize)
        requires
            self.wf(),
        ensures
            r == list_size(self@),
    {
        proof {
            self.lemma_layout();
            lemma_pow256_values();
            lemma_be_round_trip(list_size(self@), 4);
        }
        read_be(&self.buf, 0, 4) as usize
    }

    /// Offset of the last entry, from the header.
    pub fn tail_offset(&self) -> (r: usize)
        requires
            self.wf(),
        ensures
            r == tail_of(self@),
    {
        proof {
            self.lemma_layout();
            lemma_pow256_values();
            lemma_be_round_trip(tail_of(self@), 4);
        }
        read_be(&self.buf, 4, 4) as usize
    }

    /// The count field of the header.
    fn read_entry_cnt(&self) -> (r: usize)
        requires
            self.wf(),
        ensures
            r == saturated_count(self@.len()),
    {
        proof {
            self.lemma_layout();
            lemma_pow256_values();
            lemma_be_round_trip(saturated_count(self@.len()), 2);
        }
        read_be(&self.buf, 8, 2) as usize
    }

    /// The size of the last entry, which the next entry records; 0 when empty.
    #[verifier::rlimit(100)]
    fn last_entry_size(&self) -> (r: usize)
        requires
            self.wf(),
        ensures
            r == next_prev(0, self@),
            r < 4294967296,
    {
        let ghost vs = self@;
        proof {
            self.lemma_layout();
        }
        if self.read_entry_cnt() == 0 {
            return 0;
        }
        let tail = self.tail_offset();
        proof {
            let dl = vs.drop_last();
            let q = next_prev(0, dl);
            assert(vs =~= dl.push(vs.last()));
            lemma_body_push(0, dl, vs.last());
            lemma_next_prev_bound(0, dl);
            assert(self.buf@.subrange(tail as int, self.buf@.len() as int) =~= entry_bytes(q, vs.last())
                + Seq::<u8>::empty());
            lemma_entry_round_trip(q, vs.last(), Seq::<u8>::empty());
        }
        match ZipEntry::parse(&self.buf, tail) {
            Ok(z) => z.entry_size(),
            Err(_) => 0,
        }
    }

    /// Appends an entry with `encoding` and `content`; refused when the list would
    /// outgrow its four-byte length field.
    #[verifier::rlimit(100)]
    fn push_tail(&mut self, encoding: Encoding, content: &[u8]) -> (r: ZLResult<()>)
        requires
            old(self).wf(),
            content@.len() == enc_content_len(encoding),
        ensures
            final(self).wf(),
            ({
                let v = item_of(encoding, content@);
                if enc_valid(encoding) && list_size(old(self)@.push(v)) < 4294967296 {
                    r is Ok && final(self)@ == old(self)@.push(v)
                } else {
                    r is Err && final(self)@ == old(self)@
                }
            }),
    {
        let ghost vs = self@;
        let ghost v = item_of(encoding, content@);
        let total = self.bytes_size();
        let cnt = self.read_entry_cnt();
        let prevrawlen = self.last_entry_size();
        proof {
            self.lemma_layout();
            lemma_body_push(0, vs, v);
            lemma_prev_field(prevrawlen as nat);
        }
        if let Encoding::String(sz) = encoding {
            if sz as u64 >= 4294967296u64 {
                return Err(ZLError::OutOfRange(sz));
            }
        }
        proof {
            lemma_item_bytes(v);
            lemma_enc_header_len(encoding);
            assert(enc_of(v) == encoding);
        }
        let prevrawlen_size = ZipEntry::prevrawlen_size(prevrawlen);
        let required_len: u64 = prevrawlen_size as u64 + encoding.encoding_len() as u64 + content.len() as u64;
        if total as u64 + required_len >= 4294967296u64 {
            return Err(ZLError::OutOfRange(total));
        }
        write_prev(&mut self.buf, prevrawlen);
        encoding.write_to(&mut self.buf);
        append_slice(&mut self.buf, content);
        let new_cnt: u64 = if cnt < 65535 {
            cnt as u64 + 1
        } else {
            65535
        };
        set_header(&mut self.buf, total as u64 + required_len, total as u64, new_cnt);
        proof {
            self.items = Ghost(vs.push(v));
            assert(vs.push(v).drop_last() =~= vs);
            assert(self.buf@ =~= list_bytes(vs.push(v)));
            assert forall|i: int| 0 <= i < vs.push(v).len() implies item_valid(#[trigger] vs.push(v)[i]) by {
                if i < vs.len() {
                    assert(vs.push(v)[i] == vs[i]);
                }
            }
        }
        Ok(())
    }

    /// Appends a string entry.
    pub fn push_tail_string(&mut self, content: &[u8]) -> (r: ZLResult<()>)
        requires
            old(self).wf(),
        ensures
            final(self).wf(),
            ({
                let v = ZipItem::Bytes(content@);
                if content@.len() < 4294967296 && list_size(old(self)@.push(v)) < 4294967296 {
                    r is Ok && final(self)@ == old(self)@.push(v)
                } else {
                    r is Err && final(self)@ == old(self)@
                }
            }),
    {
        let encoding = Encoding::String(content.len());
        self.push_tail(encoding, content)
    }

    /// Appends an integer entry.
    pub fn push_tail_int(&mut self, val: i64) -> (r: ZLResult<()>)
        requires
            old(self).wf(),
        ensures
            final(self).wf(),
            ({
                let v = ZipItem::Int(val);
                if list_size(old(self)@.push(v)) < 4294967296 {
                    r is Ok && final(self)@ == old(self)@.push(v)
                } else {
                    r is Err && final(self)@ == old(self)@
                }
            }),
    {
        let encoding = Encoding::Integer(val);
        let empty: [u8; 0] = [];
        proof {
            assert(empty@ =~= Seq::<u8>::empty());
        }
        self.push_tail(encoding, &empty)
    }
}


pub proof fn lemma_body_len(p: nat, vs: Seq<ZipItem>)
    ensures
        body(p, vs).len() >= 2 * vs.len(),
    decreases vs.len(),
{
    if vs.len() > 0 {
        lemma_entry_len(p, vs[0]);
        lemma_body_len(entry_bytes(p, vs[0]).len(), vs.drop_first());
    }
}

/// The entries of `vs` start with the previous-entry field of `p`.
proof fn lemma_body_unfold(p: nat, vs: Seq<ZipItem>)
    requires
        vs.len() > 0,
    ensures
        body(p, vs) == prev_field(p) + (item_bytes(vs[0]) + body(entry_bytes(p, vs[0]).len(), vs.drop_first())),
        body(p, vs) == entry_bytes(p, vs[0]) + body(entry_bytes(p, vs[0]).len(), vs.drop_first()),
{
    assert(body(p, vs) =~= prev_field(p) + (item_bytes(vs[0]) + body(entry_bytes(p, vs[0]).len(), vs.drop_first())));
}

impl ZipList {
    /// Counts the entries by walking back from the last one through the
    /// previous-entry fields.
    #[verifier::rlimit(100)]
    fn count_entry(&self) -> (r: usize)
        requires
            self.wf(),
        ensures
            r == self@.len(),
    {
        let ghost vs = self@;
        proof {
            self.lemma_layout();
            lemma_body_len(0, vs);
        }
        let total = self.bytes_size();
        if total == ZIPLIST_HEADER_SIZE {
            return 0;
        }
        let mut off = self.tail_offset();
        let mut cnt: usize = 1;
        proof {
            assert(vs.take(vs.len() - 1) =~= vs.drop_last());
        }
        loop
            invariant
                self.wf(),
                vs == self@,
                1 <= cnt <= vs.len(),
                vs.len() < 4294967296,
                off == ZIPLIST_HEADER_SIZE + body(0, vs.take(vs.len() - cnt)).len(),
            decreases off,
        {
            let ghost m = vs.len() - cnt;
            let ghost q = next_prev(0, vs.take(m));
            proof {
                self.lemma_layout();
                assert(vs =~= vs.take(m) + vs.skip(m));
                lemma_body_split(0, vs.take(m), vs.skip(m));
                lemma_next_prev_bound(0, vs.take(m));
                lemma_prev_field(q);
                lemma_body_unfold(q, vs.skip(m));
                assert(self.buf@.subrange(off as int, self.buf@.len() as int) =~= body(q, vs.skip(m)));
                let rest = item_bytes(vs.skip(m)[0]) + body(entry_bytes(q, vs.skip(m)[0]).len(), vs.skip(m).drop_first());
                assert(decode_prev(prev_field(q) + rest) == Ok::<(nat, nat), ZLError>((q, prev_field(q).len())));
            }
            let p = match parse_prevrawlen(&self.buf, off) {
                Ok((p, _)) => p,
                Err(_) => return cnt,
            };
            if p == 0 {
                return cnt;
            }
            proof {
                assert(vs.take(m) =~= vs.take(m - 1).push(vs[m - 1]));
                lemma_body_push(0, vs.take(m - 1), vs[m - 1]);
                assert(vs.take(vs.len() - (cnt + 1)) == vs.take(m - 1));
            }
            off = off - p;
            cnt = cnt + 1;
        }
    }

    /// Number of entries: the count field, or a walk over the list once that
    /// field is saturated.
    pub fn get_entry_cnt(&self) -> (r: usize)
        requires
            self.wf(),
        ensures
            r == self@.len(),
    {
        let cnt = self.read_entry_cnt();
        if cnt < 65535 {
            cnt
        } else {
            self.count_entry()
        }
    }
}


impl ZipList {
    /// Removes the first entry and returns its value. The entries after it move
    /// to the front; the new first entry records a predecessor size of 0, and
    /// each rewritten previous-entry field that changes width changes the size
    /// that the next entry records. The rewriting stops at the first field whose
    /// width is unchanged, after which the bytes are moved as they are.
    #[verifier::rlimit(100)]
    pub fn pop_front(&mut self) -> (r: Option<ZipEntryValue>)
        requires
            old(self).wf(),
        ensures
            final(self).wf(),
            old(self)@.len() == 0 ==> r is None && final(self)@ == old(self)@,
            old(self)@.len() > 0 ==> r is Some && r->Some_0@ == old(self)@[0] && final(self)@ == old(self)@.drop_first(),
    {
        let ghost vs = self@;
        proof {
            self.lemma_layout();
        }
        let cnt = self.read_entry_cnt();
        if cnt == 0 {
            return None;
        }
        let ori_bytes = self.bytes_size();
        let old_tail = self.tail_offset();
        let ghost rest = vs.drop_first();
        let ghost s0 = entry_bytes(0, vs[0]).len();
        proof {
            lemma_body_unfold(0, vs);
            lemma_entry_round_trip(0, vs[0], body(s0, rest));
            assert(self.buf@.subrange(ZIPLIST_HEADER_SIZE as int, self.buf@.len() as int) =~= entry_bytes(0, vs[0])
                + body(s0, rest));
        }
        let first = match ZipEntry::parse(&self.buf, ZIPLIST_HEADER_SIZE) {
            Ok(z) => z,
            Err(_) => return None,
        };
        let val = first.value(&self.buf, ZIPLIST_HEADER_SIZE);
        proof {
            lemma_item_bytes(vs[0]);
            lemma_enc_header_len(enc_of(vs[0]));
            lemma_prev_field(0);
            match vs[0] {
                ZipItem::Bytes(c) => {
                    let st = ZIPLIST_HEADER_SIZE + 1 + enc_header_len(enc_of(vs[0]));
                    assert(self.buf@.subrange(st as int, st + c.len()) =~= c);
                },
                ZipItem::Int(i) => {},
            }
        }
        let first_size = first.entry_size();
        let mut next_off: usize = ZIPLIST_HEADER_SIZE + first_size;
        let mut out: Vec<u8> = Vec::new();
        write_be(&mut out, 0, ZIPLIST_HEADER_SIZE);
        let mut last_size: usize = 0;
        let mut changing = true;
        let mut new_tail: usize = ZIPLIST_HEADER_SIZE;
        let ghost mut k: int = 0;
        let ghost mut old_prev: nat = s0;
        proof {
            lemma_be_bytes_len(0, ZIPLIST_HEADER_SIZE as nat);
            assert(rest.take(0) =~= Seq::<ZipItem>::empty());
            assert(rest.skip(0) =~= rest);
            assert(out@.subrange(ZIPLIST_HEADER_SIZE as int, out@.len() as int) =~= Seq::<u8>::empty());
            lemma_body_len(s0, rest);
        }
        while changing && next_off < ori_bytes
            invariant
                self.wf(),
                self@ == vs,
                vs.len() > 0,
                rest == vs.drop_first(),
                s0 == entry_bytes(0, vs[0]).len(),
                ori_bytes == self.buf@.len(),
                ori_bytes < 4294967296,
                0 <= k <= rest.len(),
                out@.len() == ZIPLIST_HEADER_SIZE + body(0, rest.take(k)).len(),
                out@.subrange(ZIPLIST_HEADER_SIZE as int, out@.len() as int) == body(0, rest.take(k)),
                out@.len() + s0 <= next_off,
                last_size == next_prev(0, rest.take(k)),
                old_prev == next_prev(s0, rest.take(k)),
                last_size <= old_prev,
                old_prev < 4294967296,
                next_off == ZIPLIST_HEADER_SIZE + s0 + body(s0, rest.take(k)).len(),
                next_off <= ori_bytes,
                self.buf@.subrange(next_off as int, ori_bytes as int) == body(old_prev, rest.skip(k)),
                !changing ==> last_size == old_prev,
                k < rest.len() <==> next_off < ori_bytes,
                new_tail == (if k == 0 {
                    ZIPLIST_HEADER_SIZE as nat
                } else {
                    (ZIPLIST_HEADER_SIZE + body(0, rest.take(k - 1)).len()) as nat
                }),
            decreases rest.len() - k,
        {
            let ghost v = rest[k];
            let ghost tail_items = rest.skip(k + 1);
            let ghost old_size = entry_bytes(old_prev, v).len();
            let ghost new_size = entry_bytes(last_size as nat, v).len();
            proof {
                assert(rest.skip(k).drop_first() =~= tail_items);
                lemma_body_unfold(old_prev, rest.skip(k));
                lemma_entry_round_trip(old_prev, v, body(old_size, tail_items));
                lemma_prev_field(old_prev);
                lemma_prev_field(last_size as nat);
                lemma_item_bytes(v);
                assert(item_valid(v)) by {
                    assert(rest[k] == vs[k + 1]);
                }
                lemma_enc_header_len(enc_of(v));
                assert(rest.take(k + 1) =~= rest.take(k).push(v));
                lemma_body_push(0, rest.take(k), v);
                lemma_body_push(s0, rest.take(k), v);
                lemma_body_len(old_size, tail_items);
            }
            let entry = match ZipEntry::parse(&self.buf, next_off) {
                Ok(z) => z,
                Err(_) => return None,
            };
            let entry_size = entry.entry_size();
            new_tail = out.len();
            write_prev(&mut out, last_size);
            copy_range(&mut out, &self.buf, next_off + entry.prevrawlen_size, next_off + entry_size);
            let new_field = ZipEntry::prevrawlen_size(last_size);
            if new_field == entry.prevrawlen_size {
                changing = false;
            }
            proof {
                let seg = self.buf@.subrange(next_off as int, ori_bytes as int);
                let pw = entry.prevrawlen_size as int;
                let es = entry_size as int;
                assert(seg == prev_field(old_prev) + (item_bytes(v) + body(old_size, tail_items)));
                assert(pw == prev_field(old_prev).len());
                assert(es == pw + item_bytes(v).len());
                assert(self.buf@.subrange(next_off + pw, next_off + es) =~= seg.subrange(pw, es));
                assert(seg.subrange(pw, es) =~= item_bytes(v));
                assert(self.buf@.subrange(next_off + es, ori_bytes as int) =~= seg.subrange(es, seg.len() as int));
                assert(self.buf@.subrange(next_off + entry.prevrawlen_size, next_off + entry_size) =~= item_bytes(v));
                assert(out@.subrange(ZIPLIST_HEADER_SIZE as int, out@.len() as int) =~= body(0, rest.take(k)) + entry_bytes(last_size as nat, v));
                assert(self.buf@.subrange(next_off + entry_size, ori_bytes as int) =~= body(old_size, tail_items));
                assert(rest.take(k + 1 - 1) =~= rest.take(k));
            }
            last_size = new_field + entry_size - entry.prevrawlen_size;
            next_off = next_off + entry_size;
            proof {
                k = k + 1;
                old_prev = old_size;
            }
        }
        if next_off < ori_bytes {
            proof {
                let x = rest.skip(k);
                assert(rest =~= rest.take(k) + x);
                assert(rest.drop_last() =~= rest.take(k) + x.drop_last());
                lemma_body_split(0, rest.take(k), x.drop_last());
                lemma_body_split(s0, rest.take(k), x.drop_last());
                assert(vs.drop_last() =~= seq![vs[0]] + rest.drop_last());
                assert(vs.drop_last().drop_first() =~= rest.drop_last());
                lemma_body_unfold(0, vs.drop_last());
                assert(x =~= x.drop_last().push(x.last()));
                lemma_body_push(old_prev, x.drop_last(), x.last());
            }
            new_tail = out.len() + (old_tail - next_off);
            copy_range(&mut out, &self.buf, next_off, ori_bytes);
        }
        proof {
            assert(rest =~= rest.take(k) + rest.skip(k));
            lemma_body_split(0, rest.take(k), rest.skip(k));
            assert(out@.subrange(ZIPLIST_HEADER_SIZE as int, out@.len() as int) =~= body(0, rest));
            if k == rest.len() && k > 0 {
                assert(rest.take(k - 1) =~= rest.drop_last());
            }
        }
        let new_cnt: usize = if cnt < 65535 {
            cnt - 1
        } else {
            let n = self.count_entry() - 1;
            if n >= 65535 {
                65535
            } else {
                n
            }
        };
        proof {
            assert(new_tail == tail_of(rest));
            assert(new_cnt == saturated_count(rest.len()));
        }
        let total = out.len();
        set_header(&mut out, total as u64, new_tail as u64, new_cnt as u64);
        self.buf = out;
        proof {
            self.items = Ghost(rest);
            assert(self.buf@ =~= list_bytes(rest));
            assert forall|i: int| 0 <= i < rest.len() implies item_valid(#[trigger] rest[i]) by {
                assert(rest[i] == vs[i + 1]);
            }
        }
        Some(val)
    }
}


/// Offset of entry `k` of the list that stores `vs`.
pub open spec fn entry_offset(vs: Seq<ZipItem>, k: int) -> nat {
    (ZIPLIST_HEADER_SIZE + body(0, vs.take(k)).len()) as nat
}

/// A cursor over the entries of a list, first to last.
pub struct ZipListIter {
    cur_offset: usize,
    index: Ghost<int>,
}

impl ZipListIter {
    /// Number of entries already handed out.
    pub closed spec fn pos(&self) -> int {
        self.index@
    }

    /// The cursor stands at an entry boundary of `list`.
    pub closed spec fn valid_for(&self, list: &ZipList) -> bool {
        &&& 0 <= self.index@ <= list@.len()
        &&& self.cur_offset == entry_offset(list@, self.index@)
    }

    /// Hands out the next entry with its offset, or `None` past the last one.
    #[verifier::rlimit(100)]
    pub fn next(&mut self, list: &ZipList) -> (r: Option<(usize, ZipEntry)>)
        requires
            list.wf(),
            old(self).valid_for(list),
        ensures
            final(self).valid_for(list),
            old(self).pos() < list@.len() ==> r is Some && final(self).pos() == old(self).pos() + 1 && r->Some_0
                == (
                entry_offset(list@, old(self).pos()) as usize,
                canonical_entry(next_prev(0, list@.take(old(self).pos())), list@[old(self).pos()]),
            ),
            old(self).pos() == list@.len() ==> r is None && final(self).pos() == old(self).pos(),
    {
        let size = list.bytes_size();
        let ghost vs = list@;
        let ghost k = self.index@;
        proof {
            list.lemma_layout();
            lemma_entry_at(list, k);
        }
        if self.cur_offset >= size {
            return None;
        }
        let ori_offset = self.cur_offset;
        let entry = match ZipEntry::parse(&list.buf, ori_offset) {
            Ok(z) => z,
            Err(_) => return None,
        };
        self.cur_offset = self.cur_offset + entry.entry_size();
        proof {
            self.index = Ghost(k + 1);
            assert(vs.take(k + 1) =~= vs.take(k).push(vs[k]));
            lemma_body_push(0, vs.take(k), vs[k]);
        }
        Some((ori_offset, entry))
    }
}

/// The bytes from the offset of entry `k` on: that entry, then the ones after it.
#[verifier::rlimit(100)]
proof fn lemma_entry_at(list: &ZipList, k: int)
    requires
        list.wf(),
        0 <= k <= list@.len(),
    ensures
        entry_offset(list@, k) <= list.spec_bytes().len(),
        k == list@.len() <==> entry_offset(list@, k) == list.spec_bytes().len(),
        k < list@.len() ==> {
            let q = next_prev(0, list@.take(k));
            &&& q < 4294967296
            &&& list.spec_bytes().subrange(entry_offset(list@, k) as int, list.spec_bytes().len() as int)
                == entry_bytes(q, list@[k]) + body(entry_bytes(q, list@[k]).len(), list@.skip(k + 1))
            &&& decode_entry(list.spec_bytes().subrange(entry_offset(list@, k) as int, list.spec_bytes().len() as int))
                == Ok::<ZipEntry, ZLError>(canonical_entry(q, list@[k]))
            &&& entry_size(canonical_entry(q, list@[k])) == entry_bytes(q, list@[k]).len()
        },
{
    let vs = list@;
    list.lemma_layout();
    assert(vs =~= vs.take(k) + vs.skip(k));
    lemma_body_split(0, vs.take(k), vs.skip(k));
    let q = next_prev(0, vs.take(k));
    lemma_next_prev_bound(0, vs.take(k));
    lemma_body_len(q, vs.skip(k));
    assert(list.buf@.subrange(entry_offset(vs, k) as int, list.buf@.len() as int) =~= body(q, vs.skip(k)));
    if k < vs.len() {
        lemma_body_unfold(q, vs.skip(k));
        assert(vs.skip(k).drop_first() =~= vs.skip(k + 1));
        assert(item_valid(vs[k]));
        lemma_entry_round_trip(q, vs[k], body(entry_bytes(q, vs[k]).len(), vs.skip(k + 1)));
    }
}

/// Where the content of a string entry lies.
#[verifier::rlimit(100)]
proof fn lemma_content_at(list: &ZipList, k: int)
    requires
        list.wf(),
        0 <= k < list@.len(),
    ensures
        ({
            let q = next_prev(0, list@.take(k));
            let v = list@[k];
            let st = entry_offset(list@, k) + prev_field(q).len() + enc_header_len(enc_of(v));
            &&& item_valid(v)
            &&& enc_of(v) is Integer ==> v == ZipItem::Int(enc_of(v)->Integer_0)
            &&& v is Bytes ==> list.spec_bytes().subrange(st as int, (st + item_content(v).len()) as int) == item_content(v)
        }),
{
    lemma_entry_at(list, k);
    let q = next_prev(0, list@.take(k));
    let v = list@[k];
    assert(item_valid(v));
    lemma_item_bytes(v);
    lemma_enc_header_len(enc_of(v));
    lemma_prev_field(q);
    let offset = entry_offset(list@, k);
    let n = list.buf@.len();
    match v {
        ZipItem::Bytes(c) => {
            let pw = prev_field(q).len() as int;
            let hw = enc_header_len(enc_of(v)) as int;
            let st = offset + pw + hw;
            let seg = list.buf@.subrange(offset as int, n as int);
            let b = body(entry_bytes(q, v).len(), list@.skip(k + 1));
            assert(seg =~= prev_field(q) + enc_header(enc_of(v)) + c + b);
            assert(list.buf@.subrange(st as int, st + c.len()) =~= seg.subrange(pw + hw, pw + hw + c.len()));
            assert(seg.subrange(pw + hw, pw + hw + c.len()) =~= c);
        },
        ZipItem::Int(i) => {},
    }
}

impl ZipList {
    /// A cursor at the first entry.
    pub fn iter(&self) -> (r: ZipListIter)
        requires
            self.wf(),
        ensures
            r.valid_for(self),
            r.pos() == 0,
    {
        proof {
            assert(self@.take(0) =~= Seq::<ZipItem>::empty());
            assert(body(0, Seq::<ZipItem>::empty()) == Seq::<u8>::empty());
        }
        ZipListIter { cur_offset: ZIPLIST_HEADER_SIZE, index: Ghost(0) }
    }

    /// The value of the entry at `offset`; the value of entry `k` when `offset`
    /// is where that entry starts.
    #[verifier::rlimit(100)]
    pub fn value_at(&self, offset: usize) -> (r: ZLResult<ZipEntryValue>)
        requires
            self.wf(),
        ensures
            forall|k: int|
                0 <= k < self@.len() && offset == entry_offset(self@, k) ==> r is Ok && (r->Ok_0)@ == self@[k],
            offset >= self.spec_bytes().len() ==> r is Err,
    {
        let n = self.buf.len();
        proof {
            assert forall|k: int| 0 <= k < self@.len() && offset == entry_offset(self@, k) implies offset < n
                && decode_entry(self.buf@.subrange(offset as int, n as int)) is Ok by {
                lemma_entry_at(self, k);
            }
        }
        if offset >= n {
            return Err(ZLError::OutOfRange(offset));
        }
        let entry = match ZipEntry::parse(&self.buf, offset) {
            Ok(z) => z,
            Err(e) => return Err(e),
        };
        let val = entry.value(&self.buf, offset);
        proof {
            assert forall|k: int|
                0 <= k < self@.len() && offset == entry_offset(self@, k) implies (val@ == self@[k]) by {
                lemma_entry_at(self, k);
                lemma_content_at(self, k);
            }
        }
        Ok(val)
    }
}

} // verus!
