//! The archival codec: entity collections are written to a compact binary
//! form — a version byte, then length-prefixed little-endian fields — and
//! read back without re-parsing the original documents. Decoding checks
//! only the version byte; any other corruption surfaces as a parse error
//! or as garbage, by design.
use vstd::prelude::*;
use vstd::arithmetic::div_mod::lemma_fundamental_div_mod;
use crate::data::{Association, AssocView, Efo, EfoView, Metadata};
use crate::errors::GwasError;
use crate::order::views_of;
use crate::ontology::efo_views;
use crate::pvalue::PValue;

verus! {

/// The encoding version this crate writes.
pub const ARCHIVE_VERSION: u8 = 1;

// ---------------------------------------------------------------------------
// Little-endian words.
// ---------------------------------------------------------------------------
/// `k` little-endian bytes of `x`.
pub open spec fn enc_le(x: int, k: nat) -> Seq<u8>
    decreases k,
{
    if k == 0 {
        Seq::empty()
    } else {
        seq![(x % 256) as u8] + enc_le(x / 256, (k - 1) as nat)
    }
}

/// The value of `k` little-endian bytes at `pos`.
pub open spec fn dec_le(b: Seq<u8>, pos: int, k: nat) -> int
    decreases k,
{
    if k == 0 {
        0
    } else if pos < 0 || pos >= b.len() {
        0
    } else {
        b[pos] + 256 * dec_le(b, pos + 1, (k - 1) as nat)
    }
}

pub proof fn lemma_enc_le_len(x: int, k: nat)
    ensures
        enc_le(x, k).len() == k,
    decreases k,
{
    if k > 0 {
        lemma_enc_le_len(x / 256, (k - 1) as nat);
    }
}

/// Reading back the bytes of a value below `256^k` gives the value.
pub proof fn lemma_le_round_trip(b: Seq<u8>, pos: int, x: int, k: nat)
    requires
        0 <= x,
        0 <= pos,
        pos + k <= b.len(),
        b.subrange(pos, pos + k) == enc_le(x, k),
        x < pow256(k),
    ensures
        dec_le(b, pos, k) == x,
    decreases k,
{
    if k > 0 {
        lemma_enc_le_len(x, k);
        lemma_enc_le_len(x / 256, (k - 1) as nat);
        let sub = b.subrange(pos, pos + k);
        assert(sub[0] == b[pos]);
        assert(b[pos] == x % 256);
        assert(b.subrange(pos + 1, pos + k) =~= sub.subrange(1, k as int));
        assert(sub.subrange(1, k as int) =~= enc_le(x / 256, (k - 1) as nat));
        lemma_fundamental_div_mod(x, 256);
        assert(x / 256 < pow256((k - 1) as nat)) by {
            if x / 256 >= pow256((k - 1) as nat) {
                vstd::arithmetic::mul::lemma_mul_inequality(
                    pow256((k - 1) as nat),
                    x / 256,
                    256,
                );
            }
        }
        lemma_le_round_trip(b, pos + 1, x / 256, (k - 1) as nat);
    }
}

pub open spec fn pow256(k: nat) -> int
    decreases k,
{
    if k == 0 {
        1
    } else {
        256 * pow256((k - 1) as nat)
    }
}

pub proof fn lemma_pow256_64()
    ensures
        pow256(8) == 0x10000000000000000,
        pow256(4) == 0x100000000,
{
    reveal_with_fuel(pow256, 9);
}

/// Appends the `k` little-endian bytes of `x`.
fn push_le(out: &mut Vec<u8>, x: u64, k: usize)
    requires
        k <= 8,
        (x as int) < pow256(k as nat),
    ensures
        final(out)@ == old(out)@ + enc_le(x as int, k as nat),
{
    let ghost orig = out@;
    let mut v = x;
    let mut i: usize = 0;
    while i < k
        invariant
            0 <= i <= k,
            out@ =~= orig + enc_le(x as int, i as nat).add(Seq::empty()),
            enc_le(x as int, k as nat) =~= enc_le(x as int, i as nat) + enc_le(
                v as int,
                (k - i) as nat,
            ),
        decreases k - i,
    {
        let byte = (v % 256) as u8;
        let ghost prev = out@;
        out.push(byte);
        proof {
            assert(enc_le(x as int, (i + 1) as nat) =~= enc_le(x as int, i as nat) + seq![
                (v % 256) as u8,
            ]) by {
                lemma_enc_le_split(x as int, v as int, i as nat, (k - i) as nat);
            }
            assert(out@ =~= orig + enc_le(x as int, (i + 1) as nat));
            assert(enc_le(v as int, (k - i) as nat) =~= seq![(v % 256) as u8] + enc_le(
                (v / 256) as int,
                (k - i - 1) as nat,
            ));
            assert(enc_le(x as int, k as nat) =~= enc_le(x as int, (i + 1) as nat) + enc_le(
                (v / 256) as int,
                (k - i - 1) as nat,
            )) by {
                assert((enc_le(x as int, i as nat) + enc_le(v as int, (k - i) as nat)) =~= (enc_le(
                    x as int,
                    (i + 1) as nat,
                ) + enc_le((v / 256) as int, (k - i - 1) as nat)));
            }
        }
        v = v / 256;
        i += 1;
    }
    proof {
        assert(out@ =~= orig + enc_le(x as int, k as nat));
    }
}

/// Splitting the little-endian bytes after `i` positions.
proof fn lemma_enc_le_split(x: int, v: int, i: nat, rest: nat)
    requires
        rest > 0,
        enc_le(x, (i + rest) as nat) =~= enc_le(x, i) + enc_le(v, rest),
    ensures
        enc_le(x, (i + 1) as nat) =~= enc_le(x, i) + seq![(v % 256) as u8],
    decreases i,
{
    lemma_enc_le_len(x, i);
    lemma_enc_le_len(v, rest);
    lemma_enc_le_len(x, (i + 1) as nat);
    lemma_enc_le_len(x, (i + rest) as nat);
    assert(enc_le(x, (i + rest) as nat)[i as int] == (v % 256) as u8) by {
        assert((enc_le(x, i) + enc_le(v, rest))[i as int] == enc_le(v, rest)[0]);
    }
    lemma_enc_le_prefix(x, (i + 1) as nat, (i + rest) as nat);
    assert(enc_le(x, (i + 1) as nat) =~= enc_le(x, (i + rest) as nat).subrange(0, i as int + 1));
    assert(enc_le(x, (i + 1) as nat)[i as int] == (v % 256) as u8);
    lemma_enc_le_prefix(x, i, (i + 1) as nat);
    assert(enc_le(x, i) =~= enc_le(x, (i + 1) as nat).subrange(0, i as int));
    assert(enc_le(x, (i + 1) as nat) =~= enc_le(x, i) + seq![(v % 256) as u8]);
}

/// Shorter encodings are prefixes of longer ones.
proof fn lemma_enc_le_prefix(x: int, k1: nat, k2: nat)
    requires
        k1 <= k2,
    ensures
        enc_le(x, k1) =~= enc_le(x, k2).subrange(0, k1 as int),
    decreases k1,
{
    lemma_enc_le_len(x, k1);
    lemma_enc_le_len(x, k2);
    if k1 > 0 {
        lemma_enc_le_prefix(x / 256, (k1 - 1) as nat, (k2 - 1) as nat);
        assert(enc_le(x, k2).subrange(0, k1 as int) =~= seq![(x % 256) as u8] + enc_le(
            x / 256,
            (k2 - 1) as nat,
        ).subrange(0, k1 as int - 1));
    }
}

/// Reads `k` little-endian bytes at `pos`.
fn read_le(b: &Vec<u8>, pos: usize, k: usize) -> (r: Option<(u64, usize)>)
    requires
        k <= 8,
    ensures
        ({
            if pos + k <= b@.len() {
                r matches Some(p) && p.0 as int == dec_le(b@, pos as int, k as nat) && p.1 == pos
                    + k
            } else {
                r is None
            }
        }),
{
    if pos > b.len() || k > b.len() - pos {
        return None;
    }
    let blen = b.len();
    let mut acc: u64 = 0;
    let mut i: usize = k;
    while i > 0
        invariant
            0 <= i <= k <= 8,
            pos + k <= blen,
            blen == b@.len(),
            acc as int == dec_le(b@, pos + i, (k - i) as nat),
            (acc as int) < pow256((k - i) as nat),
        decreases i,
    {
        i -= 1;
        proof {
            lemma_dec_le_bound(b@, pos + i, (k - i) as nat);
            lemma_pow256_64();
            lemma_pow256_mono((k - i) as nat, 8);
        }
        acc = acc * 256 + (b[pos + i] as u64);
    }
    Some((acc, pos + k))
}

pub proof fn lemma_dec_le_bound(b: Seq<u8>, pos: int, k: nat)
    ensures
        0 <= dec_le(b, pos, k) < pow256(k),
    decreases k,
{
    if k > 0 {
        lemma_dec_le_bound(b, pos + 1, (k - 1) as nat);
    }
}

proof fn lemma_pow256_mono(k1: nat, k2: nat)
    requires
        k1 <= k2,
    ensures
        pow256(k1) <= pow256(k2),
    decreases k2,
{
    if k2 > 0 && k1 < k2 {
        lemma_pow256_mono(k1, (k2 - 1) as nat);
        lemma_dec_le_bound(Seq::empty(), 0, k2);  // pow256 positive comes along
        assert(pow256((k2 - 1) as nat) >= 1) by {
            lemma_pow256_pos((k2 - 1) as nat);
        }
    }
}

proof fn lemma_pow256_pos(k: nat)
    ensures
        pow256(k) >= 1,
    decreases k,
{
    if k > 0 {
        lemma_pow256_pos((k - 1) as nat);
    }
}


// ---------------------------------------------------------------------------
// Field encodings: every field is one or more 8-byte little-endian words.
// ---------------------------------------------------------------------------
pub open spec fn enc_word(x: int) -> Seq<u8> {
    enc_le(x, 8)
}

pub open spec fn dec_word(b: Seq<u8>, pos: int) -> Option<(int, int)> {
    if 0 <= pos && pos + 8 <= b.len() {
        Some((dec_le(b, pos, 8), pos + 8))
    } else {
        None
    }
}

/// A word written at `pos` reads back as itself.
pub proof fn lemma_rt_word(b: Seq<u8>, pos: int, x: int)
    requires
        0 <= x < pow256(8),
        0 <= pos,
        pos + 8 <= b.len(),
        b.subrange(pos, pos + 8) == enc_word(x),
    ensures
        dec_word(b, pos) == Some((x, pos + 8)),
{
    lemma_le_round_trip(b, pos, x, 8);
}

/// A byte range equal to a concatenation splits into its two parts.
pub proof fn lemma_subrange_split(b: Seq<u8>, pos: int, s1: Seq<u8>, s2: Seq<u8>)
    requires
        0 <= pos,
        pos + s1.len() + s2.len() <= b.len(),
        b.subrange(pos, pos + s1.len() + s2.len()) == s1 + s2,
    ensures
        b.subrange(pos, pos + s1.len()) =~= s1,
        b.subrange(pos + s1.len(), pos + s1.len() + s2.len()) =~= s2,
{
    let whole = b.subrange(pos, pos + s1.len() + s2.len());
    assert forall|i: int| 0 <= i < s1.len() implies b.subrange(pos, pos + s1.len() as int)[i]
        == s1[i] by {
        assert(whole[i] == b[pos + i]);
        assert((s1 + s2)[i] == s1[i]);
    }
    assert forall|i: int| 0 <= i < s2.len() implies b.subrange(
        pos + s1.len() as int,
        pos + s1.len() + s2.len() as int,
    )[i] == s2[i] by {
        assert(whole[s1.len() + i] == b[pos + s1.len() + i]);
        assert((s1 + s2)[s1.len() + i] == s2[i]);
    }
}

/// A signed value: a sign word then a magnitude word.
pub open spec fn enc_signed(x: int) -> Seq<u8> {
    enc_word(if x < 0 { 1 } else { 0 }) + enc_word(if x < 0 { -x } else { x })
}

pub open spec fn dec_signed(b: Seq<u8>, pos: int) -> Option<(int, int)> {
    match dec_word(b, pos) {
        None => None,
        Some((sg, p1)) => match dec_word(b, p1) {
            None => None,
            Some((mag, p2)) => if sg == 0 {
                Some((mag, p2))
            } else if sg == 1 {
                Some((-mag, p2))
            } else {
                None
            },
        },
    }
}

pub proof fn lemma_rt_signed(b: Seq<u8>, pos: int, x: int)
    requires
        -pow256(8) < x < pow256(8),
        0 <= pos,
        pos + 16 <= b.len(),
        b.subrange(pos, pos + 16) == enc_signed(x),
    ensures
        dec_signed(b, pos) == Some((x, pos + 16)),
{
    lemma_enc_le_len(if x < 0 { 1int } else { 0int }, 8);
    lemma_enc_le_len(if x < 0 { -x } else { x }, 8);
    lemma_subrange_split(
        b,
        pos,
        enc_word(if x < 0 { 1int } else { 0int }),
        enc_word(if x < 0 { -x } else { x }),
    );
    lemma_rt_word(b, pos, if x < 0 { 1int } else { 0int });
    lemma_rt_word(b, pos + 8, if x < 0 { -x } else { x });
}

/// Characters are valid Unicode scalar values.
pub proof fn lemma_char_bounds(c: char)
    ensures
        c as int == c as u32 as int,
        c as u32 <= 0x10FFFFu32,
{
}

/// The code point of a character, as a named function so that it can
/// serve as a quantifier trigger.
pub open spec fn char_code(c: char) -> int {
    c as int
}

/// The characters of a string, one word each.
pub open spec fn enc_chars(s: Seq<char>) -> Seq<u8>
    decreases s.len(),
{
    if s.len() == 0 {
        Seq::empty()
    } else {
        enc_word(s[0] as int) + enc_chars(s.drop_first())
    }
}

pub open spec fn dec_chars(b: Seq<u8>, pos: int, n: nat) -> Option<(Seq<char>, int)>
    decreases n,
{
    if n == 0 {
        Some((Seq::empty(), pos))
    } else {
        match dec_word(b, pos) {
            None => None,
            Some((v, p1)) => if exists|c: char| #[trigger] char_code(c) == v {
                match dec_chars(b, p1, (n - 1) as nat) {
                    None => None,
                    Some((rest, p2)) => Some((seq![choose|c: char| #[trigger] char_code(c) == v] + rest, p2)),
                }
            } else {
                None
            },
        }
    }
}

pub proof fn lemma_enc_chars_len(s: Seq<char>)
    ensures
        enc_chars(s).len() == 8 * s.len(),
    decreases s.len(),
{
    lemma_enc_le_len(if s.len() > 0 { s[0] as int } else { 0 }, 8);
    if s.len() > 0 {
        lemma_enc_chars_len(s.drop_first());
    }
}

pub proof fn lemma_rt_chars(b: Seq<u8>, pos: int, s: Seq<char>)
    requires
        0 <= pos,
        pos + 8 * s.len() <= b.len(),
        b.subrange(pos, pos + 8 * s.len()) == enc_chars(s),
    ensures
        dec_chars(b, pos, s.len()) == Some((s, pos + 8 * s.len())),
    decreases s.len(),
{
    if s.len() > 0 {
        let c0 = s[0];
        lemma_enc_le_len(c0 as int, 8);
        lemma_enc_chars_len(s.drop_first());
        lemma_subrange_split(b, pos, enc_word(c0 as int), enc_chars(s.drop_first()));
        lemma_pow256_64();
        lemma_char_bounds(c0);
        lemma_rt_word(b, pos, c0 as int);
        assert(char_code(c0) == c0 as int);
        assert(exists|c: char| #[trigger] char_code(c) == c0 as int);
        let c1 = choose|c: char| #[trigger] char_code(c) == c0 as int;
        assert(c1 as int == c0 as int);
        assert(c1 == c0);
        lemma_rt_chars(b, pos + 8, s.drop_first());
        assert(seq![c0] + s.drop_first() =~= s);
    }
}

/// A string: its length, then its characters.
pub open spec fn enc_str(s: Seq<char>) -> Seq<u8> {
    enc_word(s.len() as int) + enc_chars(s)
}

pub open spec fn dec_str(b: Seq<u8>, pos: int) -> Option<(Seq<char>, int)> {
    match dec_word(b, pos) {
        None => None,
        Some((n, p1)) => if n >= 0 {
            dec_chars(b, p1, n as nat)
        } else {
            None
        },
    }
}

pub proof fn lemma_rt_str(b: Seq<u8>, pos: int, s: Seq<char>)
    requires
        0 <= pos,
        s.len() < pow256(8),
        pos + enc_str(s).len() <= b.len(),
        b.subrange(pos, pos + enc_str(s).len()) == enc_str(s),
    ensures
        dec_str(b, pos) == Some((s, pos + enc_str(s).len())),
{
    lemma_pow256_64();
    lemma_enc_le_len(s.len() as int, 8);
    lemma_enc_chars_len(s);
    lemma_subrange_split(b, pos, enc_word(s.len() as int), enc_chars(s));
    lemma_rt_word(b, pos, s.len() as int);
    lemma_rt_chars(b, pos + 8, s);
}

/// A list of 32-bit ids: its length, then one word each.
pub open spec fn enc_u32s_items(v: Seq<u32>) -> Seq<u8>
    decreases v.len(),
{
    if v.len() == 0 {
        Seq::empty()
    } else {
        enc_word(v[0] as int) + enc_u32s_items(v.drop_first())
    }
}

pub open spec fn enc_u32s(v: Seq<u32>) -> Seq<u8> {
    enc_word(v.len() as int) + enc_u32s_items(v)
}

pub open spec fn dec_u32s_items(b: Seq<u8>, pos: int, n: nat) -> Option<(Seq<u32>, int)>
    decreases n,
{
    if n == 0 {
        Some((Seq::empty(), pos))
    } else {
        match dec_word(b, pos) {
            None => None,
            Some((v, p1)) => if 0 <= v <= u32::MAX {
                match dec_u32s_items(b, p1, (n - 1) as nat) {
                    None => None,
                    Some((rest, p2)) => Some((seq![v as u32] + rest, p2)),
                }
            } else {
                None
            },
        }
    }
}

pub open spec fn dec_u32s(b: Seq<u8>, pos: int) -> Option<(Seq<u32>, int)> {
    match dec_word(b, pos) {
        None => None,
        Some((n, p1)) => if n >= 0 {
            dec_u32s_items(b, p1, n as nat)
        } else {
            None
        },
    }
}

pub proof fn lemma_enc_u32s_items_len(v: Seq<u32>)
    ensures
        enc_u32s_items(v).len() == 8 * v.len(),
    decreases v.len(),
{
    lemma_enc_le_len(if v.len() > 0 { v[0] as int } else { 0 }, 8);
    if v.len() > 0 {
        lemma_enc_u32s_items_len(v.drop_first());
    }
}

pub proof fn lemma_rt_u32s_items(b: Seq<u8>, pos: int, v: Seq<u32>)
    requires
        0 <= pos,
        pos + 8 * v.len() <= b.len(),
        b.subrange(pos, pos + 8 * v.len()) == enc_u32s_items(v),
    ensures
        dec_u32s_items(b, pos, v.len()) == Some((v, pos + 8 * v.len())),
    decreases v.len(),
{
    if v.len() > 0 {
        lemma_enc_le_len(v[0] as int, 8);
        lemma_enc_u32s_items_len(v.drop_first());
        lemma_subrange_split(b, pos, enc_word(v[0] as int), enc_u32s_items(v.drop_first()));
        lemma_pow256_64();
        lemma_rt_word(b, pos, v[0] as int);
        lemma_rt_u32s_items(b, pos + 8, v.drop_first());
        assert(seq![v[0]] + v.drop_first() =~= v);
    }
}

pub proof fn lemma_rt_u32s(b: Seq<u8>, pos: int, v: Seq<u32>)
    requires
        0 <= pos,
        v.len() < pow256(8),
        pos + enc_u32s(v).len() <= b.len(),
        b.subrange(pos, pos + enc_u32s(v).len()) == enc_u32s(v),
    ensures
        dec_u32s(b, pos) == Some((v, pos + enc_u32s(v).len())),
{
    lemma_pow256_64();
    lemma_enc_le_len(v.len() as int, 8);
    lemma_enc_u32s_items_len(v);
    lemma_subrange_split(b, pos, enc_word(v.len() as int), enc_u32s_items(v));
    lemma_rt_word(b, pos, v.len() as int);
    lemma_rt_u32s_items(b, pos + 8, v);
}

/// A list of strings: its length, then each string.
pub open spec fn enc_strs_items(v: Seq<Seq<char>>) -> Seq<u8>
    decreases v.len(),
{
    if v.len() == 0 {
        Seq::empty()
    } else {
        enc_str(v[0]) + enc_strs_items(v.drop_first())
    }
}

pub open spec fn enc_strs(v: Seq<Seq<char>>) -> Seq<u8> {
    enc_word(v.len() as int) + enc_strs_items(v)
}

pub open spec fn dec_strs_items(b: Seq<u8>, pos: int, n: nat) -> Option<(Seq<Seq<char>>, int)>
    decreases n,
{
    if n == 0 {
        Some((Seq::empty(), pos))
    } else {
        match dec_str(b, pos) {
            None => None,
            Some((s, p1)) => match dec_strs_items(b, p1, (n - 1) as nat) {
                None => None,
                Some((rest, p2)) => Some((seq![s] + rest, p2)),
            },
        }
    }
}

pub open spec fn dec_strs(b: Seq<u8>, pos: int) -> Option<(Seq<Seq<char>>, int)> {
    match dec_word(b, pos) {
        None => None,
        Some((n, p1)) => if n >= 0 {
            dec_strs_items(b, p1, n as nat)
        } else {
            None
        },
    }
}

/// Every string in the list is shorter than the length word can carry.
pub open spec fn strs_bounded(v: Seq<Seq<char>>) -> bool {
    forall|i: int| 0 <= i < v.len() ==> (#[trigger] v[i]).len() < pow256(8)
}

pub proof fn lemma_rt_strs_items(b: Seq<u8>, pos: int, v: Seq<Seq<char>>)
    requires
        0 <= pos,
        strs_bounded(v),
        pos + enc_strs_items(v).len() <= b.len(),
        b.subrange(pos, pos + enc_strs_items(v).len()) == enc_strs_items(v),
    ensures
        dec_strs_items(b, pos, v.len()) == Some((v, pos + enc_strs_items(v).len())),
    decreases v.len(),
{
    if v.len() > 0 {
        let e0 = enc_str(v[0]);
        let rest = enc_strs_items(v.drop_first());
        assert(enc_strs_items(v) == e0 + rest);
        lemma_subrange_split(b, pos, e0, rest);
        lemma_rt_str(b, pos, v[0]);
        assert(strs_bounded(v.drop_first())) by {
            assert(forall|i: int|
                0 <= i < v.drop_first().len() ==> (#[trigger] v.drop_first()[i]) == v[i + 1]);
        }
        lemma_rt_strs_items(b, pos + e0.len() as int, v.drop_first());
        assert(seq![v[0]] + v.drop_first() =~= v);
    }
}

pub proof fn lemma_rt_strs(b: Seq<u8>, pos: int, v: Seq<Seq<char>>)
    requires
        0 <= pos,
        v.len() < pow256(8),
        strs_bounded(v),
        pos + enc_strs(v).len() <= b.len(),
        b.subrange(pos, pos + enc_strs(v).len()) == enc_strs(v),
    ensures
        dec_strs(b, pos) == Some((v, pos + enc_strs(v).len())),
{
    lemma_pow256_64();
    lemma_enc_le_len(v.len() as int, 8);
    lemma_subrange_split(b, pos, enc_word(v.len() as int), enc_strs_items(v));
    lemma_rt_word(b, pos, v.len() as int);
    lemma_rt_strs_items(b, pos + 8, v);
}


// ---------------------------------------------------------------------------
// Entities.
// ---------------------------------------------------------------------------
pub open spec fn enc_pv(p: PValue) -> Seq<u8> {
    enc_word(if p.neg { 1 } else { 0 }) + (enc_word(p.mantissa as int) + enc_signed(p.exp as int))
}

pub open spec fn dec_pv(b: Seq<u8>, pos: int) -> Option<(PValue, int)> {
    match dec_word(b, pos) {
        None => None,
        Some((ng, p1)) => if ng == 0 || ng == 1 {
            match dec_word(b, p1) {
                None => None,
                Some((m, p2)) => match dec_signed(b, p2) {
                    None => None,
                    Some((e, p3)) => if -0x80000000 <= e <= 0x7FFFFFFF {
                        Some((PValue { neg: ng == 1, mantissa: m as u64, exp: e as i32 }, p3))
                    } else {
                        None
                    },
                },
            }
        } else {
            None
        },
    }
}

pub proof fn lemma_enc_pv_len(p: PValue)
    ensures
        enc_pv(p).len() == 32,
{
    lemma_enc_le_len(if p.neg { 1int } else { 0int }, 8);
    lemma_enc_le_len(p.mantissa as int, 8);
    lemma_enc_le_len(if (p.exp as int) < 0 { 1int } else { 0int }, 8);
    lemma_enc_le_len(if (p.exp as int) < 0 { -(p.exp as int) } else { p.exp as int }, 8);
}

pub proof fn lemma_rt_pv(b: Seq<u8>, pos: int, p: PValue)
    requires
        0 <= pos,
        pos + 32 <= b.len(),
        b.subrange(pos, pos + 32) == enc_pv(p),
    ensures
        dec_pv(b, pos) == Some((p, pos + 32)),
{
    lemma_pow256_64();
    lemma_enc_pv_len(p);
    lemma_enc_le_len(if p.neg { 1int } else { 0int }, 8);
    lemma_enc_le_len(p.mantissa as int, 8);
    lemma_enc_le_len(if (p.exp as int) < 0 { 1int } else { 0int }, 8);
    lemma_enc_le_len(if (p.exp as int) < 0 { -(p.exp as int) } else { p.exp as int }, 8);
    lemma_subrange_split(
        b,
        pos,
        enc_word(if p.neg { 1int } else { 0int }),
        enc_word(p.mantissa as int) + enc_signed(p.exp as int),
    );
    lemma_rt_word(b, pos, if p.neg { 1int } else { 0int });
    lemma_subrange_split(b, pos + 8, enc_word(p.mantissa as int), enc_signed(p.exp as int));
    lemma_pow256_64();
    lemma_rt_word(b, pos + 8, p.mantissa as int);
    lemma_rt_signed(b, pos + 16, p.exp as int);
}

pub open spec fn enc_assoc(a: AssocView) -> Seq<u8> {
    enc_u32s(a.traits) + (enc_pv(a.p_value) + (enc_strs(a.mapped_gene) + (enc_word(
        a.accession_id as int,
    ) + enc_word(a.pubmed as int))))
}

pub open spec fn dec_assoc(b: Seq<u8>, pos: int) -> Option<(AssocView, int)> {
    match dec_u32s(b, pos) {
        None => None,
        Some((traits, p1)) => match dec_pv(b, p1) {
            None => None,
            Some((pv, p2)) => match dec_strs(b, p2) {
                None => None,
                Some((genes, p3)) => match dec_word(b, p3) {
                    None => None,
                    Some((acc, p4)) => if 0 <= acc <= u32::MAX {
                        match dec_word(b, p4) {
                            None => None,
                            Some((pm, p5)) => if 0 <= pm <= u32::MAX {
                                Some(
                                    (
                                        AssocView {
                                            traits,
                                            p_value: pv,
                                            mapped_gene: genes,
                                            accession_id: acc as u32,
                                            pubmed: pm as u32,
                                        },
                                        p5,
                                    ),
                                )
                            } else {
                                None
                            },
                        }
                    } else {
                        None
                    },
                },
            },
        },
    }
}

/// All lengths fit the length words.
pub open spec fn assoc_bounded(a: AssocView) -> bool {
    a.traits.len() < pow256(8) && a.mapped_gene.len() < pow256(8) && strs_bounded(a.mapped_gene)
}

pub proof fn lemma_rt_assoc(b: Seq<u8>, pos: int, a: AssocView)
    requires
        0 <= pos,
        assoc_bounded(a),
        pos + enc_assoc(a).len() <= b.len(),
        b.subrange(pos, pos + enc_assoc(a).len()) == enc_assoc(a),
    ensures
        dec_assoc(b, pos) == Some((a, pos + enc_assoc(a).len())),
{
    let e1 = enc_u32s(a.traits);
    let e2 = enc_pv(a.p_value);
    let e3 = enc_strs(a.mapped_gene);
    let e4 = enc_word(a.accession_id as int);
    let e5 = enc_word(a.pubmed as int);
    lemma_enc_pv_len(a.p_value);
    lemma_enc_le_len(a.accession_id as int, 8);
    lemma_enc_le_len(a.pubmed as int, 8);
    lemma_subrange_split(b, pos, e1, e2 + (e3 + (e4 + e5)));
    lemma_rt_u32s(b, pos, a.traits);
    let q1 = pos + e1.len() as int;
    lemma_subrange_split(b, q1, e2, e3 + (e4 + e5));
    lemma_rt_pv(b, q1, a.p_value);
    let q2 = q1 + 32;
    lemma_subrange_split(b, q2, e3, e4 + e5);
    lemma_rt_strs(b, q2, a.mapped_gene);
    let q3 = q2 + e3.len() as int;
    lemma_subrange_split(b, q3, e4, e5);
    lemma_pow256_64();
    lemma_rt_word(b, q3, a.accession_id as int);
    lemma_rt_word(b, q3 + 8, a.pubmed as int);
}

pub open spec fn enc_assoc_items(s: Seq<AssocView>) -> Seq<u8>
    decreases s.len(),
{
    if s.len() == 0 {
        Seq::empty()
    } else {
        enc_assoc(s[0]) + enc_assoc_items(s.drop_first())
    }
}

pub open spec fn dec_assoc_items(b: Seq<u8>, pos: int, n: nat) -> Option<(Seq<AssocView>, int)>
    decreases n,
{
    if n == 0 {
        Some((Seq::empty(), pos))
    } else {
        match dec_assoc(b, pos) {
            None => None,
            Some((a, p1)) => match dec_assoc_items(b, p1, (n - 1) as nat) {
                None => None,
                Some((rest, p2)) => Some((seq![a] + rest, p2)),
            },
        }
    }
}

pub open spec fn all_assocs_bounded(s: Seq<AssocView>) -> bool {
    forall|i: int| 0 <= i < s.len() ==> assoc_bounded(#[trigger] s[i])
}

pub proof fn lemma_rt_assoc_items(b: Seq<u8>, pos: int, s: Seq<AssocView>)
    requires
        0 <= pos,
        all_assocs_bounded(s),
        pos + enc_assoc_items(s).len() <= b.len(),
        b.subrange(pos, pos + enc_assoc_items(s).len()) == enc_assoc_items(s),
    ensures
        dec_assoc_items(b, pos, s.len()) == Some((s, pos + enc_assoc_items(s).len())),
    decreases s.len(),
{
    if s.len() > 0 {
        let e0 = enc_assoc(s[0]);
        let rest = enc_assoc_items(s.drop_first());
        lemma_subrange_split(b, pos, e0, rest);
        lemma_rt_assoc(b, pos, s[0]);
        assert(all_assocs_bounded(s.drop_first())) by {
            assert(forall|i: int|
                0 <= i < s.drop_first().len() ==> (#[trigger] s.drop_first()[i]) == s[i + 1]);
        }
        lemma_rt_assoc_items(b, pos + e0.len() as int, s.drop_first());
        assert(seq![s[0]] + s.drop_first() =~= s);
    }
}

/// The whole association archive: version byte, count, items.
pub open spec fn enc_assoc_archive(s: Seq<AssocView>) -> Seq<u8> {
    seq![ARCHIVE_VERSION] + (enc_word(s.len() as int) + enc_assoc_items(s))
}

pub open spec fn dec_assoc_archive(b: Seq<u8>) -> Option<Seq<AssocView>> {
    if b.len() < 1 || b[0] != ARCHIVE_VERSION {
        None
    } else {
        match dec_word(b, 1) {
            None => None,
            Some((n, p1)) => if n >= 0 {
                match dec_assoc_items(b, p1, n as nat) {
                    None => None,
                    Some((s, _)) => Some(s),
                }
            } else {
                None
            },
        }
    }
}

/// Round trip for association archives: decoding an encoded collection
/// gives back exactly the collection.
pub proof fn lemma_assoc_archive_round_trip(s: Seq<AssocView>)
    requires
        s.len() < pow256(8),
        all_assocs_bounded(s),
    ensures
        dec_assoc_archive(enc_assoc_archive(s)) == Some(s),
{
    let b = enc_assoc_archive(s);
    lemma_pow256_64();
    lemma_enc_le_len(s.len() as int, 8);
    assert(b[0] == ARCHIVE_VERSION);
    assert(b.subrange(1, 1 + 8 + enc_assoc_items(s).len() as int) =~= enc_word(s.len() as int)
        + enc_assoc_items(s));
    lemma_subrange_split(b, 1, enc_word(s.len() as int), enc_assoc_items(s));
    lemma_rt_word(b, 1, s.len() as int);
    lemma_rt_assoc_items(b, 9, s);
}

pub open spec fn enc_efo(e: EfoView) -> Seq<u8> {
    enc_word(e.id as int) + (enc_str(e.label) + ((match e.parent {
        Some(p) => enc_word(1) + enc_word(p as int),
        None => enc_word(0) + enc_word(0),
    }) + (enc_u32s(e.children) + enc_strs(e.synonyms))))
}

pub open spec fn dec_efo(b: Seq<u8>, pos: int) -> Option<(EfoView, int)> {
    match dec_word(b, pos) {
        None => None,
        Some((id, p1)) => if 0 <= id <= u32::MAX {
            match dec_str(b, p1) {
                None => None,
                Some((label, p2)) => match dec_word(b, p2) {
                    None => None,
                    Some((tag, p3)) => match dec_word(b, p3) {
                        None => None,
                        Some((pv, p4)) => if !(0 <= pv <= u32::MAX) {
                            None
                        } else if tag == 0 || tag == 1 {
                            match dec_u32s(b, p4) {
                                None => None,
                                Some((children, p5)) => match dec_strs(b, p5) {
                                    None => None,
                                    Some((synonyms, p6)) => Some(
                                        (
                                            EfoView {
                                                id: id as u32,
                                                label,
                                                parent: if tag == 1 {
                                                    Some(pv as u32)
                                                } else {
                                                    None
                                                },
                                                children,
                                                synonyms,
                                            },
                                            p6,
                                        ),
                                    ),
                                },
                            }
                        } else {
                            None
                        },
                    },
                },
            }
        } else {
            None
        },
    }
}

pub open spec fn efo_bounded(e: EfoView) -> bool {
    e.label.len() < pow256(8) && e.children.len() < pow256(8) && e.synonyms.len() < pow256(8)
        && strs_bounded(e.synonyms)
}

pub proof fn lemma_rt_efo(b: Seq<u8>, pos: int, e: EfoView)
    requires
        0 <= pos,
        efo_bounded(e),
        pos + enc_efo(e).len() <= b.len(),
        b.subrange(pos, pos + enc_efo(e).len()) == enc_efo(e),
    ensures
        dec_efo(b, pos) == Some((e, pos + enc_efo(e).len())),
{
    let e1 = enc_word(e.id as int);
    let e2 = enc_str(e.label);
    let e3 = match e.parent {
        Some(p) => enc_word(1) + enc_word(p as int),
        None => enc_word(0) + enc_word(0),
    };
    let e4 = enc_u32s(e.children);
    let e5 = enc_strs(e.synonyms);
    lemma_enc_le_len(e.id as int, 8);
    lemma_enc_le_len(0, 8);
    lemma_enc_le_len(1, 8);
    lemma_enc_le_len(
        match e.parent {
            Some(p) => p as int,
            None => 0,
        },
        8,
    );
    lemma_pow256_64();
    lemma_subrange_split(b, pos, e1, e2 + (e3 + (e4 + e5)));
    lemma_rt_word(b, pos, e.id as int);
    let q1 = pos + 8;
    lemma_subrange_split(b, q1, e2, e3 + (e4 + e5));
    lemma_rt_str(b, q1, e.label);
    let q2 = q1 + e2.len() as int;
    lemma_subrange_split(b, q2, e3, e4 + e5);
    match e.parent {
        Some(p) => {
            lemma_subrange_split(b, q2, enc_word(1), enc_word(p as int));
            lemma_rt_word(b, q2, 1);
            lemma_rt_word(b, q2 + 8, p as int);
        },
        None => {
            lemma_subrange_split(b, q2, enc_word(0), enc_word(0));
            lemma_rt_word(b, q2, 0);
            lemma_rt_word(b, q2 + 8, 0);
        },
    }
    let q3 = q2 + 16;
    lemma_subrange_split(b, q3, e4, e5);
    lemma_rt_u32s(b, q3, e.children);
    lemma_rt_strs(b, q3 + e4.len() as int, e.synonyms);
}

pub open spec fn enc_efo_items(s: Seq<EfoView>) -> Seq<u8>
    decreases s.len(),
{
    if s.len() == 0 {
        Seq::empty()
    } else {
        enc_efo(s[0]) + enc_efo_items(s.drop_first())
    }
}

pub open spec fn dec_efo_items(b: Seq<u8>, pos: int, n: nat) -> Option<(Seq<EfoView>, int)>
    decreases n,
{
    if n == 0 {
        Some((Seq::empty(), pos))
    } else {
        match dec_efo(b, pos) {
            None => None,
            Some((e, p1)) => match dec_efo_items(b, p1, (n - 1) as nat) {
                None => None,
                Some((rest, p2)) => Some((seq![e] + rest, p2)),
            },
        }
    }
}

pub open spec fn all_efos_bounded(s: Seq<EfoView>) -> bool {
    forall|i: int| 0 <= i < s.len() ==> efo_bounded(#[trigger] s[i])
}

pub proof fn lemma_rt_efo_items(b: Seq<u8>, pos: int, s: Seq<EfoView>)
    requires
        0 <= pos,
        all_efos_bounded(s),
        pos + enc_efo_items(s).len() <= b.len(),
        b.subrange(pos, pos + enc_efo_items(s).len()) == enc_efo_items(s),
    ensures
        dec_efo_items(b, pos, s.len()) == Some((s, pos + enc_efo_items(s).len())),
    decreases s.len(),
{
    if s.len() > 0 {
        let e0 = enc_efo(s[0]);
        let rest = enc_efo_items(s.drop_first());
        lemma_subrange_split(b, pos, e0, rest);
        lemma_rt_efo(b, pos, s[0]);
        assert(all_efos_bounded(s.drop_first())) by {
            assert(forall|i: int|
                0 <= i < s.drop_first().len() ==> (#[trigger] s.drop_first()[i]) == s[i + 1]);
        }
        lemma_rt_efo_items(b, pos + e0.len() as int, s.drop_first());
        assert(seq![s[0]] + s.drop_first() =~= s);
    }
}

pub open spec fn enc_efo_archive(s: Seq<EfoView>) -> Seq<u8> {
    seq![ARCHIVE_VERSION] + (enc_word(s.len() as int) + enc_efo_items(s))
}

pub open spec fn dec_efo_archive(b: Seq<u8>) -> Option<Seq<EfoView>> {
    if b.len() < 1 || b[0] != ARCHIVE_VERSION {
        None
    } else {
        match dec_word(b, 1) {
            None => None,
            Some((n, p1)) => if n >= 0 {
                match dec_efo_items(b, p1, n as nat) {
                    None => None,
                    Some((s, _)) => Some(s),
                }
            } else {
                None
            },
        }
    }
}

/// Round trip for trait-node archives.
pub proof fn lemma_efo_archive_round_trip(s: Seq<EfoView>)
    requires
        s.len() < pow256(8),
        all_efos_bounded(s),
    ensures
        dec_efo_archive(enc_efo_archive(s)) == Some(s),
{
    let b = enc_efo_archive(s);
    lemma_pow256_64();
    lemma_enc_le_len(s.len() as int, 8);
    assert(b[0] == ARCHIVE_VERSION);
    assert(b.subrange(1, 1 + 8 + enc_efo_items(s).len() as int) =~= enc_word(s.len() as int)
        + enc_efo_items(s));
    lemma_subrange_split(b, 1, enc_word(s.len() as int), enc_efo_items(s));
    lemma_rt_word(b, 1, s.len() as int);
    lemma_rt_efo_items(b, 9, s);
}

pub open spec fn enc_meta_archive(m: Metadata) -> Seq<u8> {
    seq![ARCHIVE_VERSION] + enc_signed(m.last_updated as int)
}

pub open spec fn dec_meta_archive(b: Seq<u8>) -> Option<Metadata> {
    if b.len() < 1 || b[0] != ARCHIVE_VERSION {
        None
    } else {
        match dec_signed(b, 1) {
            None => None,
            Some((ts, _)) => if i64::MIN <= ts <= i64::MAX {
                Some(Metadata { last_updated: ts as i64 })
            } else {
                None
            },
        }
    }
}

/// Round trip for the metadata record.
pub proof fn lemma_meta_archive_round_trip(m: Metadata)
    ensures
        dec_meta_archive(enc_meta_archive(m)) == Some(m),
{
    let b = enc_meta_archive(m);
    lemma_enc_le_len(if (m.last_updated as int) < 0 { 1int } else { 0int }, 8);
    lemma_enc_le_len(
        if (m.last_updated as int) < 0 {
            -(m.last_updated as int)
        } else {
            m.last_updated as int
        },
        8,
    );
    assert(b[0] == ARCHIVE_VERSION);
    assert(b.subrange(1, 17) =~= enc_signed(m.last_updated as int));
    lemma_pow256_64();
    lemma_rt_signed(b, 1, m.last_updated as int);
}


// ---------------------------------------------------------------------------
// Executable encoders.
// ---------------------------------------------------------------------------
/// Relies on char::from_u32: a character comes back exactly for the valid
/// Unicode scalar values.
#[verifier::external_body]
fn char_from_u32(v: u32) -> (r: Option<char>)
    ensures
        r matches Some(c) ==> c as u32 == v,
        r is None ==> !(exists|c: char| #[trigger] char_code(c) == v as int),
{
    char::from_u32(v)
}

fn push_str_enc(out: &mut Vec<u8>, s: &String)
    ensures
        final(out)@ == old(out)@ + enc_str(s@),
{
    let ghost orig = out@;
    let n = s.as_str().unicode_len();
    proof {
        lemma_pow256_64();
    }
    push_le(out, n as u64, 8);
    let mut i: usize = 0;
    while i < n
        invariant
            0 <= i <= n,
            n == s@.len(),
            out@ =~= orig + enc_word(s@.len() as int) + enc_chars(s@.subrange(0, i as int)),
        decreases n - i,
    {
        let c = s.as_str().get_char(i);
        proof {
            lemma_char_bounds(c);
            lemma_pow256_64();
        }
        push_le(out, c as u32 as u64, 8);
        proof {
            lemma_enc_chars_snoc(s@, i as int);
        }
        i += 1;
    }
    proof {
        assert(s@.subrange(0, n as int) =~= s@);
        assert(out@ =~= orig + enc_str(s@));
    }
}

/// Appending one more character to an encoded prefix.
proof fn lemma_enc_chars_snoc(s: Seq<char>, i: int)
    requires
        0 <= i < s.len(),
    ensures
        enc_chars(s.subrange(0, i + 1)) =~= enc_chars(s.subrange(0, i)) + enc_word(s[i] as int),
    decreases i,
{
    if i == 0 {
        let single = s.subrange(0, 1);
        assert(single[0] == s[0]);
        assert(single.drop_first() =~= Seq::<char>::empty());
        assert(s.subrange(0, 0) =~= Seq::<char>::empty());
        assert(enc_chars(single) =~= enc_word(s[0] as int) + enc_chars(single.drop_first()));
        assert(enc_chars(Seq::<char>::empty()) =~= Seq::<u8>::empty());
        assert(enc_chars(single.drop_first()) == enc_chars(Seq::<char>::empty()));
    } else {
        let p = s.subrange(0, i + 1);
        let q = s.subrange(0, i);
        assert(p.drop_first() =~= s.subrange(1, s.len() as int).subrange(0, i));
        assert(q.drop_first() =~= s.subrange(1, s.len() as int).subrange(0, i - 1));
        lemma_enc_chars_snoc(s.subrange(1, s.len() as int), i - 1);
        assert(enc_chars(p) =~= enc_word(s[0] as int) + enc_chars(p.drop_first()));
        assert(enc_chars(q) =~= enc_word(s[0] as int) + enc_chars(q.drop_first()));
    }
}

fn push_u32s_enc(out: &mut Vec<u8>, v: &Vec<u32>)
    ensures
        final(out)@ == old(out)@ + enc_u32s(v@),
{
    let ghost orig = out@;
    proof {
        lemma_pow256_64();
    }
    push_le(out, v.len() as u64, 8);
    let mut i: usize = 0;
    while i < v.len()
        invariant
            0 <= i <= v@.len(),
            out@ =~= orig + enc_word(v@.len() as int) + enc_u32s_items_pfx(v@, i as int),
        decreases v@.len() - i,
    {
        proof {
            lemma_pow256_64();
        }
        push_le(out, v[i] as u64, 8);
        i += 1;
    }
    proof {
        lemma_u32s_items_pfx_full(v@);
        assert(out@ =~= orig + enc_u32s(v@));
    }
}

/// Encoded prefix of an id list, defined front to back for loop use.
pub open spec fn enc_u32s_items_pfx(v: Seq<u32>, i: int) -> Seq<u8>
    decreases i,
{
    if i <= 0 {
        Seq::empty()
    } else {
        enc_u32s_items_pfx(v, i - 1) + enc_word(v[i - 1] as int)
    }
}

proof fn lemma_u32s_items_pfx_full(v: Seq<u32>)
    ensures
        enc_u32s_items_pfx(v, v.len() as int) =~= enc_u32s_items(v),
    decreases v.len(),
{
    lemma_u32s_items_pfx_shift(v, v.len() as int);
}

/// Front-to-back and back-to-front renderings agree.
proof fn lemma_u32s_items_pfx_shift(v: Seq<u32>, i: int)
    requires
        0 <= i <= v.len(),
    ensures
        enc_u32s_items_pfx(v, i) + enc_u32s_items(v.skip(i)) =~= enc_u32s_items(v),
    decreases i,
{
    if i == 0 {
        assert(v.skip(0) =~= v);
    } else {
        lemma_u32s_items_pfx_shift(v, i - 1);
        assert(v.skip(i - 1)[0] == v[i - 1]);
        assert(v.skip(i - 1).drop_first() =~= v.skip(i));
        assert(enc_u32s_items(v.skip(i - 1)) =~= enc_word(v[i - 1] as int) + enc_u32s_items(
            v.skip(i),
        ));
    }
}

fn push_strs_enc(out: &mut Vec<u8>, v: &Vec<String>)
    ensures
        final(out)@ == old(out)@ + enc_strs(v.deep_view()),
{
    let ghost orig = out@;
    let ghost w = v.deep_view();
    proof {
        lemma_pow256_64();
        assert(w.len() == v@.len());
    }
    push_le(out, v.len() as u64, 8);
    let mut i: usize = 0;
    while i < v.len()
        invariant
            0 <= i <= v@.len(),
            w == v.deep_view(),
            w.len() == v@.len(),
            out@ =~= orig + enc_word(w.len() as int) + enc_strs_items_pfx(w, i as int),
        decreases v@.len() - i,
    {
        proof {
            assert(w[i as int] == v@[i as int]@);
        }
        push_str_enc(out, &v[i]);
        i += 1;
    }
    proof {
        lemma_strs_items_pfx_shift(w, w.len() as int);
        assert(w.skip(w.len() as int) =~= Seq::<Seq<char>>::empty());
        assert(out@ =~= orig + enc_strs(w));
    }
}

pub open spec fn enc_strs_items_pfx(v: Seq<Seq<char>>, i: int) -> Seq<u8>
    decreases i,
{
    if i <= 0 {
        Seq::empty()
    } else {
        enc_strs_items_pfx(v, i - 1) + enc_str(v[i - 1])
    }
}

proof fn lemma_strs_items_pfx_shift(v: Seq<Seq<char>>, i: int)
    requires
        0 <= i <= v.len(),
    ensures
        enc_strs_items_pfx(v, i) + enc_strs_items(v.skip(i)) =~= enc_strs_items(v),
    decreases i,
{
    if i == 0 {
        assert(v.skip(0) =~= v);
    } else {
        lemma_strs_items_pfx_shift(v, i - 1);
        assert(v.skip(i - 1)[0] == v[i - 1]);
        assert(v.skip(i - 1).drop_first() =~= v.skip(i));
        assert(enc_strs_items(v.skip(i - 1)) =~= enc_str(v[i - 1]) + enc_strs_items(v.skip(i)));
    }
}

fn push_pv_enc(out: &mut Vec<u8>, p: &PValue)
    ensures
        final(out)@ == old(out)@ + enc_pv(*p),
{
    proof {
        lemma_pow256_64();
    }
    let ghost orig = out@;
    push_le(out, if p.neg { 1 } else { 0 }, 8);
    push_le(out, p.mantissa, 8);
    push_le(out, if p.exp < 0 { 1 } else { 0 }, 8);
    let mag: u64 = if p.exp < 0 {
        (-(p.exp as i64)) as u64
    } else {
        p.exp as u64
    };
    push_le(out, mag, 8);
    proof {
        assert(out@ =~= orig + enc_pv(*p));
    }
}

fn push_assoc_enc(out: &mut Vec<u8>, a: &Association)
    ensures
        final(out)@ == old(out)@ + enc_assoc(a@),
{
    let ghost orig = out@;
    push_u32s_enc(out, &a.traits);
    push_pv_enc(out, &a.p_value);
    push_strs_enc(out, &a.mapped_gene);
    proof {
        lemma_pow256_64();
    }
    push_le(out, a.accession_id as u64, 8);
    push_le(out, a.pubmed as u64, 8);
    proof {
        assert(out@ =~= orig + enc_assoc(a@));
    }
}

/// Encodes an association collection into the archival form.
pub fn encode_associations(v: &Vec<Association>) -> (r: Vec<u8>)
    ensures
        r@ == enc_assoc_archive(views_of(v@)),
{
    let ghost s = views_of(v@);
    let mut out: Vec<u8> = Vec::new();
    out.push(ARCHIVE_VERSION);
    proof {
        lemma_pow256_64();
        assert(s.len() == v@.len());
        assert(out@ =~= seq![ARCHIVE_VERSION]);
    }
    push_le(&mut out, v.len() as u64, 8);
    let mut i: usize = 0;
    while i < v.len()
        invariant
            0 <= i <= v@.len(),
            s == views_of(v@),
            s.len() == v@.len(),
            out@ =~= seq![ARCHIVE_VERSION] + enc_word(s.len() as int) + enc_assoc_items_pfx(
                s,
                i as int,
            ),
        decreases v@.len() - i,
    {
        proof {
            assert(s[i as int] == v@[i as int]@);
        }
        push_assoc_enc(&mut out, &v[i]);
        i += 1;
    }
    proof {
        lemma_assoc_items_pfx_shift(s, s.len() as int);
        assert(s.skip(s.len() as int) =~= Seq::<AssocView>::empty());
        assert(out@ =~= enc_assoc_archive(s));
    }
    out
}

pub open spec fn enc_assoc_items_pfx(v: Seq<AssocView>, i: int) -> Seq<u8>
    decreases i,
{
    if i <= 0 {
        Seq::empty()
    } else {
        enc_assoc_items_pfx(v, i - 1) + enc_assoc(v[i - 1])
    }
}

proof fn lemma_assoc_items_pfx_shift(v: Seq<AssocView>, i: int)
    requires
        0 <= i <= v.len(),
    ensures
        enc_assoc_items_pfx(v, i) + enc_assoc_items(v.skip(i)) =~= enc_assoc_items(v),
    decreases i,
{
    if i == 0 {
        assert(v.skip(0) =~= v);
    } else {
        lemma_assoc_items_pfx_shift(v, i - 1);
        assert(v.skip(i - 1)[0] == v[i - 1]);
        assert(v.skip(i - 1).drop_first() =~= v.skip(i));
        assert(enc_assoc_items(v.skip(i - 1)) =~= enc_assoc(v[i - 1]) + enc_assoc_items(v.skip(i)));
    }
}

fn push_efo_enc(out: &mut Vec<u8>, e: &Efo)
    ensures
        final(out)@ == old(out)@ + enc_efo(e@),
{
    let ghost orig = out@;
    proof {
        lemma_pow256_64();
    }
    push_le(out, e.id as u64, 8);
    push_str_enc(out, &e.label);
    let (tagv, magv): (u64, u64) = match e.parent {
        Some(p) => (1, p as u64),
        None => (0, 0),
    };
    push_le(out, tagv, 8);
    push_le(out, magv, 8);
    proof {
        assert(enc_word(tagv as int) + enc_word(magv as int) =~= (match e@.parent {
            Some(p) => enc_word(1) + enc_word(p as int),
            None => enc_word(0) + enc_word(0),
        }));
    }
    push_u32s_enc(out, &e.children);
    push_strs_enc(out, &e.synonyms);
    proof {
        assert(e@.children =~= e.children@);
        assert(out@ =~= orig + enc_efo(e@));
    }
}

/// Encodes a trait-node collection into the archival form.
pub fn encode_efos(v: &Vec<Efo>) -> (r: Vec<u8>)
    ensures
        r@ == enc_efo_archive(crate::ontology::efo_views(v@)),
{
    let ghost s = efo_views(v@);
    let mut out: Vec<u8> = Vec::new();
    out.push(ARCHIVE_VERSION);
    proof {
        lemma_pow256_64();
        assert(s.len() == v@.len());
        assert(out@ =~= seq![ARCHIVE_VERSION]);
    }
    push_le(&mut out, v.len() as u64, 8);
    let mut i: usize = 0;
    while i < v.len()
        invariant
            0 <= i <= v@.len(),
            s == efo_views(v@),
            s.len() == v@.len(),
            out@ =~= seq![ARCHIVE_VERSION] + enc_word(s.len() as int) + enc_efo_items_pfx(
                s,
                i as int,
            ),
        decreases v@.len() - i,
    {
        proof {
            assert(s[i as int] == v@[i as int]@);
        }
        push_efo_enc(&mut out, &v[i]);
        i += 1;
    }
    proof {
        lemma_efo_items_pfx_shift(s, s.len() as int);
        assert(s.skip(s.len() as int) =~= Seq::<EfoView>::empty());
        assert(out@ =~= enc_efo_archive(s));
    }
    out
}

pub open spec fn enc_efo_items_pfx(v: Seq<EfoView>, i: int) -> Seq<u8>
    decreases i,
{
    if i <= 0 {
        Seq::empty()
    } else {
        enc_efo_items_pfx(v, i - 1) + enc_efo(v[i - 1])
    }
}

proof fn lemma_efo_items_pfx_shift(v: Seq<EfoView>, i: int)
    requires
        0 <= i <= v.len(),
    ensures
        enc_efo_items_pfx(v, i) + enc_efo_items(v.skip(i)) =~= enc_efo_items(v),
    decreases i,
{
    if i == 0 {
        assert(v.skip(0) =~= v);
    } else {
        lemma_efo_items_pfx_shift(v, i - 1);
        assert(v.skip(i - 1)[0] == v[i - 1]);
        assert(v.skip(i - 1).drop_first() =~= v.skip(i));
        assert(enc_efo_items(v.skip(i - 1)) =~= enc_efo(v[i - 1]) + enc_efo_items(v.skip(i)));
    }
}

/// Encodes the metadata record into the archival form.
pub fn encode_metadata(m: &Metadata) -> (r: Vec<u8>)
    ensures
        r@ == enc_meta_archive(*m),
{
    let mut out: Vec<u8> = Vec::new();
    out.push(ARCHIVE_VERSION);
    proof {
        lemma_pow256_64();
        assert(out@ =~= seq![ARCHIVE_VERSION]);
    }
    push_le(&mut out, if m.last_updated < 0 { 1 } else { 0 }, 8);
    let mag: u64 = if m.last_updated < 0 {
        (-(m.last_updated as i128)) as u64
    } else {
        m.last_updated as u64
    };
    push_le(&mut out, mag, 8);
    proof {
        assert(out@ =~= enc_meta_archive(*m));
    }
    out
}


// ---------------------------------------------------------------------------
// Executable decoders.
// ---------------------------------------------------------------------------
/// Relies on char::to_string: a one-character string.
#[verifier::external_body]
fn char_to_string(c: char) -> (r: String)
    ensures
        r@ =~= seq![c],
{
    let mut s = String::new();
    s.push(c);
    s
}

fn read_str(b: &Vec<u8>, pos: usize) -> (r: Option<(String, usize)>)
    ensures
        match r {
            Some(p) => dec_str(b@, pos as int) == Some((p.0@, p.1 as int)),
            None => dec_str(b@, pos as int) is None,
        },
{
    let (n, p1) = match read_le(b, pos, 8) {
        Some(x) => x,
        None => {
            return None;
        },
    };
    let mut out = String::new();
    let mut i: u64 = 0;
    let mut cur = p1;
    loop
        invariant
            0 <= i <= n,
            cur <= b@.len(),
            dec_word(b@, pos as int) == Some((n as int, p1 as int)),
            dec_chars(b@, p1 as int, n as nat) == (match dec_chars(
                b@,
                cur as int,
                (n - i) as nat,
            ) {
                None => None::<(Seq<char>, int)>,
                Some((rest, q)) => Some((out@ + rest, q)),
            }),
        decreases n - i,
    {
        if i == n {
            proof {
                assert(out@ + Seq::<char>::empty() =~= out@);
            }
            return Some((out, cur));
        }
        let (w, p2) = match read_le(b, cur, 8) {
            Some(x) => x,
            None => {
                return None;
            },
        };
        if w > 0x10FFFF {
            proof {
                if exists|c: char| #[trigger] char_code(c) == w as int {
                    let c = choose|c: char| #[trigger] char_code(c) == w as int;
                    lemma_char_bounds(c);
                }
            }
            return None;
        }
        let c = match char_from_u32(w as u32) {
            Some(c) => c,
            None => {
                proof {
                    if exists|c: char| #[trigger] char_code(c) == w as int {
                        let c = choose|c: char| #[trigger] char_code(c) == w as int;
                        lemma_char_bounds(c);
                        assert(char_code(c) == (w as u32) as int);
                    }
                }
                return None;
            },
        };
        proof {
            lemma_char_bounds(c);
            assert(char_code(c) == w as int);
        }
        let ghost prev = out@;
        let cs = char_to_string(c);
        out.append(cs.as_str());
        proof {
            assert(out@ =~= prev.push(c));
            let c2 = choose|cc: char| #[trigger] char_code(cc) == w as int;
            assert(c2 == c);
            assert forall|rest: Seq<char>| true implies prev + (seq![c] + rest) =~= out@ + rest by {}
        }
        cur = p2;
        i += 1;
    }
}

fn read_u32(b: &Vec<u8>, pos: usize) -> (r: Option<(u32, usize)>)
    ensures
        match r {
            Some(p) => dec_word(b@, pos as int) == Some((p.0 as int, p.1 as int)),
            None => dec_word(b@, pos as int) is None || !(0 <= dec_word(
                b@,
                pos as int,
            ).unwrap().0 <= u32::MAX),
        },
{
    let (w, p1) = match read_le(b, pos, 8) {
        Some(x) => x,
        None => {
            return None;
        },
    };
    if w > u32::MAX as u64 {
        return None;
    }
    Some((w as u32, p1))
}

fn read_u32s(b: &Vec<u8>, pos: usize) -> (r: Option<(Vec<u32>, usize)>)
    ensures
        match r {
            Some(p) => dec_u32s(b@, pos as int) == Some((p.0@, p.1 as int)),
            None => dec_u32s(b@, pos as int) is None,
        },
{
    let (n, p1) = match read_le(b, pos, 8) {
        Some(x) => x,
        None => {
            return None;
        },
    };
    let mut out: Vec<u32> = Vec::new();
    let mut i: u64 = 0;
    let mut cur = p1;
    loop
        invariant
            0 <= i <= n,
            cur <= b@.len(),
            dec_word(b@, pos as int) == Some((n as int, p1 as int)),
            dec_u32s_items(b@, p1 as int, n as nat) == (match dec_u32s_items(
                b@,
                cur as int,
                (n - i) as nat,
            ) {
                None => None::<(Seq<u32>, int)>,
                Some((rest, q)) => Some((out@ + rest, q)),
            }),
        decreases n - i,
    {
        if i == n {
            proof {
                assert(out@ + Seq::<u32>::empty() =~= out@);
            }
            return Some((out, cur));
        }
        let (w, p2) = match read_le(b, cur, 8) {
            Some(x) => x,
            None => {
                return None;
            },
        };
        if w > u32::MAX as u64 {
            return None;
        }
        let ghost prev = out@;
        out.push(w as u32);
        proof {
            assert forall|rest: Seq<u32>| true implies prev + (seq![w as u32] + rest) =~= out@
                + rest by {}
        }
        cur = p2;
        i += 1;
    }
}

fn read_strs(b: &Vec<u8>, pos: usize) -> (r: Option<(Vec<String>, usize)>)
    ensures
        match r {
            Some(p) => dec_strs(b@, pos as int) == Some((p.0.deep_view(), p.1 as int)),
            None => dec_strs(b@, pos as int) is None,
        },
{
    let (n, p1) = match read_le(b, pos, 8) {
        Some(x) => x,
        None => {
            return None;
        },
    };
    let mut out: Vec<String> = Vec::new();
    let mut i: u64 = 0;
    let mut cur = p1;
    loop
        invariant
            0 <= i <= n,
            cur <= b@.len(),
            dec_word(b@, pos as int) == Some((n as int, p1 as int)),
            dec_strs_items(b@, p1 as int, n as nat) == (match dec_strs_items(
                b@,
                cur as int,
                (n - i) as nat,
            ) {
                None => None::<(Seq<Seq<char>>, int)>,
                Some((rest, q)) => Some((out.deep_view() + rest, q)),
            }),
        decreases n - i,
    {
        if i == n {
            proof {
                assert(out.deep_view() + Seq::<Seq<char>>::empty() =~= out.deep_view());
            }
            return Some((out, cur));
        }
        let (sv, p2) = match read_str(b, cur) {
            Some(x) => x,
            None => {
                return None;
            },
        };
        proof {
            if p2 as int > b@.len() {
                lemma_dec_str_pos(b@, cur as int);
            }
        }
        let ghost prev = out.deep_view();
        let ghost sview = sv@;
        out.push(sv);
        proof {
            assert(out.deep_view() =~= prev.push(sview));
            assert forall|rest: Seq<Seq<char>>| true implies prev + (seq![sview] + rest)
                =~= out.deep_view() + rest by {}
        }
        cur = p2;
        i += 1;
    }
}

/// A successful string decode never runs past the buffer.
proof fn lemma_dec_str_pos(b: Seq<u8>, pos: int)
    ensures
        dec_str(b, pos) matches Some(p) ==> p.1 <= b.len(),
{
    if dec_str(b, pos) is Some {
        match dec_word(b, pos) {
            None => {},
            Some((n, p1)) => {
                if n >= 0 {
                    lemma_dec_chars_pos(b, p1, n as nat);
                }
            },
        }
    }
}

proof fn lemma_dec_chars_pos(b: Seq<u8>, pos: int, n: nat)
    ensures
        dec_chars(b, pos, n) matches Some(p) ==> p.1 <= b.len() || (n == 0 && p.1 == pos),
    decreases n,
{
    if n > 0 {
        match dec_word(b, pos) {
            None => {},
            Some((v, p1)) => {
                lemma_dec_chars_pos(b, p1, (n - 1) as nat);
            },
        }
    }
}

fn read_pv(b: &Vec<u8>, pos: usize) -> (r: Option<(PValue, usize)>)
    ensures
        match r {
            Some(p) => dec_pv(b@, pos as int) == Some((p.0, p.1 as int)),
            None => dec_pv(b@, pos as int) is None,
        },
{
    let (ng, p1) = match read_le(b, pos, 8) {
        Some(x) => x,
        None => {
            return None;
        },
    };
    if ng > 1 {
        return None;
    }
    let (m, p2) = match read_le(b, p1, 8) {
        Some(x) => x,
        None => {
            return None;
        },
    };
    let (sg, p3) = match read_le(b, p2, 8) {
        Some(x) => x,
        None => {
            return None;
        },
    };
    let (mag, p4) = match read_le(b, p3, 8) {
        Some(x) => x,
        None => {
            return None;
        },
    };
    if sg > 1 {
        return None;
    }
    let e_wide: i128 = if sg == 1 {
        -(mag as i128)
    } else {
        mag as i128
    };
    if e_wide < -0x80000000i128 || e_wide > 0x7FFFFFFFi128 {
        return None;
    }
    Some((PValue { neg: ng == 1, mantissa: m, exp: e_wide as i32 }, p4))
}

fn read_assoc(b: &Vec<u8>, pos: usize) -> (r: Option<(Association, usize)>)
    ensures
        match r {
            Some(p) => dec_assoc(b@, pos as int) == Some((p.0@, p.1 as int)),
            None => dec_assoc(b@, pos as int) is None,
        },
{
    let (traits, p1) = match read_u32s(b, pos) {
        Some(x) => x,
        None => {
            return None;
        },
    };
    let (pv, p2) = match read_pv(b, p1) {
        Some(x) => x,
        None => {
            return None;
        },
    };
    let (genes, p3) = match read_strs(b, p2) {
        Some(x) => x,
        None => {
            return None;
        },
    };
    let (acc, p4) = match read_u32(b, p3) {
        Some(x) => x,
        None => {
            return None;
        },
    };
    let (pm, p5) = match read_u32(b, p4) {
        Some(x) => x,
        None => {
            return None;
        },
    };
    let a = Association {
        traits,
        p_value: pv,
        mapped_gene: genes,
        accession_id: acc,
        pubmed: pm,
    };
    proof {
        assert(a@ =~= dec_assoc(b@, pos as int).unwrap().0);
    }
    Some((a, p5))
}

fn read_efo(b: &Vec<u8>, pos: usize) -> (r: Option<(Efo, usize)>)
    ensures
        match r {
            Some(p) => dec_efo(b@, pos as int) == Some((p.0@, p.1 as int)),
            None => dec_efo(b@, pos as int) is None,
        },
{
    let (id, p1) = match read_u32(b, pos) {
        Some(x) => x,
        None => {
            return None;
        },
    };
    let (label, p2) = match read_str(b, p1) {
        Some(x) => x,
        None => {
            return None;
        },
    };
    let (tag, p3) = match read_le(b, p2, 8) {
        Some(x) => x,
        None => {
            return None;
        },
    };
    let (pvw, p4) = match read_le(b, p3, 8) {
        Some(x) => x,
        None => {
            return None;
        },
    };
    if pvw > u32::MAX as u64 {
        return None;
    }
    if tag > 1 {
        return None;
    }
    let (children, p5) = match read_u32s(b, p4) {
        Some(x) => x,
        None => {
            return None;
        },
    };
    let (synonyms, p6) = match read_strs(b, p5) {
        Some(x) => x,
        None => {
            return None;
        },
    };
    let e = Efo {
        id,
        label,
        parent: if tag == 1 {
            Some(pvw as u32)
        } else {
            None
        },
        children,
        synonyms,
    };
    proof {
        assert(e@ =~= dec_efo(b@, pos as int).unwrap().0);
    }
    Some((e, p6))
}

/// Decodes an association archive. A wrong version byte is a format
/// mismatch; any other malformed input is a parse failure.
pub fn decode_associations(b: &Vec<u8>) -> (r: Result<Vec<Association>, GwasError>)
    ensures
        r is Ok <==> dec_assoc_archive(b@) is Some,
        r matches Ok(v) ==> Some(views_of(v@)) == dec_assoc_archive(b@),
        r matches Err(e) ==> (e == GwasError::FormatMismatch <==> (b@.len() < 1 || b@[0]
            != ARCHIVE_VERSION)) && (e == GwasError::FormatMismatch || e == GwasError::Parse),
{
    if b.len() < 1 {
        return Err(GwasError::FormatMismatch);
    }
    if b[0] != ARCHIVE_VERSION {
        return Err(GwasError::FormatMismatch);
    }
    let (n, p1) = match read_le(b, 1, 8) {
        Some(x) => x,
        None => {
            return Err(GwasError::Parse);
        },
    };
    let mut out: Vec<Association> = Vec::new();
    let mut i: u64 = 0;
    let mut cur = p1;
    loop
        invariant
            0 <= i <= n,
            b@.len() >= 1 && b@[0] == ARCHIVE_VERSION,
            dec_word(b@, 1) == Some((n as int, p1 as int)),
            dec_assoc_items(b@, p1 as int, n as nat) == (match dec_assoc_items(
                b@,
                cur as int,
                (n - i) as nat,
            ) {
                None => None::<(Seq<AssocView>, int)>,
                Some((rest, q)) => Some((views_of(out@) + rest, q)),
            }),
        decreases n - i,
    {
        if i == n {
            proof {
                assert(views_of(out@) + Seq::<AssocView>::empty() =~= views_of(out@));
            }
            return Ok(out);
        }
        let (a, p2) = match read_assoc(b, cur) {
            Some(x) => x,
            None => {
                return Err(GwasError::Parse);
            },
        };
        let ghost prev = views_of(out@);
        let ghost av = a@;
        out.push(a);
        proof {
            assert(views_of(out@) =~= prev.push(av));
            assert forall|rest: Seq<AssocView>| true implies prev + (seq![av] + rest) =~= views_of(
                out@,
            ) + rest by {}
        }
        cur = p2;
        i += 1;
    }
}

/// Decodes a trait-node archive.
pub fn decode_efos(b: &Vec<u8>) -> (r: Result<Vec<Efo>, GwasError>)
    ensures
        r is Ok <==> dec_efo_archive(b@) is Some,
        r matches Ok(v) ==> Some(efo_views(v@)) == dec_efo_archive(b@),
        r matches Err(e) ==> (e == GwasError::FormatMismatch <==> (b@.len() < 1 || b@[0]
            != ARCHIVE_VERSION)) && (e == GwasError::FormatMismatch || e == GwasError::Parse),
{
    if b.len() < 1 {
        return Err(GwasError::FormatMismatch);
    }
    if b[0] != ARCHIVE_VERSION {
        return Err(GwasError::FormatMismatch);
    }
    let (n, p1) = match read_le(b, 1, 8) {
        Some(x) => x,
        None => {
            return Err(GwasError::Parse);
        },
    };
    let mut out: Vec<Efo> = Vec::new();
    let mut i: u64 = 0;
    let mut cur = p1;
    loop
        invariant
            0 <= i <= n,
            b@.len() >= 1 && b@[0] == ARCHIVE_VERSION,
            dec_word(b@, 1) == Some((n as int, p1 as int)),
            dec_efo_items(b@, p1 as int, n as nat) == (match dec_efo_items(
                b@,
                cur as int,
                (n - i) as nat,
            ) {
                None => None::<(Seq<EfoView>, int)>,
                Some((rest, q)) => Some((efo_views(out@) + rest, q)),
            }),
        decreases n - i,
    {
        if i == n {
            proof {
                assert(efo_views(out@) + Seq::<EfoView>::empty() =~= efo_views(out@));
            }
            return Ok(out);
        }
        let (e, p2) = match read_efo(b, cur) {
            Some(x) => x,
            None => {
                return Err(GwasError::Parse);
            },
        };
        let ghost prev = efo_views(out@);
        let ghost ev = e@;
        out.push(e);
        proof {
            assert(efo_views(out@) =~= prev.push(ev));
            assert forall|rest: Seq<EfoView>| true implies prev + (seq![ev] + rest) =~= efo_views(
                out@,
            ) + rest by {}
        }
        cur = p2;
        i += 1;
    }
}

/// Decodes the metadata record.
pub fn decode_metadata(b: &Vec<u8>) -> (r: Result<Metadata, GwasError>)
    ensures
        r is Ok <==> dec_meta_archive(b@) is Some,
        r matches Ok(m) ==> Some(m) == dec_meta_archive(b@),
        r matches Err(e) ==> (e == GwasError::FormatMismatch <==> (b@.len() < 1 || b@[0]
            != ARCHIVE_VERSION)) && (e == GwasError::FormatMismatch || e == GwasError::Parse),
{
    if b.len() < 1 {
        return Err(GwasError::FormatMismatch);
    }
    if b[0] != ARCHIVE_VERSION {
        return Err(GwasError::FormatMismatch);
    }
    let (sg, p1) = match read_le(b, 1, 8) {
        Some(x) => x,
        None => {
            return Err(GwasError::Parse);
        },
    };
    let (mag, _p2) = match read_le(b, p1, 8) {
        Some(x) => x,
        None => {
            return Err(GwasError::Parse);
        },
    };
    if sg > 1 {
        return Err(GwasError::Parse);
    }
    let wide: i128 = if sg == 1 {
        -(mag as i128)
    } else {
        mag as i128
    };
    if wide < i64::MIN as i128 || wide > i64::MAX as i128 {
        return Err(GwasError::Parse);
    }
    Ok(Metadata { last_updated: wide as i64 })
}

} // verus!
