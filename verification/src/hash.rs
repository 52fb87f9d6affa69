//! Deterministic FNV-1a 64-bit hashing, the identity of sources and plans.

use vstd::prelude::*;
use crate::text::{cat, push_char};

verus! {

/// FNV-1a 64-bit offset basis.
pub const FNV_OFFSET: u64 = 0xcbf29ce484222325;

/// FNV-1a 64-bit prime.
pub const FNV_PRIME: u64 = 0x0000_0100_0000_01b3;

/// The FNV-1a 64-bit state after absorbing `bytes`: each byte is xored
/// in, then the state is multiplied by the prime modulo 2^64.
pub open spec fn fnv_state(bytes: Seq<u8>) -> u64
    decreases bytes.len(),
{
    if bytes.len() == 0 {
        FNV_OFFSET
    } else {
        let h = fnv_state(bytes.drop_last()) ^ (bytes.last() as u64);
        ((h as nat * FNV_PRIME as nat) % 0x1_0000_0000_0000_0000) as u64
    }
}

/// The lowercase hexadecimal digit for `d` (`d < 16`).
pub open spec fn hex_char(d: nat) -> char {
    if d < 10 {
        ((48 + d) as u8) as char
    } else {
        ((87 + d) as u8) as char
    }
}

/// The `width` low hexadecimal digits of `n`, most significant first,
/// zero-padded.
pub open spec fn hex_digits(n: nat, width: nat) -> Seq<char>
    decreases width,
{
    if width == 0 {
        seq![]
    } else {
        hex_digits(n / 16, (width - 1) as nat).push(hex_char(n % 16))
    }
}

/// The hash text of `bytes`: `fnv1a64:` and the state as 16 hex digits.
pub open spec fn fnv_text(bytes: Seq<u8>) -> Seq<char> {
    "fnv1a64:"@ + hex_digits(fnv_state(bytes) as nat, 16)
}

fn push_hex(s: &mut String, n: u64, width: u32)
    requires
        width <= 16,
    ensures
        final(s)@ == old(s)@ + hex_digits(n as nat, width as nat),
    decreases width,
{
    if width > 0 {
        push_hex(s, n / 16, width - 1);
        let d = (n % 16) as u8;
        let c = if d < 10 { (48u8 + d) as char } else { (87u8 + d) as char };
        push_char(s, c);
    }
}

/// Deterministic FNV-1a 64-bit over bytes, as `fnv1a64:` followed by 16
/// lowercase hex digits: stable across platforms and runs, so identical
/// sources and plans hash identically everywhere.
pub fn fnv1a64(bytes: &[u8]) -> (r: String)
    ensures
        r@ == fnv_text(bytes@),
{
    let mut h: u64 = FNV_OFFSET;
    let mut i: usize = 0;
    while i < bytes.len()
        invariant
            i <= bytes@.len(),
            h == fnv_state(bytes@.take(i as int)),
        decreases bytes@.len() - i,
    {
        let b = bytes[i];
        assert(bytes@.take(i + 1).drop_last() == bytes@.take(i as int));
        h = h ^ (b as u64);
        h = h.wrapping_mul(FNV_PRIME);
        i = i + 1;
    }
    assert(bytes@.take(bytes@.len() as int) == bytes@);
    let mut hex = String::new();
    push_hex(&mut hex, h, 16);
    cat("fnv1a64:", hex.as_str())
}

proof fn lemma_hex_digits_len(n: nat, width: nat)
    ensures
        hex_digits(n, width).len() == width,
    decreases width,
{
    if width > 0 {
        lemma_hex_digits_len(n / 16, (width - 1) as nat);
    }
}

/// Every hash text is the prefix `fnv1a64:` followed by exactly sixteen
/// lowercase hexadecimal digits.
pub proof fn lemma_fnv_text_shape(bytes: Seq<u8>)
    ensures
        fnv_text(bytes).len() == 24,
        fnv_text(bytes).subrange(0, 8) == "fnv1a64:"@,
        forall|i: int| 8 <= i < 24 ==> {
            let c = #[trigger] fnv_text(bytes)[i];
            ('0' <= c && c <= '9') || ('a' <= c && c <= 'f')
        },
{
    reveal_strlit("fnv1a64:");
    let h = fnv_state(bytes) as nat;
    lemma_hex_digits_len(h, 16);
    lemma_hex_digits_are_hex(h, 16);
    let t = fnv_text(bytes);
    assert(t.subrange(0, 8) =~= "fnv1a64:"@);
    assert forall|i: int| 8 <= i < 24 implies {
        let c = #[trigger] t[i];
        ('0' <= c && c <= '9') || ('a' <= c && c <= 'f')
    } by {
        assert(t[i] == hex_digits(h, 16)[i - 8]);
    }
}

proof fn lemma_hex_digits_are_hex(n: nat, width: nat)
    ensures
        forall|i: int| 0 <= i < hex_digits(n, width).len() ==> {
            let c = #[trigger] hex_digits(n, width)[i];
            ('0' <= c && c <= '9') || ('a' <= c && c <= 'f')
        },
    decreases width,
{
    if width > 0 {
        let prev = hex_digits(n / 16, (width - 1) as nat);
        lemma_hex_digits_are_hex(n / 16, (width - 1) as nat);
        let d = n % 16;
        let c = hex_char(d);
        assert(('0' <= c && c <= '9') || ('a' <= c && c <= 'f'));
        let all = hex_digits(n, width);
        assert(all == prev.push(c));
        assert forall|i: int| 0 <= i < all.len() implies {
            let e = #[trigger] all[i];
            ('0' <= e && e <= '9') || ('a' <= e && e <= 'f')
        } by {
            if i < prev.len() {
                assert(all[i] == prev[i]);
            } else {
                assert(all[i] == c);
            }
        }
    }
}

/// FNV-1a absorbs the bytes first to last: the state starts at the
/// offset basis, and absorbing one more byte xors it in and multiplies
/// by the prime modulo 2^64.
pub proof fn lemma_fnv_absorbs_in_order(bytes: Seq<u8>, b: u8)
    ensures
        fnv_state(Seq::<u8>::empty()) == 0xcbf29ce484222325u64,
        fnv_state(bytes.push(b)) as nat
            == ((fnv_state(bytes) ^ (b as u64)) as nat * 0x100000001b3nat) % 0x1_0000_0000_0000_0000nat,
{
    assert(bytes.push(b).drop_last() == bytes);
}

/// The hash of `ab` is that of `a` with `b` absorbed after it, not the
/// other way round.
pub proof fn lemma_fnv_of_two_bytes(a: u8, b: u8)
    ensures
        fnv_state(seq![a, b]) as nat == ((((((0xcbf29ce484222325u64 ^ (a as u64)) as nat * 0x100000001b3nat)
            % 0x1_0000_0000_0000_0000nat) as u64) ^ (b as u64)) as nat * 0x100000001b3nat) % 0x1_0000_0000_0000_0000nat,
{
    lemma_fnv_absorbs_in_order(seq![a], b);
    lemma_fnv_absorbs_in_order(Seq::<u8>::empty(), a);
    assert(seq![a, b] == seq![a].push(b));
    assert(seq![a] == Seq::<u8>::empty().push(a));
}

} // verus!
