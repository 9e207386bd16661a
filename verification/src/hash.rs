//! The FNV-1a hash of a wire-format name, and the deny-map key made of it.
use vstd::prelude::*;

verus! {

/// FNV-1a 64-bit offset basis.
pub const FNV_OFFSET: u64 = 0xcbf2_9ce4_8422_2325;

/// FNV-1a 64-bit prime.
pub const FNV_PRIME: u64 = 0x0000_0100_0000_01b3;

/// One FNV-1a round: the byte is XORed into the hash, and the hash multiplied by
/// the prime modulo 2^64.
pub open spec fn fnv_step(hash: u64, byte: u8) -> u64 {
    ((hash ^ (byte as u64)) * FNV_PRIME % 0x1_0000_0000_0000_0000) as u64
}

/// The hash after the rounds for all of `bytes`, in order.
pub open spec fn fnv_fold(hash: u64, bytes: Seq<u8>) -> u64
    decreases bytes.len(),
{
    if bytes.len() == 0 {
        hash
    } else {
        fnv_step(fnv_fold(hash, bytes.drop_last()), bytes.last())
    }
}

/// `bytes` up to and with the first zero byte; all of them where none is zero.
pub open spec fn through_nul(bytes: Seq<u8>) -> Seq<u8>
    decreases bytes.len(),
{
    if bytes.len() == 0 {
        bytes
    } else if bytes[0] == 0 {
        seq![0]
    } else {
        seq![bytes[0]] + through_nul(bytes.drop_first())
    }
}

/// The FNV-1a hash of a wire-format name: of its bytes up to and with the zero
/// byte that ends it.
pub open spec fn name_hash(wire: Seq<u8>) -> u64 {
    fnv_fold(FNV_OFFSET, through_nul(wire))
}

/// Where the first zero byte, if any, is not before `i`: a zero at `i` ends the
/// name, and a name that `i` exhausts is the whole.
pub proof fn lemma_through_nul(bytes: Seq<u8>, i: int)
    requires
        0 <= i <= bytes.len(),
        forall|j: int| 0 <= j < i ==> bytes[j] != 0,
    ensures
        i == bytes.len() ==> through_nul(bytes) == bytes,
        i < bytes.len() && bytes[i] == 0 ==> through_nul(bytes) == bytes.take(i + 1),
    decreases bytes.len(),
{
    if i == 0 && bytes.len() > 0 {
        assert(seq![bytes[0]] =~= bytes.take(1));
    } else if i > 0 {
        let rest = bytes.drop_first();
        lemma_through_nul(rest, i - 1);
        assert(seq![bytes[0]] + rest =~= bytes);
        if i < bytes.len() {
            assert(seq![bytes[0]] + rest.take(i) =~= bytes.take(i + 1));
        }
    }
}

/// Compute FNV-1a 64-bit hash of a wire-format domain name.
#[must_use]
pub fn fnv1a_64(wire: &[u8]) -> (hash: u64)
    ensures
        hash == name_hash(wire@),
{
    let mut hash: u64 = FNV_OFFSET;
    let mut i: usize = 0;
    while i < wire.len()
        invariant
            i <= wire@.len(),
            hash == fnv_fold(FNV_OFFSET, wire@.take(i as int)),
            forall|j: int| 0 <= j < i ==> wire@[j] != 0,
        decreases wire@.len() - i,
    {
        let byte: u8 = wire[i];
        hash = fnv_round(hash, byte);
        proof {
            assert(wire@.take(i + 1).drop_last() =~= wire@.take(i as int));
        }
        if byte == 0 {
            proof {
                lemma_through_nul(wire@, i as int);
            }
            return hash;
        }
        i += 1;
    }
    proof {
        lemma_through_nul(wire@, i as int);
        assert(wire@.take(i as int) =~= wire@);
    }
    hash
}

/// One round of the hash.
pub fn fnv_round(hash: u64, byte: u8) -> (next: u64)
    ensures
        next == fnv_step(hash, byte),
        next == (hash ^ (byte as u64)) * 0x100_0000_01b3 % 0x1_0000_0000_0000_0000,
{
    let mixed: u64 = hash ^ byte as u64;
    mixed.wrapping_mul(FNV_PRIME)
}

/// The eight bytes of a hash, most significant first.
pub open spec fn be_bytes(hash: u64) -> Seq<u8> {
    seq![
        (hash / 0x0100_0000_0000_0000) as u8,
        (hash / 0x0001_0000_0000_0000 % 256) as u8,
        (hash / 0x0000_0100_0000_0000 % 256) as u8,
        (hash / 0x0000_0001_0000_0000 % 256) as u8,
        (hash / 0x0100_0000 % 256) as u8,
        (hash / 0x0001_0000 % 256) as u8,
        (hash / 0x0100 % 256) as u8,
        (hash % 256) as u8,
    ]
}

/// The deny-map key of a hash: its bytes, most significant first.
pub fn deny_key(hash: u64) -> (key: [u8; 8])
    ensures
        key@ == be_bytes(hash),
{
    [
        (hash / 0x0100_0000_0000_0000) as u8,
        (hash / 0x0001_0000_0000_0000 % 256) as u8,
        (hash / 0x0000_0100_0000_0000 % 256) as u8,
        (hash / 0x0000_0001_0000_0000 % 256) as u8,
        (hash / 0x0100_0000 % 256) as u8,
        (hash / 0x0001_0000 % 256) as u8,
        (hash / 0x0100 % 256) as u8,
        (hash % 256) as u8,
    ]
}

/// Two hashes have the same key only where they are the same.
pub proof fn law_deny_key_is_injective(a: u64, b: u64)
    requires
        be_bytes(a) == be_bytes(b),
    ensures
        a == b,
{
    let x = be_bytes(a);
    let y = be_bytes(b);
    assert(x[0] == y[0] && x[1] == y[1] && x[2] == y[2] && x[3] == y[3]);
    assert(x[4] == y[4] && x[5] == y[5] && x[6] == y[6] && x[7] == y[7]);
    assert(a == b) by (bit_vector)
        requires
            a / 0x0100_0000_0000_0000u64 == b / 0x0100_0000_0000_0000u64,
            a / 0x0001_0000_0000_0000u64 % 256u64 == b / 0x0001_0000_0000_0000u64 % 256u64,
            a / 0x0000_0100_0000_0000u64 % 256u64 == b / 0x0000_0100_0000_0000u64 % 256u64,
            a / 0x0000_0001_0000_0000u64 % 256u64 == b / 0x0000_0001_0000_0000u64 % 256u64,
            a / 0x0100_0000u64 % 256u64 == b / 0x0100_0000u64 % 256u64,
            a / 0x0001_0000u64 % 256u64 == b / 0x0001_0000u64 % 256u64,
            a / 0x0100u64 % 256u64 == b / 0x0100u64 % 256u64,
            a % 256u64 == b % 256u64,
    ;
}

/// Whatever follows the zero byte that ends a name does not change its hash.
pub proof fn law_hash_stops_at_the_end_of_the_name(wire: Seq<u8>, trailer: Seq<u8>)
    requires
        wire.contains(0),
    ensures
        name_hash(wire + trailer) == name_hash(wire),
{
    lemma_through_nul_prefix(wire, trailer);
}

/// The zero byte that ends `wire` ends every sequence that starts with `wire`.
pub proof fn lemma_through_nul_prefix(wire: Seq<u8>, trailer: Seq<u8>)
    requires
        wire.contains(0),
    ensures
        through_nul(wire + trailer) == through_nul(wire),
    decreases wire.len(),
{
    let all = wire + trailer;
    if wire[0] != 0 {
        let i = wire.index_of(0);
        assert(wire.drop_first()[i - 1] == 0);
        lemma_through_nul_prefix(wire.drop_first(), trailer);
        assert(all.drop_first() =~= wire.drop_first() + trailer);
    }
}

/// What `through_nul` keeps of a sequence with a zero byte ends with its only
/// zero byte.
pub proof fn lemma_through_nul_ends(bytes: Seq<u8>)
    requires
        bytes.contains(0),
    ensures
        through_nul(bytes).len() > 0,
        through_nul(bytes).last() == 0,
        through_nul(bytes).contains(0),
        through_nul(through_nul(bytes)) == through_nul(bytes),
    decreases bytes.len(),
{
    let kept = through_nul(bytes);
    if bytes[0] != 0 {
        let i = bytes.index_of(0);
        assert(bytes.drop_first()[i - 1] == 0);
        lemma_through_nul_ends(bytes.drop_first());
        assert(kept.drop_first() =~= through_nul(bytes.drop_first()));
    }
    assert(kept[kept.len() - 1] == 0);
}

/// `through_nul` keeps what it keeps in place.
pub proof fn lemma_through_nul_is_prefix(bytes: Seq<u8>)
    ensures
        through_nul(bytes).len() <= bytes.len(),
        through_nul(bytes) == bytes.take(through_nul(bytes).len() as int),
    decreases bytes.len(),
{
    let kept = through_nul(bytes);
    if bytes.len() > 0 && bytes[0] != 0 {
        lemma_through_nul_is_prefix(bytes.drop_first());
        assert(kept =~= bytes.take(kept.len() as int));
    } else {
        assert(kept =~= bytes.take(kept.len() as int));
    }
}

/// Multiplication by the prime can be undone, modulo 2^64.
proof fn lemma_prime_is_invertible(x: u64)
    ensures
        x * 0x100_0000_01b3 % 0x1_0000_0000_0000_0000 * 0xce96_5057_aff6_957b
            % 0x1_0000_0000_0000_0000 == x,
{
    let m: int = 0x1_0000_0000_0000_0000;
    let p: int = 0x100_0000_01b3;
    let inverse: int = 0xce96_5057_aff6_957b;
    vstd::arithmetic::div_mod::lemma_mul_mod_noop_left(x * p, inverse, m);
    assert(p * inverse == m * 887285111055 + 1) by (nonlinear_arith)
        requires
            m == 0x1_0000_0000_0000_0000,
            p == 0x100_0000_01b3,
            inverse == 0xce96_5057_aff6_957b,
    ;
    assert(x * p * inverse == m * (x * 887285111055) + x) by (nonlinear_arith)
        requires
            p * inverse == m * 887285111055 + 1,
    ;
    vstd::arithmetic::div_mod::lemma_mod_multiples_vanish(x * 887285111055, x as int, m);
    vstd::arithmetic::div_mod::lemma_small_mod(x as nat, m as nat);
}

/// A round tells bytes apart, and it tells hashes apart: two rounds end in the
/// same hash only where they differ in neither, or in both.
pub proof fn law_round_tells_inputs_apart(g: u64, a: u8, h: u64, b: u8)
    requires
        fnv_step(g, a) == fnv_step(h, b),
    ensures
        g == h <==> a == b,
{
    let (x, y) = (a as u64, b as u64);
    let (gx, hy) = (g ^ x, h ^ y);
    lemma_prime_is_invertible(gx);
    lemma_prime_is_invertible(hy);
    assert(gx == hy);
    assert(g == h <==> x == y) by (bit_vector)
        requires
            g ^ x == h ^ y,
    ;
}

/// A hash carries on where it left off.
proof fn lemma_fold_append(hash: u64, front: Seq<u8>, back: Seq<u8>)
    ensures
        fnv_fold(hash, front + back) == fnv_fold(fnv_fold(hash, front), back),
    decreases back.len(),
{
    if back.len() == 0 {
        assert(front + back =~= front);
    } else {
        lemma_fold_append(hash, front, back.drop_last());
        assert((front + back).drop_last() =~= front + back.drop_last());
    }
}

/// Different hashes stay different, whatever the bytes that both go on with.
proof fn lemma_fold_tells_hashes_apart(g: u64, h: u64, bytes: Seq<u8>)
    requires
        g != h,
    ensures
        fnv_fold(g, bytes) != fnv_fold(h, bytes),
    decreases bytes.len(),
{
    if bytes.len() > 0 {
        let front = bytes.drop_last();
        lemma_fold_tells_hashes_apart(g, h, front);
        if fnv_fold(g, bytes) == fnv_fold(h, bytes) {
            law_round_tells_inputs_apart(
                fnv_fold(g, front),
                bytes.last(),
                fnv_fold(h, front),
                bytes.last(),
            );
        }
    }
}

/// The name goes on up to the zero byte of what follows bytes without one.
proof fn lemma_through_nul_append(front: Seq<u8>, back: Seq<u8>)
    requires
        forall|i: int| 0 <= i < front.len() ==> front[i] != 0,
    ensures
        through_nul(front + back) == front + through_nul(back),
    decreases front.len(),
{
    if front.len() == 0 {
        assert(front + back =~= back);
        assert(front + through_nul(back) =~= through_nul(back));
    } else {
        assert(front[0] != 0);
        lemma_through_nul_append(front.drop_first(), back);
        assert((front + back).drop_first() =~= front.drop_first() + back);
        assert(seq![front[0]] + (front.drop_first() + through_nul(back)) =~= front + through_nul(
            back,
        ));
    }
}

/// Two names that differ in one byte have different hashes.
pub proof fn law_one_byte_tells_names_apart(before: Seq<u8>, a: u8, b: u8, after: Seq<u8>)
    requires
        forall|i: int| 0 <= i < before.len() ==> before[i] != 0,
        a != 0,
        b != 0,
        a != b,
    ensures
        name_hash(before + seq![a] + after) != name_hash(before + seq![b] + after),
{
    lemma_through_nul_append(before + seq![a], after);
    lemma_through_nul_append(before + seq![b], after);
    let rest = through_nul(after);
    lemma_fold_append(FNV_OFFSET, before + seq![a], rest);
    lemma_fold_append(FNV_OFFSET, before + seq![b], rest);
    let begun = fnv_fold(FNV_OFFSET, before);
    assert((before + seq![a]).drop_last() =~= before);
    assert((before + seq![b]).drop_last() =~= before);
    if fnv_step(begun, a) == fnv_step(begun, b) {
        law_round_tells_inputs_apart(begun, a, begun, b);
    }
    lemma_fold_tells_hashes_apart(fnv_step(begun, a), fnv_step(begun, b), rest);
}

/// Two names without a zero byte that one more byte makes equal in hash had the
/// same hash, if that byte is the same: nothing in front is lost.
pub proof fn law_hash_keeps_what_went_before(a: Seq<u8>, b: Seq<u8>, byte: u8)
    requires
        forall|i: int| 0 <= i < a.len() ==> a[i] != 0,
        forall|i: int| 0 <= i < b.len() ==> b[i] != 0,
        name_hash(a.push(byte)) == name_hash(b.push(byte)),
    ensures
        name_hash(a) == name_hash(b),
{
    law_hash_grows_byte_by_byte(a, byte);
    law_hash_grows_byte_by_byte(b, byte);
    lemma_prime_is_invertible(name_hash(a) ^ (byte as u64));
    lemma_prime_is_invertible(name_hash(b) ^ (byte as u64));
    let (g, h, x) = (name_hash(a), name_hash(b), byte as u64);
    assert(g ^ x == h ^ x);
    assert(g == h) by (bit_vector)
        requires
            g ^ x == h ^ x,
    ;
}

/// The hash of no bytes is the offset basis. A byte behind bytes that are not zero,
/// be it zero itself or not, is XORed into their hash, which is multiplied by the
/// prime modulo 2^64.
pub proof fn law_hash_grows_byte_by_byte(bytes: Seq<u8>, byte: u8)
    requires
        forall|i: int| 0 <= i < bytes.len() ==> bytes[i] != 0,
    ensures
        name_hash(Seq::empty()) == 0xcbf2_9ce4_8422_2325,
        name_hash(bytes.push(byte)) == (name_hash(bytes) ^ (byte as u64)) * 0x100_0000_01b3
            % 0x1_0000_0000_0000_0000,
{
    lemma_through_nul(bytes, bytes.len() as int);
    let more = bytes.push(byte);
    if byte == 0 {
        lemma_through_nul(more, bytes.len() as int);
        assert(more.take(more.len() as int) =~= more);
    } else {
        lemma_through_nul(more, more.len() as int);
    }
    assert(more.drop_last() =~= bytes);
}

/// The bytes of a key, read as a number with the most significant byte first, are
/// the hash.
pub proof fn law_deny_key_spells_the_hash(hash: u64)
    ensures
        be_bytes(hash).len() == 8,
        ({
            let key = be_bytes(hash);
            key[0] * 0x100_0000_0000_0000 + key[1] * 0x1_0000_0000_0000 + key[2]
                * 0x100_0000_0000 + key[3] * 0x1_0000_0000 + key[4] * 0x100_0000 + key[5]
                * 0x1_0000 + key[6] * 0x100 + key[7] == hash
        }),
{
    let h1 = hash / 0x100;
    let h2 = h1 / 0x100;
    let h3 = h2 / 0x100;
    let h4 = h3 / 0x100;
    let h5 = h4 / 0x100;
    let h6 = h5 / 0x100;
    let h7 = h6 / 0x100;
    assert(h2 == hash / 0x1_0000);
    assert(h3 == hash / 0x100_0000);
    assert(h4 == hash / 0x1_0000_0000);
    assert(h5 == hash / 0x100_0000_0000);
    assert(h6 == hash / 0x1_0000_0000_0000);
    assert(h7 == hash / 0x100_0000_0000_0000);
}

} // verus!
