//! Bit slicing of linear addresses into per-level coordinates and back.
//!
//! A linear address is cut into one slice per level. `bits[level]` is the
//! width of the slice of `level`, and `order` lists the levels from the least
//! significant slice to the most significant one.
use vstd::prelude::*;
use vstd::arithmetic::power2::{pow2, lemma_pow2_pos, lemma_pow2_adds};
use vstd::arithmetic::div_mod::lemma_div_denominator;
use vstd::bits::lemma_u64_shr_is_div;

verus! {

/// The value of the `bits` least significant bits of `addr`.
pub open spec fn low_bits(addr: u64, bits: usize) -> u64 {
    addr & (((1u64 << bits) - 1) as u64)
}

/// `order` names only levels that `bits` has, and every slice is narrower
/// than a machine word.
pub open spec fn slicing_ok(bits: Seq<usize>, order: Seq<usize>) -> bool {
    &&& forall|i: int| 0 <= i < order.len() ==> #[trigger] order[i] < bits.len()
    &&& forall|i: int| 0 <= i < bits.len() ==> #[trigger] bits[i] < 64
}

/// No level occurs twice in `order`.
pub open spec fn distinct_levels(order: Seq<usize>) -> bool {
    forall|i: int, j: int| 0 <= i < j < order.len() ==> order[i] != order[j]
}

/// The coordinates after the slices of `order` have been cut off `addr`, one
/// after the other, each into its own level of `addr_vec`.
pub open spec fn sliced(addr: u64, bits: Seq<usize>, order: Seq<usize>, addr_vec: Seq<u64>) -> Seq<
    u64,
>
    decreases order.len(),
{
    if order.len() == 0 {
        addr_vec
    } else {
        let level = order[0] as int;
        sliced(
            addr >> bits[level],
            bits,
            order.drop_first(),
            addr_vec.update(level, low_bits(addr, bits[level])),
        )
    }
}

/// What is left of `addr` once every slice of `order` has been cut off.
pub open spec fn unsliced_rest(addr: u64, bits: Seq<usize>, order: Seq<usize>) -> u64
    decreases order.len(),
{
    if order.len() == 0 {
        addr
    } else {
        unsliced_rest(addr >> bits[order[0] as int], bits, order.drop_first())
    }
}

/// The address whose slices, from `order[0]` upwards, are the coordinates in
/// `addr_vec`.
pub open spec fn packed(addr_vec: Seq<u64>, bits: Seq<usize>, order: Seq<usize>) -> u64
    decreases order.len(),
{
    if order.len() == 0 {
        0
    } else {
        let level = order[0] as int;
        (packed(addr_vec, bits, order.drop_first()) << bits[level]) | addr_vec[level]
    }
}

/// The sum of the widths of the slices of `order`.
pub open spec fn total_bits(bits: Seq<usize>, order: Seq<usize>) -> nat
    decreases order.len(),
{
    if order.len() == 0 {
        0
    } else {
        bits[order[0] as int] as nat + total_bits(bits, order.drop_first())
    }
}

/// Cuts the `bits` least significant bits off `addr` and returns them.
pub fn slicing_lower_bits(addr: &mut u64, bits: usize) -> (lower_bits: u64)
    requires
        bits < 64,
    ensures
        lower_bits == low_bits(*old(addr), bits),
        *final(addr) == *old(addr) >> bits,
{
    assert((1u64 << bits) >= 1) by (bit_vector)
        requires
            bits < 64,
    ;
    let mask: u64 = (1u64 << bits) - 1;
    let lower_bits = *addr & mask;
    *addr >>= bits;
    lower_bits
}

/// Drops the `bits` least significant bits of `addr`.
pub fn clear_lower_bits(addr: &mut u64, bits: usize)
    requires
        bits < 64,
    ensures
        *final(addr) == *old(addr) >> bits,
{
    *addr >>= bits;
}

/// Maps `addr` into `addr_vec`: the slices are taken in the order that
/// `sequence` gives, least significant first.
pub fn setup_addr_vec(addr: u64, addr_bits: &[usize], addr_vec: &mut [u64], sequence: &[usize])
    requires
        addr_bits.len() == old(addr_vec).len(),
        addr_bits.len() == sequence.len(),
        slicing_ok(addr_bits@, sequence@),
    ensures
        final(addr_vec)@ == sliced(addr, addr_bits@, sequence@, old(addr_vec)@),
{
    let mut cursor = addr;
    let mut i: usize = 0;
    assert(sequence@.subrange(0, sequence.len() as int) =~= sequence@);
    while i < sequence.len()
        invariant
            i <= sequence.len(),
            addr_bits.len() == addr_vec.len(),
            slicing_ok(addr_bits@, sequence@),
            sliced(
                cursor,
                addr_bits@,
                sequence@.subrange(i as int, sequence.len() as int),
                addr_vec@,
            ) == sliced(addr, addr_bits@, sequence@, old(addr_vec)@),
        decreases sequence.len() - i,
    {
        let ghost rest = sequence@.subrange(i as int, sequence.len() as int);
        assert(rest.drop_first() =~= sequence@.subrange(i + 1, sequence.len() as int));
        assert(rest[0] == sequence[i as int]);
        let level = sequence[i];
        addr_vec[level] = slicing_lower_bits(&mut cursor, addr_bits[level]);
        i += 1;
    }
    assert(sequence@.subrange(i as int, sequence.len() as int).len() == 0);
}

/// Puts the coordinates of `addr_vec` together again: the inverse of
/// [`setup_addr_vec`] on addresses that the slices cover.
pub fn set_up_addr(addr_vec: &[u64], addr_bits: &[usize], sequence: &[usize]) -> (addr: u64)
    requires
        addr_bits.len() == addr_vec.len(),
        slicing_ok(addr_bits@, sequence@),
    ensures
        addr == packed(addr_vec@, addr_bits@, sequence@),
{
    let mut addr: u64 = 0;
    let mut i: usize = sequence.len();
    assert(sequence@.subrange(i as int, sequence.len() as int).len() == 0);
    while i > 0
        invariant
            i <= sequence.len(),
            addr_bits.len() == addr_vec.len(),
            slicing_ok(addr_bits@, sequence@),
            addr == packed(
                addr_vec@,
                addr_bits@,
                sequence@.subrange(i as int, sequence.len() as int),
            ),
        decreases i,
    {
        i -= 1;
        let ghost rest = sequence@.subrange(i as int, sequence.len() as int);
        assert(rest.drop_first() =~= sequence@.subrange(i + 1, sequence.len() as int));
        assert(rest[0] == sequence[i as int]);
        let level = sequence[i];
        addr <<= addr_bits[level];
        addr |= addr_vec[level];
    }
    assert(sequence@.subrange(0, sequence.len() as int) =~= sequence@);
    addr
}

/// Slicing writes only to the levels that `order` names.
pub proof fn lemma_sliced_keeps_other_levels(
    addr: u64,
    bits: Seq<usize>,
    order: Seq<usize>,
    addr_vec: Seq<u64>,
    level: int,
)
    requires
        forall|i: int| 0 <= i < order.len() ==> #[trigger] order[i] < addr_vec.len(),
        forall|i: int| 0 <= i < order.len() ==> order[i] != level,
    ensures
        sliced(addr, bits, order, addr_vec).len() == addr_vec.len(),
        0 <= level < addr_vec.len() ==> sliced(addr, bits, order, addr_vec)[level]
            == addr_vec[level],
    decreases order.len(),
{
    if order.len() > 0 {
        let first = order[0] as int;
        assert forall|i: int| 0 <= i < order.drop_first().len() implies order.drop_first()[i]
            != level && #[trigger] order.drop_first()[i] < addr_vec.len() by {
            assert(order.drop_first()[i] == order[i + 1]);
        }
        lemma_sliced_keeps_other_levels(
            addr >> bits[first],
            bits,
            order.drop_first(),
            addr_vec.update(first, low_bits(addr, bits[first])),
            level,
        );
        lemma_sliced_len(addr, bits, order, addr_vec);
    }
}

/// Slicing keeps the number of levels.
pub proof fn lemma_sliced_len(addr: u64, bits: Seq<usize>, order: Seq<usize>, addr_vec: Seq<u64>)
    requires
        forall|i: int| 0 <= i < order.len() ==> #[trigger] order[i] < addr_vec.len(),
    ensures
        sliced(addr, bits, order, addr_vec).len() == addr_vec.len(),
    decreases order.len(),
{
    if order.len() > 0 {
        let first = order[0] as int;
        assert forall|i: int| 0 <= i < order.drop_first().len() implies #[trigger] order.drop_first()[i]
            < addr_vec.len() by {
            assert(order.drop_first()[i] == order[i + 1]);
        }
        lemma_sliced_len(
            addr >> bits[first],
            bits,
            order.drop_first(),
            addr_vec.update(first, low_bits(addr, bits[first])),
        );
    }
}

/// The low bits of an address are a number of that many bits.
pub proof fn lemma_low_bits_fit(addr: u64, bits: usize)
    requires
        bits < 64,
    ensures
        (low_bits(addr, bits) as nat) < pow2(bits as nat),
{
    let b = bits as u64;
    assert(1u64 << b == pow2(b as nat)) by {
        vstd::arithmetic::power2::lemma_pow2_strictly_increases(b as nat, 64);
        vstd::arithmetic::power2::lemma2_to64();
        vstd::bits::lemma_u64_shl_is_mul(1, b);
    }
    assert(1u64 << bits == 1u64 << b);
    assert(addr & (((1u64 << b) - 1) as u64) < (1u64 << b)) by (bit_vector)
        requires
            b < 64,
    ;
}

/// Slicing leaves at every level that `order` names a number of as many
/// bits as the level is wide.
pub proof fn lemma_sliced_fits(
    addr: u64,
    bits: Seq<usize>,
    order: Seq<usize>,
    addr_vec: Seq<u64>,
    level: int,
)
    requires
        slicing_ok(bits, order),
        addr_vec.len() == bits.len(),
        exists|i: int| 0 <= i < order.len() && order[i] == level,
    ensures
        (sliced(addr, bits, order, addr_vec)[level] as nat) < pow2(bits[level] as nat),
    decreases order.len(),
{
    let first = order[0] as int;
    let tail = order.drop_first();
    let next_vec = addr_vec.update(first, low_bits(addr, bits[first]));
    assert forall|i: int| 0 <= i < tail.len() implies #[trigger] tail[i] < bits.len() by {
        assert(tail[i] == order[i + 1]);
    }
    if exists|i: int| 0 <= i < tail.len() && tail[i] == level {
        lemma_sliced_fits(addr >> bits[first], bits, tail, next_vec, level);
    } else {
        let i = choose|i: int| 0 <= i < order.len() && order[i] == level;
        if i > 0 {
            assert(tail[i - 1] == order[i]);
        }
        assert(first == level);
        lemma_sliced_keeps_other_levels(addr >> bits[first], bits, tail, next_vec, level);
        lemma_low_bits_fit(addr, bits[first]);
    }
}

/// An address below two to the power of the total width leaves nothing
/// behind when all slices are cut off.
pub proof fn lemma_covered_address_leaves_no_rest(addr: u64, bits: Seq<usize>, order: Seq<usize>)
    requires
        slicing_ok(bits, order),
        (addr as nat) < pow2(total_bits(bits, order)),
    ensures
        unsliced_rest(addr, bits, order) == 0,
    decreases order.len(),
{
    if order.len() == 0 {
        assert(pow2(0) == 1) by {
            vstd::arithmetic::power2::lemma2_to64();
        }
    } else {
        let b = bits[order[0] as int];
        let rest = total_bits(bits, order.drop_first());
        assert(b < 64);
        assert forall|i: int| 0 <= i < order.drop_first().len() implies #[trigger] order.drop_first()[i]
            < bits.len() by {
            assert(order.drop_first()[i] == order[i + 1]);
        }
        lemma_u64_shr_is_div(addr, b as u64);
        lemma_pow2_adds(b as nat, rest);
        lemma_pow2_pos(b as nat);
        lemma_pow2_pos(rest);
        assert((addr as int) / (pow2(b as nat) as int) < pow2(rest) as int) by (nonlinear_arith)
            requires
                (addr as int) < (pow2(b as nat) as int) * (pow2(rest) as int),
                pow2(b as nat) > 0,
                addr >= 0,
        ;
        assert(addr >> b == addr >> (b as u64));
        lemma_covered_address_leaves_no_rest(addr >> b, bits, order.drop_first());
    }
}

/// Cutting an address into slices and putting them together again gives the
/// address back, provided that no level is sliced twice and that the slices
/// cover the address.
pub proof fn lemma_pack_slices_round_trip(
    addr: u64,
    bits: Seq<usize>,
    order: Seq<usize>,
    addr_vec: Seq<u64>,
)
    requires
        slicing_ok(bits, order),
        distinct_levels(order),
        addr_vec.len() == bits.len(),
        unsliced_rest(addr, bits, order) == 0,
    ensures
        packed(sliced(addr, bits, order, addr_vec), bits, order) == addr,
    decreases order.len(),
{
    if order.len() > 0 {
        let level = order[0] as int;
        let b = bits[level];
        let tail = order.drop_first();
        let next_vec = addr_vec.update(level, low_bits(addr, b));
        let result = sliced(addr, bits, order, addr_vec);
        assert(result == sliced(addr >> b, bits, tail, next_vec));
        assert forall|i: int| 0 <= i < tail.len() implies #[trigger] tail[i] < bits.len() by {
            assert(tail[i] == order[i + 1]);
        }
        assert forall|i: int, j: int| 0 <= i < j < tail.len() implies tail[i] != tail[j] by {
            assert(tail[i] == order[i + 1]);
            assert(tail[j] == order[j + 1]);
        }
        assert forall|i: int| 0 <= i < tail.len() implies tail[i] != level by {
            assert(tail[i] == order[i + 1]);
        }
        lemma_pack_slices_round_trip(addr >> b, bits, tail, next_vec);
        lemma_sliced_keeps_other_levels(addr >> b, bits, tail, next_vec, level);
        assert(result[level] == low_bits(addr, b));
        let high = addr >> b;
        assert(((high << b) | (addr & (((1u64 << b) - 1) as u64))) == addr) by (bit_vector)
            requires
                b < 64,
                high == addr >> b,
        ;
    }
}

/// Every coordinate that `order` names is a number of as many bits as its
/// level is wide.
pub open spec fn coordinates_fit(addr_vec: Seq<u64>, bits: Seq<usize>, order: Seq<usize>) -> bool {
    forall|i: int|
        0 <= i < order.len() ==> (addr_vec[#[trigger] order[i] as int] as nat) < pow2(
            bits[order[i] as int] as nat,
        )
}

/// Two to the power of `b` as a machine word, and what lies below it.
proof fn lemma_word_pow2(b: u64)
    requires
        b < 64,
    ensures
        1u64 << b == pow2(b as nat),
        (u64::MAX >> b) + 1 == pow2((64 - b) as nat),
{
    vstd::arithmetic::power2::lemma_pow2_strictly_increases(b as nat, 64);
    vstd::arithmetic::power2::lemma2_to64();
    vstd::arithmetic::power2::lemma2_to64_rest();
    vstd::bits::lemma_u64_shl_is_mul(1, b);
    lemma_u64_shr_is_div(u64::MAX, b);
    lemma_pow2_adds(b as nat, (64 - b) as nat);
    lemma_pow2_pos(b as nat);
    lemma_pow2_pos((64 - b) as nat);
    let low = pow2(b as nat) as int;
    let high = pow2((64 - b) as nat) as int;
    assert((low * high - 1) / low == high - 1) by (nonlinear_arith)
        requires
            low > 0,
            high > 0,
    ;
}

/// Coordinates that fit their widths pack into an address below two to the
/// power of the total width.
pub proof fn lemma_packed_fits(addr_vec: Seq<u64>, bits: Seq<usize>, order: Seq<usize>)
    requires
        slicing_ok(bits, order),
        coordinates_fit(addr_vec, bits, order),
        total_bits(bits, order) <= 64,
    ensures
        (packed(addr_vec, bits, order) as nat) < pow2(total_bits(bits, order)),
    decreases order.len(),
{
    vstd::arithmetic::power2::lemma2_to64();
    if order.len() > 0 {
        let level = order[0] as int;
        let b = bits[level];
        let tail = order.drop_first();
        assert forall|i: int| 0 <= i < tail.len() implies #[trigger] tail[i] < bits.len()
            && (addr_vec[tail[i] as int] as nat) < pow2(bits[tail[i] as int] as nat) by {
            assert(tail[i] == order[i + 1]);
        }
        lemma_packed_fits(addr_vec, bits, tail);
        let high = packed(addr_vec, bits, tail);
        let low = addr_vec[level];
        let rest = total_bits(bits, tail);
        assert(order[0] < bits.len());
        assert((low as nat) < pow2(b as nat));
        lemma_word_pow2(b as u64);
        lemma_pow2_adds(rest, b as nat);
        lemma_pow2_pos(b as nat);
        vstd::arithmetic::power2::lemma_pow2_strictly_increases(rest + b as nat, 65);
        vstd::arithmetic::power2::lemma2_to64_rest();
        assert(pow2(65) == 2 * pow2(64)) by {
            vstd::arithmetic::power2::lemma_pow2_unfold(65);
        }
        let base = pow2(b as nat) as int;
        assert(high * base + low < pow2(rest) * base) by (nonlinear_arith)
            requires
                (high as int) < pow2(rest),
                (low as int) < base,
                base > 0,
        ;
        assert(high * base <= u64::MAX) by (nonlinear_arith)
            requires
                high * base + low < pow2(rest) * base,
                pow2(rest) * base <= 0x1_0000_0000_0000_0000,
                low >= 0,
        ;
        vstd::bits::lemma_u64_shl_is_mul(high, b as u64);
        let shifted = high << (b as u64);
        let limit = 1u64 << (b as u64);
        assert(shifted | low == shifted + low) by (bit_vector)
            requires
                b < 64,
                low < limit,
                limit == 1u64 << (b as u64),
                shifted == high << (b as u64),
                high <= (u64::MAX >> (b as u64)),
        ;
        assert(high << b == high << (b as u64));
    }
}

/// Packing coordinates and cutting the address into slices again gives the
/// coordinates back: at every level that `order` names, provided that no
/// level is named twice, that the coordinates fit their widths and that the
/// widths together fit a machine word.
pub proof fn lemma_slice_packed_round_trip(
    addr_vec: Seq<u64>,
    bits: Seq<usize>,
    order: Seq<usize>,
    start: Seq<u64>,
    i: int,
)
    requires
        slicing_ok(bits, order),
        distinct_levels(order),
        coordinates_fit(addr_vec, bits, order),
        total_bits(bits, order) <= 64,
        start.len() == bits.len(),
        0 <= i < order.len(),
    ensures
        sliced(packed(addr_vec, bits, order), bits, order, start)[order[i] as int]
            == addr_vec[order[i] as int],
    decreases order.len(),
{
    let level = order[0] as int;
    let b = bits[level];
    let tail = order.drop_first();
    let high = packed(addr_vec, bits, tail);
    let low = addr_vec[level];
    let whole = packed(addr_vec, bits, order);
    assert forall|k: int| 0 <= k < tail.len() implies #[trigger] tail[k] < bits.len()
        && (addr_vec[tail[k] as int] as nat) < pow2(bits[tail[k] as int] as nat) && tail[k]
        != level by {
        assert(tail[k] == order[k + 1]);
    }
    assert forall|k: int, j: int| 0 <= k < j < tail.len() implies tail[k] != tail[j] by {
        assert(tail[k] == order[k + 1]);
        assert(tail[j] == order[j + 1]);
    }
    assert(order[0] < bits.len());
    assert((low as nat) < pow2(b as nat));
    lemma_packed_fits(addr_vec, bits, tail);
    lemma_word_pow2(b as u64);
    let rest = total_bits(bits, tail);
    if rest < 64 - b {
        vstd::arithmetic::power2::lemma_pow2_strictly_increases(rest, (64 - b) as nat);
    }
    let limit = 1u64 << (b as u64);
    let room = u64::MAX >> (b as u64);
    assert(((high << (b as u64)) | low) >> (b as u64) == high && ((high << (b as u64)) | low) & ((
    limit - 1) as u64) == low) by (bit_vector)
        requires
            b < 64,
            low < limit,
            limit == 1u64 << (b as u64),
            high <= room,
            room == u64::MAX >> (b as u64),
    ;
    assert(high << b == high << (b as u64));
    assert(whole >> b == whole >> (b as u64));
    assert(1u64 << b == limit);
    assert(whole >> b == high);
    assert(low_bits(whole, b) == low);
    let next = start.update(level, low);
    if i == 0 {
        lemma_sliced_keeps_other_levels(high, bits, tail, next, level);
    } else {
        assert(tail[i - 1] == order[i]);
        lemma_slice_packed_round_trip(addr_vec, bits, tail, next, i - 1);
    }
}

} // verus!
