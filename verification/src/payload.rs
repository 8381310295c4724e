use vstd::prelude::*;
use vstd::arithmetic::div_mod::lemma_fundamental_div_mod_converse;

verus! {

/// Version byte written at the front of every payload.
pub const PAYLOAD_VERSION: u8 = 1;

/// Number of bytes of a watermark identifier.
pub const WATERMARK_ID_BYTES: usize = 16;

/// Number of bytes of the trailing checksum.
pub const CHECKSUM_BYTES: usize = 4;

/// Number of bytes of an encoded payload.
pub const PAYLOAD_BYTES: usize = 1 + WATERMARK_ID_BYTES + CHECKSUM_BYTES;

/// Number of bits of an encoded payload.
pub const PAYLOAD_BITS: usize = PAYLOAD_BYTES * 8;

/// Bit `k` (0 = most significant) of `byte`.
pub open spec fn byte_bit(byte: u8, k: int) -> bool {
    ((byte >> ((7 - k) as u8)) & 1u8) == 1u8
}

/// The bits of `bytes`, most significant bit of each byte first.
pub open spec fn spec_bytes_to_bits(bytes: Seq<u8>) -> Seq<bool> {
    Seq::new(bytes.len() * 8, |i: int| byte_bit(bytes[i / 8], i % 8))
}

/// Expands every byte into eight bits, most significant bit first.
pub fn bytes_to_bits(bytes: &[u8]) -> (out: Vec<bool>)
    requires
        bytes@.len() * 8 <= usize::MAX,
    ensures
        out@ == spec_bytes_to_bits(bytes@),
        spec_bits_to_bytes(out@) == bytes@,
{
    let mut out: Vec<bool> = Vec::with_capacity(bytes.len() * 8);
    let mut i: usize = 0;
    while i < bytes.len()
        invariant
            i <= bytes@.len(),
            out@ == spec_bytes_to_bits(bytes@.take(i as int)),
        decreases bytes@.len() - i,
    {
        let byte = bytes[i];
        let mut bit: usize = 8;
        while bit > 0
            invariant
                bit <= 8,
                i < bytes@.len(),
                byte == bytes@[i as int],
                out@.len() == i * 8 + (8 - bit),
                forall|j: int| 0 <= j < i * 8 ==> #[trigger] out@[j] == spec_bytes_to_bits(bytes@.take(i as int))[j],
                forall|j: int| i * 8 <= j < out@.len() ==> #[trigger] out@[j] == byte_bit(byte, j - i * 8),
            decreases bit,
        {
            bit = bit - 1;
            out.push(((byte >> (bit as u8)) & 1) == 1);
        }
        proof {
            let next = spec_bytes_to_bits(bytes@.take(i + 1));
            assert forall|j: int| 0 <= j < out@.len() implies out@[j] == next[j] by {
                if j < i * 8 {
                    assert(j / 8 < i);
                } else {
                    assert(j / 8 == i);
                }
            }
            assert(out@ =~= next);
        }
        i = i + 1;
    }
    assert(bytes@.take(bytes@.len() as int) =~= bytes@);
    proof {
        lemma_bytes_bits_bytes(bytes@);
    }
    out
}


/// The byte whose bit `k` is `chunk[k]` for every `k < n`, and whose other bits are zero.
pub open spec fn pack_bits(chunk: Seq<bool>, n: int) -> u8
    decreases n,
{
    if n <= 0 {
        0u8
    } else {
        let rest = pack_bits(chunk, n - 1);
        if chunk[n - 1] {
            rest | (1u8 << ((7 - (n - 1)) as u8))
        } else {
            rest
        }
    }
}

/// The byte that holds the (at most eight) bits of `chunk`, first bit most significant.
pub open spec fn pack_byte(chunk: Seq<bool>) -> u8 {
    pack_bits(chunk, chunk.len() as int)
}

/// Number of bytes needed to hold `n` bits.
pub open spec fn bytes_for_bits(n: int) -> int {
    (n + 7) / 8
}

/// The bits of `bits` grouped into bytes, eight at a time, first bit most significant;
/// a short last group is padded with zero bits.
pub open spec fn spec_bits_to_bytes(bits: Seq<bool>) -> Seq<u8> {
    Seq::new(
        bytes_for_bits(bits.len() as int) as nat,
        |i: int|
            pack_byte(
                bits.subrange(8 * i, if 8 * i + 8 <= bits.len() { 8 * i + 8 } else { bits.len() as int }),
            ),
    )
}

/// Packs bits into bytes, eight at a time, first bit most significant.
/// A trailing group of fewer than eight bits fills the high bits of the last byte.
pub fn bits_to_bytes(bits: &[bool]) -> (out: Vec<u8>)
    ensures
        out@ == spec_bits_to_bytes(bits@),
        bits@.len() % 8 == 0 ==> spec_bytes_to_bits(out@) == bits@,
{
    let len = bits.len();
    let mut out: Vec<u8> = Vec::with_capacity(len / 8 + 1);
    let mut start: usize = 0;
    while start < len
        invariant
            len == bits@.len(),
            start <= len,
            start % 8 == 0 || start == len,
            out@.len() == bytes_for_bits(start as int),
            forall|i: int| 0 <= i < out@.len() ==> #[trigger] out@[i] == spec_bits_to_bytes(bits@)[i],
        decreases len - start,
    {
        let end = if len - start >= 8 { start + 8 } else { len };
        let ghost chunk = bits@.subrange(start as int, end as int);
        let mut byte: u8 = 0;
        let mut idx: usize = 0;
        while idx < end - start
            invariant
                start < end <= len,
                end - start <= 8,
                len == bits@.len(),
                chunk == bits@.subrange(start as int, end as int),
                idx <= end - start,
                byte == pack_bits(chunk, idx as int),
            decreases end - start - idx,
        {
            if bits[start + idx] {
                byte = byte | (1u8 << ((7 - idx) as u8));
            }
            idx = idx + 1;
        }
        proof {
            let i = out@.len() as int;
            assert(8 * i == start);
            assert(byte == spec_bits_to_bytes(bits@)[i]);
        }
        out.push(byte);
        start = end;
    }
    proof {
        assert(out@ =~= spec_bits_to_bytes(bits@));
        lemma_bits_bytes_bits(bits@);
    }
    out
}


proof fn lemma_bit_of_or_mask(x: u8, j: u8, k: u8)
    by (bit_vector)
    requires
        j < 8,
        k < 8,
    ensures
        ((x | (1u8 << ((7u8 - j) as u8))) >> ((7u8 - k) as u8)) & 1u8 == (if j == k {
            1u8
        } else {
            (x >> ((7u8 - k) as u8)) & 1u8
        }),
{
}

proof fn lemma_bit_of_zero(k: u8)
    by (bit_vector)
    requires
        k < 8,
    ensures
        (0u8 >> ((7u8 - k) as u8)) & 1u8 == 0u8,
{
}

proof fn lemma_byte_from_bits(x: u8, y: u8)
    by (bit_vector)
    requires
        (x >> 7u8) & 1u8 == (y >> 7u8) & 1u8,
        (x >> 6u8) & 1u8 == (y >> 6u8) & 1u8,
        (x >> 5u8) & 1u8 == (y >> 5u8) & 1u8,
        (x >> 4u8) & 1u8 == (y >> 4u8) & 1u8,
        (x >> 3u8) & 1u8 == (y >> 3u8) & 1u8,
        (x >> 2u8) & 1u8 == (y >> 2u8) & 1u8,
        (x >> 1u8) & 1u8 == (y >> 1u8) & 1u8,
        (x >> 0u8) & 1u8 == (y >> 0u8) & 1u8,
    ensures
        x == y,
{
}

proof fn lemma_bit_is_zero_or_one(x: u8, k: u8)
    by (bit_vector)
    ensures
        (x >> k) & 1u8 == 0u8 || (x >> k) & 1u8 == 1u8,
{
}

/// Bit `k` of a packed byte is the `k`-th packed bit, or zero past the packed bits.
proof fn lemma_pack_bits_bit(chunk: Seq<bool>, n: int, k: int)
    requires
        0 <= n <= chunk.len(),
        n <= 8,
        0 <= k < 8,
    ensures
        byte_bit(pack_bits(chunk, n), k) == (k < n && chunk[k]),
    decreases n,
{
    if n == 0 {
        lemma_bit_of_zero(k as u8);
    } else {
        lemma_pack_bits_bit(chunk, n - 1, k);
        let rest = pack_bits(chunk, n - 1);
        if chunk[n - 1] {
            lemma_bit_of_or_mask(rest, (n - 1) as u8, k as u8);
        }
    }
}

/// Two bytes with the same eight bits are equal.
proof fn lemma_byte_eq_by_bits(x: u8, y: u8)
    requires
        forall|k: int| 0 <= k < 8 ==> byte_bit(x, k) == byte_bit(y, k),
    ensures
        x == y,
{
    assert forall|k: u8| k < 8 implies (x >> k) & 1u8 == (y >> k) & 1u8 by {
        assert(byte_bit(x, 7 - k as int) == byte_bit(y, 7 - k as int));
        lemma_bit_is_zero_or_one(x, k);
        lemma_bit_is_zero_or_one(y, k);
    }
    assert((x >> 7u8) & 1u8 == (y >> 7u8) & 1u8);
    assert((x >> 6u8) & 1u8 == (y >> 6u8) & 1u8);
    assert((x >> 5u8) & 1u8 == (y >> 5u8) & 1u8);
    assert((x >> 4u8) & 1u8 == (y >> 4u8) & 1u8);
    assert((x >> 3u8) & 1u8 == (y >> 3u8) & 1u8);
    assert((x >> 2u8) & 1u8 == (y >> 2u8) & 1u8);
    assert((x >> 1u8) & 1u8 == (y >> 1u8) & 1u8);
    assert((x >> 0u8) & 1u8 == (y >> 0u8) & 1u8);
    lemma_byte_from_bits(x, y);
}

/// Packing the bits of any byte string gives the byte string back.
pub proof fn lemma_bytes_bits_bytes(bytes: Seq<u8>)
    ensures
        spec_bits_to_bytes(spec_bytes_to_bits(bytes)) == bytes,
{
    let bits = spec_bytes_to_bits(bytes);
    let packed = spec_bits_to_bytes(bits);
    assert(bytes_for_bits(bits.len() as int) == bytes.len());
    assert forall|i: int| 0 <= i < bytes.len() implies packed[i] == bytes[i] by {
        let chunk = bits.subrange(8 * i, 8 * i + 8);
        assert(packed[i] == pack_byte(chunk));
        assert forall|k: int| 0 <= k < 8 implies byte_bit(pack_byte(chunk), k) == byte_bit(bytes[i], k) by {
            lemma_pack_bits_bit(chunk, 8, k);
            assert(chunk[k] == bits[8 * i + k]);
            assert((8 * i + k) / 8 == i);
            assert((8 * i + k) % 8 == k);
        }
        lemma_byte_eq_by_bits(pack_byte(chunk), bytes[i]);
    }
    assert(packed =~= bytes);
}

/// Expanding packed bits gives the bits back, followed by zero bits up to a whole byte.
pub proof fn lemma_bits_bytes_bits(bits: Seq<bool>)
    ensures
        spec_bytes_to_bits(spec_bits_to_bytes(bits)) == bits + Seq::new(
            (bytes_for_bits(bits.len() as int) * 8 - bits.len()) as nat,
            |i: int| false,
        ),
        bits.len() % 8 == 0 ==> spec_bytes_to_bits(spec_bits_to_bytes(bits)) == bits,
{
    let bytes = spec_bits_to_bytes(bits);
    let back = spec_bytes_to_bits(bytes);
    let padded = bits + Seq::new((bytes_for_bits(bits.len() as int) * 8 - bits.len()) as nat, |i: int| false);
    assert forall|j: int| 0 <= j < back.len() implies back[j] == padded[j] by {
        let i = j / 8;
        let k = j % 8;
        let end = if 8 * i + 8 <= bits.len() { 8 * i + 8 } else { bits.len() as int };
        let chunk = bits.subrange(8 * i, end);
        lemma_pack_bits_bit(chunk, chunk.len() as int, k);
    }
    assert(back =~= padded);
    if bits.len() % 8 == 0 {
        assert(padded =~= bits);
    }
}


/// Each bit of `bits` repeated `repetitions` times in a row.
pub open spec fn spec_repeat_bits(bits: Seq<bool>, repetitions: nat) -> Seq<bool> {
    Seq::new(bits.len() * repetitions, |i: int| bits[i / repetitions as int])
}

/// Writes each bit `repetitions` times in a row.
pub fn repeat_bits(bits: &[bool], repetitions: usize) -> (out: Vec<bool>)
    requires
        bits@.len() * repetitions <= usize::MAX,
    ensures
        out@ == spec_repeat_bits(bits@, repetitions as nat),
{
    let mut out: Vec<bool> = Vec::with_capacity(bits.len() * repetitions);
    let mut i: usize = 0;
    assert(bits@.take(0) =~= Seq::<bool>::empty());
    assert(spec_repeat_bits(bits@.take(0), repetitions as nat) =~= Seq::<bool>::empty());
    while i < bits.len()
        invariant
            i <= bits@.len(),
            bits@.len() * repetitions <= usize::MAX,
            out@ =~= spec_repeat_bits(bits@.take(i as int), repetitions as nat),
        decreases bits@.len() - i,
    {
        let bit = bits[i];
        let ghost before = out@;
        proof {
            assert(i * repetitions + repetitions <= bits@.len() * repetitions) by (nonlinear_arith)
                requires
                    i < bits@.len(),
            ;
        }
        let mut k: usize = 0;
        while k < repetitions
            invariant
                k <= repetitions,
                out@.len() == i * repetitions + k,
                i * repetitions + repetitions <= usize::MAX,
                forall|j: int| 0 <= j < i * repetitions ==> #[trigger] out@[j] == before[j],
                forall|j: int| i * repetitions <= j < out@.len() ==> #[trigger] out@[j] == bit,
                before.len() == i * repetitions,
            decreases repetitions - k,
        {
            out.push(bit);
            k = k + 1;
        }
        proof {
            let next = spec_repeat_bits(bits@.take(i + 1), repetitions as nat);
            assert((i + 1) * repetitions == i * repetitions + repetitions) by (nonlinear_arith);
            assert forall|j: int| 0 <= j < out@.len() implies out@[j] == next[j] by {
                if j < i * repetitions {
                    lemma_div_below(j, i as int, repetitions as int);
                } else {
                    lemma_div_in_group(j, i as int, repetitions as int);
                }
            }
            assert(out@ =~= next);
        }
        i = i + 1;
    }
    assert(bits@.take(bits@.len() as int) =~= bits@);
    out
}

proof fn lemma_div_below(j: int, i: int, r: int)
    by (nonlinear_arith)
    requires
        0 <= j < i * r,
        r > 0,
    ensures
        j / r < i,
{
}

proof fn lemma_div_in_group(j: int, g: int, r: int)
    requires
        g * r <= j < g * r + r,
        r > 0,
        g >= 0,
    ensures
        j / r == g,
        j % r == j - g * r,
{
    lemma_fundamental_div_mod_converse(j, r, g, j - g * r);
}

/// Number of `true` bits in `s`.
pub open spec fn count_true(s: Seq<bool>) -> nat
    decreases s.len(),
{
    if s.len() == 0 {
        0
    } else {
        count_true(s.drop_last()) + (if s.last() { 1nat } else { 0nat })
    }
}

/// The `g`-th group of `repetitions` consecutive bits.
pub open spec fn bit_group(bits: Seq<bool>, repetitions: nat, g: int) -> Seq<bool> {
    bits.subrange(g * repetitions, g * repetitions + repetitions)
}

/// The value that a group votes for: `true` when at least half of its bits are set.
pub open spec fn group_vote(group: Seq<bool>) -> bool {
    2 * count_true(group) >= group.len()
}

/// How many bits of a group agree with its vote.
pub open spec fn group_agreement(group: Seq<bool>) -> nat {
    let ones = count_true(group);
    let zeros = (group.len() - ones) as nat;
    if ones >= zeros {
        ones
    } else {
        zeros
    }
}

/// Number of complete groups of `repetitions` bits in `bits`.
pub open spec fn group_count(bits: Seq<bool>, repetitions: nat) -> nat {
    bits.len() / repetitions
}

/// The vote of every complete group; a trailing incomplete group is ignored.
pub open spec fn spec_majority_bits(bits: Seq<bool>, repetitions: nat) -> Seq<bool> {
    Seq::new(group_count(bits, repetitions), |g: int| group_vote(bit_group(bits, repetitions, g)))
}

/// The agreement of every complete group; a trailing incomplete group is ignored.
pub open spec fn spec_majority_agreement(bits: Seq<bool>, repetitions: nat) -> Seq<usize> {
    Seq::new(
        group_count(bits, repetitions),
        |g: int| group_agreement(bit_group(bits, repetitions, g)) as usize,
    )
}

/// Decodes a repetition code: every complete group of `repetitions` bits votes for its
/// majority value (a tie votes `true`). Returns the decoded bits and, for every group,
/// how many of its bits agree with the decoded value; the agreement over the group size
/// is the group's confidence.
pub fn majority_decode(bits: &[bool], repetitions: usize) -> (res: (Vec<bool>, Vec<usize>))
    requires
        repetitions > 0,
    ensures
        res.0@ == spec_majority_bits(bits@, repetitions as nat),
        res.1@ == spec_majority_agreement(bits@, repetitions as nat),
        forall|g: int|
            0 <= g < res.1@.len() ==> #[trigger] res.1@[g] as int == count_true(
                group_bits_equal(bits@, repetitions as nat, g, res.0@[g]),
            ),
{
    let len = bits.len();
    let groups = len / repetitions;
    let mut decoded: Vec<bool> = Vec::with_capacity(groups);
    let mut agreement: Vec<usize> = Vec::with_capacity(groups);
    let mut g: usize = 0;
    while g < groups
        invariant
            len == bits@.len(),
            repetitions > 0,
            groups == len / repetitions,
            g <= groups,
            decoded@.len() == g,
            agreement@.len() == g,
            forall|h: int| 0 <= h < g ==> #[trigger] decoded@[h] == spec_majority_bits(bits@, repetitions as nat)[h],
            forall|h: int| 0 <= h < g ==> #[trigger] agreement@[h] == spec_majority_agreement(bits@, repetitions as nat)[h],
        decreases groups - g,
    {
        proof {
            assert(g * repetitions + repetitions <= len) by (nonlinear_arith)
                requires
                    g < len / repetitions,
                    repetitions > 0,
            ;
        }
        let start = g * repetitions;
        let ghost group = bit_group(bits@, repetitions as nat, g as int);
        let mut ones: usize = 0;
        let mut k: usize = 0;
        while k < repetitions
            invariant
                start + repetitions <= len,
                len == bits@.len(),
                group == bits@.subrange(start as int, start + repetitions),
                k <= repetitions,
                ones == count_true(group.take(k as int)),
                ones <= k,
            decreases repetitions - k,
        {
            proof {
                assert(group.take(k + 1).drop_last() =~= group.take(k as int));
            }
            if bits[start + k] {
                ones = ones + 1;
            }
            k = k + 1;
        }
        proof {
            assert(group.take(repetitions as int) =~= group);
        }
        let zeros = repetitions - ones;
        decoded.push(ones >= zeros);
        agreement.push(if ones >= zeros { ones } else { zeros });
        g = g + 1;
    }
    proof {
        assert(decoded@ =~= spec_majority_bits(bits@, repetitions as nat));
        assert(agreement@ =~= spec_majority_agreement(bits@, repetitions as nat));
        assert forall|h: int| 0 <= h < agreement@.len() implies #[trigger] agreement@[h] as int == count_true(
            group_bits_equal(bits@, repetitions as nat, h, decoded@[h]),
        ) by {
            assert((h + 1) * repetitions <= len) by (nonlinear_arith)
                requires
                    h < len / repetitions,
                    repetitions > 0,
            ;
            lemma_majority_agreement_counts_agreeing_bits(bits@, repetitions as nat, h);
        }
    }
    (decoded, agreement)
}


/// Marks the bits of `x` that differ from `v`.
pub open spec fn mismatches(x: Seq<bool>, v: bool) -> Seq<bool> {
    Seq::new(x.len(), |j: int| x[j] != v)
}

/// Number of bits in the `g`-th group of `received` that differ from `sent[g]`.
pub open spec fn group_errors(received: Seq<bool>, sent: Seq<bool>, repetitions: nat, g: int) -> nat {
    count_true(mismatches(bit_group(received, repetitions, g), sent[g]))
}

proof fn lemma_count_true_le_len(s: Seq<bool>)
    ensures
        count_true(s) <= s.len(),
    decreases s.len(),
{
    if s.len() > 0 {
        lemma_count_true_le_len(s.drop_last());
    }
}

/// Counting the bits that differ from `v` counts the zeros when `v` is set, the ones otherwise.
proof fn lemma_count_mismatch(x: Seq<bool>, v: bool)
    ensures
        count_true(mismatches(x, v)) == if v {
            x.len() - count_true(x)
        } else {
            count_true(x) as int
        },
    decreases x.len(),
{
    lemma_count_true_le_len(x);
    if x.len() > 0 {
        lemma_count_mismatch(x.drop_last(), v);
        assert(mismatches(x, v).drop_last() =~= mismatches(x.drop_last(), v));
        lemma_count_true_le_len(x.drop_last());
    }
}

proof fn lemma_group_count_exact(n: nat, r: nat)
    requires
        r > 0,
    ensures
        (n * r) / r == n,
{
    lemma_fundamental_div_mod_converse((n * r) as int, r as int, n as int, 0);
}

/// Majority decoding corrects errors: when fewer than half of the bits of every group
/// differ from the bit that the group repeats, the decoded bits are the sent bits.
pub proof fn lemma_majority_corrects_errors(sent: Seq<bool>, received: Seq<bool>, repetitions: nat)
    requires
        repetitions > 0,
        received.len() == sent.len() * repetitions,
        forall|g: int| 0 <= g < sent.len() ==> 2 * #[trigger] group_errors(received, sent, repetitions, g) < repetitions,
    ensures
        spec_majority_bits(received, repetitions) == sent,
{
    lemma_group_count_exact(sent.len(), repetitions);
    let decoded = spec_majority_bits(received, repetitions);
    assert forall|g: int| 0 <= g < sent.len() implies decoded[g] == sent[g] by {
        assert(2 * group_errors(received, sent, repetitions, g) < repetitions);
        assert((g + 1) * repetitions <= sent.len() * repetitions) by (nonlinear_arith)
            requires
                g + 1 <= sent.len(),
        ;
        assert((g + 1) * repetitions == g * repetitions + repetitions) by (nonlinear_arith);
        assert(g * repetitions >= 0) by (nonlinear_arith)
            requires
                g >= 0,
        ;
        let group = bit_group(received, repetitions, g);
        assert(group.len() == repetitions);
        lemma_count_mismatch(group, sent[g]);
        let ones = count_true(group);
        let errors = group_errors(received, sent, repetitions, g);
        lemma_count_true_le_len(group);
        if sent[g] {
            assert(errors == repetitions - ones);
        } else {
            assert(errors == ones);
        }
        assert(g < group_count(received, repetitions));
        assert(decoded[g] == group_vote(group));
    }
    assert(decoded =~= sent);
}

proof fn lemma_count_constant(n: nat, v: bool)
    ensures
        count_true(Seq::new(n, |j: int| v)) == if v { n } else { 0 },
    decreases n,
{
    if n > 0 {
        lemma_count_constant((n - 1) as nat, v);
        assert(Seq::new(n, |j: int| v).drop_last() =~= Seq::new((n - 1) as nat, |j: int| v));
    }
}

/// Decoding a repeated bit string gives the original bits back, every group in full agreement.
pub proof fn lemma_majority_of_repeated(bits: Seq<bool>, repetitions: nat)
    requires
        repetitions > 0,
    ensures
        spec_majority_bits(spec_repeat_bits(bits, repetitions), repetitions) == bits,
        spec_majority_agreement(spec_repeat_bits(bits, repetitions), repetitions) == Seq::new(
            bits.len(),
            |g: int| repetitions as usize,
        ),
{
    let repeated = spec_repeat_bits(bits, repetitions);
    lemma_group_count_exact(bits.len(), repetitions);
    assert forall|g: int| 0 <= g < bits.len() implies #[trigger] group_errors(repeated, bits, repetitions, g) == 0 by {
        assert((g + 1) * repetitions <= bits.len() * repetitions) by (nonlinear_arith)
            requires
                g + 1 <= bits.len(),
        ;
        assert((g + 1) * repetitions == g * repetitions + repetitions) by (nonlinear_arith);
        assert(g * repetitions >= 0) by (nonlinear_arith)
            requires
                g >= 0,
        ;
        assert forall|j: int| 0 <= j < repetitions implies #[trigger] bit_group(repeated, repetitions, g)[j] == bits[g] by {
            lemma_div_in_group(g * repetitions + j, g, repetitions as int);
        }
        assert(mismatches(bit_group(repeated, repetitions, g), bits[g]) =~= Seq::new(
            repetitions,
            |j: int| false,
        ));
        lemma_count_constant(repetitions, false);
    }
    lemma_majority_corrects_errors(bits, repeated, repetitions);
    let agreement = spec_majority_agreement(repeated, repetitions);
    assert forall|g: int| 0 <= g < bits.len() implies agreement[g] == repetitions as usize by {
        assert((g + 1) * repetitions <= bits.len() * repetitions) by (nonlinear_arith)
            requires
                g + 1 <= bits.len(),
        ;
        assert((g + 1) * repetitions == g * repetitions + repetitions) by (nonlinear_arith);
        assert(g * repetitions >= 0) by (nonlinear_arith)
            requires
                g >= 0,
        ;
        assert forall|j: int| 0 <= j < repetitions implies #[trigger] bit_group(repeated, repetitions, g)[j] == bits[g] by {
            lemma_div_in_group(g * repetitions + j, g, repetitions as int);
        }
        assert(bit_group(repeated, repetitions, g) =~= Seq::new(repetitions, |j: int| bits[g]));
        lemma_count_constant(repetitions, bits[g]);
    }
    assert(agreement =~= Seq::new(bits.len(), |g: int| repetitions as usize));
}


/// The bits of the `g`-th group of `repetitions` consecutive bits of `bits` that equal `v`.
pub open spec fn group_bits_equal(bits: Seq<bool>, repetitions: nat, g: int, v: bool) -> Seq<bool> {
    Seq::new(repetitions, |j: int| bits[g * repetitions + j] == v)
}

/// Majority decoding reports, for every complete group, how many of the group's bits
/// equal the decoded bit; and the decoded bit is `true` exactly when at least half of the
/// group's bits are set. This holds of any input, not only of clean repetitions.
pub proof fn lemma_majority_agreement_counts_agreeing_bits(bits: Seq<bool>, repetitions: nat, g: int)
    requires
        0 < repetitions <= usize::MAX,
        0 <= g,
        (g + 1) * repetitions <= bits.len(),
    ensures
        g < spec_majority_bits(bits, repetitions).len(),
        g < spec_majority_agreement(bits, repetitions).len(),
        spec_majority_bits(bits, repetitions)[g] == (2 * count_true(group_bits_equal(bits, repetitions, g, true))
            >= repetitions),
        spec_majority_agreement(bits, repetitions)[g] as int == count_true(
            group_bits_equal(bits, repetitions, g, spec_majority_bits(bits, repetitions)[g]),
        ),
        2 * spec_majority_agreement(bits, repetitions)[g] >= repetitions,
{
    let r = repetitions;
    assert((g + 1) * r == g * r + r) by (nonlinear_arith);
    assert(g * r >= 0) by (nonlinear_arith)
        requires
            g >= 0,
    ;
    assert(g < bits.len() / r) by (nonlinear_arith)
        requires
            (g + 1) * r <= bits.len(),
            r > 0,
            g >= 0,
    ;
    let group = bit_group(bits, r, g);
    assert(group.len() == r);
    let ones = count_true(group);
    lemma_count_true_le_len(group);
    let vote = group_vote(group);
    assert(spec_majority_bits(bits, r)[g] == vote);
    assert(group_bits_equal(bits, r, g, true) =~= group);
    assert(group_bits_equal(bits, r, g, vote) =~= mismatches(group, !vote));
    lemma_count_mismatch(group, !vote);
    assert(group_agreement(group) <= r);
    assert(spec_majority_agreement(bits, r)[g] as int == group_agreement(group));
}


/// Why a byte string is not a payload.
#[derive(Debug, Clone, Copy, PartialEq, Eq)]
pub enum PayloadError {
    /// The byte string does not hold exactly `expected` bytes.
    InvalidLength { expected: usize, actual: usize },
    /// The version byte is not [`PAYLOAD_VERSION`].
    UnsupportedVersion(u8),
    /// The stored checksum does not match the version and identifier.
    ChecksumMismatch,
}

/// What a watermark carries: a version, a 16-byte identifier and a checksum over both.
#[derive(Debug, Clone, Copy, PartialEq, Eq)]
pub struct WatermarkPayload {
    pub version: u8,
    pub watermark_id: [u8; 16],
    pub checksum: u32,
}

impl View for WatermarkPayload {
    /// Version, identifier bytes and checksum.
    type V = (u8, Seq<u8>, u32);

    open spec fn view(&self) -> (u8, Seq<u8>, u32) {
        (self.version, self.watermark_id@, self.checksum)
    }
}

/// One bit step of the reflected CRC-32 register (IEEE polynomial `0xEDB88320`).
pub open spec fn crc32_step(reg: u32) -> u32 {
    if reg & 1u32 == 1u32 {
        (reg >> 1u32) ^ 0xEDB88320u32
    } else {
        reg >> 1u32
    }
}

/// Eight bit steps of the CRC-32 register.
pub open spec fn crc32_shift8(reg: u32) -> u32 {
    crc32_step(crc32_step(crc32_step(crc32_step(crc32_step(crc32_step(crc32_step(crc32_step(reg))))))))
}

/// The CRC-32 register after the bytes of `data`, starting from all ones.
pub open spec fn crc32_register(data: Seq<u8>) -> u32
    decreases data.len(),
{
    if data.len() == 0 {
        0xFFFF_FFFFu32
    } else {
        crc32_shift8(crc32_register(data.drop_last()) ^ (data.last() as u32))
    }
}

/// The CRC-32 checksum (IEEE, reflected, initial value and final XOR all ones) of `data`.
pub open spec fn crc32(data: Seq<u8>) -> u32 {
    crc32_register(data) ^ 0xFFFF_FFFFu32
}

/// Calls `crc32fast::hash`, which its documentation gives as the CRC-32 (IEEE) checksum:
/// reflected polynomial `0xEDB88320`, initial value and final XOR all ones, as
/// [`crc32`] spells out bit by bit (the crate computes it with lookup tables).
#[verifier::external_body]
fn crc32_hash(data: &[u8]) -> (checksum: u32)
    ensures
        checksum == crc32(data@),
{
    crc32fast::hash(data)
}

proof fn lemma_crc32_step_xor(a: u32, b: u32)
    by (bit_vector)
    ensures
        crc32_step(a ^ b) == crc32_step(a) ^ crc32_step(b),
{
}

proof fn lemma_crc32_step_nonzero(a: u32)
    by (bit_vector)
    requires
        a != 0u32,
    ensures
        crc32_step(a) != 0u32,
{
}

proof fn lemma_xor_nonzero(a: u32, b: u32)
    by (bit_vector)
    ensures
        (a ^ b == 0u32) == (a == b),
        (a ^ 0xFFFF_FFFFu32 == b ^ 0xFFFF_FFFFu32) == (a == b),
{
}

proof fn lemma_xor_cancel(r: u32, s: u32, x: u32, y: u32)
    by (bit_vector)
    ensures
        (r ^ x) ^ (s ^ y) == (r ^ s) ^ (x ^ y),
        x == y ==> (r ^ x) ^ (s ^ y) == r ^ s,
        r == s ==> (r ^ x) ^ (s ^ y) == x ^ y,
{
}

proof fn lemma_byte_xor_nonzero(x: u8, y: u8)
    by (bit_vector)
    requires
        x != y,
    ensures
        (x as u32) ^ (y as u32) != 0u32,
{
}

/// Eight register steps are linear and keep a nonzero register nonzero.
proof fn lemma_crc32_shift8(a: u32, b: u32)
    ensures
        crc32_shift8(a ^ b) == crc32_shift8(a) ^ crc32_shift8(b),
        a != 0 ==> crc32_shift8(a) != 0,
{
    lemma_crc32_step_xor(a, b);
    lemma_crc32_step_xor(crc32_step(a), crc32_step(b));
    lemma_crc32_step_xor(crc32_step(crc32_step(a)), crc32_step(crc32_step(b)));
    lemma_crc32_step_xor(crc32_step(crc32_step(crc32_step(a))), crc32_step(crc32_step(crc32_step(b))));
    lemma_crc32_step_xor(
        crc32_step(crc32_step(crc32_step(crc32_step(a)))),
        crc32_step(crc32_step(crc32_step(crc32_step(b)))),
    );
    lemma_crc32_step_xor(
        crc32_step(crc32_step(crc32_step(crc32_step(crc32_step(a))))),
        crc32_step(crc32_step(crc32_step(crc32_step(crc32_step(b))))),
    );
    lemma_crc32_step_xor(
        crc32_step(crc32_step(crc32_step(crc32_step(crc32_step(crc32_step(a)))))),
        crc32_step(crc32_step(crc32_step(crc32_step(crc32_step(crc32_step(b)))))),
    );
    lemma_crc32_step_xor(
        crc32_step(crc32_step(crc32_step(crc32_step(crc32_step(crc32_step(crc32_step(a))))))),
        crc32_step(crc32_step(crc32_step(crc32_step(crc32_step(crc32_step(crc32_step(b))))))),
    );
    if a != 0 {
        lemma_crc32_step_nonzero(a);
        lemma_crc32_step_nonzero(crc32_step(a));
        lemma_crc32_step_nonzero(crc32_step(crc32_step(a)));
        lemma_crc32_step_nonzero(crc32_step(crc32_step(crc32_step(a))));
        lemma_crc32_step_nonzero(crc32_step(crc32_step(crc32_step(crc32_step(a)))));
        lemma_crc32_step_nonzero(crc32_step(crc32_step(crc32_step(crc32_step(crc32_step(a))))));
        lemma_crc32_step_nonzero(crc32_step(crc32_step(crc32_step(crc32_step(crc32_step(crc32_step(a)))))));
        lemma_crc32_step_nonzero(
            crc32_step(crc32_step(crc32_step(crc32_step(crc32_step(crc32_step(crc32_step(a))))))),
        );
    }
}

/// Two byte strings of the same length that differ in exactly one byte have different
/// CRC-32 checksums: CRC-32 detects every error confined to one byte, in particular every
/// single flipped bit.
pub proof fn lemma_crc32_detects_byte_error(a: Seq<u8>, b: Seq<u8>, k: int)
    requires
        a.len() == b.len(),
        0 <= k < a.len(),
        a[k] != b[k],
        forall|j: int| 0 <= j < a.len() && j != k ==> a[j] == b[j],
    ensures
        crc32(a) != crc32(b),
{
    lemma_crc32_register_differs(a, b, k);
    lemma_xor_nonzero(crc32_register(a), crc32_register(b));
}

proof fn lemma_crc32_register_differs(a: Seq<u8>, b: Seq<u8>, k: int)
    requires
        a.len() == b.len(),
        0 <= k < a.len(),
        a[k] != b[k],
        forall|j: int| 0 <= j < a.len() && j != k ==> a[j] == b[j],
    ensures
        crc32_register(a) != crc32_register(b),
    decreases a.len(),
{
    let n = a.len() as int;
    let ra = crc32_register(a.drop_last());
    let rb = crc32_register(b.drop_last());
    let x = a.last() as u32;
    let y = b.last() as u32;
    if k == n - 1 {
        assert(a.drop_last() =~= b.drop_last());
        lemma_byte_xor_nonzero(a.last(), b.last());
        lemma_xor_cancel(ra, rb, x, y);
        lemma_crc32_shift8(ra ^ x, rb ^ y);
        lemma_crc32_shift8((ra ^ x) ^ (rb ^ y), 0);
        lemma_xor_nonzero(crc32_shift8(ra ^ x), crc32_shift8(rb ^ y));
    } else {
        lemma_crc32_register_differs(a.drop_last(), b.drop_last(), k);
        lemma_xor_nonzero(ra, rb);
        lemma_xor_cancel(ra, rb, x, y);
        lemma_crc32_shift8(ra ^ x, rb ^ y);
        lemma_crc32_shift8((ra ^ x) ^ (rb ^ y), 0);
        lemma_xor_nonzero(crc32_shift8(ra ^ x), crc32_shift8(rb ^ y));
    }
}

/// The checksum that guards a version byte and an identifier.
pub open spec fn spec_checksum(version: u8, id: Seq<u8>) -> u32 {
    crc32(seq![version] + id)
}

/// The four big-endian bytes of `x`.
pub open spec fn be32_bytes(x: u32) -> Seq<u8> {
    seq![(x >> 24u32) as u8, (x >> 16u32) as u8, (x >> 8u32) as u8, x as u8]
}

/// The number whose big-endian bytes are `b[0..4]`.
pub open spec fn be32_value(b: Seq<u8>) -> u32 {
    ((b[0] as u32) << 24u32) | ((b[1] as u32) << 16u32) | ((b[2] as u32) << 8u32) | (b[3] as u32)
}

/// A payload is valid when it has the current version and its checksum matches.
pub open spec fn is_valid_payload(p: (u8, Seq<u8>, u32)) -> bool {
    &&& p.0 == PAYLOAD_VERSION
    &&& p.1.len() == WATERMARK_ID_BYTES
    &&& p.2 == spec_checksum(p.0, p.1)
}

/// The byte encoding of a payload: version, identifier, big-endian checksum.
pub open spec fn spec_payload_bytes(p: (u8, Seq<u8>, u32)) -> Seq<u8> {
    seq![p.0] + p.1 + be32_bytes(p.2)
}

/// What decoding a byte string gives: the first failed check, in the order length,
/// version, checksum, or the payload that the bytes encode.
pub open spec fn spec_from_bytes(bytes: Seq<u8>) -> Result<(u8, Seq<u8>, u32), PayloadError> {
    if bytes.len() != PAYLOAD_BYTES {
        Err(PayloadError::InvalidLength { expected: PAYLOAD_BYTES, actual: bytes.len() as usize })
    } else if bytes[0] != PAYLOAD_VERSION {
        Err(PayloadError::UnsupportedVersion(bytes[0]))
    } else if be32_value(bytes.subrange(17, 21)) != crc32(bytes.subrange(0, 17)) {
        Err(PayloadError::ChecksumMismatch)
    } else {
        Ok((bytes[0], bytes.subrange(1, 17), be32_value(bytes.subrange(17, 21))))
    }
}

/// The bit encoding of a payload.
pub open spec fn spec_payload_bits(p: (u8, Seq<u8>, u32)) -> Seq<bool> {
    spec_bytes_to_bits(spec_payload_bytes(p))
}

/// What decoding a bit string gives.
pub open spec fn spec_from_bits(bits: Seq<bool>) -> Result<(u8, Seq<u8>, u32), PayloadError> {
    spec_from_bytes(spec_bits_to_bytes(bits))
}

/// Relates an executable decoding result to its model.
pub open spec fn decoded_as(
    res: Result<WatermarkPayload, PayloadError>,
    model: Result<(u8, Seq<u8>, u32), PayloadError>,
) -> bool {
    match res {
        Ok(p) => model == Ok::<(u8, Seq<u8>, u32), PayloadError>(p@),
        Err(e) => model == Err::<(u8, Seq<u8>, u32), PayloadError>(e),
    }
}

fn checksum_for(version: u8, id: &[u8; 16]) -> (checksum: u32)
    ensures
        checksum == spec_checksum(version, id@),
{
    let mut data: Vec<u8> = Vec::with_capacity(1 + WATERMARK_ID_BYTES);
    data.push(version);
    let mut k: usize = 0;
    while k < WATERMARK_ID_BYTES
        invariant
            k <= WATERMARK_ID_BYTES,
            data@ =~= seq![version] + id@.take(k as int),
        decreases WATERMARK_ID_BYTES - k,
    {
        data.push(id[k]);
        k = k + 1;
    }
    assert(id@.take(16) =~= id@);
    crc32_hash(data.as_slice())
}

proof fn lemma_be32_round_trip(x: u32, b0: u8, b1: u8, b2: u8, b3: u8)
    by (bit_vector)
    ensures
        (((x >> 24u32) as u8) as u32) << 24u32 | (((x >> 16u32) as u8) as u32) << 16u32
            | (((x >> 8u32) as u8) as u32) << 8u32 | ((x as u8) as u32) == x,
        ((((b0 as u32) << 24u32) | ((b1 as u32) << 16u32) | ((b2 as u32) << 8u32) | (b3 as u32))
            >> 24u32) as u8 == b0,
        ((((b0 as u32) << 24u32) | ((b1 as u32) << 16u32) | ((b2 as u32) << 8u32) | (b3 as u32))
            >> 16u32) as u8 == b1,
        ((((b0 as u32) << 24u32) | ((b1 as u32) << 16u32) | ((b2 as u32) << 8u32) | (b3 as u32))
            >> 8u32) as u8 == b2,
        (((b0 as u32) << 24u32) | ((b1 as u32) << 16u32) | ((b2 as u32) << 8u32) | (b3 as u32))
            as u8 == b3,
{
}

/// The marks of a random (version 4) UUID: version nibble 4, variant bits `10`.
pub open spec fn is_random_uuid(id: Seq<u8>) -> bool {
    &&& id.len() == 16
    &&& id[6] >> 4u8 == 4u8
    &&& id[8] >> 6u8 == 2u8
}

/// Calls `uuid::Uuid::new_v4` and hands out its bytes. The identifier is random: the contract
/// states only what its source fixes of every such identifier, the version nibble and the
/// variant bits; nothing else of the bytes is stated.
#[verifier::external_body]
fn random_uuid_bytes() -> (id: [u8; 16])
    ensures
        is_random_uuid(id@),
{
    *uuid::Uuid::new_v4().as_bytes()
}

impl WatermarkPayload {
    /// A payload for a fresh random identifier.
    pub fn generate() -> (p: WatermarkPayload)
        ensures
            is_valid_payload(p@),
            is_random_uuid(p.watermark_id@),
    {
        Self::new(random_uuid_bytes())
    }

    /// The payload for an identifier, with the current version and its checksum.
    pub fn new(watermark_id: [u8; 16]) -> (p: WatermarkPayload)
        ensures
            p@ == (PAYLOAD_VERSION, watermark_id@, spec_checksum(PAYLOAD_VERSION, watermark_id@)),
            is_valid_payload(p@),
    {
        let checksum = checksum_for(PAYLOAD_VERSION, &watermark_id);
        WatermarkPayload { version: PAYLOAD_VERSION, watermark_id, checksum }
    }

    /// The byte encoding: version, identifier, big-endian checksum.
    pub fn to_bytes(&self) -> (out: [u8; 21])
        ensures
            out@ == spec_payload_bytes(self@),
    {
        let mut out: [u8; 21] = [0u8; 21];
        out[0] = self.version;
        let mut k: usize = 0;
        while k < WATERMARK_ID_BYTES
            invariant
                k <= WATERMARK_ID_BYTES,
                out@.len() == 21,
                out@[0] == self.version,
                forall|j: int| 0 <= j < k ==> #[trigger] out@[1 + j] == self.watermark_id@[j],
            decreases WATERMARK_ID_BYTES - k,
        {
            out[1 + k] = self.watermark_id[k];
            k = k + 1;
        }
        let c = self.checksum;
        out[17] = (c >> 24u32) as u8;
        out[18] = (c >> 16u32) as u8;
        out[19] = (c >> 8u32) as u8;
        out[20] = c as u8;
        let ghost enc = spec_payload_bytes(self@);
        assert forall|j: int| 0 <= j < 21 implies #[trigger] out@[j] == enc[j] by {
            if 1 <= j < 17 {
                assert(out@[1 + (j - 1)] == self.watermark_id@[j - 1]);
            }
        }
        assert(out@ =~= enc);
        out
    }

    /// Decodes a byte encoding, checking in turn its length, its version and its checksum.
    pub fn from_bytes(bytes: &[u8]) -> (res: Result<WatermarkPayload, PayloadError>)
        ensures
            decoded_as(res, spec_from_bytes(bytes@)),
    {
        if bytes.len() != PAYLOAD_BYTES {
            return Err(PayloadError::InvalidLength { expected: PAYLOAD_BYTES, actual: bytes.len() });
        }
        let version = bytes[0];
        if version != PAYLOAD_VERSION {
            return Err(PayloadError::UnsupportedVersion(version));
        }
        let mut id: [u8; 16] = [0u8; 16];
        let mut k: usize = 0;
        while k < WATERMARK_ID_BYTES
            invariant
                k <= WATERMARK_ID_BYTES,
                bytes@.len() == PAYLOAD_BYTES,
                id@.len() == 16,
                forall|j: int| 0 <= j < k ==> #[trigger] id@[j] == bytes@[1 + j],
            decreases WATERMARK_ID_BYTES - k,
        {
            id[k] = bytes[1 + k];
            k = k + 1;
        }
        assert(id@ =~= bytes@.subrange(1, 17));
        assert(bytes@.subrange(0, 17) =~= seq![version] + id@);
        let checksum = ((bytes[17] as u32) << 24u32) | ((bytes[18] as u32) << 16u32) | ((bytes[19] as u32)
            << 8u32) | (bytes[20] as u32);
        assert(checksum == be32_value(bytes@.subrange(17, 21)));
        if checksum != checksum_for(version, &id) {
            return Err(PayloadError::ChecksumMismatch);
        }
        Ok(WatermarkPayload { version, watermark_id: id, checksum })
    }

    /// The bit encoding, most significant bit of each byte first.
    pub fn to_bits(&self) -> (bits: Vec<bool>)
        ensures
            bits@ == spec_payload_bits(self@),
    {
        let bytes = self.to_bytes();
        bytes_to_bits(bytes.as_slice())
    }

    /// Decodes a bit encoding: the bits are packed into bytes, which are then decoded.
    pub fn from_bits(bits: &[bool]) -> (res: Result<WatermarkPayload, PayloadError>)
        ensures
            decoded_as(res, spec_from_bits(bits@)),
    {
        let bytes = bits_to_bytes(bits);
        Self::from_bytes(bytes.as_slice())
    }
}


proof fn lemma_be32_bytes_value(x: u32)
    ensures
        be32_value(be32_bytes(x)) == x,
{
    lemma_be32_round_trip(x, 0, 0, 0, 0);
}

proof fn lemma_be32_value_bytes(b: Seq<u8>)
    requires
        b.len() == 4,
    ensures
        be32_bytes(be32_value(b)) == b,
{
    lemma_be32_round_trip(0, b[0], b[1], b[2], b[3]);
    assert(be32_bytes(be32_value(b)) =~= b);
}

/// Decoding the encoding of a valid payload gives the payload back, from bytes and from bits.
pub proof fn lemma_payload_round_trip(p: (u8, Seq<u8>, u32))
    requires
        is_valid_payload(p),
    ensures
        spec_from_bytes(spec_payload_bytes(p)) == Ok::<(u8, Seq<u8>, u32), PayloadError>(p),
        spec_from_bits(spec_payload_bits(p)) == Ok::<(u8, Seq<u8>, u32), PayloadError>(p),
{
    let bytes = spec_payload_bytes(p);
    lemma_be32_bytes_value(p.2);
    assert(bytes.subrange(17, 21) =~= be32_bytes(p.2));
    assert(bytes.subrange(1, 17) =~= p.1);
    assert(bytes.subrange(0, 17) =~= seq![p.0] + p.1);
    lemma_bytes_bits_bytes(bytes);
}

/// A byte string that decodes is exactly the encoding of the valid payload it decodes to.
pub proof fn lemma_decoded_bytes_are_encoding(bytes: Seq<u8>)
    requires
        spec_from_bytes(bytes) is Ok,
    ensures
        is_valid_payload(spec_from_bytes(bytes)->Ok_0),
        spec_payload_bytes(spec_from_bytes(bytes)->Ok_0) == bytes,
{
    let p = spec_from_bytes(bytes)->Ok_0;
    lemma_be32_value_bytes(bytes.subrange(17, 21));
    assert(bytes.subrange(0, 17) =~= seq![p.0] + p.1);
    assert(spec_payload_bytes(p) =~= bytes);
}

/// A valid payload survives its repetition code: when fewer than half of the bits of every
/// group of the received bits are wrong, majority decoding and bit decoding give it back.
pub proof fn lemma_payload_survives_errors(p: (u8, Seq<u8>, u32), received: Seq<bool>, repetitions: nat)
    requires
        is_valid_payload(p),
        repetitions > 0,
        received.len() == PAYLOAD_BITS * repetitions,
        forall|g: int|
            0 <= g < PAYLOAD_BITS ==> 2 * #[trigger] group_errors(received, spec_payload_bits(p), repetitions, g)
                < repetitions,
    ensures
        spec_from_bits(spec_majority_bits(received, repetitions)) == Ok::<(u8, Seq<u8>, u32), PayloadError>(p),
{
    let sent = spec_payload_bits(p);
    assert(spec_payload_bytes(p).len() == PAYLOAD_BYTES);
    assert(sent.len() == PAYLOAD_BITS);
    lemma_majority_corrects_errors(sent, received, repetitions);
    lemma_payload_round_trip(p);
}


/// Corrupting any one byte of a valid payload's encoding (in particular flipping any one
/// bit) never decodes to a payload: a corrupted version byte is refused as an unsupported
/// version, any other corrupted byte as a checksum mismatch.
pub proof fn lemma_corrupted_byte_rejected(p: (u8, Seq<u8>, u32), k: int, v: u8)
    requires
        is_valid_payload(p),
        0 <= k < PAYLOAD_BYTES,
        v != spec_payload_bytes(p)[k],
    ensures
        k == 0 ==> spec_from_bytes(spec_payload_bytes(p).update(k, v)) == Err::<
            (u8, Seq<u8>, u32),
            PayloadError,
        >(PayloadError::UnsupportedVersion(v)),
        k != 0 ==> spec_from_bytes(spec_payload_bytes(p).update(k, v)) == Err::<
            (u8, Seq<u8>, u32),
            PayloadError,
        >(PayloadError::ChecksumMismatch),
{
    let b = spec_payload_bytes(p);
    let c = b.update(k, v);
    lemma_be32_bytes_value(p.2);
    assert(b.subrange(17, 21) =~= be32_bytes(p.2));
    assert(b.subrange(0, 17) =~= seq![p.0] + p.1);
    if 1 <= k < 17 {
        assert(c.subrange(17, 21) =~= b.subrange(17, 21));
        assert(c.subrange(0, 17)[k] != b.subrange(0, 17)[k]);
        lemma_crc32_detects_byte_error(c.subrange(0, 17), b.subrange(0, 17), k);
    } else if k >= 17 {
        assert(c.subrange(0, 17) =~= b.subrange(0, 17));
        if be32_value(c.subrange(17, 21)) == p.2 {
            lemma_be32_value_bytes(c.subrange(17, 21));
            assert(c.subrange(17, 21)[k - 17] != b.subrange(17, 21)[k - 17]);
        }
    }
}


/// The decimal digit character of a number below ten.
pub open spec fn decimal_digit(d: int) -> char {
    (48 + d) as char
}

/// The decimal text of `n`, without leading zeros.
pub open spec fn decimal(n: nat) -> Seq<char>
    decreases n,
{
    if n < 10 {
        seq![decimal_digit(n as int)]
    } else {
        decimal(n / 10) + seq![decimal_digit((n % 10) as int)]
    }
}

fn digit_text(d: usize) -> (text: &'static str)
    requires
        d < 10,
    ensures
        text@ == seq![decimal_digit(d as int)],
{
    let text = match d {
        0 => {
            proof {
                reveal_strlit("0");
            }
            "0"
        },
        1 => {
            proof {
                reveal_strlit("1");
            }
            "1"
        },
        2 => {
            proof {
                reveal_strlit("2");
            }
            "2"
        },
        3 => {
            proof {
                reveal_strlit("3");
            }
            "3"
        },
        4 => {
            proof {
                reveal_strlit("4");
            }
            "4"
        },
        5 => {
            proof {
                reveal_strlit("5");
            }
            "5"
        },
        6 => {
            proof {
                reveal_strlit("6");
            }
            "6"
        },
        7 => {
            proof {
                reveal_strlit("7");
            }
            "7"
        },
        8 => {
            proof {
                reveal_strlit("8");
            }
            "8"
        },
        _ => {
            proof {
                reveal_strlit("9");
            }
            "9"
        },
    };
    assert(text@ =~= seq![decimal_digit(d as int)]);
    text
}

/// Appends the decimal text of `n`.
fn push_decimal(out: &mut String, n: usize)
    ensures
        final(out)@ == old(out)@ + decimal(n as nat),
    decreases n,
{
    if n >= 10 {
        push_decimal(out, n / 10);
    }
    out.append(digit_text(n % 10));
    assert(out@ =~= old(out)@ + decimal(n as nat));
}

/// The text that describes a payload error.
pub open spec fn spec_payload_error_message(e: PayloadError) -> Seq<char> {
    match e {
        PayloadError::InvalidLength { expected, actual } => "payload must contain "@ + decimal(
            expected as nat,
        ) + " bytes, got "@ + decimal(actual as nat),
        PayloadError::UnsupportedVersion(version) => "unsupported payload version "@ + decimal(
            version as nat,
        ),
        PayloadError::ChecksumMismatch => "payload checksum mismatch"@,
    }
}

impl PayloadError {
    /// A sentence that describes the error, for reports.
    pub fn message(&self) -> (text: String)
        ensures
            text@ == spec_payload_error_message(*self),
    {
        match self {
            PayloadError::InvalidLength { expected, actual } => {
                let mut text = "payload must contain ".to_owned();
                push_decimal(&mut text, *expected);
                text.append(" bytes, got ");
                push_decimal(&mut text, *actual);
                text
            },
            PayloadError::UnsupportedVersion(version) => {
                let mut text = "unsupported payload version ".to_owned();
                push_decimal(&mut text, *version as usize);
                text
            },
            PayloadError::ChecksumMismatch => "payload checksum mismatch".to_owned(),
        }
    }
}

} // verus!
