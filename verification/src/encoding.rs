use vstd::prelude::*;

verus! {

/// The four big-endian bytes of a 32-bit word.
pub open spec fn be32(n: u32) -> Seq<u8> {
    seq![
        ((n >> 24) & 0xff) as u8,
        ((n >> 16) & 0xff) as u8,
        ((n >> 8) & 0xff) as u8,
        (n & 0xff) as u8,
    ]
}

/// The eight big-endian bytes of a 64-bit word.
pub open spec fn be64(n: u64) -> Seq<u8> {
    seq![
        ((n >> 56) & 0xff) as u8,
        ((n >> 48) & 0xff) as u8,
        ((n >> 40) & 0xff) as u8,
        ((n >> 32) & 0xff) as u8,
        ((n >> 24) & 0xff) as u8,
        ((n >> 16) & 0xff) as u8,
        ((n >> 8) & 0xff) as u8,
        (n & 0xff) as u8,
    ]
}

/// The 32-bit word formed by four bytes, most significant first.
pub open spec fn word32(b0: u8, b1: u8, b2: u8, b3: u8) -> u32 {
    ((b0 as u32) << 24) | ((b1 as u32) << 16) | ((b2 as u32) << 8) | (b3 as u32)
}

/// The 64-bit word formed by eight bytes, most significant first.
pub open spec fn word64(b0: u8, b1: u8, b2: u8, b3: u8, b4: u8, b5: u8, b6: u8, b7: u8) -> u64 {
    ((b0 as u64) << 56) | ((b1 as u64) << 48) | ((b2 as u64) << 40) | ((b3 as u64) << 32)
        | ((b4 as u64) << 24) | ((b5 as u64) << 16) | ((b6 as u64) << 8) | (b7 as u64)
}

/// The signed reading of a 32-bit word, two's complement.
pub open spec fn signed32(n: u32) -> int {
    if n < 0x8000_0000 {
        n as int
    } else {
        n as int - 0x1_0000_0000
    }
}

/// The unsigned 32-bit word whose signed reading is `i`, for `i` in the
/// range of a 32-bit displacement.
pub open spec fn to_word32(i: int) -> u32 {
    if i >= 0 {
        i as u32
    } else {
        (i + 0x1_0000_0000) as u32
    }
}

/// Law: a 32-bit word survives the round trip through its big-endian bytes.
pub proof fn lemma_be32_round_trip(n: u32)
    ensures
        word32(be32(n)[0], be32(n)[1], be32(n)[2], be32(n)[3]) == n,
{
    assert((((((n >> 24) & 0xff) as u8) as u32) << 24) | (((((n >> 16) & 0xff) as u8) as u32)
        << 16) | (((((n >> 8) & 0xff) as u8) as u32) << 8) | ((((n & 0xff) as u8) as u32))
        == n) by (bit_vector);
}

/// Law: a 64-bit word survives the round trip through its big-endian bytes.
pub proof fn lemma_be64_round_trip(n: u64)
    ensures
        word64(
            be64(n)[0],
            be64(n)[1],
            be64(n)[2],
            be64(n)[3],
            be64(n)[4],
            be64(n)[5],
            be64(n)[6],
            be64(n)[7],
        ) == n,
{
    assert((((((n >> 56) & 0xff) as u8) as u64) << 56) | (((((n >> 48) & 0xff) as u8) as u64)
        << 48) | (((((n >> 40) & 0xff) as u8) as u64) << 40) | (((((n >> 32) & 0xff) as u8)
        as u64) << 32) | (((((n >> 24) & 0xff) as u8) as u64) << 24) | (((((n >> 16) & 0xff)
        as u8) as u64) << 16) | (((((n >> 8) & 0xff) as u8) as u64) << 8) | ((((n & 0xff) as u8)
        as u64)) == n) by (bit_vector);
}

/// Law: the signed reading inverts `to_word32` for every value a 32-bit
/// displacement can carry.
pub proof fn lemma_signed32_round_trip(i: int)
    requires
        -0x8000_0000 <= i < 0x8000_0000,
    ensures
        signed32(to_word32(i)) == i,
{
}

/// Law: a patched forward displacement resolves to its destination.  The
/// compiler writes `dest - src` into the operand slot ending at `src`; a
/// reader that adds the signed word back to `src` lands exactly on `dest`
/// — with the compiler's bound on the vector, on an instruction boundary
/// within it.
pub proof fn lemma_patched_jump_resolves(src: int, dest: int)
    requires
        0 <= src < 0x8000_0000,
        0 <= dest < 0x8000_0000,
    ensures
        src + signed32(
            word32(
                be32(to_word32(dest - src))[0],
                be32(to_word32(dest - src))[1],
                be32(to_word32(dest - src))[2],
                be32(to_word32(dest - src))[3],
            ),
        ) == dest,
{
    lemma_be32_round_trip(to_word32(dest - src));
    lemma_signed32_round_trip(dest - src);
}

/// Reads the big-endian 32-bit word at `pos`.
pub fn read32(iseq: &Vec<u8>, pos: usize) -> (n: u32)
    requires
        pos + 4 <= iseq@.len(),
    ensures
        n == word32(iseq@[pos as int], iseq@[pos + 1], iseq@[pos + 2], iseq@[pos + 3]),
{
    let n_bytes = iseq.len();
    assert(pos + 4 <= n_bytes || pos + 8 <= n_bytes);
    let b0 = iseq[pos];
    let b1 = iseq[pos + 1];
    let b2 = iseq[pos + 2];
    let b3 = iseq[pos + 3];
    let n = ((b0 as u32) << 24) | ((b1 as u32) << 16) | ((b2 as u32) << 8) | (b3 as u32);
    n
}

/// Reads the big-endian 64-bit word at `pos`.
pub fn read64(iseq: &Vec<u8>, pos: usize) -> (n: u64)
    requires
        pos + 8 <= iseq@.len(),
    ensures
        n == word64(
            iseq@[pos as int],
            iseq@[pos + 1],
            iseq@[pos + 2],
            iseq@[pos + 3],
            iseq@[pos + 4],
            iseq@[pos + 5],
            iseq@[pos + 6],
            iseq@[pos + 7],
        ),
{
    let n_bytes = iseq.len();
    assert(pos + 4 <= n_bytes || pos + 8 <= n_bytes);
    let b0 = iseq[pos];
    let b1 = iseq[pos + 1];
    let b2 = iseq[pos + 2];
    let b3 = iseq[pos + 3];
    let b4 = iseq[pos + 4];
    let b5 = iseq[pos + 5];
    let b6 = iseq[pos + 6];
    let b7 = iseq[pos + 7];
    let n = ((b0 as u64) << 56) | ((b1 as u64) << 48) | ((b2 as u64) << 40) | ((b3 as u64) << 32)
        | ((b4 as u64) << 24) | ((b5 as u64) << 16) | ((b6 as u64) << 8) | (b7 as u64);
    n
}

} // verus!
