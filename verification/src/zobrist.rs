//! Position fingerprints: a table of pseudo-random words, one per cell and colour,
//! and the exclusive-or of the words that a board selects.

use crate::board::Goban;
use crate::color::Color;
use vstd::prelude::*;

verus! {

/// One step of the splitmix64 generator.
pub open spec fn splitmix64_spec(x: u64) -> u64 {
    let x1 = x.wrapping_add(0x9E3779B97F4A7C15u64);
    let z1 = (x1 ^ (x1 >> 30u64)).wrapping_mul(0xBF58476D1CE4E5B9u64);
    let z2 = (z1 ^ (z1 >> 27u64)).wrapping_mul(0x94D049BB133111EBu64);
    z2 ^ (z2 >> 31u64)
}

/// The generator's state after `k` steps, seeded from the board's side length.
pub open spec fn table_word(size: usize, k: nat) -> u64
    decreases k,
{
    if k == 0 {
        0x1234_5678_9ABC_DEF0u64 ^ (size as u64)
    } else {
        splitmix64_spec(table_word(size, (k - 1) as nat))
    }
}

/// The fingerprint table of a board of side `size`: three words per cell, the
/// generator's successive states.
pub open spec fn table_of(size: usize) -> Seq<u64> {
    Seq::new((size * size * 3) as nat, |i: int| table_word(size, (i + 1) as nat))
}

/// The exclusive-or, over all cells, of the table word for the colour that the cell holds.
pub open spec fn fingerprint(cells: Seq<Color>, table: Seq<u64>) -> u64
    decreases cells.len(),
{
    if cells.len() == 0 {
        0u64
    } else {
        fingerprint(cells.drop_last(), table) ^ table[(cells.len() - 1) * 3 + cells.last().slot()]
    }
}

pub fn splitmix64(x: u64) -> (r: u64)
    ensures
        r == splitmix64_spec(x),
{
    let x1 = x.wrapping_add(0x9E3779B97F4A7C15u64);
    let z1 = (x1 ^ (x1 >> 30u64)).wrapping_mul(0xBF58476D1CE4E5B9u64);
    let z2 = (z1 ^ (z1 >> 27u64)).wrapping_mul(0x94D049BB133111EBu64);
    z2 ^ (z2 >> 31u64)
}

/// Builds the fingerprint table for boards of side `size`.
pub fn generate_zobrist_table(size: usize) -> (r: Vec<u64>)
    requires
        size * size * 3 <= usize::MAX,
    ensures
        r@ == table_of(size),
{
    assert(size * size <= size * size * 3) by (nonlinear_arith);
    let total: usize = size * size * 3;
    let mut seed: u64 = 0x1234_5678_9ABC_DEF0u64 ^ (size as u64);
    let mut out: Vec<u64> = Vec::with_capacity(total);
    let mut i: usize = 0;
    while i < total
        invariant
            i <= total,
            total == size * size * 3,
            out@.len() == i,
            seed == table_word(size, i as nat),
            forall|j: int| 0 <= j < i ==> #[trigger] out@[j] == table_word(size, (j + 1) as nat),
        decreases total - i,
    {
        seed = splitmix64(seed);
        out.push(seed);
        i += 1;
    }
    assert(out@ =~= table_of(size));
    out
}

/// The fingerprint of a board under a table that has three words for each of its cells.
pub fn zobrist_hash_state(goban: &Goban, zobrist_table: &[u64]) -> (r: u64)
    requires
        zobrist_table@.len() >= 3 * goban.tab@.len(),
    ensures
        r == fingerprint(goban.tab@, zobrist_table@),
{
    let mut hash: u64 = 0;
    let mut i: usize = 0;
    let words: usize = zobrist_table.len();
    while i < goban.tab.len()
        invariant
            i <= goban.tab@.len(),
            words == zobrist_table@.len(),
            words >= 3 * goban.tab@.len(),
            hash == fingerprint(goban.tab@.take(i as int), zobrist_table@),
        decreases goban.tab@.len() - i,
    {
        let color = goban.tab[i];
        assert(goban.tab@.take(i + 1).drop_last() =~= goban.tab@.take(i as int));
        hash = hash ^ zobrist_table[i * 3 + (color.to_u8() as usize)];
        i += 1;
    }
    assert(goban.tab@.take(i as int) =~= goban.tab@);
    hash
}

} // verus!
