//! Truth-table row indices read as bit patterns: bit `j` of a row index is the
//! input value of the variable with dense index `j`.

use vstd::prelude::*;

verus! {

/// Two to the power `n`: the number of rows of a truth table over `n` variables.
pub open spec fn pow2(n: nat) -> nat
    decreases n,
{
    if n == 0 {
        1
    } else {
        2 * pow2((n - 1) as nat)
    }
}

/// Bit `position` of `index`, the lowest bit being bit 0.
pub open spec fn bit(index: int, position: int) -> bool
    decreases position,
{
    if position <= 0 {
        index % 2 == 1
    } else {
        bit(index / 2, position - 1)
    }
}

/// The number whose lowest bits are `pattern`, `pattern[0]` being bit 0.
pub open spec fn encode(pattern: Seq<bool>) -> int
    decreases pattern.len(),
{
    if pattern.len() == 0 {
        0
    } else {
        (if pattern[0] {
            1int
        } else {
            0int
        }) + 2 * encode(pattern.skip(1))
    }
}

/// `pow2` grows with its argument.
pub proof fn lemma_pow2_monotone(a: nat, b: nat)
    requires
        a <= b,
    ensures
        pow2(a) <= pow2(b),
        pow2(a) >= 1,
    decreases b,
{
    if a < b {
        lemma_pow2_monotone(a, (b - 1) as nat);
    } else if a > 0 {
        lemma_pow2_monotone((a - 1) as nat, (a - 1) as nat);
    }
}

/// Two to the power thirty, written out.
pub proof fn lemma_pow2_30()
    ensures
        pow2(30) == 0x4000_0000,
{
    reveal_with_fuel(pow2, 31);
}

/// `encode(pattern)` is below `pow2(pattern.len())` and has `pattern` as its bits.
pub proof fn lemma_encode(pattern: Seq<bool>)
    ensures
        0 <= encode(pattern) < pow2(pattern.len()),
        forall|j: int| 0 <= j < pattern.len() ==> #[trigger] bit(encode(pattern), j) == pattern[j],
    decreases pattern.len(),
{
    if pattern.len() > 0 {
        let rest = pattern.skip(1);
        lemma_encode(rest);
        assert(encode(pattern) / 2 == encode(rest));
        assert forall|j: int| 0 <= j < pattern.len() implies #[trigger] bit(encode(pattern), j)
            == pattern[j] by {
            if j > 0 {
                assert(bit(encode(rest), j - 1) == rest[j - 1]);
            }
        }
    }
}

/// Two row indices of a table over `n` variables with the same `n` lowest bits are equal.
pub proof fn lemma_same_bits(a: int, b: int, n: nat)
    requires
        0 <= a < pow2(n),
        0 <= b < pow2(n),
        forall|j: int| 0 <= j < n ==> #[trigger] bit(a, j) == bit(b, j),
    ensures
        a == b,
    decreases n,
{
    if n > 0 {
        assert forall|j: int| 0 <= j < n - 1 implies #[trigger] bit(a / 2, j) == bit(b / 2, j) by {
            assert(bit(a, j + 1) == bit(b, j + 1));
        }
        lemma_same_bits(a / 2, b / 2, (n - 1) as nat);
        assert(bit(a, 0) == bit(b, 0));
    }
}

/// The number of rows of a truth table over `variable_count` variables.
pub fn row_count(variable_count: u32) -> (count: usize)
    requires
        variable_count <= 30,
    ensures
        count == pow2(variable_count as nat),
        count <= 0x4000_0000,
{
    let mut count: usize = 1;
    let mut i: u32 = 0;
    while i < variable_count
        invariant
            i <= variable_count <= 30,
            count == pow2(i as nat),
        decreases variable_count - i,
    {
        proof {
            lemma_pow2_monotone((i + 1) as nat, 30);
            lemma_pow2_30();
        }
        count = count * 2;
        i += 1;
    }
    proof {
        lemma_pow2_monotone(variable_count as nat, 30);
        lemma_pow2_30();
    }
    count
}

/// Whether bit `position` of `index` is set.
pub fn test_bit(index: usize, position: usize) -> (set: bool)
    ensures
        set == bit(index as int, position as int),
{
    let mut rest: usize = index;
    let mut i: usize = 0;
    while i < position
        invariant
            i <= position,
            bit(index as int, position as int) == bit(rest as int, position - i),
        decreases position - i,
    {
        rest = rest / 2;
        i += 1;
    }
    rest % 2 == 1
}

} // verus!
