//! The canonical assignment of prefix codes to symbols, from the code length
//! of each symbol. A length of zero marks a symbol that is not in use.

use vstd::prelude::*;

verus! {

/// The number of values a 32-bit code can take; codes are counted modulo it.
pub open spec fn code_space() -> nat {
    0x1_0000_0000
}

/// How many of the given lengths equal `len`.
pub open spec fn count_of(lengths: Seq<u8>, len: int) -> nat
    decreases lengths.len(),
{
    if lengths.len() == 0 {
        0
    } else {
        count_of(lengths.drop_last(), len) + if lengths.last() == len {
            1nat
        } else {
            0nat
        }
    }
}

/// A count as the histogram keeps it: it stops at the greatest `u32`.
pub open spec fn saturated(count: nat) -> nat {
    if count > u32::MAX {
        u32::MAX as nat
    } else {
        count
    }
}

/// The number of code slots taken at `len`: the saturated count of symbols of
/// that length, and none at length zero, whose symbols get no code.
pub open spec fn occurrences(lengths: Seq<u8>, len: int) -> nat {
    if len == 0 {
        0
    } else {
        saturated(count_of(lengths, len))
    }
}

/// The first code of length `len`.
pub open spec fn first_code(lengths: Seq<u8>, len: nat) -> nat
    decreases len,
{
    if len == 0 {
        0
    } else {
        ((first_code(lengths, (len - 1) as nat) + occurrences(lengths, len - 1)) * 2) % code_space()
    }
}

/// The code of `symbol`: the first code of its length, advanced by the number
/// of symbols of the same length that come before it.
pub open spec fn canonical_code(lengths: Seq<u8>, symbol: int) -> nat
    recommends
        0 <= symbol < lengths.len(),
{
    (first_code(lengths, lengths[symbol] as nat) + count_of(
        lengths.take(symbol),
        lengths[symbol] as int,
    )) % code_space()
}

/// The code assigned to `symbol`, if it is in use.
pub open spec fn assigned_code(lengths: Seq<u8>, symbol: int) -> Option<u32>
    recommends
        0 <= symbol < lengths.len(),
{
    if lengths[symbol] == 0 {
        None
    } else {
        Some(canonical_code(lengths, symbol) as u32)
    }
}

/// Counting over one more length adds one exactly where that length matches.
pub proof fn lemma_count_of_take(lengths: Seq<u8>, n: int, len: int)
    requires
        0 <= n < lengths.len(),
    ensures
        count_of(lengths.take(n + 1), len) == count_of(lengths.take(n), len) + if lengths[n]
            == len {
            1nat
        } else {
            0nat
        },
{
    assert(lengths.take(n + 1).drop_last() =~= lengths.take(n));
}

/// The greatest of the lengths, and zero where there is none.
pub fn max_length(code_lengths: &[u8]) -> (max: u8)
    ensures
        forall|i: int| 0 <= i < code_lengths@.len() ==> code_lengths@[i] <= max,
        code_lengths@.len() == 0 ==> max == 0,
        code_lengths@.len() > 0 ==> exists|i: int|
            0 <= i < code_lengths@.len() && code_lengths@[i] == max,
{
    let mut max: u8 = 0;
    let mut i: usize = 0;
    while i < code_lengths.len()
        invariant
            i <= code_lengths@.len(),
            forall|k: int| 0 <= k < i ==> code_lengths@[k] <= max,
            i == 0 ==> max == 0,
            i > 0 ==> exists|k: int| 0 <= k < i && code_lengths@[k] == max,
        decreases code_lengths@.len() - i,
    {
        if code_lengths[i] > max || i == 0 {
            max = code_lengths[i];
        }
        i = i + 1;
    }
    max
}

/// The histogram of the lengths: entry `len` counts the symbols of that
/// length, and stops counting at the greatest `u32`.
pub fn histogram(code_lengths: &[u8]) -> (occurrences: Vec<u32>)
    ensures
        occurrences@.len() == 256,
        forall|len: int|
            0 <= len < 256 ==> occurrences@[len] == saturated(count_of(code_lengths@, len)),
{
    let mut occurrences: Vec<u32> = Vec::new();
    let mut n: usize = 0;
    while n < 256
        invariant
            n <= 256,
            occurrences@.len() == n,
            forall|len: int| 0 <= len < n ==> occurrences@[len] == 0,
        decreases 256 - n,
    {
        occurrences.push(0u32);
        n = n + 1;
    }
    let mut i: usize = 0;
    assert(code_lengths@.take(0) =~= Seq::<u8>::empty());
    while i < code_lengths.len()
        invariant
            i <= code_lengths@.len(),
            occurrences@.len() == 256,
            forall|len: int|
                0 <= len < 256 ==> occurrences@[len] == saturated(
                    count_of(code_lengths@.take(i as int), len),
                ),
        decreases code_lengths@.len() - i,
    {
        let len: usize = code_lengths[i] as usize;
        let bumped: u32 = occurrences[len].saturating_add(1);
        proof {
            assert forall|l: int| 0 <= l < 256 implies #[trigger] occurrences@.update(
                len as int,
                bumped,
            )[l] == saturated(count_of(code_lengths@.take(i + 1), l)) by {
                lemma_count_of_take(code_lengths@, i as int, l);
            }
        }
        occurrences.set(len, bumped);
        i = i + 1;
    }
    assert(code_lengths@.take(code_lengths@.len() as int) =~= code_lengths@);
    occurrences
}

/// The first code of each length up to `max`, from the histogram.
pub fn first_codes(code_lengths: &[u8], counts: &Vec<u32>, max: u8) -> (first: Vec<u32>)
    requires
        counts@.len() == 256,
        forall|len: int|
            0 <= len < 256 ==> counts@[len] == saturated(count_of(code_lengths@, len)),
    ensures
        first@.len() == max + 1,
        forall|len: int| 0 <= len <= max ==> first@[len] == first_code(code_lengths@, len as nat),
{
    let mut first: Vec<u32> = Vec::new();
    first.push(0u32);
    let mut code: u32 = 0;
    let mut len: usize = 1;
    while len <= max as usize
        invariant
            1 <= len <= max + 1,
            counts@.len() == 256,
            forall|l: int| 0 <= l < 256 ==> counts@[l] == saturated(count_of(code_lengths@, l)),
            first@.len() == len,
            code == first_code(code_lengths@, (len - 1) as nat),
            forall|l: int| 0 <= l < len ==> first@[l] == first_code(code_lengths@, l as nat),
        decreases max + 1 - len,
    {
        let taken: u32 = if len == 1 {
            0
        } else {
            counts[len - 1]
        };
        assert(taken == occurrences(code_lengths@, len - 1));
        let next: u64 = ((code as u64 + taken as u64) * 2) % 0x1_0000_0000;
        code = next as u32;
        first.push(code);
        len = len + 1;
    }
    first
}

/// Assigns each symbol in use its canonical code: shorter codes come before
/// longer ones, and among codes of one length the symbols are served in
/// ascending order.
pub fn assign_codes(code_lengths: &[u8]) -> (codes: Vec<Option<u32>>)
    ensures
        codes@.len() == code_lengths@.len(),
        forall|symbol: int|
            0 <= symbol < code_lengths@.len() ==> codes@[symbol] == assigned_code(
                code_lengths@,
                symbol,
            ),
{
    let max: u8 = max_length(code_lengths);
    let counts = histogram(code_lengths);
    let mut next_code = first_codes(code_lengths, &counts, max);
    let mut codes: Vec<Option<u32>> = Vec::new();
    let mut symbol: usize = 0;
    assert(code_lengths@.take(0) =~= Seq::<u8>::empty());
    while symbol < code_lengths.len()
        invariant
            symbol <= code_lengths@.len(),
            codes@.len() == symbol,
            next_code@.len() == max + 1,
            forall|i: int| 0 <= i < code_lengths@.len() ==> code_lengths@[i] <= max,
            forall|len: int|
                1 <= len <= max ==> next_code@[len] == (first_code(code_lengths@, len as nat)
                    + count_of(code_lengths@.take(symbol as int), len)) % code_space(),
            forall|s: int| 0 <= s < symbol ==> codes@[s] == assigned_code(code_lengths@, s),
        decreases code_lengths@.len() - symbol,
    {
        let len: usize = code_lengths[symbol] as usize;
        let ghost before = next_code@;
        if len != 0 {
            let code: u32 = next_code[len];
            codes.push(Some(code));
            let advanced: u64 = (code as u64 + 1) % 0x1_0000_0000;
            next_code.set(len, advanced as u32);
        } else {
            codes.push(None);
        }
        proof {
            assert forall|l: int| 1 <= l <= max implies #[trigger] next_code@[l] == (first_code(
                code_lengths@,
                l as nat,
            ) + count_of(code_lengths@.take(symbol + 1), l)) % code_space() by {
                lemma_count_of_take(code_lengths@, symbol as int, l);
                let sum: nat = first_code(code_lengths@, l as nat) + count_of(
                    code_lengths@.take(symbol as int),
                    l,
                );
                assert(before[l] == sum % 0x1_0000_0000);
                if l == len && len != 0 {
                    assert(next_code@[l] == (sum + 1) % 0x1_0000_0000);
                }
            }
        }
        symbol = symbol + 1;
    }
    codes
}

} // verus!
