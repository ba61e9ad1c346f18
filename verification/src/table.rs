//! A bit table of the primes below 2^16.
//!
//! The table holds one bit for each odd number from 1 to 65535, 64 to a word,
//! the smallest number in the highest bit. Even numbers are not stored: 2 is
//! the only prime among them.

use crate::number_theory;
use crate::number_theory::{
    lemma_divisor_refutes_prime, lemma_even_prime_is_two, lemma_listed_small_prime,
    lemma_prime_by_square_bound, no_divisor_below,
};
use vstd::prelude::*;

verus! {

/// The number of words in the table.
pub const TABLE_WORDS: usize = 512;

/// Bit `offset` of `word`, counted from the highest bit.
pub open spec fn table_bit(word: u64, offset: u64) -> bool {
    (word << offset) >> 63 == 1
}

/// The bit that the table holds for the odd number `2 * pos + 1`.
pub open spec fn table_entry(table: Seq<u64>, pos: int) -> bool {
    table_bit(table[pos / 64], (pos % 64) as u64)
}

/// The table is complete and right: it has 512 words, and the bit of every odd
/// number below 2^16 says whether that number is prime.
pub open spec fn is_small_prime_table(table: Seq<u64>) -> bool {
    &&& table.len() == TABLE_WORDS
    &&& forall|pos: int|
        0 <= pos < 64 * TABLE_WORDS ==> #[trigger] table_entry(table, pos)
            == number_theory::is_prime((2 * pos + 1) as nat)
}

/// No bit is set in the zero word.
proof fn lemma_no_bit_in_zero(offset: u64)
    by (bit_vector)
    requires
        offset < 64,
    ensures
        !table_bit(0u64, offset),
{
}

/// Setting bit `set` changes that bit and no other.
proof fn lemma_set_bit(word: u64, set: u64, offset: u64)
    by (bit_vector)
    requires
        set < 64,
        offset < 64,
    ensures
        table_bit(word | (1u64 << ((63 - set) as u64)), offset) == (offset == set || table_bit(
            word,
            offset,
        )),
{
}

/// Decides whether `n` is prime by trying every divisor below `n / 2`.
pub fn is_prime(n: usize) -> (r: bool)
    ensures
        r == number_theory::is_prime(n as nat),
{
    match n {
        0 | 1 => false,
        2 | 3 | 5 | 7 | 11 | 13 | 17 | 19 | 23 | 29 | 31 | 37 | 41 | 43 | 47 | 53 | 59 | 61 | 67
        | 71 | 73 | 79 | 83 | 89 | 97 => {
            proof {
                lemma_listed_small_prime(n as nat);
            }
            true
        },
        _ => {
            if n % 2 == 0 {
                proof {
                    lemma_even_prime_is_two(n as nat);
                }
                return false;
            }
            let half = n / 2;
            assert(no_divisor_below(n as nat, 3)) by {
                assert forall|d: nat| 2 <= d < 3 implies !#[trigger] number_theory::divides(
                    d,
                    n as nat,
                ) by {}
            }
            for i in 3..half
                invariant
                    n >= 9,
                    n % 2 == 1,
                    half == n / 2,
                    no_divisor_below(n as nat, i as nat),
            {
                if n % i == 0 {
                    proof {
                        lemma_divisor_refutes_prime(i as nat, n as nat);
                    }
                    return false;
                }
                assert forall|d: nat| 2 <= d < i + 1 implies !#[trigger] number_theory::divides(
                    d,
                    n as nat,
                ) by {}
            }
            proof {
                assert(half * half > n) by (nonlinear_arith)
                    requires
                        n >= 9,
                        2 * half + 1 == n,
                ;
                lemma_prime_by_square_bound(n as nat, half as nat);
            }
            true
        },
    }
}

/// Builds the table, one word of 64 odd numbers at a time.
pub fn table_gen() -> (table: Vec<u64>)
    ensures
        is_small_prime_table(table@),
{
    let mut data: Vec<u64> = Vec::new();
    let mut n: usize = 1;
    while n <= 65535
        invariant
            data.len() <= TABLE_WORDS,
            n == 128 * data.len() + 1,
            forall|pos: int|
                0 <= pos < 64 * data.len() ==> #[trigger] table_entry(data@, pos)
                    == number_theory::is_prime((2 * pos + 1) as nat),
        ensures
            data.len() == TABLE_WORDS,
        decreases TABLE_WORDS - data.len(),
    {
        let ghost word_index = data.len() as int;
        let mut mask: u64 = 0;
        proof {
            assert forall|b: u64| b < 64 implies !#[trigger] table_bit(mask, b) by {
                lemma_no_bit_in_zero(b);
            }
        }
        for bi in 0u64..64
            invariant
                word_index == data.len(),
                word_index < TABLE_WORDS,
                n == 128 * word_index + 1 + 2 * bi,
                forall|b: u64|
                    b < 64 ==> #[trigger] table_bit(mask, b) == (b < bi && number_theory::is_prime(
                        (2 * (64 * word_index + b) + 1) as nat,
                    )),
        {
            if is_prime(n) {
                let ghost before = mask;
                mask |= 1u64 << (64 - bi - 1);
                proof {
                    assert forall|b: u64| b < 64 implies #[trigger] table_bit(mask, b) == (b == bi
                        || table_bit(before, b)) by {
                        lemma_set_bit(before, bi, b);
                    }
                }
            }
            n += 2;
        }
        let ghost before = data@;
        data.push(mask);
        proof {
            assert forall|pos: int| 0 <= pos < 64 * data.len() implies #[trigger] table_entry(
                data@,
                pos,
            ) == number_theory::is_prime((2 * pos + 1) as nat) by {
                if pos < 64 * word_index {
                    assert(table_entry(before, pos) == number_theory::is_prime(
                        (2 * pos + 1) as nat,
                    ));
                    assert(data@[pos / 64] == before[pos / 64]);
                } else {
                    let b = (pos % 64) as u64;
                    assert(pos / 64 == word_index);
                    assert(table_bit(mask, b) == (b < 64 && number_theory::is_prime(
                        (2 * (64 * word_index + b) + 1) as nat,
                    )));
                }
            }
        }
    }
    data
}

/// Looks `n` up in a table: for an even `n`, whether it is 2, without reading
/// the table; for an odd `n`, the bit that the table holds for it. With the
/// complete table that is whether `n` is prime.
pub fn query(table: &[u64], n: u16) -> (r: bool)
    requires
        n % 2 == 1 ==> table.len() > (n as int - 1) / 2 / 64,
    ensures
        n % 2 == 0 ==> r == (n == 2),
        n % 2 == 1 ==> r == table_entry(table@, (n as int - 1) / 2),
        is_small_prime_table(table@) ==> r == number_theory::is_prime(n as nat),
{
    if n % 2 == 0 {
        proof {
            lemma_even_prime_is_two(n as nat);
        }
        return n == 2;
    }
    let pos = (n as usize - 1) / 2;
    let i = pos / 64;
    let r = pos % 64;
    let mask = table[i];
    proof {
        if is_small_prime_table(table@) {
            assert(table_entry(table@, pos as int) == number_theory::is_prime(
                (2 * pos + 1) as nat,
            ));
        }
    }
    (mask << r >> 63) == 1
}

} // verus!
