//! Monetary amounts, counted in indivisible units.

use vstd::prelude::*;
use crate::error::BlockchainError;
use crate::text::digits_value;
use crate::text::grouped;
use crate::text::padded;

verus! {

/// Units in one coin.
pub const COIN_UNITS: u64 = 100_000_000;

/// Units paid to the miner of a block: ten coins.
pub const BLOCK_REWARD_UNITS: u64 = 1_000_000_000;

/// The largest amount that one output may carry: one hundred billion coins.
pub const MAX_MONEY_UNITS: u64 = 10_000_000_000_000_000_000;

/// A count of units. A value of this type may exceed `MAX_MONEY_UNITS`;
/// `Amount::try_from` is the constructor that refuses such a value.
#[derive(Clone, Copy, Debug, PartialEq, Eq, Structural, PartialOrd, Ord)]
pub struct Amount(pub u64);

/// How an amount of `u` units is written: the coins in groups of three
/// digits with commas between, a dot, and the eight digits of the part of
/// a coin.
pub open spec fn amount_text(u: u64) -> Seq<char> {
    grouped((u / COIN_UNITS) as nat) + seq!['.'] + padded((u % COIN_UNITS) as nat, 8)
}

/// Reading the text of an amount as a number gives back the amount.
pub proof fn lemma_amount_text_value(u: u64)
    ensures
        digits_value(amount_text(u)) == u,
{
    let coins = (u / COIN_UNITS) as nat;
    let part = (u % COIN_UNITS) as nat;
    crate::text::lemma_grouped_value(coins);
    crate::text::lemma_mark_value(grouped(coins), '.');
    assert(grouped(coins) + seq!['.'] =~= grouped(coins).push('.'));
    crate::text::lemma_pow10_values();
    crate::text::lemma_padded_value(grouped(coins).push('.'), part, 8);
}

/// Writing an amount and reading the text back gives the amount: the text
/// of one amount is the text of no other.
pub proof fn law_amount_text_round_trip(a: u64, b: u64)
    ensures
        amount_text(a) == amount_text(b) ==> a == b,
        Amount::spec_parse(amount_text(a)) == Some(Amount(a)),
{
    lemma_amount_text_value(a);
    lemma_amount_text_value(b);
}

impl View for Amount {
    type V = u64;

    open spec fn view(&self) -> u64 {
        self.0
    }
}

impl Amount {
    /// One coin.
    pub fn coin() -> (a: Amount)
        ensures
            a.0 == COIN_UNITS,
    {
        Amount(COIN_UNITS)
    }

    /// The reward for mining one block.
    pub fn block_reward() -> (a: Amount)
        ensures
            a.0 == BLOCK_REWARD_UNITS,
    {
        Amount(BLOCK_REWARD_UNITS)
    }

    /// The largest amount that one output may carry.
    pub fn max_money() -> (a: Amount)
        ensures
            a.0 == MAX_MONEY_UNITS,
    {
        Amount(MAX_MONEY_UNITS)
    }

    /// The amount of `u` units, unless `u` is more than `MAX_MONEY`.
    pub fn try_from(u: u64) -> (r: Result<Amount, BlockchainError>)
        ensures
            u <= MAX_MONEY_UNITS ==> r == Ok::<Amount, BlockchainError>(Amount(u)),
            u > MAX_MONEY_UNITS ==> r == Err::<Amount, BlockchainError>(
                BlockchainError::MonetaryAmountTooLarge(u),
            ),
    {
        if u > MAX_MONEY_UNITS {
            Err(BlockchainError::MonetaryAmountTooLarge(u))
        } else {
            Ok(Amount(u))
        }
    }

    /// The amount that `text` writes, if it is the text of one.
    pub open spec fn spec_parse(text: Seq<char>) -> Option<Amount> {
        if digits_value(text) <= u64::MAX && amount_text(digits_value(text) as u64) == text {
            Some(Amount(digits_value(text) as u64))
        } else {
            None
        }
    }

    /// The amount as text, such as `1,234,567.00000000`.
    pub fn to_string(&self) -> (s: String)
        ensures
            s@ == amount_text(self.0),
    {
        let chars = self.to_chars();
        crate::text::string_of(&chars)
    }

    /// The characters of the amount as text.
    pub fn to_chars(&self) -> (chars: Vec<char>)
        ensures
            chars@ == amount_text(self.0),
    {
        let mut chars: Vec<char> = Vec::new();
        crate::text::push_grouped(&mut chars, self.0 / COIN_UNITS);
        chars.push('.');
        crate::text::push_padded(&mut chars, self.0 % COIN_UNITS, 8);
        assert(chars@ =~= amount_text(self.0));
        chars
    }

    /// The amount that `text` writes: there is one exactly when `text` is
    /// what `to_string` gives for it. An amount above `MAX_MONEY` is read
    /// like any other.
    #[verifier::loop_isolation(false)]
    pub fn parse(text: &str) -> (r: Option<Amount>)
        ensures
            r == Amount::spec_parse(text@),
            forall|u: u64| text@ == amount_text(u) ==> r == Some(Amount(u)),
    {
        let n = text.unicode_len();
        let mut value: u64 = 0;
        let mut i: usize = 0;
        while i < n
            invariant
                n == text@.len(),
                0 <= i <= n,
                value == digits_value(text@.take(i as int)),
            decreases n - i,
        {
            proof {
                assert(text@.take(i + 1).drop_last() =~= text@.take(i as int));
                assert(text@.take(i + 1).last() == text@[i as int]);
                crate::text::lemma_value_grows(text@, i + 1);
            }
            match crate::text::char_digit(text.get_char(i)) {
                Some(d) => {
                    if value > (u64::MAX - d as u64) / 10 {
                        proof {
                            assert forall|u: u64| text@ == amount_text(u) implies false by {
                                lemma_amount_text_value(u);
                            }
                        }
                        return None;
                    }
                    value = value * 10 + d as u64;
                },
                None => {},
            }
            i = i + 1;
        }
        assert(text@.take(n as int) =~= text@);
        proof {
            assert forall|u: u64| text@ == amount_text(u) implies u == value by {
                lemma_amount_text_value(u);
            }
        }
        let written = Amount(value).to_chars();
        if written.len() != n {
            return None;
        }
        let mut k: usize = 0;
        while k < n
            invariant
                n == text@.len(),
                written@.len() == n,
                0 <= k <= n,
                forall|j: int| 0 <= j < k ==> written@[j] == text@[j],
            decreases n - k,
        {
            if written[k] != text.get_char(k) {
                return None;
            }
            k = k + 1;
        }
        assert(written@ =~= text@);
        Some(Amount(value))
    }

    /// The number of units.
    pub fn units(&self) -> (u: u64)
        ensures
            u == self.0,
    {
        self.0
    }

    /// `rhs` times this amount.
    pub fn mul(self, rhs: u64) -> (r: Amount)
        requires
            self.0 * rhs <= MAX_MONEY_UNITS,
        ensures
            r.0 == self.0 * rhs,
    {
        Amount(self.0 * rhs)
    }
}

} // verus!
