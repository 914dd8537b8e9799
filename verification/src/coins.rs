//! Coin denominations as an enum with pattern matching.
use vstd::prelude::*;

verus! {

/// A state engraved on a quarter.
#[derive(Debug)]
pub enum UsState {
    Alabama,
    Alaska,
}

/// A United States coin; quarters carry their state.
pub enum Coin {
    Penny,
    Nickel,
    Dime,
    Quarter(UsState),
}

/// The value of the coin.
pub open spec fn spec_value_in_cents(coin: Coin) -> int {
    match coin {
        Coin::Penny => 1,
        Coin::Nickel => 5,
        Coin::Dime => 10,
        Coin::Quarter(_) => 25,
    }
}

/// Converts a coin to its value in cents.
pub fn value_in_cents(coin: Coin) -> (r: u32)
    ensures
        r == spec_value_in_cents(coin),
{
    match coin {
        Coin::Penny => 1,
        Coin::Nickel => 5,
        Coin::Dime => 10,
        Coin::Quarter(_state) => 25,
    }
}

} // verus!
