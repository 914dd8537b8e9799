//! The decision at the heart of the guessing game: compare a guess with the
//! secret number.
use vstd::prelude::*;

verus! {

/// The outcome of one guess.
#[derive(PartialEq, Eq, Structural, Debug, Clone, Copy)]
pub enum GuessOutcome {
    TooSmall,
    TooBig,
    Win,
}

/// Compares a guess against the secret number.
pub fn compare_guess(guess: u32, secret: u32) -> (r: GuessOutcome)
    ensures
        r == GuessOutcome::TooSmall <==> guess < secret,
        r == GuessOutcome::TooBig <==> guess > secret,
        r == GuessOutcome::Win <==> guess == secret,
{
    if guess < secret {
        GuessOutcome::TooSmall
    } else if guess > secret {
        GuessOutcome::TooBig
    } else {
        GuessOutcome::Win
    }
}

} // verus!
