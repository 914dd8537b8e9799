//! A collection of small, fully specified programming katas: bit and digit
//! manipulation, number theory, string puzzles, and a few structure and
//! state-machine exercises.
pub mod adder;
pub mod basics;
pub mod bit_counter;
pub mod blog;
pub mod cacher;
pub mod coins;
pub mod color_choice;
pub mod count_digits;
pub mod departments;
pub mod dig_pow;
pub mod dna;
pub mod dont_give_me_five;
pub mod factorial_decomp;
pub mod gradually_adding;
pub mod guessing;
pub mod hidden_cubic;
pub mod k_primes;
pub mod mean_median_mode;
pub mod middle_char;
pub mod mini_bit_move;
pub mod pig_latin;
pub mod prime_gap;
pub mod primes;
pub mod proper;
pub mod rectangles;
pub mod shortest_word;
pub mod sorter;
pub mod squared_strings;
pub mod stock_list;
pub mod structs_demo;
pub mod sum_probability;
pub mod syntax_highlight;
pub mod text;
pub mod xo;
