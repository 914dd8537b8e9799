use katas::dna::DNA_strand;
use katas::hidden_cubic::is_sum_of_cubes;
use katas::mean_median_mode::{mean, median, mode};
use katas::middle_char::get_middle_char;
use katas::mini_bit_move::interpreter;
use katas::pig_latin::pig_latin;
use katas::shortest_word::{find_short, first, second};
use katas::sorter::order;
use katas::squared_strings::{diag_1_sym, oper, rot_90_clock, selfie_and_diag1};
use katas::stock_list::stock_list;
use katas::syntax_highlight::highlight;
use katas::text::{parse_u64_digits, u64_to_string};
use katas::xo::{another_xo, xo};

#[test]
fn dna_returns_expected() {
    assert_eq!(DNA_strand("AAAA"), "TTTT");
    assert_eq!(DNA_strand("ATTGC"), "TAACG");
    assert_eq!(DNA_strand("GTAT"), "CATA");
    assert_eq!(DNA_strand(""), "");
}

#[test]
fn examples_in_description() {
    assert_eq!(
        highlight("F3RF5LF7"),
        r#"<span style="color: pink">F</span><span style="color: orange">3</span><span style="color: green">R</span><span style="color: pink">F</span><span style="color: orange">5</span><span style="color: red">L</span><span style="color: pink">F</span><span style="color: orange">7</span>"#,
    );
    assert_eq!(
        highlight("FFFR345F2LL"),
        r#"<span style="color: pink">FFF</span><span style="color: green">R</span><span style="color: orange">345</span><span style="color: pink">F</span><span style="color: orange">2</span><span style="color: red">LL</span>"#,
    );
}

#[test]
fn xo_returns_expected() {
    assert_eq!(xo("xo"), true);
    assert_eq!(xo("Xo"), true);
    assert_eq!(xo("xxOo"), true);
    assert_eq!(xo("xxxm"), false);
    assert_eq!(xo("Oo"), false);
    assert_eq!(xo("ooom"), false);
    assert_eq!(another_xo("xo"), true);
    assert_eq!(another_xo("xxOo"), true);
    assert_eq!(another_xo("Oo"), false);
}

#[test]
fn cubes_returns_expected() {
    assert_eq!(is_sum_of_cubes("00 9026315 -827&()"), "0 0 Lucky");
    assert_eq!(
        is_sum_of_cubes("Once upon a midnight dreary, while100 I pondered, 9026315weak and weary -827&()"),
        "Unlucky"
    );
}

#[test]
fn mean_median_mode_examples() {
    let l = [8, 3, 1, 7, 1, 4, 6];
    assert_eq!(mean(&l), 4);
    assert_eq!(median(&l), 6);
    assert_eq!(mode(&l), 1);
    assert_eq!(mode(&[]), 0);
}

#[test]
fn middle_char_returns_expected() {
    assert_eq!(get_middle_char("test"), "es");
    assert_eq!(get_middle_char("testing"), "t");
    assert_eq!(get_middle_char("middle"), "dd");
    assert_eq!(get_middle_char("A"), "A");
}

#[test]
fn interpreter_flips_bits() {
    assert_eq!(interpreter("10", "1010101"), "0101010");
    assert_eq!(interpreter("100", "1111111111"), "0101010101");
    assert_eq!(interpreter("110", "1010"), "1010");
    assert_eq!(interpreter("111", ""), "");
}

#[test]
fn pig_latin_examples() {
    assert_eq!(pig_latin(&String::from("first")), "irst-fay");
    assert_eq!(pig_latin(&String::from("apple")), "apple-hay");
}

#[test]
fn shortest_word_returns_expected() {
    assert_eq!(find_short("bitcoin take over the world maybe who knows perhaps"), 3);
    assert_eq!(find_short("turns out random test cases are easier than writing out basic ones"), 3);
    assert_eq!(find_short("lets talk about javascript the best language"), 3);
    assert_eq!(find_short("i want to travel the world writing code one day"), 1);
    assert_eq!(find_short("Lets all go on holiday somewhere very cold"), 2);
    assert_eq!(first("a bb ccc"), 1);
    assert_eq!(second("a bb ccc"), 1);
    assert_eq!(second("   "), 0);
}

#[test]
fn order_returns_expected() {
    assert_eq!(order("is2 Thi1s T4est 3a"), "Thi1s is2 3a T4est");
    assert_eq!(order(""), "");
}

#[test]
fn squared_strings_examples() {
    let s = "abcd\nefgh\nijkl\nmnop";
    assert_eq!(diag_1_sym(s), "aeim\nbfjn\ncgko\ndhlp");
    assert_eq!(rot_90_clock(s), "miea\nnjfb\nokgc\nplhd");
    assert_eq!(
        selfie_and_diag1(s),
        "abcd|aeim\nefgh|bfjn\nijkl|cgko\nmnop|dhlp"
    );
    assert_eq!(oper(diag_1_sym, s), "aeim\nbfjn\ncgko\ndhlp");
}

#[test]
fn stock_list_examples() {
    let b = vec!["BBAR 150", "CDXE 515", "BKWR 250", "BTSQ 890", "DRTY 600"];
    let c = vec!["A", "B", "C", "D"];
    assert_eq!(stock_list(b, c), "(A : 0) - (B : 1290) - (C : 515) - (D : 600)");

    let b = vec!["ABAR 200", "CDXE 500", "BKWR 250", "BTSQ 890", "DRTY 600"];
    let c = vec!["A", "B"];
    assert_eq!(stock_list(b, c), "(A : 200) - (B : 1140)");

    let b: Vec<&str> = vec![];
    let c = vec!["A"];
    assert_eq!(stock_list(b, c), "");
}

#[test]
fn decimal_round_trip() {
    assert_eq!(u64_to_string(0), "0");
    assert_eq!(u64_to_string(907), "907");
    let digits: Vec<char> = "907".chars().collect();
    assert_eq!(parse_u64_digits(&digits), 907);
}
