use katas::color_choice::check_choose;

fn dotest(m: u64, n: u64, exp: i64) {
    assert_eq!(check_choose(m, n), exp)
}

#[test]
fn basics_check_choose() {
    dotest(6, 4, 2);
    dotest(4, 4, 1);
    dotest(35, 7, 3);
    dotest(36, 7, -1);
    dotest(184756, 20, 10);
}

#[test]
fn factorial_values() {
    assert_eq!(katas::color_choice::f(0), 1);
    assert_eq!(katas::color_choice::f(1), 1);
    assert_eq!(katas::color_choice::f(6), 720);
    assert_eq!(katas::color_choice::f(20), 2432902008176640000);
}
