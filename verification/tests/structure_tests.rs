use katas::basics::{build_user, calculate_length, change, first_word, if_let_statement, str_for_you};
use katas::blog::{Post, PostState};
use katas::cacher::{generate_workout_plan, Cacher};
use katas::coins::{value_in_cents, Coin, UsState};
use katas::departments::{parse_cmd, trim_text, Cmd, Departments};
use katas::guessing::{compare_guess, GuessOutcome};
use katas::rectangles;
use katas::structs_demo;

#[test]
fn blog_post_workflow() {
    let mut post = Post::new();

    post.add_text("I ate a salad for lunch today");
    assert_eq!("", post.content());

    post.request_review();
    assert_eq!("", post.content());

    post.approve();
    assert_eq!("I ate a salad for lunch today", post.content());
}

#[test]
fn blog_post_approve_needs_review() {
    let mut post = Post::new();
    post.add_text("draft text");
    post.approve();
    assert_eq!("", post.content());
    let _ = PostState::Draft;
}

#[test]
fn cacher_replays_values() {
    let mut c = Cacher::new(|n: u32| n + 1);
    assert_eq!(c.value(1), 2);
    assert_eq!(c.value(1), 2);
    assert_eq!(c.value(5), 6);
}

#[test]
fn workout_plan_messages() {
    assert_eq!(
        generate_workout_plan(10, 7),
        vec!["Today, do 10 pushups!", "Next, do 10 situps!"]
    );
    assert_eq!(
        generate_workout_plan(30, 3),
        vec!["Take a break today! Remember to stay hydrated!"]
    );
    assert_eq!(generate_workout_plan(30, 4), vec!["Today, run for 30 minutes!"]);
}

#[test]
fn coin_values() {
    assert_eq!(value_in_cents(Coin::Penny), 1);
    assert_eq!(value_in_cents(Coin::Nickel), 5);
    assert_eq!(value_in_cents(Coin::Dime), 10);
    assert_eq!(value_in_cents(Coin::Quarter(UsState::Alabama)), 25);
    assert_eq!(value_in_cents(Coin::Quarter(UsState::Alaska)), 25);
}

#[test]
fn department_commands() {
    assert_eq!(parse_cmd("add"), Cmd::Add);
    assert_eq!(parse_cmd("list"), Cmd::List);
    assert_eq!(parse_cmd("exit"), Cmd::Exit);
    assert_eq!(parse_cmd("quit"), Cmd::Unknown);
}

#[test]
fn department_roster() {
    let mut engineering = Departments { name: String::from("Engineering"), employees: Vec::new() };
    engineering.add_employee("  Ada \n");
    engineering.add_employee("Brian");
    assert_eq!(engineering.employees, vec!["Ada", "Brian"]);
    assert_eq!(
        engineering.list_employees(),
        vec!["Ada works in Engineering", "Brian works in Engineering"]
    );
    assert_eq!(trim_text("   "), "");
}

#[test]
fn guessing_outcomes() {
    assert_eq!(compare_guess(3, 7), GuessOutcome::TooSmall);
    assert_eq!(compare_guess(9, 7), GuessOutcome::TooBig);
    assert_eq!(compare_guess(7, 7), GuessOutcome::Win);
}

#[test]
fn rectangle_areas() {
    let r1 = rectangles::Rectangle { width: 30, height: 50 };
    let r2 = rectangles::Rectangle { width: 50, height: 50 };
    assert_eq!(r1.area(), 1500);
    assert_eq!(rectangles::area(30, 50), 1500);
    assert_eq!(rectangles::area_as_struct(&r1), 1500);
    assert!(!r1.can_hold(&r2));
    assert!(r2.can_hold(&r1));

    let r3 = structs_demo::Rectangle { width: 30, height: 50 };
    assert_eq!(r3.area(), 1500);
    assert_eq!(structs_demo::area(30, 50), 1500);
    assert_eq!(structs_demo::area_as_struct(&r3), 1500);
}

#[test]
fn basics_behaviour() {
    katas::basics::_loop_forever();
    assert_eq!(if_let_statement(true), 2);
    assert_eq!(if_let_statement(false), 8);
    assert_eq!(str_for_you(), 'e');
    assert_eq!(calculate_length(&String::from("hello")), 5);
    let mut s = String::from("hello");
    change(&mut s);
    assert_eq!(s, "hello, world");
    assert_eq!(first_word(&String::from("hello world")), "hello");
    assert_eq!(first_word(&String::from("plain")), "plain");
    let u = build_user(String::from("some@email.com"), String::from("my_username"));
    assert_eq!(u.email, "some@email.com");
    assert_eq!(u.username, "my_username");
    assert_eq!(u.sign_in_count, 1);
    assert!(u.active);
}
