use pallet_dao::calculator::{apply_arithmetic, get_operators, solve_equation};

#[test]
fn letters_map_to_operators() {
    assert_eq!(get_operators(String::from("a")), Some(String::from("+")));
    assert_eq!(get_operators(String::from("b")), Some(String::from("-")));
    assert_eq!(get_operators(String::from("c")), Some(String::from("*")));
    assert_eq!(get_operators(String::from("d")), Some(String::from("/")));
    assert_eq!(get_operators(String::from("e")), Some(String::from("(")));
    assert_eq!(get_operators(String::from("f")), Some(String::from(")")));
    assert_eq!(get_operators(String::from("g")), None);
}

#[test]
fn arithmetic_on_two_numbers() {
    assert_eq!(apply_arithmetic(String::from("+"), 3, 2), Some(5));
    assert_eq!(apply_arithmetic(String::from("-"), 3, 2), Some(1));
    assert_eq!(apply_arithmetic(String::from("*"), 3, 4), Some(12));
    assert_eq!(apply_arithmetic(String::from("/"), 32, 5), Some(6));
    assert_eq!(apply_arithmetic(String::from("%"), 3, 2), None);
}

#[test]
fn equations_from_left_to_right() {
    assert_eq!(solve_equation("3a2c4"), 20);
    assert_eq!(solve_equation("32a2d2"), 17);
    assert_eq!(solve_equation("500a10b66c32"), 14208);
    assert_eq!(solve_equation("7"), 7);
}

#[test]
fn equations_with_brackets() {
    assert_eq!(solve_equation("3ae4c66fb32"), 235);
    assert_eq!(solve_equation("3c4d2aee2a4c41fc4f"), 990);
    assert_eq!(solve_equation("e5f"), 5);
}
