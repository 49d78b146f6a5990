use complx_app::process::{
    char_pos, chek_information, default_namespace, fill_key, fill_src, fill_text, has_any_factor,
    is_divisble, is_in_namespace, is_square, turn_divisible, turn_perfect_sqrt,
};

#[test]
fn information_is_checked_as_valid() {
    let key = "TUNA";
    let src = "CODEINSIDE";
    let fill = Some(&'L');
    let namespace = default_namespace();

    assert!(!chek_information(&key, &src, fill, &namespace).is_err());
}

#[test]
fn information_is_checked_as_invalid() {
    let key = "TUNA232323";
    let src = "@CODEINSIDE.";
    let fill = Some(&'L');
    let namespace = default_namespace();

    assert!(chek_information(&key, &src, fill, &namespace).is_err());
}

#[test]
fn key_with_not_square_length_is_filled() {
    let src = "ABCDE".to_owned();
    let fill_char = 'L';

    assert_eq!(fill_key(&src, &fill_char).unwrap(), "ABCDELLLL");
}

#[test]
fn text_with_not_divisible_length_is_filled() {
    let key = "ABCDEFGHI";
    let key_dim = (key.len() as f64).sqrt() as usize;
    let src = "ABCD".to_owned();
    let fill_char = 'E';

    assert_eq!(fill_src(&src, &fill_char, &key_dim).unwrap(), "ABCDEE");
}

#[test]
fn unknown_character_is_named_in_the_error() {
    let namespace = default_namespace();
    let err = is_in_namespace(&'@', &namespace).unwrap_err();
    assert_eq!(
        err.message(),
        "the character '@' is not present in the namespace"
    );
}

#[test]
fn namespace_position_is_of_the_uppercased_character() {
    let namespace = default_namespace();
    assert_eq!(char_pos(&'a', &namespace), 0);
    assert_eq!(char_pos(&'Z', &namespace), 25);
    assert_eq!(char_pos(&' ', &namespace), 26);
}

#[test]
fn padding_uppercases_and_no_padding_keeps_the_text() {
    assert_eq!(fill_text("abc", &'x', 5, 3), "ABCXX");
    assert_eq!(fill_text("abc", &'x', 3, 3), "abc");
}

#[test]
fn squares_are_recognized() {
    assert!(is_square(0));
    assert!(is_square(1));
    assert!(is_square(49));
    assert!(!is_square(2));
    assert!(!is_square(48));
}

#[test]
fn next_square_is_found_upwards() {
    assert_eq!(turn_perfect_sqrt(5), 9);
    assert_eq!(turn_perfect_sqrt(9), 9);
    assert_eq!(turn_perfect_sqrt(10), 16);
}

#[test]
fn next_divisible_is_found_upwards() {
    assert_eq!(turn_divisible(4, &3), 6);
    assert_eq!(turn_divisible(6, &3), 6);
    assert!(is_divisble(6, &3));
    assert!(!is_divisble(7, &3));
}

#[test]
fn factors_are_probed_from_the_target_upwards() {
    assert!(has_any_factor(5, 27));
    assert!(!has_any_factor(28, 27));
}
