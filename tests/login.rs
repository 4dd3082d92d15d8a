use brdgme_db::login::{
    confirmation_accepted, confirmation_is_current, login_code, rand_code, reusable_confirmation,
    token_cutoff, CONFIRMATION_EXPIRY_MICROS, TOKEN_EXPIRY_MICROS,
};

#[test]
fn rand_code_works() {
    for _ in 1..100000 {
        let n: usize = rand_code().parse().unwrap();
        assert!(n > 99999, "n <= 99999");
        assert!(n < 1000000, "n >= 1000000");
    }
}

#[test]
fn rand_code_is_six_digits() {
    let code = rand_code();
    assert_eq!(code.len(), 6);
    assert!(code.chars().all(|c| c.is_ascii_digit()));
    assert!(!code.starts_with('0'));
}

#[test]
fn login_code_values() {
    assert_eq!(login_code(0, 0), 100000);
    assert_eq!(login_code(8, 99999), 999999);
    assert_eq!(login_code(9, 100000), 100000);
    assert_eq!(login_code(4, 123), 500123);
    assert_eq!(login_code(usize::MAX, usize::MAX), 751615);
}

#[test]
fn expiry_constants() {
    assert_eq!(CONFIRMATION_EXPIRY_MICROS, 1_800_000_000);
    assert_eq!(TOKEN_EXPIRY_MICROS, 2_592_000_000_000);
}

#[test]
fn confirmation_current_boundary() {
    assert!(confirmation_is_current(0, 1_799_999_999));
    assert!(!confirmation_is_current(0, 1_800_000_000));
    assert!(confirmation_is_current(i64::MAX, i64::MAX));
    assert!(!confirmation_is_current(i64::MIN, 0));
}

#[test]
fn reusable_confirmation_cases() {
    let code = Some("123456".to_string());
    assert!(!reusable_confirmation(&None, Some(0), 10));
    assert!(!reusable_confirmation(&code, None, 10));
    assert!(reusable_confirmation(&code, Some(0), 10));
    assert!(!reusable_confirmation(&code, Some(0), 1_800_000_000));
}

#[test]
fn confirmation_accepted_cases() {
    let code = Some("123456".to_string());
    let given = "123456".to_string();
    let wrong = "654321".to_string();
    assert!(confirmation_accepted(&code, Some(100), &given, 200));
    assert!(!confirmation_accepted(&code, Some(100), &wrong, 200));
    assert!(!confirmation_accepted(&code, Some(100), &given, 100 + 1_800_000_000));
    assert!(!confirmation_accepted(&None, Some(100), &given, 200));
    assert!(!confirmation_accepted(&code, None, &given, 200));
}

#[test]
fn token_cutoff_value() {
    assert_eq!(token_cutoff(3_000_000_000_000), 408_000_000_000);
    assert_eq!(token_cutoff(0), -2_592_000_000_000);
}
