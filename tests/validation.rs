use simcluster::validation::nonnegative;

#[test]
fn nonnegative_accepts_whole_numbers() {
    assert_eq!(nonnegative("0".to_string()), Ok(()));
    assert_eq!(nonnegative("42".to_string()), Ok(()));
    assert_eq!(nonnegative("+7".to_string()), Ok(()));
}

#[test]
fn nonnegative_rejects_negative() {
    assert_eq!(
        nonnegative("-3".to_string()),
        Err("-3 is negative".to_string())
    );
    assert_eq!(
        nonnegative("-007".to_string()),
        Err("-7 is negative".to_string())
    );
}

#[test]
fn nonnegative_rejects_non_numbers() {
    assert_eq!(
        nonnegative("abc".to_string()),
        Err("abc not a number".to_string())
    );
    assert_eq!(nonnegative("".to_string()), Err(" not a number".to_string()));
    assert_eq!(
        nonnegative("99999999999".to_string()),
        Err("99999999999 not a number".to_string())
    );
}
