use screen_server::route::resolve;
use screen_server::ServerError;

#[test]
fn resolve_root_is_screen_zero() {
    assert_eq!(resolve(b"/"), Ok(Some(0)));
}

#[test]
fn resolve_screen_one_is_index_zero() {
    assert_eq!(resolve(b"/screen/1"), Ok(Some(0)));
}

#[test]
fn resolve_screen_zero_is_not_found() {
    assert_eq!(resolve(b"/screen/0"), Ok(None));
}

#[test]
fn resolve_non_digit_suffix_is_not_found() {
    assert_eq!(resolve(b"/screen/abc"), Ok(None));
}

#[test]
fn resolve_unknown_path_is_not_found() {
    assert_eq!(resolve(b"/foo"), Ok(None));
}

#[test]
fn resolve_mixed_suffix_is_not_found() {
    assert_eq!(resolve(b"/screen/12x"), Ok(None));
}

#[test]
fn resolve_trailing_slash_is_not_found() {
    assert_eq!(resolve(b"/screen/1/"), Ok(None));
}

#[test]
fn resolve_no_digits_is_not_found() {
    assert_eq!(resolve(b"/screen/"), Ok(None));
}

#[test]
fn resolve_leading_zeros_count() {
    assert_eq!(resolve(b"/screen/007"), Ok(Some(6)));
}

#[test]
fn resolve_largest_number_fits() {
    let path = format!("/screen/{}", usize::MAX);
    assert_eq!(resolve(path.as_bytes()), Ok(Some(usize::MAX - 1)));
}

#[test]
fn resolve_overflowing_number_is_an_error() {
    assert_eq!(
        resolve(b"/screen/340282366920938463463374607431768211456"),
        Err(ServerError::InvalidScreenNumber)
    );
}

#[test]
fn resolve_empty_path_is_not_found() {
    assert_eq!(resolve(b""), Ok(None));
}
