use fileslug::{preserve_version_dots, restore_version_dots};

#[test]
fn test_preserve_version_dots_simple() {
    assert_eq!(preserve_version_dots("foo-0.8.34-bar"), "foo-0\x018\x0134-bar");
}

#[test]
fn test_preserve_version_dots_semver() {
    assert_eq!(preserve_version_dots("app-1.2.3"), "app-1\x012\x013");
}

#[test]
fn test_preserve_version_dots_two_part() {
    assert_eq!(preserve_version_dots("app-7.20"), "app-7\x0120");
}

#[test]
fn test_preserve_version_dots_no_version() {
    assert_eq!(preserve_version_dots("hello-world"), "hello-world");
}

#[test]
fn test_preserve_version_dots_letters_not_matched() {
    assert_eq!(preserve_version_dots("a.b.c"), "a.b.c");
}

#[test]
fn test_preserve_version_dots_not_followed_by_digit() {
    assert_eq!(preserve_version_dots("7.txt"), "7.txt");
}

#[test]
fn test_preserve_version_dots_adjacent_to_letters() {
    assert_eq!(preserve_version_dots("istatmenus7.20"), "istatmenus7\x0120");
}

#[test]
fn test_preserve_version_dots_multiple_versions() {
    assert_eq!(preserve_version_dots("2.10-2.12.26"), "2\x0110-2\x0112\x0126");
}

#[test]
fn test_restore_version_dots() {
    assert_eq!(restore_version_dots("app-1\x012\x013"), "app-1.2.3");
}

#[test]
fn test_restore_version_dots_no_placeholder() {
    assert_eq!(restore_version_dots("hello-world"), "hello-world");
}

#[test]
fn test_restore_after_preserve_round_trips() {
    for input in ["foo-0.8.34-bar", "app-1.2.3", "7.txt", "a.b.c", "2.10-2.12.26", "plain"] {
        assert_eq!(restore_version_dots(&preserve_version_dots(input)), input);
    }
}

#[test]
fn test_preserve_trailing_and_leading_dots() {
    assert_eq!(preserve_version_dots(".5"), ".5");
    assert_eq!(preserve_version_dots("5."), "5.");
    assert_eq!(preserve_version_dots("1..2"), "1..2");
}
