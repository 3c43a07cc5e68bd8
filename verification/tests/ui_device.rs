use smart_calendar::device::{decide_mode, AppError, Mode};
use smart_calendar::ui::{truncate_string, truncate_string_unicode, Activity, Circle, DrawError};

#[test]
fn truncate_by_char_count() {
    assert_eq!(truncate_string("short", 10), "short");
    assert_eq!(truncate_string("exactly10!", 10), "exactly10!");
    assert_eq!(truncate_string("a longer title", 6), "a long...");
    assert_eq!(truncate_string("", 0), "");
    // counts characters, not bytes
    assert_eq!(truncate_string("\u{e9}\u{e9}\u{e9}\u{e9}", 2), "\u{e9}\u{e9}...");
}

#[test]
fn truncate_by_display_width() {
    assert_eq!(truncate_string_unicode("hello", 10), "hello");
    assert_eq!(truncate_string_unicode("hello", 4), "hell...");
    // CJK characters are two columns wide
    assert_eq!(truncate_string_unicode("\u{4f60}\u{597d}\u{4e16}\u{754c}", 5), "\u{4f60}\u{597d}...");
    assert_eq!(truncate_string_unicode("\u{4f60}\u{597d}\u{4e16}\u{754c}", 8), "\u{4f60}\u{597d}\u{4e16}\u{754c}");
    // control characters take no columns
    assert_eq!(truncate_string_unicode("a\u{1}b", 2), "a\u{1}b");
    assert_eq!(truncate_string_unicode("", 3), "");
}

#[test]
fn circle_builders() {
    let c = Circle::new(1, 2, 3).x(10).y(20).diameter(30);
    assert_eq!(c.x, 10);
    assert_eq!(c.y, 20);
    assert_eq!(c.diameter, 30);
}

#[test]
fn activity_holds_name_and_days() {
    let a = Activity::new("Dentist", 4);
    assert_eq!(a.name, "Dentist");
    assert_eq!(a.days_remaining, 4);
}

#[test]
fn error_messages() {
    let e = AppError::NetworkError(String::from("down"));
    assert_eq!(e.message(), "down");
    let e = AppError::WifiError(String::from("no ap"));
    assert_eq!(e.message(), "no ap");
    let d = DrawError::DrawFailed(String::from("oom"));
    assert_eq!(d.message(), "oom");
}

#[test]
fn mode_decision() {
    assert!(matches!(decide_mode(true, true), Mode::Initialize));
    assert!(matches!(decide_mode(false, false), Mode::Initialize));
    assert!(matches!(decide_mode(false, true), Mode::Normal));
}

#[test]
fn truncate_handles_the_widest_character() {
    // the Khmer sign Beyyal is three columns wide in unicode-width's tables
    assert_eq!(truncate_string_unicode("\u{17d8}x", 2), "...");
    assert_eq!(truncate_string_unicode("\u{17d8}", 3), "\u{17d8}");
    assert_eq!(truncate_string_unicode("\u{17d8}x", 4), "\u{17d8}x");
}
