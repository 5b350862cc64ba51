use redundant_backup::autofill::AutoFill;

#[test]
fn test_auto_fill() {
    let mut af = AutoFill::new("Web browsers are ubiqitous these days, supporting wide range of platforms including mobile and even text editor.");

    assert_eq!(
        af.next().unwrap(),
        "Web browsers are ubiqitous these days, supporting wide range of"
    );
    assert_eq!(
        af.next().unwrap(),
        "platforms including mobile and even text editor."
    );
}

#[test]
fn test_leading_spaces() {
    let mut af = AutoFill::new("  Web browsers are ubiqitous these days, supporting wide range of platforms including mobile and even text editor.");

    assert_eq!(
        af.next().unwrap(),
        "  Web browsers are ubiqitous these days, supporting wide range of"
    );
    assert_eq!(
        af.next().unwrap(),
        "platforms including mobile and even text editor."
    );
}

#[test]
fn test_double_spaces() {
    let mut af = AutoFill::new("Web browsers are ubiqitous these days.  They support wide range of platforms including mobile and even text editor.");

    assert_eq!(
        af.next().unwrap(),
        "Web browsers are ubiqitous these days.  They support wide range"
    );
    assert_eq!(
        af.next().unwrap(),
        "of platforms including mobile and even text editor."
    );
}

#[test]
fn test_long_word_without_hyphen() {
    let mut af = AutoFill::new("Web browsers are ubiqitous these days,supportingwiderangeofplatformsincludingmobileandeventexteditor.");

    assert_eq!(
        af.next().unwrap(),
        "Web browsers are ubiqitous these days,supportingwiderangeofplatfo"
    );
    assert_eq!(af.next().unwrap(), "rmsincludingmobileandeventexteditor.");
}

#[test]
fn autofill_ends_after_last_line() {
    let mut af = AutoFill::new("short text   ");
    assert_eq!(af.next().unwrap(), "short text");
    assert!(af.next().is_none());
}

#[test]
fn autofill_respects_width() {
    let mut af = AutoFill::new("aa bb cc").with_width(5);
    assert_eq!(af.next().unwrap(), "aa bb");
    assert_eq!(af.next().unwrap(), "cc");
    assert!(af.next().is_none());
}

#[test]
fn autofill_empty_text() {
    let mut af = AutoFill::new("");
    assert!(af.next().is_none());
}
