use lsr::ui::size::{PrettySize, Unit};

#[test]
fn test_size() {
    let size = PrettySize::from_bytes_with_style(19762, true);

    assert_eq!(size.convert(), (20, Unit::KibiByte));
    assert_eq!(size.to_string(), String::from("20K"));

    let size = PrettySize::from_bytes(19762000);

    assert_eq!(size.convert(), (20, Unit::MegiByte));
}

#[test]
fn size_formatting_boundaries() {
    assert_eq!(PrettySize::from_bytes_with_style(999, true).to_string(), "999B");
    assert_eq!(PrettySize::from_bytes_with_style(1000, true).to_string(), "1K");
    assert_eq!(PrettySize::from_bytes_with_style(19762, true).to_string(), "20K");
    assert_eq!(PrettySize::from_bytes_with_style(19762000, true).to_string(), "20M");
}

#[test]
fn size_formatting_rounds_not_truncates() {
    // 19762 / 1000 rounds to 20, not 19.
    assert_eq!(PrettySize::from_bytes_with_style(19762, true).to_string(), "20K");
    assert_eq!(PrettySize::from_bytes_with_style(1499, true).to_string(), "1K");
    assert_eq!(PrettySize::from_bytes_with_style(1500, true).to_string(), "2K");
}

#[test]
fn size_formatting_plain_style() {
    // Without the human-readable flag the scaled number keeps no unit.
    assert_eq!(PrettySize::from_bytes_with_style(19762, false).to_string(), "20");
    assert_eq!(PrettySize::from_bytes(42).to_string(), "42");
    assert_eq!(PrettySize::from_bytes(0).to_string(), "0");
}

#[test]
fn size_units_escalate() {
    assert_eq!(PrettySize::from_bytes_with_style(0, true).to_string(), "0B");
    assert_eq!(PrettySize::from_bytes_with_style(2_000_000_000, true).to_string(), "2G");
    assert_eq!(PrettySize::from_bytes_with_style(3_000_000_000_000, true).to_string(), "3T");
    assert_eq!(PrettySize::from_bytes(123).bytes(), 123);
}
