use perfmon_dash::wide::to_wide;

fn native(s: &str) -> Vec<u16> {
    let mut units: Vec<u16> = s.encode_utf16().collect();
    units.push(0);
    units
}

#[test]
fn wide_strings_end_in_a_zero() {
    assert_eq!(to_wide(""), vec![0]);
    assert_eq!(to_wide("Ab"), vec![65, 98, 0]);
}

#[test]
fn characters_beyond_the_basic_plane_take_two_units() {
    assert_eq!(to_wide("😀"), vec![0xD83D, 0xDE00, 0]);
    assert_eq!(to_wide("\u{10FFFF}"), vec![0xDBFF, 0xDFFF, 0]);
    assert_eq!(to_wide("\u{FFFF}"), vec![0xFFFF, 0]);
    assert_eq!(to_wide("\u{10000}"), vec![0xD800, 0xDC00, 0]);
}

#[test]
fn wide_strings_agree_with_the_native_encoding() {
    for s in ["\\GPU Engine(*)\\Utilization Percentage", "naïve – 漢字", "a😀b𝄞c"] {
        assert_eq!(to_wide(s), native(s));
    }
}

#[test]
fn wide_strings_read_back() {
    for s in ["", "disk", "a😀b𝄞c"] {
        let wide = to_wide(s);
        let (last, units) = wide.split_last().unwrap();
        assert_eq!(*last, 0);
        assert!(!units.contains(&0));
        assert_eq!(String::from_utf16(units).unwrap(), s);
    }
}

#[test]
fn different_texts_have_different_wide_strings() {
    assert_ne!(to_wide("CPU"), to_wide("cpu"));
    assert_ne!(to_wide("cpu"), to_wide("cpu "));
}
