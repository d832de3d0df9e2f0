use perfmon_dash::caption::{caption, count_text, Number, Piece};
use perfmon_dash::number::{Double, Single};

fn single(x: f32) -> Single {
    Single { bits: x.to_bits() }
}

fn double(x: f64) -> Double {
    Double { bits: x.to_bits() }
}

#[test]
fn counts_read_like_native_ones() {
    for n in [0u64, 1, 9, 10, 99, 100, 1_234_567_890, u64::MAX] {
        for width in [0usize, 1, 2, 5, 25] {
            assert_eq!(count_text(n, width), format!("{:0width$}", n, width = width));
        }
    }
    assert_eq!(count_text(7, 2), "07");
    assert_eq!(count_text(123, 2), "123");
}

#[test]
fn numbers_are_found_in_their_order() {
    let line = caption(vec![
        Piece::Fixed(single(1.5), 1),
        Piece::Text(" of "),
        Piece::Count(12, 3),
        Piece::FixedDouble(double(2.5), 2),
    ]);
    assert_eq!(line.numbers(), vec![Number::Single(single(1.5), 1), Number::Double(double(2.5), 2)]);
}

#[test]
fn pieces_are_joined_in_their_order() {
    let line = caption(vec![
        Piece::Fixed(single(1.5), 1),
        Piece::Text(" of "),
        Piece::Count(12, 3),
        Piece::FixedDouble(double(2.5), 2),
    ]);
    let numbers = vec!["1.5".to_string(), "2.50".to_string()];
    assert_eq!(line.text(&numbers), Some("1.5 of 0122.50".to_string()));
    assert_eq!(caption(Vec::new()).text(&Vec::new()), Some(String::new()));
}

#[test]
fn a_caption_needs_a_text_for_each_number() {
    let line = caption(vec![Piece::Fixed(single(1.5), 1), Piece::Text("%")]);
    assert_eq!(line.text(&Vec::new()), None);
    assert_eq!(line.text(&vec!["1.5".to_string(), "2".to_string()]), None);
}
