use pi_garage_monitor::double::{greatest_at, least_at, Double};
use pi_garage_monitor::text::{before, chars_of, fields_of, lines_of, string_of, trimmed};

fn double(value: f64) -> Double {
    Double::from_bits(value.to_bits())
}

fn shown(parts: &Vec<Vec<char>>) -> Vec<String> {
    parts.iter().map(string_of).collect()
}

#[test]
fn doubles_compare_as_floats_do() {
    let samples = [
        f64::NEG_INFINITY,
        f64::MIN,
        -1.5,
        -f64::MIN_POSITIVE,
        -5e-324,
        -0.0,
        0.0,
        5e-324,
        f64::MIN_POSITIVE,
        0.5,
        1.0,
        3.0,
        f64::MAX,
        f64::INFINITY,
        f64::NAN,
        -f64::NAN,
    ];
    for a in samples {
        for b in samples {
            assert_eq!(double(a).lt(double(b)), a < b);
            assert_eq!(double(a).le(double(b)), a <= b);
            if !a.is_nan() && !b.is_nan() && a != b {
                assert_eq!(double(a).min(double(b)), double(a.min(b)));
                assert_eq!(double(a).max(double(b)), double(a.max(b)));
            }
        }
        assert_eq!(double(a).not_a_number(), a.is_nan());
        assert_eq!(double(a).to_bits(), a.to_bits());
    }
    assert_eq!(double(f64::NAN).min(double(1.0)), double(1.0));
    assert_eq!(double(1.0).max(double(f64::NAN)), double(1.0));
}

#[test]
fn extremes_are_taken_of_the_picked_places() {
    let values: Vec<Double> = [4.0, -2.0, 9.0, 1.0].iter().map(|v| double(*v)).collect();
    assert_eq!(least_at(&values, &vec![0, 2, 3]), double(1.0));
    assert_eq!(greatest_at(&values, &vec![0, 1, 3]), double(4.0));
}

#[test]
fn text_is_trimmed_split_and_ordered_as_std_does() {
    for s in ["", " ", "a", " a ", "\u{a0}a b\u{2003}", "\n\ta\r\n", "\u{3000}", "x\u{85}"] {
        assert_eq!(trimmed(s), s.trim());
    }
    for s in ["", "a", "a\n", "a\nb", "a\r\nb\r", "\n", "\n\n", "a\r\r\nb", "é\n\u{1f321}"] {
        let lines: Vec<String> = s.lines().map(|l| l.to_string()).collect();
        assert_eq!(shown(&lines_of(&chars_of(s))), lines);
    }
    for s in ["", "  ", "a b", " a\t\tb \u{2028}c", "abc"] {
        let fields: Vec<String> = s.split_whitespace().map(|l| l.to_string()).collect();
        assert_eq!(shown(&fields_of(&chars_of(s))), fields);
    }
    for a in ["", "1970-01-01", "1970-01-02", "1970-01", "2", "é", "\u{1f321}"] {
        for b in ["", "1970-01-01", "1970-01-02", "1970-01", "2", "é", "\u{1f321}"] {
            assert_eq!(before(a, b), a < b);
        }
    }
}
