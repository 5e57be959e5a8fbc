use render3d::number::{count_digits, is_decimal_digit, is_number_word, parse_index};

fn chars(s: &str) -> Vec<char> {
    s.chars().collect()
}

#[test]
fn digits_are_zero_to_nine() {
    for c in "0123456789".chars() {
        assert!(is_decimal_digit(c));
    }
    for c in "/:aA +-.e\u{661}".chars() {
        assert!(!is_decimal_digit(c));
    }
}

#[test]
fn index_is_read_in_base_ten() {
    assert_eq!(parse_index(&chars("1")), Some(1));
    assert_eq!(parse_index(&chars("0")), Some(0));
    assert_eq!(parse_index(&chars("42")), Some(42));
    assert_eq!(parse_index(&chars("007")), Some(7));
    assert_eq!(parse_index(&chars("+15")), Some(15));
    assert_eq!(parse_index(&chars("1234567890")), Some(1_234_567_890));
}

#[test]
fn index_is_refused_where_it_is_no_number() {
    for w in ["", "+", "-", "-1", "1.0", "1/2/3", "1e3", "0x10", "++1", "1+", " 1", "1 ", "a", "١"] {
        assert_eq!(parse_index(&chars(w)), None, "{:?}", w);
    }
}

#[test]
fn index_is_refused_where_it_does_not_fit() {
    let max = usize::MAX.to_string();
    assert_eq!(parse_index(&chars(&max)), Some(usize::MAX));
    let mut over = max.clone();
    let last = over.pop().unwrap();
    over.push(((last as u8) + 1) as char);
    assert_eq!(parse_index(&chars(&over)), None);
    let longer = format!("{}0", max);
    assert_eq!(parse_index(&chars(&longer)), None);
    assert_eq!(parse_index(&chars("99999999999999999999999999999999")), None);
    let padded = format!("000000000000000000000000{}", max);
    assert_eq!(parse_index(&chars(&padded)), Some(usize::MAX));
}

#[test]
fn index_agrees_with_the_standard_library() {
    let mut words: Vec<String> = Vec::new();
    let alphabet = ['0', '1', '9', '+', '-', '.', 'e', ' '];
    for a in alphabet {
        words.push(format!("{}", a));
        for b in alphabet {
            words.push(format!("{}{}", a, b));
            for c in alphabet {
                words.push(format!("{}{}{}", a, b, c));
            }
        }
    }
    for k in 0..40u32 {
        words.push(format!("{}", 10u128.pow(k)));
        words.push(format!("{}", 10u128.pow(k) - 1));
        words.push(format!("+{}", 3 * 10u128.pow(k) / 2));
    }
    for w in words {
        assert_eq!(parse_index(&chars(&w)), w.parse::<usize>().ok(), "{:?}", w);
    }
}

#[test]
fn digit_runs_are_counted_from_a_position() {
    let s = chars("12.345e6");
    assert_eq!(count_digits(&s, 0), 2);
    assert_eq!(count_digits(&s, 1), 1);
    assert_eq!(count_digits(&s, 2), 0);
    assert_eq!(count_digits(&s, 3), 3);
    assert_eq!(count_digits(&s, 7), 1);
    assert_eq!(count_digits(&s, 8), 0);
    assert_eq!(count_digits(&s, 9), 0);
    assert_eq!(count_digits(&s, usize::MAX), 0);
}

#[test]
fn coordinates_may_be_written_in_many_ways() {
    for w in [
        "0", "1", "-1", "+1", "1.5", "-1.5", ".5", "5.", "-.5", "+5.", "1e5", "1E5", "1e+5", "1e-5",
        "1.5e10", ".5e-3", "5.e3", "0.000000", "123456789012345678901234567890", "1e999", "inf",
        "-inf", "+inf", "INF", "Infinity", "-infinity", "iNfInItY", "nan", "NaN", "-nan", "+NAN",
        "0.437500", "-1.968750",
    ] {
        assert!(is_number_word(&chars(w)), "{:?}", w);
        assert!(w.parse::<f32>().is_ok(), "{:?}", w);
    }
}

#[test]
fn coordinates_are_refused_where_they_are_no_number() {
    for w in [
        "", "+", "-", ".", "-.", "e5", ".e5", "1e", "1e+", "1e-", "1.2.3", "1..2", "--1", "+-1",
        "1-", "1e5.0", "1e5e5", "0x10", "1_000", "1f32", "1,5", "in", "infi", "infinit",
        "infinityy", "na", "nana", "abc", "1 ", " 1", "1/2", "١", "1.5f", "i", "n", "ınf", "KNAN",
        "inf1", "1inf", "e", "E", "1ee5", ".+5", "1. 5",
    ] {
        assert!(!is_number_word(&chars(w)), "{:?}", w);
        assert!(w.parse::<f32>().is_err(), "{:?}", w);
    }
}

#[test]
fn coordinates_agree_with_the_standard_library() {
    let alphabet = ['0', '7', '+', '-', '.', 'e', 'E', 'i', 'n', 'f', 'a', 'N', ' '];
    let mut words: Vec<String> = vec![String::new()];
    let mut frontier: Vec<String> = vec![String::new()];
    for _ in 0..5 {
        let mut next = Vec::new();
        for w in frontier.iter() {
            for c in alphabet {
                let mut longer = w.clone();
                longer.push(c);
                next.push(longer);
            }
        }
        words.extend(next.iter().cloned());
        frontier = next;
    }
    for prefix in ["", "+", "-"] {
        for body in ["inf", "infinity", "nan", "infinit", "infinityx", "INFINITY", "Nan", "nAn"] {
            words.push(format!("{}{}", prefix, body));
        }
    }
    for w in words {
        assert_eq!(is_number_word(&chars(&w)), w.parse::<f32>().is_ok(), "{:?}", w);
    }
}
