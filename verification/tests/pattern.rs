use regex::Regex;
use vehicle::digits::Number;
use vehicle::tire::Tire;

/// The first three matches of the pattern that read as numbers.
fn by_pattern(pattern: &Regex, text: &str) -> Option<(f64, f64, f64)> {
    let results: Vec<f64> = pattern
        .find_iter(text)
        .filter_map(|digits| digits.as_str().parse().ok())
        .collect();
    Some((*results.get(0)?, *results.get(1)?, *results.get(2)?))
}

fn float(number: &Number) -> f64 {
    number.digits.iter().collect::<String>().parse().unwrap()
}

/// The three numbers of the tire that the text gives.
fn by_tire(text: &str) -> Option<(f64, f64, f64)> {
    let tire = Tire::new(text).ok()?;
    Some((float(&tire.width), float(&tire.aspect_ratio), float(&tire.wheel_diameter)))
}

/// Every text of `len` characters taken from `alphabet`.
fn texts(alphabet: &[char], len: usize) -> Vec<String> {
    let mut all = vec![String::new()];
    for _ in 0..len {
        let mut longer = Vec::new();
        for text in &all {
            for c in alphabet {
                let mut next = text.clone();
                next.push(*c);
                longer.push(next);
            }
        }
        all = longer;
    }
    all
}

#[test]
fn agrees_with_the_pattern_on_codes() {
    let pattern = Regex::new(r"\d{2,}").unwrap();
    let long = format!("{}/55R20", "9".repeat(400));
    let codes = [
        "275/55R20",
        "P215/65R15 95H",
        "LT245/75R16 120/116Q",
        "31x10.50R15",
        "205/55ZR16",
        "ABC",
        "20/R",
        "",
        "2755520",
        "0275/055R020",
        "18446744073709551615/55R20",
        "18446744073709551616/55R20",
        "100000000000000000000/55R20",
        "275/55R20 18446744073709551616",
        "275\u{2192}55\u{2192}20",
        long.as_str(),
    ];
    for code in codes {
        assert_eq!(by_tire(code), by_pattern(&pattern, code), "{:?}", code);
    }
    assert_eq!(by_tire("275/55R20"), Some((275.0, 55.0, 20.0)));
    assert_eq!(by_tire("100000000000000000000/55R20"), Some((1e20, 55.0, 20.0)));
}

#[test]
fn agrees_with_the_pattern_on_short_texts() {
    let pattern = Regex::new(r"\d{2,}").unwrap();
    let mut decoded = 0;
    for len in 0..=8 {
        for text in texts(&['2', '0', '/', 'R'], len) {
            let tire = by_tire(&text);
            assert_eq!(tire, by_pattern(&pattern, &text), "{:?}", text);
            if tire.is_some() {
                decoded += 1;
            }
        }
    }
    // Of length 8, only the texts of three pairs of digits and two
    // separators can be decoded: 2^6 * 2^2 of them.
    assert_eq!(decoded, 256);
}

#[test]
fn agrees_with_the_pattern_on_long_texts() {
    let pattern = Regex::new(r"\d{2,}").unwrap();
    for len in 9..=14 {
        for text in texts(&['7', '/'], len) {
            assert_eq!(by_tire(&text), by_pattern(&pattern, &text), "{:?}", text);
        }
    }
}

#[test]
fn agrees_with_the_pattern_on_long_numbers() {
    let pattern = Regex::new(r"\d{2,}").unwrap();
    for len in [19, 20, 21, 40, 308, 309, 310, 1000] {
        for digit in ["1", "9"] {
            let text = format!("{}/55R20", digit.repeat(len));
            assert_eq!(by_tire(&text), by_pattern(&pattern, &text), "{:?}", text);
            assert!(by_tire(&text).is_some());
        }
    }
}

#[test]
fn digits_are_the_ascii_class_of_the_pattern() {
    // Among digits of another script, the groups are the matches of the
    // pattern's ASCII class.
    let pattern = Regex::new(r"(?-u:\d){2,}").unwrap();
    for len in 0..=9 {
        for text in texts(&['5', '/', '\u{0665}'], len) {
            assert_eq!(by_tire(&text), by_pattern(&pattern, &text), "{:?}", text);
        }
    }
}
