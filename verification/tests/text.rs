use knn_classifier::numeral::{is_digit_char, is_numeral_text};
use knn_classifier::text::{chars_of, find_sep, is_space, string_of, trimmed};

#[test]
fn white_space_is_what_the_standard_library_calls_so() {
    for code in 0..=0x10ffffu32 {
        if let Some(c) = char::from_u32(code) {
            assert_eq!(is_space(c), c.is_whitespace(), "U+{:04X}", code);
        }
    }
}

#[test]
fn digits_are_the_ten_decimal_digits() {
    for code in 0..=0x10ffffu32 {
        if let Some(c) = char::from_u32(code) {
            assert_eq!(is_digit_char(c), c.is_ascii_digit(), "U+{:04X}", code);
        }
    }
}

#[test]
fn strings_and_characters_convert_both_ways() {
    for text in ["", "a", "肥満, 150", "line\nbreak\ttab", "\u{10ffff}\u{0}"] {
        let chars = chars_of(text);
        assert_eq!(chars, text.chars().collect::<Vec<char>>());
        assert_eq!(string_of(&chars), text);
    }
}

#[test]
fn trimming_agrees_with_the_standard_library() {
    for text in [
        "",
        " ",
        "   \t\r\n",
        "a",
        " a",
        "a ",
        "  a b  ",
        "\u{3000}肥満\u{a0}",
        "\u{2028}x\u{2029}",
        "\u{200b}x\u{200b}",
        "\r\n 1.5 \r",
        " \u{85} \u{1680} y \u{205f} \u{202f}",
    ] {
        let chars: Vec<char> = text.chars().collect();
        assert_eq!(string_of(trimmed(&chars)), text.trim(), "{:?}", text);
    }
}

#[test]
fn separator_is_found_where_it_first_stands() {
    for (text, sep) in [("", ','), ("abc", ','), (",abc", ','), ("ab,c,d", ','), ("abc,", ','), ("肥満、1、2", '、')] {
        let chars: Vec<char> = text.chars().collect();
        let expected = chars.iter().position(|c| *c == sep).unwrap_or(chars.len());
        assert_eq!(find_sep(&chars, sep), expected, "{:?}", text);
    }
}

fn numeral(text: &str) -> bool {
    let chars: Vec<char> = text.chars().collect();
    is_numeral_text(&chars)
}

#[test]
fn numerals_are_what_the_standard_library_converts() {
    let samples = [
        "", "0", "1", "150", "69.0", "5.", ".5", ".", "+", "-", "+1", "-1", "+-1", "--1", "1+", "1e5", "1E5",
        "1e", "1e+", "1e-", "1e+5", "1e-5", "1e5.", "1e5e5", "e5", ".e5", "5.e5", ".5e5", "1.2.3", "1,5",
        "1 5", " 1", "1 ", "1_000", "0x10", "inf", "Inf", "INF", "+inf", "-inf", "infinity", "Infinity",
        "INFINITY", "-iNfInItY", "infinit", "infinityy", "in", "nan", "NaN", "NAN", "+nan", "-nan", "nana",
        "na", "n", "i", "1f", "1d", "١٢٣", "１２３", "1e١", "0.1000000000000000055511151231257827",
        "179769313486231570000000000000000000000000000000000000000000000000000000000000000000000000",
        "1e400", "1e-400", "-0", "-0.0", "+.0", "-.e1", "1..", "..1", ".1.", "1e1e", "1ee1", "１", "1\u{a0}",
        "∞", "+infinity", "+ inf", "i nf", "1e 5", "1 e5", "00012", "0e0", "9e99999999999999999999",
    ];
    for text in samples {
        assert_eq!(numeral(text), text.parse::<f64>().is_ok(), "{:?}", text);
    }
}

fn all_texts(alphabet: &[char], longest: usize) -> Vec<String> {
    let mut texts: Vec<String> = vec![String::new()];
    let mut from = 0;
    for _ in 0..longest {
        let to = texts.len();
        for i in from..to {
            for c in alphabet {
                let mut longer = texts[i].clone();
                longer.push(*c);
                texts.push(longer);
            }
        }
        from = to;
    }
    texts
}

#[test]
fn numerals_of_up_to_five_characters() {
    let alphabet = ['0', '7', '+', '-', '.', 'e', 'E', 'i', 'n', 'f', 'a', 'N', ' ', 'x'];
    let texts = all_texts(&alphabet, 5);
    assert_eq!(texts.len(), 1 + 14 + 196 + 2744 + 38416 + 537824);
    for text in texts.iter() {
        assert_eq!(numeral(text), text.parse::<f64>().is_ok(), "{:?}", text);
    }
}

#[test]
fn numerals_of_up_to_three_characters_of_many_kinds() {
    let mut alphabet: Vec<char> = ('!'..='~').collect();
    alphabet.extend(['\t', '\n', '\u{a0}', '٣', '３', 'İ', 'ı', 'K', '−', '\u{0}']);
    let texts = all_texts(&alphabet, 3);
    for text in texts.iter() {
        assert_eq!(numeral(text), text.parse::<f64>().is_ok(), "{:?}", text);
    }
}

#[test]
fn special_numerals_in_every_mix_of_cases() {
    for word in ["inf", "nan", "infinity"] {
        let letters: Vec<char> = word.chars().collect();
        for mask in 0..(1u32 << letters.len()) {
            let mixed: String = letters
                .iter()
                .enumerate()
                .map(|(i, c)| if mask & (1 << i) != 0 { c.to_ascii_uppercase() } else { *c })
                .collect();
            for sign in ["", "+", "-"] {
                let text = format!("{}{}", sign, mixed);
                assert!(numeral(&text), "{:?}", text);
                assert!(text.parse::<f64>().is_ok(), "{:?}", text);
                for extra in ["0", "e", " ", "y"] {
                    let longer = format!("{}{}", text, extra);
                    assert_eq!(numeral(&longer), longer.parse::<f64>().is_ok(), "{:?}", longer);
                    let shifted = format!("{}{}", extra, text);
                    assert_eq!(numeral(&shifted), shifted.parse::<f64>().is_ok(), "{:?}", shifted);
                }
            }
        }
    }
}

#[test]
fn formatted_numbers_are_numerals() {
    let values = [
        0.0, -0.0, 1.0, -1.0, 0.1, 150.0, 69.0, 1e21, 1e-7, 123456.789, f64::MAX, f64::MIN, f64::MIN_POSITIVE,
        5e-324, f64::INFINITY, f64::NEG_INFINITY, f64::NAN, f64::EPSILON,
    ];
    for value in values {
        assert!(numeral(&value.to_string()), "{:?}", value);
        assert!(numeral(&format!("{:e}", value)), "{:e}", value);
    }
}
