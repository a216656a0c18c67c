use wordfreq::get_output_path;
use wordfreq::params::{get_extra_chars, parse_count, parse_threshold, parse_word_len};

fn chars(s: &str) -> Vec<char> {
    s.chars().collect()
}

#[test]
fn extra_chars_skip_line_breaks_and_ideographs() {
    let got = get_extra_chars(&chars("ab一a\r\n·"));
    assert_eq!(got, vec!['a', 'b', '·']);
}

#[test]
fn word_len_must_be_positive() {
    assert_eq!(parse_word_len(&chars("3")), Some(3));
    assert_eq!(parse_word_len(&chars("+12")), Some(12));
    assert_eq!(parse_word_len(&chars("0")), None);
    assert_eq!(parse_word_len(&chars("-1")), None);
    assert_eq!(parse_word_len(&chars("x")), None);
    assert_eq!(parse_word_len(&chars("")), None);
}

#[test]
fn threshold_defaults_to_one() {
    assert_eq!(parse_threshold(&chars("")), Some(1));
    assert_eq!(parse_threshold(&chars("0")), Some(0));
    assert_eq!(parse_threshold(&chars("25")), Some(25));
    assert_eq!(parse_threshold(&chars("2.5")), None);
}

#[test]
fn count_parsing_matches_std() {
    for s in ["0", "007", "+4", "+", "", "18446744073709551615", "18446744073709551616", "99999999999999999999999", "1 ", "a1"] {
        assert_eq!(parse_count(&chars(s)), s.parse::<usize>().ok(), "{s:?}");
    }
}

#[test]
fn output_name_for_first_attempt() {
    assert_eq!(get_output_path(&chars("语料"), 2, 1), "语料_2字词频.txt");
    assert_eq!(get_output_path(&chars("c"), 10, 0), "c_10字词频.txt");
}

#[test]
fn output_name_for_later_attempts() {
    assert_eq!(get_output_path(&chars("语料"), 2, 2), "语料_2字词频_2.txt");
    assert_eq!(get_output_path(&chars("语料"), 3, 11), "语料_3字词频_11.txt");
}
