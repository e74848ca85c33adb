use graphina::lines::{line_chars, parse_label, record_fields, trimmed, IntError};

fn fields(line: &str, sep: char) -> Option<Vec<String>> {
    record_fields(&line_chars(line), sep).map(|fs| fs.iter().map(|f| f.iter().collect()).collect())
}

fn label(s: &str) -> Result<i32, IntError> {
    parse_label(&line_chars(s))
}

#[test]
fn fields_drop_the_comment_and_trim_each_piece() {
    assert_eq!(fields(" 1, 2 ,3.5 # weight", ','), Some(vec!["1".to_string(), "2".to_string(), "3.5".to_string()]));
    assert_eq!(fields("1,,2", ','), Some(vec!["1".to_string(), "".to_string(), "2".to_string()]));
    assert_eq!(fields("7", ' '), Some(vec!["7".to_string()]));
    assert_eq!(fields("3 4", ' '), Some(vec!["3".to_string(), "4".to_string()]));
}

#[test]
fn blank_and_comment_lines_have_no_fields() {
    assert_eq!(fields("", ','), None);
    assert_eq!(fields("   \t ", ','), None);
    assert_eq!(fields("# Adjacency list with comments", ','), None);
    assert_eq!(fields("  #1,2", ','), None);
}

#[test]
fn trimming_removes_unicode_white_space() {
    let t: String = trimmed(&line_chars("\u{a0} x y\u{3000}\n")).iter().collect();
    assert_eq!(t, "x y");
}

#[test]
fn labels_read_like_i32_from_str() {
    assert_eq!(label("42"), Ok(42));
    assert_eq!(label("+5"), Ok(5));
    assert_eq!(label("-17"), Ok(-17));
    assert_eq!(label("-2147483648"), Ok(i32::MIN));
    assert_eq!(label("2147483647"), Ok(i32::MAX));
    assert_eq!(label(""), Err(IntError::Empty));
    assert_eq!(label("-"), Err(IntError::InvalidDigit));
    assert_eq!(label("+"), Err(IntError::InvalidDigit));
    assert_eq!(label("1x"), Err(IntError::InvalidDigit));
    assert_eq!(label("2147483648"), Err(IntError::PosOverflow));
    assert_eq!(label("-2147483649"), Err(IntError::NegOverflow));
    for s in ["0", "12", "-3", "+9", "", "-", "a", "99999999999", "-99999999999", "1.5"] {
        let ours = label(s);
        match s.parse::<i32>() {
            Ok(v) => assert_eq!(ours, Ok(v)),
            Err(e) => assert_eq!(ours.unwrap_err().message(), e.to_string()),
        }
    }
}
