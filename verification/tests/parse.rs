use cctc::parse::{parse_list, parse_number, InputError};

fn chars(s: &str) -> Vec<char> {
    s.chars().collect()
}

fn parsed(s: &str) -> Result<Vec<usize>, InputError> {
    parse_list(&String::from(s))
}

#[test]
fn list_of_numbers() {
    assert_eq!(parsed("2-0-1"), Ok(vec![2, 0, 1]));
    assert_eq!(parsed("7"), Ok(vec![7]));
    assert_eq!(parsed("10-200-3000"), Ok(vec![10, 200, 3000]));
    assert_eq!(parsed("007-+5"), Ok(vec![7, 5]));
}

#[test]
fn list_with_a_part_that_is_no_number() {
    assert_eq!(parsed(""), Err(InputError::NotANumber));
    assert_eq!(parsed("1--2"), Err(InputError::NotANumber));
    assert_eq!(parsed("-1"), Err(InputError::NotANumber));
    assert_eq!(parsed("1-"), Err(InputError::NotANumber));
    assert_eq!(parsed("1-a-2"), Err(InputError::NotANumber));
    assert_eq!(parsed("1 - 2"), Err(InputError::NotANumber));
    assert_eq!(parsed("+"), Err(InputError::NotANumber));
    assert_eq!(parsed("1.5"), Err(InputError::NotANumber));
    assert_eq!(parsed("٣"), Err(InputError::NotANumber));
}

#[test]
fn list_with_a_number_too_large() {
    let max = usize::MAX.to_string();
    assert_eq!(parsed(&max), Ok(vec![usize::MAX]));
    assert_eq!(parsed("1-340282366920938463463374607431768211456"), Err(InputError::TooLarge));
    assert_eq!(parsed("99999999999999999999999999"), Err(InputError::TooLarge));
}

#[test]
fn first_fault_is_reported() {
    assert_eq!(parsed("x-99999999999999999999999999"), Err(InputError::NotANumber));
    assert_eq!(parsed("99999999999999999999999999-x"), Err(InputError::TooLarge));
}

#[test]
fn numbers_as_the_standard_parser_reads_them() {
    let tokens = ["0", "1", "42", "+42", "0042", "", "+", "4 2", "-4", "x", "18446744073709551616"];
    for token in tokens.iter() {
        let expected = token.parse::<usize>().ok();
        assert_eq!(parse_number(&chars(token)).ok(), expected);
    }
}
