use permu::parse::{lines2matrix, parse_usize, tokenize};
use permu::Error;

#[test]
fn tokenize_splits_on_whitespace() {
    let toks = tokenize(&b"  12 \t 7\r\n5".to_vec());
    assert_eq!(toks, vec![b"12".to_vec(), b"7".to_vec(), b"5".to_vec()]);
    assert!(tokenize(&b"   ".to_vec()).is_empty());
    assert!(tokenize(&Vec::new()).is_empty());
}

#[test]
fn parse_usize_reads_decimal_tokens() {
    assert_eq!(parse_usize(&b"0".to_vec()), Some(0));
    assert_eq!(parse_usize(&b"00417".to_vec()), Some(417));
    assert_eq!(parse_usize(&b"".to_vec()), None);
    assert_eq!(parse_usize(&b"12a".to_vec()), None);
    assert_eq!(parse_usize(&b"-3".to_vec()), None);
    assert_eq!(parse_usize(&b"99999999999999999999999999".to_vec()), None);
}

#[test]
fn lines2matrix_reads_the_declared_shape() {
    let lines: Vec<Vec<u8>> = vec![b"head".to_vec(), b"1 2 3".to_vec(), b"4 5 6".to_vec()];
    let m = lines2matrix(&lines, 1, 2, 3).unwrap();
    assert_eq!(m, vec![vec![1, 2, 3], vec![4, 5, 6]]);
}

#[test]
fn lines2matrix_rejects_short_rows_and_missing_lines() {
    let lines: Vec<Vec<u8>> = vec![b"1 2".to_vec()];
    assert_eq!(lines2matrix(&lines, 0, 1, 3).unwrap_err(), Error::FileFormatError);
    assert_eq!(lines2matrix(&lines, 0, 2, 2).unwrap_err(), Error::FileFormatError);
}
