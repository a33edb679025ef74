use textutils::tail::TakeValue::{PlusZero, TakeNum};
use textutils::tail::{
    count_lines_bytes, get_start_index, parse_num, select_bytes, select_lines, tail_bytes,
    tail_lines, Extent, LineStreamer,
};

#[test]
fn test_parse_num() {
    // Default: All integers should be interpreted as negative numbers
    let res = parse_num("3");
    assert!(res.is_ok());
    assert_eq!(res.unwrap(), TakeNum(-3));

    // A leading "+" should result in a positive number
    let res = parse_num("+3");
    assert!(res.is_ok());
    assert_eq!(res.unwrap(), TakeNum(3));

    // An explicit "-" value should result in a negative number
    let res = parse_num("-3");
    assert!(res.is_ok());
    assert_eq!(res.unwrap(), TakeNum(-3));

    let res = parse_num("0");
    assert!(res.is_ok());
    assert_eq!(res.unwrap(), TakeNum(0));

    // Plus zero means select everything
    let res = parse_num("+0");
    assert!(res.is_ok());
    assert_eq!(res.unwrap(), PlusZero);

    // Test boundaries
    let res = parse_num(&i64::MAX.to_string());
    assert!(res.is_ok());
    assert_eq!(res.unwrap(), TakeNum(i64::MIN + 1));
    let res = parse_num(&(i64::MIN + 1).to_string());
    assert!(res.is_ok());
    assert_eq!(res.unwrap(), TakeNum(i64::MIN + 1));
    let res = parse_num(&format!("+{}", i64::MAX));
    assert!(res.is_ok());
    assert_eq!(res.unwrap(), TakeNum(i64::MAX));
    let res = parse_num(&i64::MIN.to_string());
    assert!(res.is_ok());
    assert_eq!(res.unwrap(), TakeNum(i64::MIN));

    // A floating-point value is invalid
    let res = parse_num("3.14");
    assert!(res.is_err());
    assert_eq!(res.unwrap_err().to_string(), "3.14");
    // Any noninteger string is invalid
    let res = parse_num("foo");
    assert!(res.is_err());
    assert_eq!(res.unwrap_err().to_string(), "foo");
}

#[test]
fn test_get_start_index() {
    // +0 from an empty file (0 lines/bytes) returns None
    assert_eq!(get_start_index(&PlusZero, 0), None);

    // +0 from a nonempty file returns an index that
    // is one less than the number of lines/bytes
    assert_eq!(get_start_index(&PlusZero, 1), Some(0));

    // Taking 0 lines/bytes returns None
    assert_eq!(get_start_index(&TakeNum(0), 1), None);

    // Taking any lines/bytes from an empty file returns None
    assert_eq!(get_start_index(&TakeNum(1), 0), None);

    // Taking more lines/bytes than is available returns None
    assert_eq!(get_start_index(&TakeNum(2), 1), None);

    // When starting line/byte is less than total lines/bytes,
    // return one less than starting number
    assert_eq!(get_start_index(&TakeNum(1), 10), Some(0));
    assert_eq!(get_start_index(&TakeNum(2), 10), Some(1));
    assert_eq!(get_start_index(&TakeNum(3), 10), Some(2));

    // When starting line/byte is negative and less than total,
    // return total - start
    assert_eq!(get_start_index(&TakeNum(-1), 10), Some(9));
    assert_eq!(get_start_index(&TakeNum(-2), 10), Some(8));
    assert_eq!(get_start_index(&TakeNum(-3), 10), Some(7));

    // When starting line/byte is negative and more than total,
    // return 0 to print the whole file
    assert_eq!(get_start_index(&TakeNum(-20), 10), Some(0));
}

const TEN: &str = "One\nTwo\nThree\nFour\nFive\nSix\nSeven\nEight\nNine\nTen\n";

#[test]
fn parse_num_malformed_tokens() {
    for tok in ["", "+", "-", "+-3", "--3", "3-", " 3", "3 ", "1e3", "٣"] {
        assert_eq!(parse_num(tok), Err(tok.to_string()));
    }
}

#[test]
fn parse_num_overflow_is_rejected() {
    assert_eq!(parse_num("9223372036854775809"), Err("9223372036854775809".to_string()));
    assert_eq!(parse_num("-9223372036854775809"), Err("-9223372036854775809".to_string()));
    assert_eq!(parse_num("+9223372036854775808"), Err("+9223372036854775808".to_string()));
    // the bare digits of the signed minimum's magnitude read as the minimum
    assert_eq!(parse_num("9223372036854775808"), Ok(TakeNum(i64::MIN)));
}

#[test]
fn parse_num_zero_forms() {
    assert_eq!(parse_num("-0"), Ok(TakeNum(0)));
    assert_eq!(parse_num("+000"), Ok(PlusZero));
    assert_eq!(parse_num("007"), Ok(TakeNum(-7)));
}

#[test]
fn parse_num_is_repeatable() {
    for tok in ["3", "+3", "-3", "+0", "0", "x"] {
        assert_eq!(parse_num(tok), parse_num(tok));
    }
}

#[test]
fn resolve_zero_count_selects_nothing() {
    for total in [0, 1, 5, 1000, i64::MAX] {
        assert_eq!(get_start_index(&TakeNum(0), total), None);
    }
}

#[test]
fn resolve_plus_zero() {
    assert_eq!(get_start_index(&PlusZero, 0), None);
    for total in [1, 2, 49, i64::MAX] {
        assert_eq!(get_start_index(&PlusZero, total), Some(0));
    }
}

#[test]
fn resolve_past_end_and_before_start() {
    assert_eq!(get_start_index(&TakeNum(11), 10), None);
    assert_eq!(get_start_index(&TakeNum(i64::MAX), 10), None);
    assert_eq!(get_start_index(&TakeNum(-10), 10), Some(0));
    assert_eq!(get_start_index(&TakeNum(i64::MIN), 10), Some(0));
    assert_eq!(get_start_index(&TakeNum(i64::MIN), i64::MAX), Some(0));
    assert_eq!(get_start_index(&TakeNum(-1), i64::MAX), Some(i64::MAX as u64 - 1));
}

#[test]
fn resolve_scenarios() {
    assert_eq!(get_start_index(&TakeNum(1), 10), Some(0));
    assert_eq!(get_start_index(&TakeNum(-1), 10), Some(9));
    assert_eq!(get_start_index(&TakeNum(-20), 10), Some(0));
    assert_eq!(get_start_index(&TakeNum(2), 1), None);
}

#[test]
fn count_lines_bytes_in_memory() {
    assert_eq!(count_lines_bytes(b""), (0, 0));
    assert_eq!(count_lines_bytes(b"\n"), (1, 1));
    assert_eq!(count_lines_bytes(b"no newline"), (1, 10));
    assert_eq!(count_lines_bytes(b"a\nb"), (2, 3));
    assert_eq!(count_lines_bytes(b"a\r\nb\r\n"), (2, 6));
    assert_eq!(count_lines_bytes(TEN.as_bytes()), (10, 49));
}

#[test]
fn extent_adds_lines() {
    let mut e = Extent::new();
    assert_eq!(e, Extent { lines: 0, bytes: 0 });
    e.add_line(4);
    e.add_line(1);
    assert_eq!(e, Extent { lines: 2, bytes: 5 });
}

#[test]
fn line_streamer_decisions() {
    let idle = LineStreamer::new(None);
    assert!(idle.is_idle());
    let mut s = LineStreamer::new(Some(2));
    assert!(!s.is_idle());
    assert_eq!([s.accept(), s.accept(), s.accept(), s.accept()], [false, false, true, true]);
    assert_eq!(s.index, 4);
}

#[test]
fn select_lines_from_index() {
    let data = b"a\nbb\nccc";
    assert_eq!(select_lines(data, None), b"");
    assert_eq!(select_lines(data, Some(0)), b"a\nbb\nccc");
    assert_eq!(select_lines(data, Some(1)), b"bb\nccc");
    assert_eq!(select_lines(data, Some(2)), b"ccc");
    assert_eq!(select_lines(data, Some(3)), b"");
    assert_eq!(select_lines(b"", Some(0)), b"");
}

#[test]
fn select_bytes_from_offset() {
    let data = b"hello";
    assert_eq!(select_bytes(data, None), b"");
    assert_eq!(select_bytes(data, Some(0)), b"hello");
    assert_eq!(select_bytes(data, Some(3)), b"lo");
    assert_eq!(select_bytes(data, Some(5)), b"");
    assert_eq!(select_bytes(data, Some(9)), b"");
}

#[test]
fn tail_last_three_lines() {
    let data = TEN.as_bytes();
    let (lines, _) = count_lines_bytes(data);
    assert_eq!(tail_lines(data, &TakeNum(-3), lines), b"Eight\nNine\nTen\n");
    let parsed = parse_num("3").unwrap();
    assert_eq!(tail_lines(data, &parsed, lines), b"Eight\nNine\nTen\n");
}

#[test]
fn tail_plus_zero_streams_everything() {
    let data = TEN.as_bytes();
    let (lines, bytes) = count_lines_bytes(data);
    assert_eq!(tail_lines(data, &PlusZero, lines), data);
    assert_eq!(tail_bytes(data, &PlusZero, bytes), data);
}

#[test]
fn tail_last_five_bytes() {
    let data = TEN.as_bytes();
    let (_, bytes) = count_lines_bytes(data);
    assert_eq!(get_start_index(&TakeNum(-5), bytes), Some(bytes as u64 - 5));
    assert_eq!(tail_bytes(data, &TakeNum(-5), bytes), b"\nTen\n");
}

#[test]
fn tail_from_line_and_byte() {
    let data = TEN.as_bytes();
    let (lines, bytes) = count_lines_bytes(data);
    assert_eq!(tail_lines(data, &TakeNum(9), lines), b"Nine\nTen\n");
    assert_eq!(tail_lines(data, &TakeNum(11), lines), b"");
    assert_eq!(tail_bytes(data, &TakeNum(46), bytes), b"Ten\n");
    assert_eq!(tail_lines(data, &TakeNum(0), lines), b"");
}

#[test]
fn tail_bytes_keeps_split_characters() {
    let data = "ábc".as_bytes();
    let (_, bytes) = count_lines_bytes(data);
    assert_eq!(tail_bytes(data, &TakeNum(-3), bytes), &data[1..]);
}

#[test]
fn tail_unterminated_last_line() {
    let data = b"one\ntwo";
    let (lines, _) = count_lines_bytes(data);
    assert_eq!(lines, 2);
    assert_eq!(tail_lines(data, &TakeNum(-1), lines), b"two");
}
