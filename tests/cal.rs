use textutils::cal::{
    format_month, last_day_in_month, month_from_lower, month_grid, month_name, parse_int, parse_month,
    parse_year, CalDate,
};

#[test]
fn test_parse_int() {
    // Parse positive int as usize
    let res = parse_int::<usize>("1");
    assert!(res.is_ok());
    assert_eq!(res.unwrap(), 1usize);

    // Parse negative int as i32
    let res = parse_int::<i32>("-1");
    assert!(res.is_ok());
    assert_eq!(res.unwrap(), -1i32);

    // Fail on a string
    let res = parse_int::<i64>("foo");
    assert!(res.is_err());
    assert_eq!(res.unwrap_err().to_string(), "Invalid integer \"foo\"");
}

#[test]
fn test_parse_year() {
    let res = parse_year("1");
    assert!(res.is_ok());
    assert_eq!(res.unwrap(), 1i32);
    let res = parse_year("9999");
    assert!(res.is_ok());
    assert_eq!(res.unwrap(), 9999i32);
    let res = parse_year("0");
    assert!(res.is_err());
    assert_eq!(
        res.unwrap_err().to_string(),
        "year \"0\" not in the range 1 through 9999"
    );
    let res = parse_year("10000");
    assert!(res.is_err());
    assert_eq!(
        res.unwrap_err().to_string(),
        "year \"10000\" not in the range 1 through 9999"
    );
    let res = parse_year("foo");
    assert!(res.is_err());
}

#[test]
fn test_parse_month() {
    let res = parse_month("1");
    assert!(res.is_ok());
    assert_eq!(res.unwrap(), 1u32);
    let res = parse_month("12");
    assert!(res.is_ok());
    assert_eq!(res.unwrap(), 12u32);
    let res = parse_month("jan");
    assert!(res.is_ok());
    assert_eq!(res.unwrap(), 1u32);
    let res = parse_month("0");
    assert!(res.is_err());
    assert_eq!(
        res.unwrap_err().to_string(),
        "month \"0\" not in the range 1 through 12"
    );
    let res = parse_month("13");
    assert!(res.is_err());
    assert_eq!(
        res.unwrap_err().to_string(),
        "month \"13\" not in the range 1 through 12"
    );
    let res = parse_month("foo");
    assert!(res.is_err());
    assert_eq!(res.unwrap_err().to_string(), "Invalid month \"foo\"");
}

#[test]
fn parse_int_edges() {
    assert_eq!(parse_int::<u32>("+7"), Ok(7));
    assert_eq!(parse_int::<u32>("-0"), Err("Invalid integer \"-0\"".to_string()));
    assert_eq!(parse_int::<i32>("-2147483648"), Ok(i32::MIN));
    assert_eq!(parse_int::<i32>("2147483648"), Err("Invalid integer \"2147483648\"".to_string()));
    assert_eq!(parse_int::<i64>(""), Err("Invalid integer \"\"".to_string()));
    assert_eq!(parse_int::<usize>("18446744073709551615"), Ok(usize::MAX));
}

#[test]
fn parse_year_rejects_unparsable() {
    assert_eq!(parse_year("foo"), Err("Invalid integer \"foo\"".to_string()));
    assert_eq!(parse_year("-5"), Err("year \"-5\" not in the range 1 through 9999".to_string()));
}

#[test]
fn parse_month_by_name() {
    assert_eq!(parse_month("JUL"), Ok(7));
    assert_eq!(parse_month("December"), Ok(12));
    assert_eq!(parse_month("s"), Ok(9));
    assert_eq!(parse_month("ju"), Err("Invalid month \"ju\"".to_string()));
    assert_eq!(parse_month("m"), Err("Invalid month \"m\"".to_string()));
    assert_eq!(parse_month(""), Err("Invalid month \"\"".to_string()));
    assert_eq!(parse_month("januaryx"), Err("Invalid month \"januaryx\"".to_string()));
}

#[test]
fn month_from_lower_cases() {
    assert_eq!(month_from_lower("feb"), Some(2));
    assert_eq!(month_from_lower("a"), None);
    assert_eq!(month_from_lower("au"), Some(8));
    assert_eq!(month_from_lower("FEB"), None);
    assert_eq!(month_name(10), "October");
}

fn date(year: i32, month: u32, day: u32) -> CalDate {
    CalDate { year, month, day }
}

#[test]
fn test_format_month() {
    let today = date(0, 1, 1);
    let leap_february = vec![
        "   February 2020      ",
        "Su Mo Tu We Th Fr Sa  ",
        "                   1  ",
        " 2  3  4  5  6  7  8  ",
        " 9 10 11 12 13 14 15  ",
        "16 17 18 19 20 21 22  ",
        "23 24 25 26 27 28 29  ",
        "                      ",
    ];
    assert_eq!(format_month(2020, 2, true, today), leap_february);

    let may = vec![
        "        May           ",
        "Su Mo Tu We Th Fr Sa  ",
        "                1  2  ",
        " 3  4  5  6  7  8  9  ",
        "10 11 12 13 14 15 16  ",
        "17 18 19 20 21 22 23  ",
        "24 25 26 27 28 29 30  ",
        "31                    ",
    ];
    assert_eq!(format_month(2020, 5, false, today), may);

    let april_hl = vec![
        "     April 2021       ",
        "Su Mo Tu We Th Fr Sa  ",
        "             1  2  3  ",
        " 4  5  6 \u{1b}[7m 7\u{1b}[0m  8  9 10  ",
        "11 12 13 14 15 16 17  ",
        "18 19 20 21 22 23 24  ",
        "25 26 27 28 29 30     ",
        "                      ",
    ];
    let today = date(2021, 4, 7);
    assert_eq!(format_month(2021, 4, true, today), april_hl);
}

#[test]
fn test_last_day_in_month() {
    assert_eq!(last_day_in_month(2020, 1), date(2020, 1, 31));
    assert_eq!(last_day_in_month(2020, 2), date(2020, 2, 29));
    assert_eq!(last_day_in_month(2020, 4), date(2020, 4, 30));
}

#[test]
fn last_day_edges() {
    assert_eq!(last_day_in_month(2020, 12), date(2020, 12, 31));
    assert_eq!(last_day_in_month(1900, 2), date(1900, 2, 28));
    assert_eq!(last_day_in_month(2000, 2), date(2000, 2, 29));
    assert_eq!(last_day_in_month(2023, 2), date(2023, 2, 28));
}

#[test]
fn format_month_six_weeks_and_negative_year() {
    let lines = format_month(2021, 1, true, date(0, 1, 1));
    assert_eq!(lines.len(), 8);
    assert_eq!(lines[0], "    January 2021      ");
    assert_eq!(lines[2], "                1  2  ");
    assert_eq!(lines[7], "31                    ");
    let lines = format_month(-1, 3, true, date(0, 1, 1));
    assert_eq!(lines[0], "      March -1        ");
    let lines = format_month(2015, 2, false, date(2015, 2, 28));
    assert_eq!(lines[2], " 1  2  3  4  5  6  7  ");
    assert_eq!(lines[5], "22 23 24 25 26 27 \u{1b}[7m28\u{1b}[0m  ");
    assert_eq!(lines[6], "                      ");
}

#[test]
fn month_grid_from_given_weekday() {
    let lines = month_grid(7, 2, true, date(7, 2, 3), 2, 28);
    assert_eq!(
        lines,
        vec![
            "     February 7       ",
            "Su Mo Tu We Th Fr Sa  ",
            "    1  2 \u{1b}[7m 3\u{1b}[0m  4  5  6  ",
            " 7  8  9 10 11 12 13  ",
            "14 15 16 17 18 19 20  ",
            "21 22 23 24 25 26 27  ",
            "28                    ",
            "                      ",
        ]
    );
    let lines = month_grid(2024, 9, false, date(0, 1, 1), 7, 30);
    assert_eq!(lines[0], "     September        ");
    assert_eq!(lines[2], "                   1  ");
    assert_eq!(lines[7], "30                    ");
}
