use error_line::{parse, Error, ErrorLine, NumError};

fn record(file_path: &str, line: usize, column: usize, message: &str) -> ErrorLine {
    ErrorLine {
        file_path: file_path.to_string(),
        line,
        column,
        message: message.to_string(),
    }
}

#[test]
fn example() {
    let input = "./main.go:3:1:syntax error: non-declaration statement outside function body\n";

    let expected = vec![record(
        "./main.go",
        3,
        1,
        "syntax error: non-declaration statement outside function body",
    )];

    let got = parse(input).unwrap();

    assert_eq!(expected, got);
}

#[test]
fn comment_is_ignored() {
    let input = "#comment\n./a.go:1:1:oops";
    let got = parse(input).unwrap();
    assert_eq!(vec![record("./a.go", 1, 1, "oops")], got);
}

#[test]
fn malformed_comment_is_ignored() {
    let input = "#this:line:would:never:parse\n# neither : would : this\n";
    assert_eq!(Ok(vec![]), parse(input));
}

#[test]
fn invalid_line_number() {
    let input = "./a.go:x:1:oops";
    assert_eq!(Err(Error::InvalidLine(NumError::InvalidDigit)), parse(input));
}

// A deliberate design choice, documented here: failures of the third token
// are reported under the column kinds (MissingColumn, InvalidColumn), never
// under the line kinds — each error names the field it belongs to.
#[test]
fn invalid_column_number() {
    let input = "./a.go:1:y:oops";
    assert_eq!(Err(Error::InvalidColumn(NumError::InvalidDigit)), parse(input));
}

#[test]
fn empty_line_token() {
    let input = "./a.go::1:oops";
    assert_eq!(Err(Error::InvalidLine(NumError::Empty)), parse(input));
}

#[test]
fn empty_column_token() {
    let input = "./a.go:1::oops";
    assert_eq!(Err(Error::InvalidColumn(NumError::Empty)), parse(input));
}

#[test]
fn line_number_overflow() {
    let input = "./a.go:18446744073709551616:1:oops";
    assert_eq!(Err(Error::InvalidLine(NumError::Overflow)), parse(input));
}

#[test]
fn sign_only_line_token() {
    let input = "./a.go:+:1:oops";
    assert_eq!(Err(Error::InvalidLine(NumError::InvalidDigit)), parse(input));
}

#[test]
fn plus_signed_numbers_accepted() {
    let input = "./a.go:+3:+4:oops";
    assert_eq!(Ok(vec![record("./a.go", 3, 4, "oops")]), parse(input));
}

#[test]
fn missing_line_number() {
    let input = "nocolons";
    assert_eq!(Err(Error::MissingLine), parse(input));
}

#[test]
fn missing_column_number() {
    let input = "./a.go:7";
    assert_eq!(Err(Error::MissingColumn), parse(input));
}

#[test]
fn missing_message() {
    let input = "./a.go:1:2";
    assert_eq!(Err(Error::MissingMessage), parse(input));
}

#[test]
fn empty_message() {
    let input = "./a.go:1:1:";
    assert_eq!(Ok(vec![record("./a.go", 1, 1, "")]), parse(input));
}

#[test]
fn whitespace_only_message_is_empty() {
    let input = "./a.go:1:1: \t ";
    assert_eq!(Ok(vec![record("./a.go", 1, 1, "")]), parse(input));
}

#[test]
fn message_keeps_embedded_colons() {
    let input = "./a.go:1:2:a:b::c";
    assert_eq!(Ok(vec![record("./a.go", 1, 2, "a:b::c")]), parse(input));
}

#[test]
fn message_is_trimmed() {
    let input = "./a.go:1:2:   hi there\t ";
    assert_eq!(Ok(vec![record("./a.go", 1, 2, "hi there")]), parse(input));
}

#[test]
fn non_ascii_message() {
    let input = "./a.go:1:2: caf\u{e9} \u{2615} ";
    assert_eq!(
        Ok(vec![record("./a.go", 1, 2, "caf\u{e9} \u{2615}")]),
        parse(input)
    );
}

#[test]
fn empty_input_yields_no_records() {
    assert_eq!(Ok(vec![]), parse(""));
}

#[test]
fn blank_line_is_a_candidate_and_fails() {
    assert_eq!(Err(Error::MissingLine), parse("\n"));
}

#[test]
fn crlf_line_endings() {
    let input = "./a.go:1:2:m\r\n./b.go:3:4:n\r\n";
    assert_eq!(
        Ok(vec![record("./a.go", 1, 2, "m"), record("./b.go", 3, 4, "n")]),
        parse(input)
    );
}

#[test]
fn several_records_in_order() {
    let input = "./a.go:1:2:first\n#skip\n./b.go:3:4:second\n./c.go:5:6:third";
    assert_eq!(
        Ok(vec![
            record("./a.go", 1, 2, "first"),
            record("./b.go", 3, 4, "second"),
            record("./c.go", 5, 6, "third"),
        ]),
        parse(input)
    );
}

#[test]
fn first_bad_line_aborts_the_batch() {
    let input = "./a.go:1:1:ok\nbadline\n./c.go:2:2:fine";
    assert_eq!(Err(Error::MissingLine), parse(input));
}

#[test]
fn path_is_not_trimmed() {
    let input = " ./a.go:1:2:m";
    assert_eq!(Ok(vec![record(" ./a.go", 1, 2, "m")]), parse(input));
}

#[test]
fn try_from_single_line() {
    let got = ErrorLine::try_from("./a.go:1:2:m").unwrap();
    assert_eq!(record("./a.go", 1, 2, "m"), got);
}

#[test]
fn error_descriptions() {
    assert_eq!("missing line", Error::MissingLine.describe().as_str());
    assert_eq!("missing column", Error::MissingColumn.describe().as_str());
    assert_eq!("missing message", Error::MissingMessage.describe().as_str());
    assert_eq!(
        "invalid line: invalid digit found in string",
        parse("./a.go:x:1:m").unwrap_err().describe().as_str()
    );
    assert_eq!(
        "invalid column: cannot parse integer from empty string",
        parse("./a.go:1::m").unwrap_err().describe().as_str()
    );
    assert_eq!(
        "invalid line: number too large to fit in target type",
        parse("./a.go:18446744073709551616:1:m")
            .unwrap_err()
            .describe()
            .as_str()
    );
}

#[test]
fn try_from_rejects_missing_fields() {
    assert_eq!(Err(Error::MissingLine), ErrorLine::try_from(""));
    assert_eq!(Err(Error::MissingColumn), ErrorLine::try_from("a:1"));
    assert_eq!(Err(Error::MissingMessage), ErrorLine::try_from("a:1:2"));
}
