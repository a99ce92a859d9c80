use error_line::parse;
use format_serde_error::{ErrorTypes, SerdeError};

#[test]
fn error_line_example() {
    let input = "./main.go:3:1:syntax error: non-declaration statement outside function body\n";
    let input_main = "package main\n\nx := 3\n".to_string();

    let got = parse(input).unwrap();

    for err in got {
        let error: Box<dyn std::error::Error> = anyhow::Error::msg(err.message).into();
        let types = ErrorTypes::Custom {
            error,
            line: Some(err.line),
            column: Some(err.column),
        };
        println!("{}", SerdeError::new(input_main.clone(), types));
    }
}
