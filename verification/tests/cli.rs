use yaebook::cli::{
    choose_token, output_directory_text, parse_args, Argument, CliError, Command, Options, OutputDirectory,
};

fn arguments(values: &[&str]) -> Vec<Argument> {
    values.iter().map(|value| Argument { text: value.to_string(), unicode: true }).collect()
}

fn error(message: &str) -> CliError {
    CliError { message: message.into() }
}

#[test]
fn parses_token_book_and_output_directory() {
    let args = arguments(&[
        "--token",
        "secret",
        "--output-dir",
        "/tmp/books",
        "https://books.yandex.ru/books/HLwwn7ea",
    ]);
    let command = parse_args(&args).unwrap();
    assert_eq!(
        command,
        Command::Run(Options {
            token: Some("secret".into()),
            book: "https://books.yandex.ru/books/HLwwn7ea".into(),
            output_directory: OutputDirectory::Argument(3),
        })
    );
    let Command::Run(options) = command else {
        panic!("expected run command");
    };
    assert_eq!(output_directory_text(&options.output_directory, &args), "/tmp/books");
}

#[test]
fn accepts_short_output_directory_option() {
    let args = arguments(&["HLwwn7ea", "-o", "/tmp/books"]);
    let command = parse_args(&args).unwrap();
    let Command::Run(options) = command else {
        panic!("expected run command");
    };
    assert_eq!(output_directory_text(&options.output_directory, &args), "/tmp/books");
}

#[test]
fn defaults_to_current_directory_and_rejects_invalid_arguments() {
    let args = arguments(&["HLwwn7ea"]);
    let command = parse_args(&args).unwrap();
    let Command::Run(options) = command else {
        panic!("expected run command");
    };
    assert_eq!(output_directory_text(&options.output_directory, &args), ".");
    assert!(parse_args(&arguments(&["--interactive", "HLwwn7ea"])).is_err());
    assert!(parse_args(&arguments(&["HLwwn7ea", "/tmp/books"])).is_err());
}

#[test]
fn reports_what_is_wrong_with_the_arguments() {
    assert_eq!(parse_args(&arguments(&[])), Err(error("book URL is missing")));
    assert_eq!(parse_args(&arguments(&["a", "b"])), Err(error("expected only a book URL")));
    assert_eq!(parse_args(&arguments(&["--token"])), Err(error("expected a value after --token")));
    assert_eq!(parse_args(&arguments(&["-o"])), Err(error("expected a value after -o")));
    assert_eq!(parse_args(&arguments(&["-x"])), Err(error("unknown option: -x")));
    let invalid = vec![Argument { text: "\u{fffd}".into(), unicode: false }];
    assert_eq!(parse_args(&invalid), Err(error("book URL is not valid UTF-8")));
    let mut token = arguments(&["--token"]);
    token.push(Argument { text: "\u{fffd}".into(), unicode: false });
    assert_eq!(parse_args(&token), Err(error("token is not valid UTF-8")));
}

#[test]
fn reads_inline_values_help_and_version() {
    let args = arguments(&["--token=t0", "--output-dir=out", "book"]);
    assert_eq!(
        parse_args(&args),
        Ok(Command::Run(Options {
            token: Some("t0".into()),
            book: "book".into(),
            output_directory: OutputDirectory::Inline("out".into()),
        }))
    );
    assert_eq!(parse_args(&arguments(&["book", "-h"])), Ok(Command::Help));
    assert_eq!(parse_args(&arguments(&["--version", "-x"])), Ok(Command::Version));
    assert_eq!(
        parse_args(&arguments(&["--", "-h"])),
        Ok(Command::Run(Options {
            token: None,
            book: "-h".into(),
            output_directory: OutputDirectory::Current,
        }))
    );
}

#[test]
fn chooses_the_token_from_the_option_then_the_environment() {
    assert_eq!(choose_token(Some("  y0_abc \n".into()), Some("env".into())), Ok("y0_abc".into()));
    assert_eq!(choose_token(None, Some(" env ".into())), Ok("env".into()));
    assert_eq!(
        choose_token(None, None),
        Err(error("provide --token or set the YA_BOOKS_TOKEN environment variable"))
    );
    assert_eq!(choose_token(Some("   ".into()), Some("env".into())), Err(error("the token must not be empty")));
}
