use ypbank_parser::cli::{next_pair, parse_args, strip_dashes, CliConfig, CompareConfig, ConverterConfig};
use ypbank_parser::error::CliError;

#[derive(Default)]
struct TestConfig {
    input: String,
    output: String,
}

impl CliConfig for TestConfig {
    fn set_arg(&mut self, flag: &str, value: String) -> Result<(), CliError> {
        match flag {
            "input" => self.input = value.clone(),
            "output" => self.output = value.clone(),
            _ => {
                return Err(CliError::UnknownArgument {
                    name: format!("--{}", flag),
                });
            }
        }
        Ok(())
    }

    fn validate_args(&self) -> Result<(), CliError> {
        for (flag, val) in [("--input", &self.input), ("--output", &self.output)] {
            if val.is_empty() {
                return Err(CliError::MissingArgument {
                    name: flag.to_string(),
                });
            }
        }
        Ok(())
    }
}

fn args(parts: &[&str]) -> Vec<String> {
    parts.iter().map(|s| s.to_string()).collect()
}

#[test]
fn parses_known_flags() {
    let result =
        parse_args::<TestConfig>(&args(&["prog", "--input", "a.csv", "--output", "b.csv"]));
    let config = result.unwrap();
    assert_eq!(config.input, "a.csv");
    assert_eq!(config.output, "b.csv");
}

#[test]
fn returns_error_for_unknown_argument() {
    let result = parse_args::<TestConfig>(&args(&["prog", "--input", "a.csv", "--foo", "bar"]));
    assert!(matches!(result, Err(CliError::UnknownArgument { .. })));
}

#[test]
fn returns_error_when_value_is_missing() {
    let result = parse_args::<TestConfig>(&args(&["prog", "--input"]));
    assert!(matches!(result, Err(CliError::MissingValue { .. })));
}

#[test]
fn argument_without_dashes_is_unknown() {
    let result = parse_args::<TestConfig>(&args(&["prog", "input", "a.csv"]));
    match result {
        Err(CliError::UnknownArgument { name }) => assert_eq!(name, "input"),
        _ => panic!("expected an unknown argument"),
    }
}

#[test]
fn missing_required_argument_is_reported() {
    let result = parse_args::<TestConfig>(&args(&["prog", "--input", "a.csv"]));
    match result {
        Err(CliError::MissingArgument { name }) => assert_eq!(name, "--output"),
        _ => panic!("expected a missing argument"),
    }
}

#[test]
fn converter_config_reads_its_flags() {
    let config = parse_args::<ConverterConfig>(&args(&[
        "prog",
        "--input",
        "in.bin",
        "--input-format",
        "bin",
        "--output-format",
        "csv",
    ]))
    .unwrap();
    assert_eq!(config.input, "in.bin");
    assert_eq!(config.input_format, "bin");
    assert_eq!(config.output_format, "csv");
    assert_eq!(config.output, "");
}

#[test]
fn converter_config_rejects_unknown_flag() {
    let result = parse_args::<ConverterConfig>(&args(&["prog", "--colour", "red"]));
    match result {
        Err(CliError::UnknownArgument { name }) => assert_eq!(name, "--colour"),
        _ => panic!("expected an unknown argument"),
    }
}

#[test]
fn converter_config_requires_input_format() {
    let result = parse_args::<ConverterConfig>(&args(&["prog", "--input", "x", "--output-format", "txt"]));
    match result {
        Err(CliError::MissingArgument { name }) => assert_eq!(name, "--input-format"),
        _ => panic!("expected a missing argument"),
    }
}

#[test]
fn compare_config_requires_all_four() {
    let result = parse_args::<CompareConfig>(&args(&[
        "prog", "--file1", "a", "--format1", "bin", "--file2", "b",
    ]));
    match result {
        Err(CliError::MissingArgument { name }) => assert_eq!(name, "--format2"),
        _ => panic!("expected a missing argument"),
    }
    let ok = parse_args::<CompareConfig>(&args(&[
        "prog", "--file1", "a", "--format1", "bin", "--file2", "b", "--format2", "csv",
    ]))
    .unwrap();
    assert_eq!(ok.file2, "b");
    assert_eq!(ok.format2, "csv");
}

#[test]
fn pairs_are_split_into_flag_and_value() {
    let a = args(&["prog", "--input", "x.csv", "--output"]);
    let (flag, value) = next_pair(&a, 1).unwrap();
    assert_eq!(flag, "input");
    assert_eq!(value, "x.csv");
    assert!(matches!(next_pair(&a, 3), Err(CliError::MissingValue { .. })));
    assert!(matches!(next_pair(&a, 2), Err(CliError::UnknownArgument { .. })));
    assert_eq!(strip_dashes("--a-b"), Some("a-b".to_string()));
    assert_eq!(strip_dashes("-a"), None);
}
