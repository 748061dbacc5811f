use procon::args::TargetFormat;
use procon::command::Command;
use procon::nodes_writer::default_filename;
use procon::output_filename;
use procon::property_file_reader::Delimiter;

#[test]
fn output_filename_multiple_extensions() {
    let command = Command::Yaml;
    let filename = "test.properties.properties";
    assert_eq!("test.properties.yaml", output_filename(&command, filename));
}

#[test]
fn output_filename_multiple_dots_input_name() {
    let command = Command::Yaml;
    let filename = "test.test2.test3.properties";
    assert_eq!("test.test2.test3.yaml", output_filename(&command, filename));
}

#[test]
fn output_filename_yaml() {
    let command = Command::Yaml;
    let filename = "test.properties";
    assert_eq!("test.yaml", output_filename(&command, filename));
}

#[test]
fn output_filename_json() {
    let command = Command::Json;
    let filename = "test.properties";
    assert_eq!("test.json", output_filename(&command, filename));
}

#[test]
fn output_filename_properties() {
    let command = Command::Properties;
    let filename = "test.yaml";
    assert_eq!("test.properties", output_filename(&command, filename));
}

#[test]
fn nodes_converter_test_default_filename_multiple_extensions() {
    let command = TargetFormat::Yaml {
        property_delimiter: Delimiter::Equals,
        file: "test.properties.properties".to_string(),
    };
    assert_eq!("test.properties.yaml", default_filename(&command));
}

#[test]
fn nodes_converter_test_default_filename_multiple_dots_input_name() {
    let command = TargetFormat::Yaml {
        property_delimiter: Delimiter::Equals,
        file: "test.test2.test3.properties".to_string(),
    };
    assert_eq!("test.test2.test3.yaml", default_filename(&command));
}

#[test]
fn nodes_converter_test_default_filename_yaml() {
    let command = TargetFormat::Yaml {
        property_delimiter: Delimiter::Equals,
        file: "test.properties".to_string(),
    };
    assert_eq!("test.yaml", default_filename(&command));
}

#[test]
fn nodes_converter_test_default_filename_json() {
    let command = TargetFormat::Json {
        property_delimiter: Delimiter::Equals,
        file: "test.properties".to_string(),
    };
    assert_eq!("test.json", default_filename(&command));
}

#[test]
fn nodes_converter_test_default_filename_properties() {
    let command = TargetFormat::Properties {
        property_delimiter: Delimiter::Equals,
        file: "test.yaml".to_string(),
    };
    assert_eq!("test.properties", default_filename(&command));
}

#[test]
fn nodes_writer_test_default_filename_multiple_extensions() {
    let command = TargetFormat::Yaml {
        property_delimiter: Delimiter::Equals,
        file: "test.properties.properties".to_string(),
    };
    assert_eq!("test.properties.yaml", default_filename(&command));
}

#[test]
fn nodes_writer_test_default_filename_multiple_dots_input_name() {
    let command = TargetFormat::Yaml {
        property_delimiter: Delimiter::Equals,
        file: "test.test2.test3.properties".to_string(),
    };
    assert_eq!("test.test2.test3.yaml", default_filename(&command));
}

#[test]
fn nodes_writer_test_default_filename_yaml() {
    let command = TargetFormat::Yaml {
        property_delimiter: Delimiter::Equals,
        file: "test.properties".to_string(),
    };
    assert_eq!("test.yaml", default_filename(&command));
}

#[test]
fn nodes_writer_test_default_filename_json() {
    let command = TargetFormat::Json {
        property_delimiter: Delimiter::Equals,
        file: "test.properties".to_string(),
    };
    assert_eq!("test.json", default_filename(&command));
}

#[test]
fn nodes_writer_test_default_filename_properties() {
    let command = TargetFormat::Properties {
        property_delimiter: Delimiter::Equals,
        file: "test.yaml".to_string(),
    };
    assert_eq!("test.properties", default_filename(&command));
}

#[test]
fn default_filename_stdin() {
    let command = TargetFormat::Toml {
        property_delimiter: Delimiter::Equals,
        file: "-".to_string(),
    };
    assert_eq!("stdin.toml", default_filename(&command));
}

#[test]
fn default_filename_with_directory() {
    let command = TargetFormat::Json {
        property_delimiter: Delimiter::Equals,
        file: "some/dir/test.properties".to_string(),
    };
    assert_eq!("test.json", default_filename(&command));
}

#[test]
fn command_from_str_words() {
    assert_eq!(Ok(Command::Properties), Command::from_str("properties"));
    assert_eq!(Ok(Command::Yaml), Command::from_str("YAML"));
    assert_eq!(Ok(Command::Yaml), Command::from_str("yml"));
    assert_eq!(Ok(Command::Json), Command::from_str("Json"));
    assert_eq!(
        Err(String::from("tomlNot a valid command")),
        Command::from_str("toml")
    );
}
