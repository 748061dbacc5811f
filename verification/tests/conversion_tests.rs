use procon::args::TargetFormat;
use procon::command::Command;
use procon::json_file_reader::JsonFileReader;
use procon::node::NodeType;
use procon::nodes_writer::to_json;
use procon::nodes_writer::to_properties;
use procon::nodes_writer::to_toml;
use procon::nodes_writer::to_yaml;
use procon::parse_input;
use procon::property_file_reader::Delimiter;
use procon::property_file_reader::PropertyFileReader;
use procon::render_output;
use procon::try_all_readers;

#[test]
fn properties_to_json_end_to_end() {
    let nodes = PropertyFileReader::parse(
        "reader.datasource.jdbc-url=localhost\n",
        &Delimiter::Equals,
    )
    .unwrap();
    let json = to_json(&nodes);
    assert_eq!(
        "{\n \"reader\": {\n  \"datasource\": {\n   \"jdbc-url\": \"localhost\"\n  }\n }\n}",
        json
    );
}

#[test]
fn properties_to_yaml_end_to_end() {
    let nodes = PropertyFileReader::parse(
        "reader.datasource.jdbc-url=localhost\n",
        &Delimiter::Equals,
    )
    .unwrap();
    let yaml = to_yaml(&nodes).unwrap();
    assert_eq!("---\nreader:\n  datasource:\n    jdbc-url: localhost", yaml);
}

#[test]
fn json_to_properties_end_to_end() {
    let nodes = JsonFileReader::parse("{\"readers\":[\"value-1\",\"value-1\"]}").unwrap();
    let props = to_properties(&nodes);
    assert_eq!("readers=value-1,value-1\n", props);
}

#[test]
fn properties_to_toml_end_to_end() {
    let nodes = PropertyFileReader::parse(
        "reader.datasource.jdbc-url=localhost\n",
        &Delimiter::Equals,
    )
    .unwrap();
    // Each root is serialized on its own, so the root's name itself does
    // not appear; its children form the top-level tables.
    let toml_text = to_toml(&nodes).unwrap();
    assert_eq!("[datasource]\njdbc-url = \"localhost\"\n", toml_text);
}

#[test]
fn duplicate_key_last_wins_end_to_end() {
    let nodes = PropertyFileReader::parse(
        "duplicateKey=first\nduplicateKey=second\n",
        &Delimiter::Equals,
    )
    .unwrap();
    let props = to_properties(&nodes);
    assert_eq!("duplicateKey=second\n", props);
}

#[test]
fn properties_round_trip_reparses_to_same_forest() {
    let input = "b.y=2\nb.x=1\na.c=true\na.b=hello\n";
    let mut nodes = PropertyFileReader::parse(input, &Delimiter::Equals).unwrap();
    nodes.sort();
    let written = to_properties(&nodes);
    assert_eq!("a.b=hello\na.c=true\nb.x=1\nb.y=2\n", written);

    let reparsed = PropertyFileReader::parse(&written, &Delimiter::Equals).unwrap();
    assert_eq!(written, to_properties(&reparsed));
}

#[test]
fn sort_twice_equals_sort_once() {
    let input = "b.y=2\nb.x=1\na.c=3\na.b=4\nc=5\n";
    let mut once = PropertyFileReader::parse(input, &Delimiter::Equals).unwrap();
    once.sort();
    let mut twice = PropertyFileReader::parse(input, &Delimiter::Equals).unwrap();
    twice.sort();
    twice.sort();
    assert_eq!(to_properties(&once), to_properties(&twice));
}

#[test]
fn merge_disjoint_keys_in_either_order() {
    let mut first = PropertyFileReader::parse("a.b=1\na.c=2\n", &Delimiter::Equals).unwrap();
    let mut second = PropertyFileReader::parse("a.c=2\na.b=1\n", &Delimiter::Equals).unwrap();
    first.sort();
    second.sort();
    let text = to_properties(&first);
    assert_eq!("a.b=1\na.c=2\n", text);
    assert_eq!(text, to_properties(&second));
}

#[test]
fn type_inference_examples() {
    assert_eq!(NodeType::BOOLEAN(true), NodeType::parse("true"));
    assert_eq!(NodeType::NUMERIC(String::from("20")), NodeType::parse("20"));
    assert_eq!(NodeType::NUMERIC(String::from("20.4")), NodeType::parse("20.4"));
    assert_eq!(
        NodeType::ARRAY(vec![String::from("a"), String::from("b")]),
        NodeType::parse("a,b,")
    );
    assert_eq!(NodeType::STRING(String::new()), NodeType::parse(""));
}

#[test]
fn comma_only_value_renders_empty() {
    let parsed = NodeType::parse(",");
    match &parsed {
        NodeType::ARRAY(items) => assert_eq!(0, items.len()),
        _ => panic!("Wrong type"),
    }
    assert_eq!("", parsed.to_string());
}

#[test]
fn try_all_readers_picks_json_first() {
    let nodes = try_all_readers("{\"a\": 1}", &Delimiter::Equals).unwrap();
    let a = nodes.get(0).unwrap();
    assert_eq!("a", a.name);
    assert_eq!("1", a.value.to_string());
}

#[test]
fn try_all_readers_falls_back_to_yaml() {
    let nodes = try_all_readers("a: down the hill", &Delimiter::Equals).unwrap();
    let a = nodes.get(0).unwrap();
    assert_eq!("a", a.name);
    assert_eq!("down the hill", a.value.to_string());
}

#[test]
fn try_all_readers_falls_back_to_properties() {
    // Neither a JSON document nor well-formed YAML, so the properties
    // tokenizer takes it line by line.
    let nodes = try_all_readers("k1=v1\nk2: [\n", &Delimiter::Equals).unwrap();
    let a = nodes.get(0).unwrap();
    assert_eq!("k1", a.name);
    assert_eq!("v1", a.value.to_string());
}

#[test]
fn parse_input_and_render_output_round() {
    let nodes = parse_input("x.y=7\n", &Command::Properties, &Delimiter::Equals).unwrap();
    let target = TargetFormat::Properties {
        property_delimiter: Delimiter::Equals,
        file: "input.properties".to_string(),
    };
    let out = render_output(&nodes, &target).unwrap();
    assert_eq!("x.y=7\n", out);
}

#[test]
fn render_output_json_variant() {
    let nodes = parse_input("{\"k\":\"v\"}", &Command::Json, &Delimiter::Equals).unwrap();
    let target = TargetFormat::Json {
        property_delimiter: Delimiter::Equals,
        file: "input.json".to_string(),
    };
    let out = render_output(&nodes, &target).unwrap();
    assert_eq!("{\n \"k\": \"v\"\n}", out);
}

#[test]
fn toml_refuses_bare_scalar_root() {
    let nodes = PropertyFileReader::parse("only=1\n", &Delimiter::Equals).unwrap();
    // A single scalar root has no TOML document form.
    let err = to_toml(&nodes).unwrap_err();
    assert_eq!("Could not convert to toml format", err.to_string());
}

#[test]
fn try_all_readers_scalar_json_falls_to_yaml() {
    // The JSON reader refuses a scalar top level, so the same text reaches
    // the YAML reader, which reads it as a scalar document with no roots.
    let nodes = try_all_readers("3", &Delimiter::Equals).unwrap();
    assert!(nodes.is_empty());
}

#[test]
fn forest_basic_operations() {
    let mut nodes = procon::nodes::Nodes::new();
    assert!(nodes.is_empty());
    assert!(nodes.get(0).is_none());
    nodes.push(procon::node::Node::new_from_name("solo"));
    assert!(!nodes.is_empty());
    assert_eq!("solo", nodes.get(0).unwrap().name);
    assert_eq!(1, nodes.iter().len());

    let mut extra = procon::node::Node::new_from_name("solo");
    extra.value = NodeType::parse("7");
    nodes.merge(&mut extra);
    // Same name and level: the forest still holds one root, now valued.
    assert_eq!(1, nodes.iter().len());
    assert_eq!("7", nodes.get(0).unwrap().value.to_string());
}

#[test]
fn whitespace_delimiter_end_to_end() {
    let nodes = PropertyFileReader::parse("server.port 8080\n", &Delimiter::Whitespace).unwrap();
    assert_eq!("server.port=8080\n", to_properties(&nodes));
}

#[test]
fn yaml_writer_two_named_roots() {
    let nodes = PropertyFileReader::parse("b.x=1\na.y=2\n", &Delimiter::Equals).unwrap();
    let yaml = to_yaml(&nodes).unwrap();
    // Roots keep their first-seen order; sorting was not requested.
    assert_eq!("---\nb:\n  x: 1\na:\n  y: 2", yaml);
}

#[test]
fn yaml_writer_root_list() {
    let nodes = JsonFileReader::parse("[\"A\",\"B\"]").unwrap();
    let yaml = to_yaml(&nodes).unwrap();
    assert_eq!("---\n- A\n- B", yaml);
}
