use procon::json_file_reader::JsonFileReader;
use procon::node::Node;
use procon::nodes::Nodes;

fn assert_node(node: &Node, name: String, value: String) {
    assert_eq!(name, node.name);
    assert_eq!(value, node.value.to_string());
}

fn parse_sorted(content: &str) -> Nodes {
    let mut nodes = JsonFileReader::parse(content).unwrap();
    nodes.sort();
    nodes
}

#[test]
fn convert_json_values_to_nodes_multiple_nodes() {
    let content = String::from("{\"reader\":{\"datasource\":{\"jdbc-url\":\"localhost\"}},\"writer\":{\"datasource\":{\"jdbc-url\":\"localhost\"}} }");
    let nodes = JsonFileReader::parse(&content).expect("Unable to parse");

    let reader_node = nodes.get(0).unwrap();
    assert_eq!("reader", reader_node.name);
    let datasource_node = reader_node.children.get(0).unwrap();
    assert_eq!("datasource", datasource_node.name);
    let jdbc_url_node = datasource_node.children.get(0).unwrap();
    assert_eq!("jdbc-url", jdbc_url_node.name);
    assert_eq!("localhost", jdbc_url_node.value.to_string());

    let writer_node = nodes.get(1).unwrap();
    assert_eq!("writer", writer_node.name);
    let datasource_node = writer_node.children.get(0).unwrap();
    assert_eq!("datasource", datasource_node.name);
    let jdbc_url_node = datasource_node.children.get(0).unwrap();
    assert_eq!("jdbc-url", jdbc_url_node.name);
    assert_eq!("localhost", jdbc_url_node.value.to_string());
}

#[test]
fn convert_json_values_to_nodes_single_node() {
    let content = String::from("{\"reader\": \"reader-value\"}");
    let nodes = JsonFileReader::parse(&content).expect("Unable to parse");

    let reader_node = nodes.get(0).unwrap();
    assert_eq!("reader", reader_node.name);
    assert_eq!("reader-value", reader_node.value.to_string());
}

#[test]
fn convert_json_values_to_nodes_array() {
    let content = String::from("{\"readers\": [\"value-1\",\"value-1\"]}");
    let nodes = JsonFileReader::parse(&content).expect("Unable to parse");

    let reader_node = nodes.get(0).unwrap();
    assert_eq!("readers", reader_node.name);
    assert_eq!("value-1,value-1", reader_node.value.to_string());
}

#[test]
fn convert_json_values_to_nodes_empty_array() {
    let content = String::from("{\"readers\": []}");
    let nodes = JsonFileReader::parse(&content).expect("Unable to parse");

    let reader_node = nodes.get(0).unwrap();
    assert_eq!("readers", reader_node.name);
    assert_eq!("", reader_node.value.to_string());
}

#[test]
fn json_file_reader_test_convert_json_values_to_nodes_bool() {
    let content = String::from("{\"isReader\": true}");
    let nodes = JsonFileReader::parse(&content).expect("Unable to parse");

    let reader_node = nodes.get(0).unwrap();
    assert_eq!("isReader", reader_node.name);
    assert_eq!("true", reader_node.value.to_string());
}

#[test]
fn json_file_reader_test_convert_json_values_to_nodes_number() {
    let content = String::from("{\"isReader\": 1}");
    let nodes = JsonFileReader::parse(&content).expect("Unable to parse");

    let reader_node = nodes.get(0).unwrap();
    assert_eq!("isReader", reader_node.name);
    assert_eq!("1", reader_node.value.to_string());
}

#[test]
fn json_file_reader_test_convert_json_values_to_nodes_float_number() {
    let content = String::from("{\"isReader\": 1.78}");
    let nodes = JsonFileReader::parse(&content).expect("Unable to parse");

    let reader_node = nodes.get(0).unwrap();
    assert_eq!("isReader", reader_node.name);
    assert_eq!("1.78", reader_node.value.to_string());
}

#[test]
fn json_file_reader_test_convert_json_values_to_nodes_empty_json() {
    let content = String::from("{}");
    let nodes = JsonFileReader::parse(&content).expect("Unable to parse");

    assert!(nodes.get(0).is_none());
}

#[test]
fn json_reader_rejects_bad_text() {
    let err = JsonFileReader::parse("not json at all {{{").unwrap_err();
    assert_eq!("Unable to parse", err.to_string());
}

#[test]
fn json_reader_rejects_scalar_top_level() {
    // Valid JSON whose top level is neither an object nor an array.
    let err = JsonFileReader::parse("3").unwrap_err();
    assert_eq!("Unable to parse", err.to_string());
    let err = JsonFileReader::parse("\"text\"").unwrap_err();
    assert_eq!("Unable to parse", err.to_string());
    let err = JsonFileReader::parse("null").unwrap_err();
    assert_eq!("Unable to parse", err.to_string());
    let err = JsonFileReader::parse("true").unwrap_err();
    assert_eq!("Unable to parse", err.to_string());
}

#[test]
fn json_file_values_list() {
    let nodes = parse_sorted("{\"list\":{\"all-types\":[\"value1\",2,20.4]}}");

    let list_node = nodes.get(0).unwrap();
    assert_node(&list_node, "list".to_string(), "".to_string());

    let values = list_node.children.get(0).unwrap();
    assert_node(
        &values,
        "all-types".to_string(),
        "value1,2,20.4".to_string(),
    );
}

#[test]
fn json_file_values_string() {
    let nodes = parse_sorted("{\"string\":\"This is a string\"}");

    let string_node = nodes.get(0).unwrap();
    assert_node(
        &string_node,
        "string".to_string(),
        "This is a string".to_string(),
    );
}

#[test]
fn json_file_values_usize() {
    let nodes = parse_sorted("{\"usize\":20}");

    let string_node = nodes.get(0).unwrap();
    assert_node(&string_node, "usize".to_string(), "20".to_string());
}

#[test]
fn json_file_values_float() {
    let nodes = parse_sorted("{\"float\":20.4}");

    let string_node = nodes.get(0).unwrap();
    assert_node(&string_node, "float".to_string(), "20.4".to_string());
}

#[test]
fn json_file_nodes_nested() {
    let nodes = parse_sorted(
        "{\"management\":{\"metrics\":{\"enable\":{\"all\":false,\"http\":true}},\"port\":8080}}",
    );

    let management_node = nodes.get(0).unwrap();
    assert_node(&management_node, "management".to_string(), "".to_string());

    let metrics_node = management_node.children.get(0).unwrap();
    assert_node(&metrics_node, "metrics".to_string(), "".to_string());
    let port_node = management_node.children.get(1).unwrap();
    assert_node(&port_node, "port".to_string(), "8080".to_string());

    let enable_node = metrics_node.children.get(0).unwrap();
    assert_node(&enable_node, "enable".to_string(), "".to_string());

    let all = enable_node.children.get(0).unwrap();
    assert_node(&all, "all".to_string(), "false".to_string());
    let http_node = enable_node.children.get(1).unwrap();
    assert_node(&http_node, "http".to_string(), "true".to_string());
}

#[test]
fn json_file_value_root_list() {
    let nodes = parse_sorted("[\"test\",20,20.4,true]");

    let list_node = nodes.get(0).unwrap();
    assert_node(&list_node, "".to_string(), "test,20,20.4,true".to_string());
}
