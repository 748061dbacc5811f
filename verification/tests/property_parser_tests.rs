use procon::node::Node;
use procon::nodes::Nodes;
use procon::property_file_reader::Delimiter;
use procon::property_file_reader::PropertyFileReader;

fn assert_node(node: &Node, name: String, value: String) {
    assert_eq!(name, node.name);
    assert_eq!(value, node.value.to_string());
}

fn parse_sorted(delimiter: Delimiter, content: &str) -> Nodes {
    let mut nodes = PropertyFileReader::parse(content, &delimiter).unwrap();
    nodes.sort();
    nodes
}

#[test]
fn property_file_values_list() {
    let nodes = parse_sorted(Delimiter::Equals, "list.all-types=value1,2,20.4\n");

    let list_node = nodes.get(0).unwrap();
    assert_node(&list_node, "list".to_string(), "".to_string());

    let values = list_node.children.get(0).unwrap();
    assert_node(
        &values,
        "all-types".to_string(),
        "value1,2,20.4".to_string(),
    );
}

#[test]
fn property_file_values_string() {
    let nodes = parse_sorted(Delimiter::Equals, "string=This is a string\n");

    let string_node = nodes.get(0).unwrap();
    assert_node(
        &string_node,
        "string".to_string(),
        "This is a string".to_string(),
    );
}

#[test]
fn property_file_values_usize() {
    let nodes = parse_sorted(Delimiter::Equals, "usize=20\n");

    let string_node = nodes.get(0).unwrap();
    assert_node(&string_node, "usize".to_string(), "20".to_string());
}

#[test]
fn property_file_values_float() {
    let nodes = parse_sorted(Delimiter::Equals, "float=20.4\n");

    let string_node = nodes.get(0).unwrap();
    assert_node(&string_node, "float".to_string(), "20.4".to_string());
}

#[test]
fn property_file_nodes_nested() {
    let nodes = parse_sorted(
        Delimiter::Equals,
        "reader.datasource.host=localhost\nreader.datasource.username=user\n",
    );

    // reader node
    let reader_node = nodes.get(0).unwrap();
    assert_node(&reader_node, "reader".to_string(), "".to_string());

    let datasource_node = reader_node.children.get(0).unwrap();
    assert_node(&datasource_node, "datasource".to_string(), "".to_string());

    let host_node = datasource_node.children.get(0).unwrap();
    assert_node(&host_node, "host".to_string(), "localhost".to_string());
    let username_node = datasource_node.children.get(1).unwrap();
    assert_node(&username_node, "username".to_string(), "user".to_string());
}

#[test]
fn property_file_nodes_multiple() {
    let nodes = parse_sorted(
        Delimiter::Equals,
        "reader.host=localhost2\nreader.username=user\nwriter.host=localhost\n",
    );

    // reader node
    let reader_node = nodes.get(0).unwrap();
    assert_node(&reader_node, "reader".to_string(), "".to_string());
    let host_node = reader_node.children.get(0).unwrap();
    assert_node(&host_node, "host".to_string(), "localhost2".to_string());
    let username_node = reader_node.children.get(1).unwrap();
    assert_node(&username_node, "username".to_string(), "user".to_string());

    // writer node
    let writer_node = nodes.get(1).unwrap();
    assert_node(&writer_node, "writer".to_string(), "".to_string());
    let host_node = writer_node.children.get(0).unwrap();
    assert_node(&host_node, "host".to_string(), "localhost".to_string());
}

#[test]
fn property_file_delimiter_colon() {
    let nodes = parse_sorted(
        Delimiter::Colon,
        "datasource.jdbc-url:jdbc:postgresql://localhost:5432/user\ndatasource.username:user\n",
    );

    let datasource_node = nodes.get(0).unwrap();
    assert_node(&datasource_node, "datasource".to_string(), "".to_string());
    let jdbc_url_node = datasource_node.children.get(0).unwrap();
    assert_node(
        &jdbc_url_node,
        "jdbc-url".to_string(),
        "jdbc:postgresql://localhost:5432/user".to_string(),
    );
    let username_node = datasource_node.children.get(1).unwrap();
    assert_node(&username_node, "username".to_string(), "user".to_string());
}

#[test]
fn property_file_edge_case_empty_value() {
    let nodes = parse_sorted(Delimiter::Equals, "empty=\n");

    let empty_node = nodes.get(0).unwrap();
    assert_node(&empty_node, "empty".to_string(), "".to_string());
}

#[test]
fn property_file_edge_case_whitespace_ignored() {
    let nodes = parse_sorted(Delimiter::Equals, "hello    =    hello\n");

    let level1_node = nodes.get(0).unwrap();
    assert_node(&level1_node, "hello".to_string(), "hello".to_string());
}

#[test]
fn property_file_edge_case_duplicated_keys() {
    let nodes = parse_sorted(
        Delimiter::Equals,
        "duplicateKey = first\nduplicateKey = second\n",
    );

    let level1_node = nodes.get(0).unwrap();
    assert_node(
        &level1_node,
        "duplicateKey".to_string(),
        "second".to_string(),
    );
}

#[test]
fn property_file_edge_case_escape_even() {
    let nodes = parse_sorted(
        Delimiter::Equals,
        "evenKey = This is on one line\\\\\n# a comment line\n",
    );

    let even_key = nodes.get(0).unwrap();
    assert_node(
        &even_key,
        "evenKey".to_string(),
        "This is on one line\\\\".to_string(),
    );
}

#[test]
fn property_file_edge_case_multiline() {
    let nodes = parse_sorted(Delimiter::Equals, "multiline=This line \\\ncontinues\n");

    let multiline = nodes.get(0).unwrap();
    assert_node(
        &multiline,
        "multiline".to_string(),
        "This line continues".to_string(),
    );
}

#[test]
fn property_file_edge_case_escape_odd() {
    let nodes = parse_sorted(
        Delimiter::Equals,
        "oddKey = This is line one and\\\\\\\n# This is line two\n",
    );

    let odd_key = nodes.get(0).unwrap();
    assert_node(
        &odd_key,
        "oddKey".to_string(),
        "This is line one and\\\\# This is line two".to_string(),
    );
}

#[test]
fn property_file_edge_case_escape_path() {
    let nodes = parse_sorted(Delimiter::Equals, "path = c:\\\\wiki\\\\templates\n");

    let path = nodes.get(0).unwrap();
    assert_node(
        &path,
        "path".to_string(),
        "c:\\\\wiki\\\\templates".to_string(),
    );
}

#[test]
fn property_file_edge_case_escape_values() {
    let nodes = parse_sorted(
        Delimiter::Equals,
        "valueWithEscapes = This is a newline\\n and a carriage return\\r and a tab\\t.\n",
    );

    let value_with_escapes = nodes.get(0).unwrap();
    assert_node(
        &value_with_escapes,
        "valueWithEscapes".to_string(),
        "This is a newline\\n and a carriage return\\r and a tab\\t.".to_string(),
    );
}

#[test]
fn property_file_edge_case_escape() {
    let nodes = parse_sorted(
        Delimiter::Equals,
        "welcome = Welcome to \\\n          Wikipedia!\n",
    );

    let welcome = nodes.get(0).unwrap();
    assert_node(
        &welcome,
        "welcome".to_string(),
        "Welcome to Wikipedia!".to_string(),
    );
}
