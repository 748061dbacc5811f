use procon::node::Node;
use procon::nodes::Nodes;
use procon::yaml_file_reader::YamlFileReader;

fn assert_node(node: &Node, name: String, value: String) {
    assert_eq!(name, node.name);
    assert_eq!(value, node.value.to_string());
}

fn parse_sorted(content: &str) -> Nodes {
    let mut nodes = YamlFileReader::parse(content).unwrap();
    nodes.sort();
    nodes
}

#[test]
fn convert_yaml_values_to_nodes_multiple_nodes() {
    let content = String::from(
        "writer:
        datasource:
            jdbc-url: localhost
reader:
        datasource:
            jdbc-url: localhost",
    );
    let nodes = YamlFileReader::parse(&content).expect("Unable to parse");

    let writer_node = nodes.get(0).unwrap();
    assert_eq!("writer", writer_node.name);
    let datasource_node = writer_node.children.get(0).unwrap();
    assert_eq!("datasource", datasource_node.name);
    let jdbc_url_node = datasource_node.children.get(0).unwrap();
    assert_eq!("jdbc-url", jdbc_url_node.name);
    assert_eq!("localhost", jdbc_url_node.value.to_string());

    let reader_node = nodes.get(1).unwrap();
    assert_eq!("reader", reader_node.name);
    let datasource_node = reader_node.children.get(0).unwrap();
    assert_eq!("datasource", datasource_node.name);
    let jdbc_url_node = datasource_node.children.get(0).unwrap();
    assert_eq!("jdbc-url", jdbc_url_node.name);
    assert_eq!("localhost", jdbc_url_node.value.to_string());
}

#[test]
fn convert_yaml_values_to_nodes_single_nodes() {
    let content = String::from(
        "writer:
        datasource:
            jdbc-url: localhost",
    );
    let nodes = YamlFileReader::parse(&content).expect("Unable to parse");

    let writer_node = nodes.get(0).unwrap();
    assert_eq!("writer", writer_node.name);
    let datasource_node = writer_node.children.get(0).unwrap();
    assert_eq!("datasource", datasource_node.name);
    let jdbc_url_node = datasource_node.children.get(0).unwrap();
    assert_eq!("jdbc-url", jdbc_url_node.name);
    assert_eq!("localhost", jdbc_url_node.value.to_string());
}

#[test]
fn convert_yaml_values_to_nodes_array() {
    let content = String::from(
        "readers:
        - value-1
        - value-2",
    );
    let nodes = YamlFileReader::parse(&content).expect("Unable to parse");

    let reader_node = nodes.get(0).unwrap();
    assert_eq!("readers", reader_node.name);
    assert_eq!("value-1,value-2", reader_node.value.to_string());
}

#[test]
fn yaml_file_reader_test_convert_json_values_to_nodes_bool() {
    let content = String::from("isReader: true");
    let nodes = YamlFileReader::parse(&content).expect("Unable to parse");

    let reader_node = nodes.get(0).unwrap();
    assert_eq!("isReader", reader_node.name);
    assert_eq!("true", reader_node.value.to_string());
}

#[test]
fn yaml_file_reader_test_convert_json_values_to_nodes_number() {
    let content = String::from("isReader: 1");
    let nodes = YamlFileReader::parse(&content).expect("Unable to parse");

    let reader_node = nodes.get(0).unwrap();
    assert_eq!("isReader", reader_node.name);
    assert_eq!("1", reader_node.value.to_string());
}

#[test]
fn yaml_file_reader_test_convert_json_values_to_nodes_float_number() {
    let content = String::from("isReader: 1.78");
    let nodes = YamlFileReader::parse(&content).expect("Unable to parse");

    let reader_node = nodes.get(0).unwrap();
    assert_eq!("isReader", reader_node.name);
    assert_eq!("1.78", reader_node.value.to_string());
}

#[test]
fn yaml_reader_rejects_bad_text() {
    let err = YamlFileReader::parse("a: [unclosed").unwrap_err();
    assert_eq!("Wrong yaml format", err.to_string());
}

#[test]
fn yaml_file_string() {
    let nodes = parse_sorted(
        "string1: Sample String 1
string2: Sample String 2
string3: Sample String 3
",
    );
    println!("{:?}", nodes);

    let string_node = nodes.get(0).unwrap();
    assert_node(
        &string_node,
        "string1".to_string(),
        "Sample String 1".to_string(),
    );

    let string_node = nodes.get(1).unwrap();
    assert_node(
        &string_node,
        "string2".to_string(),
        "Sample String 2".to_string(),
    );

    let string_node = nodes.get(2).unwrap();
    assert_node(
        &string_node,
        "string3".to_string(),
        "Sample String 3".to_string(),
    );
}

#[test]
fn yaml_file_list() {
    let nodes = parse_sorted(
        "list:
  - A
  - B
  - C
",
    );
    println!("{:?}", nodes);

    let list_node = nodes.get(0).unwrap();
    assert_node(&list_node, "list".to_string(), "A,B,C".to_string());
}

#[test]
fn yaml_file_root_list() {
    let nodes = parse_sorted(
        "- A
- B
- C
",
    );
    println!("{:?}", nodes);

    let list_node = nodes.get(0).unwrap();
    assert_node(&list_node, "".to_string(), "A,B,C".to_string());
}

#[test]
fn yaml_file_types() {
    let nodes = parse_sorted(
        "a: 123.0
b: 123
",
    );
    println!("{:?}", nodes);

    let float_node = nodes.get(0).unwrap();
    assert_node(&float_node, "a".to_string(), "123.0".to_string());
    let string_node = nodes.get(1).unwrap();
    assert_node(&string_node, "b".to_string(), "123".to_string());
}

#[test]
fn yaml_file_comment() {
    let nodes = parse_sorted(
        "# a comment line
key: value
",
    );

    let float_node = nodes.get(0).unwrap();
    assert_node(&float_node, "key".to_string(), "value".to_string());
}

#[test]
fn yaml_file_example() {
    let nodes = parse_sorted(
        "name: John Smith
address:
  street: |
    123 Tornado Alley
    Suite 16            
    city:   East Centerville
    state:  KS
  list:
    - A
    - B
    - C
contact:
  home: 1012355532
  office: 5002586256
",
    );
    println!("{:?}", nodes);

    let address_node = nodes.get(0).unwrap();
    assert_node(&address_node, "address".to_string(), "".to_string());
    let list_node = address_node.children.get(0).unwrap();
    assert_node(&list_node, "list".to_string(), "A,B,C".to_string());
    let street_node = address_node.children.get(1).unwrap();
    assert_node(
        &street_node,
        "street".to_string(),
        "123 Tornado Alley\nSuite 16            \ncity:   East Centerville\nstate:  KS\n"
            .to_string(),
    );

    let contact_node = nodes.get(1).unwrap();
    assert_node(&contact_node, "contact".to_string(), "".to_string());
    let home_node = contact_node.children.get(0).unwrap();
    assert_node(&home_node, "home".to_string(), "1012355532".to_string());
    let office_node = contact_node.children.get(1).unwrap();
    assert_node(&office_node, "office".to_string(), "5002586256".to_string());

    let name_node = nodes.get(2).unwrap();
    assert_node(&name_node, "name".to_string(), "John Smith".to_string());
}
