use rs_dfs::ansi::style;
use rs_dfs::decimal::decimal_string;
use rs_dfs::node_list::parse_data_nodes;
use rs_dfs::{ansi, AnsiColor, AnsiStyle, DfsError, SerializableError, SerializableNodeAddress};

#[test]
fn style_codes() {
    assert_eq!(AnsiStyle::Reset.to_code(), "\x1b[0m");
    assert_eq!(AnsiStyle::BoldText.to_code(), "\x1b[1;3");
    assert_eq!(AnsiStyle::UnderlineHighIntensityText.to_code(), "\x1b[4;9");
}

#[test]
fn color_codes() {
    assert_eq!(AnsiColor::Black.to_code(), "0");
    assert_eq!(AnsiColor::White.to_code(), "7");
    assert_eq!(AnsiColor::Default.to_code(), "9");
}

#[test]
fn ansi_sequences() {
    assert_eq!(ansi(AnsiStyle::Reset, AnsiColor::Red), "\x1b[0m");
    assert_eq!(ansi(AnsiStyle::BoldText, AnsiColor::Red), "\x1b[\x1b[1;31m");
}

#[test]
fn styled_text() {
    assert_eq!(
        style(AnsiStyle::RegText, AnsiColor::Green, "hi"),
        "\x1b[\x1b[0;32mhi\x1b[0m"
    );
}

#[test]
fn decimal_text() {
    assert_eq!(decimal_string(0), "0");
    assert_eq!(decimal_string(7), "7");
    assert_eq!(decimal_string(8080), "8080");
    assert_eq!(decimal_string(u32::MAX), "4294967295");
}

#[test]
fn parse_node_list() {
    let nodes = parse_data_nodes("localhost:8080,localhost:8081,example.org:65535").unwrap();
    assert_eq!(nodes.len(), 3);
    assert_eq!(nodes[0].0.host, "localhost");
    assert_eq!(nodes[0].0.port, 8080);
    assert_eq!(nodes[1].0.port, 8081);
    assert_eq!(nodes[2].0.host, "example.org");
    assert_eq!(nodes[2].0.port, 65535);
    assert!(nodes.iter().all(|(_, registered)| !registered));
}

#[test]
fn parse_node_list_rejects_malformed_entries() {
    assert_eq!(parse_data_nodes("localhost").unwrap_err(), DfsError::InvalidArgument);
    assert_eq!(parse_data_nodes("h:80,h").unwrap_err(), DfsError::InvalidArgument);
    assert_eq!(parse_data_nodes("h:").unwrap_err(), DfsError::InvalidArgument);
    assert_eq!(parse_data_nodes("h:8x").unwrap_err(), DfsError::InvalidArgument);
    assert_eq!(parse_data_nodes("h:65536").unwrap_err(), DfsError::InvalidArgument);
    assert_eq!(parse_data_nodes("h:1:2").unwrap_err(), DfsError::InvalidArgument);
    assert_eq!(parse_data_nodes("").unwrap_err(), DfsError::InvalidArgument);
}

#[test]
fn node_address_widens_port() {
    let a: SerializableNodeAddress = rs_dfs::NodeAddress { host: "h".to_string(), port: 443 }.into();
    assert_eq!(a.host, "h");
    assert_eq!(a.port, 443);
}

#[test]
fn serializable_error_message() {
    let e = SerializableError::new("boom".to_string());
    assert_eq!(e.message(), "boom");
}

#[test]
fn node_address_narrows_port_when_it_fits() {
    let a = SerializableNodeAddress { host: "h".to_string(), port: 8080 };
    let n = a.to_node_address().unwrap();
    assert_eq!(n.host, "h");
    assert_eq!(n.port, 8080);
    let big = SerializableNodeAddress { host: "h".to_string(), port: 70000 };
    assert!(big.to_node_address().is_none());
}
