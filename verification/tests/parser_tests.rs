use netplan::error::NetplanErrorDomains;
use netplan::parser::{Fragment, Parser};
use netplan::state::State;
use netplan::utils::netplan_create_yaml_patch;

#[test]
fn test_create_a_parser() {
    let mut parser = Parser::new();
    let result = parser.load_yaml_from_string("network:\n  ethernets: {}");
    assert!(result.is_ok());
}

#[test]
fn test_load_yaml_from_string() {
    let yaml = "\nnetwork:\n  ethernets:\n    eth0:\n      dhcp4: true";

    let mut parser = Parser::new();
    let parser_result = parser.load_yaml_from_string(yaml);
    assert!(parser_result.is_ok());

    let mut state = State::new();
    state.import_parser_state(parser).unwrap();
    let dump = state.dump_yaml().unwrap();
    assert_eq!(
        dump,
        "network:\n  version: 2\n  ethernets:\n    eth0:\n      dhcp4: true\n"
    );
}

#[test]
fn test_load_yaml_invalid_boolean() {
    let yaml = "\nnetwork:\n  ethernets:\n    eth0:\n      dhcp4: badvalue";

    let mut parser = Parser::new();
    let parser_result = parser.load_yaml_from_string(yaml);
    assert!(parser_result.is_err());

    if let Err(error) = parser_result {
        if let NetplanErrorDomains::NetplanParserError(message) = error {
            assert!(message.contains("Error in network definition: invalid boolean value 'badvalue'"));
        } else {
            panic!("expected a parser error");
        }
    }
}

#[test]
fn test_load_keyfile_ok() {
    let keyfile = "[connection]\nid=netplan-enp3s0\ntype=ethernet\ninterface-name=enp3s0\nuuid=6352c897-174c-4f61-9623-556eddad05b2\n[ipv4]\nmethod=manual\naddress1=10.100.1.39/24";

    let mut parser = Parser::new();
    let parser_result = parser.load_keyfile_from_string(keyfile);

    assert!(parser_result.is_ok());
}

#[test]
fn test_load_keyfile_err() {
    let keyfile = "[connection]\nid=netplan-enp3s0\ntype=ethernet\ninterface-name=enp3s0\n[ipv4]\nmethod=manual\naddress1=10.100.1.39/24";

    let mut parser = Parser::new();
    let parser_result = parser.load_keyfile_from_string(keyfile);

    assert!(parser_result.is_err());

    if let Err(error) = parser_result {
        if let NetplanErrorDomains::NetplanFileError(message) = error {
            assert!(message.contains("Keyfile: cannot find connection.uuid"));
        } else {
            panic!("expected a file error");
        }
    }
}

#[test]
fn test_load_nullable_fields() {
    let mut parser = Parser::new();

    let patch = netplan_create_yaml_patch("network.ethernets.eth0", "null").unwrap();

    let ret = parser.load_nullable_fields(&patch);
    assert!(ret.is_ok());

    let yaml = "\nnetwork:\n  ethernets:\n    eth1: {}\n    eth0: {}";
    parser.load_yaml_from_string(yaml).unwrap();

    let mut state = State::new();
    state.import_parser_state(parser).unwrap();

    let dump = state.dump_yaml().unwrap();

    // eth0 is gone
    assert_eq!(dump, "network:\n  version: 2\n  ethernets:\n    eth1: {}\n");
}

#[test]
fn test_load_nullable_overrides() {
    let mut parser = Parser::new();

    let patch = netplan_create_yaml_patch("network.ethernets.eth0.dhcp4", "false").unwrap();
    parser.load_nullable_overrides(&patch, "90-override.yaml").unwrap();

    let yaml = "\nnetwork:\n  ethernets:\n    eth0:\n      dhcp4: true";
    parser.load_yaml_from_string(yaml).unwrap();

    let mut state = State::new();
    state.import_parser_state(parser).unwrap();

    let dump = state.dump_yaml().unwrap();
    assert_eq!(
        dump,
        "network:\n  version: 2\n  ethernets:\n    eth0:\n      dhcp4: false\n"
    );
}

#[test]
fn test_create_yaml_patch() {
    let a = netplan_create_yaml_patch("network.ethernets.eth0.dhcp4", "false");

    if let Ok(output) = a {
        assert_eq!(
            output,
            "network:\n  ethernets:\n    eth0:\n      dhcp4: false\n"
        );
    } else {
        panic!("patch creation failed");
    }
}

#[test]
fn test_create_yaml_patch_rejects_empty_component() {
    let a = netplan_create_yaml_patch("network..dhcp4", "false");
    assert!(a.is_err());
}

#[test]
fn test_merge_disjoint_and_override() {
    let mut parser = Parser::new();
    parser
        .load_yaml_from_string("network:\n  ethernets:\n    eth0:\n      dhcp4: true")
        .unwrap();
    parser
        .load_yaml_from_string("network:\n  ethernets:\n    eth0:\n      dhcp6: false\n      dhcp4: false")
        .unwrap();

    let mut state = State::new();
    state.import_parser_state(parser).unwrap();

    // the union of both property sets, with the later value for dhcp4
    let dump = state.dump_yaml().unwrap();
    assert_eq!(
        dump,
        "network:\n  version: 2\n  ethernets:\n    eth0:\n      dhcp4: false\n      dhcp6: false\n"
    );
}

#[test]
fn test_load_yaml_hierarchy() {
    // later names and higher tiers override earlier ones with the same id
    let fragments = vec![
        Fragment {
            tier: 1,
            name: "20-config.yaml".to_string(),
            content: "network:\n  ethernets:\n    eth0:\n      dhcp4: false".to_string(),
        },
        Fragment {
            tier: 0,
            name: "10-config.yaml".to_string(),
            content: "network:\n  ethernets:\n    eth0:\n      dhcp4: true".to_string(),
        },
        Fragment {
            tier: 1,
            name: "10-config.yaml".to_string(),
            content: "network:\n  ethernets:\n    eth0:\n      dhcp4: true\n      dhcp6: true".to_string(),
        },
    ];

    let mut parser = Parser::new();
    parser.load_yaml_hierarchy(fragments).unwrap();

    let mut state = State::new();
    state.import_parser_state(parser).unwrap();
    let dump = state.dump_yaml().unwrap();
    assert_eq!(
        dump,
        "network:\n  version: 2\n  ethernets:\n    eth0:\n      dhcp4: false\n      dhcp6: true\n"
    );
}

#[test]
fn test_missing_network_key() {
    let mut parser = Parser::new();
    let result = parser.load_yaml_from_string("other:\n  ethernets: {}");
    if let Err(NetplanErrorDomains::NetplanParserError(msg)) = result {
        assert_eq!(msg, "Error in network definition: missing 'network' key");
    } else {
        panic!("expected a parser error");
    }
}

#[test]
fn test_unknown_key_in_known_section() {
    let mut parser = Parser::new();
    let result = parser.load_yaml_from_string("network:\n  ethernets:\n    eth0:\n      dhpc4: true");
    if let Err(NetplanErrorDomains::NetplanParserError(msg)) = result {
        assert_eq!(msg, "Error in network definition: unknown key 'dhpc4'");
    } else {
        panic!("expected a parser error");
    }
}

#[test]
fn test_unknown_top_level_section_tolerated() {
    let mut parser = Parser::new();
    parser
        .load_yaml_from_string("network:\n  gadgets:\n    g0: {}\n  ethernets:\n    eth0: {}")
        .unwrap();

    let mut state = State::new();
    state.import_parser_state(parser).unwrap();
    let dump = state.dump_yaml().unwrap();
    assert_eq!(dump, "network:\n  version: 2\n  ethernets:\n    eth0: {}\n");
}

#[test]
fn test_null_patch_removes_exactly_one_id() {
    let mut parser = Parser::new();

    let patch = netplan_create_yaml_patch("network.ethernets.eth1", "null").unwrap();
    parser.load_nullable_fields(&patch).unwrap();

    // three entries; the middle one is deleted, the other two keep their
    // property values
    let yaml = "network:\n  ethernets:\n    eth0:\n      dhcp4: true\n    eth1:\n      dhcp4: false\n    eth2:\n      mtu: 1500";
    parser.load_yaml_from_string(yaml).unwrap();

    let mut state = State::new();
    state.import_parser_state(parser).unwrap();

    let dump = state.dump_yaml().unwrap();
    assert_eq!(
        dump,
        "network:\n  version: 2\n  ethernets:\n    eth0:\n      dhcp4: true\n    eth2:\n      mtu: 1500\n"
    );
}
