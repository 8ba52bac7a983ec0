use netplan::error::{LibNetplanError, NetplanErrorDomains};
use netplan::netdef::NetdefType;
use netplan::parser::Parser;
use netplan::state::State;

fn parser_from(yaml: &str) -> Parser {
    let mut parser = Parser::new();
    let result = parser.load_yaml_from_string(yaml);
    assert!(result.is_ok());
    parser
}

#[test]
fn test_create_a_state() {
    let state = State::new();
    let dump = state.dump_yaml().unwrap();
    assert_eq!(dump, "network:\n  version: 2\n");
}

#[test]
fn test_import_parser_results_validation_error() {
    let yaml = "\nnetwork:\n  vrfs:\n    vrf0:\n      table: 1000\n      routes:\n        - to: 192.168.0.0/24\n          via: 1.2.3.4\n          table: 2000\n  ethernets:\n    eth0:\n      dhcp4: true\n    eth1: {}\n    eth2:\n      addresses:\n        - 192.168.0.1/24\n        - 10.20.30.40/24\n      nameservers:\n        addresses:\n          - 192.168.0.254\n        search:\n          - mydomain.local";

    let parser = parser_from(yaml);

    let mut state = State::new();

    if let Err(error) = state.import_parser_state(parser) {
        if let NetplanErrorDomains::NetplanValidationError(msg) = error {
            assert_eq!(msg, "vrf0: VRF routes table mismatch (1000 != 2000)");
        } else {
            panic!("expected a validation error");
        }
    } else {
        panic!("This test should have passed but didn't");
    }
}

#[test]
fn test_import_parser_results() {
    let yaml = "\nnetwork:\n  ethernets:\n    eth0:\n      dhcp4: true\n    eth1: {}\n    eth2:\n      addresses:\n        - 192.168.0.1/24\n        - 10.20.30.40/24\n      routes:\n        - to: default\n          via: 192.168.0.254\n      nameservers:\n        addresses:\n          - 192.168.0.254\n        search:\n          - mydomain.local";

    let parser = parser_from(yaml);

    let mut state = State::new();

    if state.import_parser_state(parser).is_err() {
        panic!("load parser results failed");
    }
}

#[test]
fn test_dump_yaml() {
    let yaml = "\nnetwork:\n  ethernets:\n    eth0:\n      dhcp4: true";

    let parser = parser_from(yaml);

    let mut state = State::new();

    if state.import_parser_state(parser).is_err() {
        panic!("load parser results failed");
    }

    let dump = state.dump_yaml();

    assert_eq!(
        "network:\n  version: 2\n  ethernets:\n    eth0:\n      dhcp4: true\n",
        dump.unwrap()
    );
}

#[test]
fn test_state_iterator() {
    let yaml = "\nnetwork:\n  ethernets:\n    eth0:\n      dhcp4: true\n    eth1: {}\n    eth2:\n      addresses:\n        - 192.168.0.1/24\n        - 10.20.30.40/24\n      routes:\n        - to: default\n          via: 192.168.0.254\n      nameservers:\n        addresses:\n          - 192.168.0.254\n        search:\n          - mydomain.local";

    let parser = parser_from(yaml);

    let mut state = State::new();
    state.import_parser_state(parser).unwrap();

    let mut netdef_ids = Vec::new();
    let netdef_ids_expected = vec!["eth0", "eth1", "eth2"];

    for netdef in state.netdefs() {
        assert!(matches!(netdef.kind, NetdefType::Ethernet));
        netdef_ids.push(netdef.id.clone());
    }
    assert_eq!(netdef_ids.len(), 3);

    for expected in netdef_ids_expected {
        assert!(netdef_ids.contains(&expected.to_string()));
    }
}

#[test]
fn test_state_try_from() {
    let yaml = "\nnetwork:\n  ethernets:\n    eth0:\n      dhcp4: true";

    let parser = parser_from(yaml);

    if State::try_from(parser).is_err() {
        panic!("load parser results failed");
    }
}

#[test]
fn test_dump_yaml_subtree() {
    let yaml = "\nnetwork:\n  ethernets:\n    eth0:\n      dhcp4: true\n    eth1: {}";

    let parser = parser_from(yaml);
    let mut state = State::new();
    state.import_parser_state(parser).unwrap();

    let sub = state.dump_yaml_subtree("ethernets.eth0").unwrap();
    assert_eq!(sub, "network:\n  ethernets:\n    eth0:\n      dhcp4: true\n");

    let sub2 = state.dump_yaml_subtree("network.ethernets.eth0").unwrap();
    assert_eq!(sub2, sub);

    assert!(state.dump_yaml_subtree("ethernets.eth7").is_err());
}

#[test]
fn test_round_trip() {
    let yaml = "\nnetwork:\n  ethernets:\n    eth0:\n      dhcp4: true\n    eth2:\n      addresses:\n        - 192.168.0.1/24\n      routes:\n        - to: default\n          via: 192.168.0.254\n  vrfs:\n    vrf0:\n      table: 1000";

    let parser = parser_from(yaml);
    let mut state = State::new();
    state.import_parser_state(parser).unwrap();
    let dump1 = state.dump_yaml().unwrap();

    // reloading the dump through the same pipeline yields the same content
    let parser2 = parser_from(&dump1);
    let mut state2 = State::new();
    state2.import_parser_state(parser2).unwrap();
    let dump2 = state2.dump_yaml().unwrap();
    assert_eq!(dump1, dump2);

    let a: Vec<_> = state.netdefs().into_iter().map(|d| d.id).collect();
    let b: Vec<_> = state2.netdefs().into_iter().map(|d| d.id).collect();
    assert_eq!(a, b);
}

#[test]
fn test_vlan_missing_link() {
    let yaml = "\nnetwork:\n  vlans:\n    vlan10:\n      id: 10";

    let parser = parser_from(yaml);
    let mut state = State::new();
    let err = state.import_parser_state(parser);
    assert!(err.is_err());
    if let Err(NetplanErrorDomains::NetplanValidationError(msg)) = err {
        assert_eq!(msg, "vlan10: missing required property 'link'");
    } else {
        panic!("expected a validation error");
    }
}

#[test]
fn test_undefined_interface_reference() {
    let yaml = "\nnetwork:\n  bridges:\n    br0:\n      interfaces:\n        - eth9";

    let parser = parser_from(yaml);
    let mut state = State::new();
    let err = state.import_parser_state(parser);
    assert!(err.is_err());
    if let Err(NetplanErrorDomains::NetplanValidationError(msg)) = err {
        assert_eq!(msg, "br0: interface 'eth9' is not defined");
    } else {
        panic!("expected a validation error");
    }
}

#[test]
fn test_device_type_mismatch() {
    let mut parser = Parser::new();
    parser
        .load_yaml_from_string("network:\n  ethernets:\n    dev0: {}")
        .unwrap();
    parser
        .load_yaml_from_string("network:\n  bridges:\n    dev0: {}")
        .unwrap();

    let mut state = State::new();
    let err = state.import_parser_state(parser);
    if let Err(NetplanErrorDomains::NetplanValidationError(msg)) = err {
        assert_eq!(msg, "dev0: device type mismatch");
    } else {
        panic!("expected a validation error");
    }
}

#[test]
fn test_try_from_raw_error() {
    let raw: u64 = (2u64 << 32) | 7u64;
    let decoded = LibNetplanError::try_from_raw_error(Some(raw), Some("boom".to_string()));
    let decoded = decoded.unwrap();
    assert_eq!(decoded.domain, 2);
    assert_eq!(decoded.code, 7);
    assert_eq!(decoded.message, "boom");

    let tagged = NetplanErrorDomains::from_libnetplan_error(&decoded);
    assert!(matches!(tagged, NetplanErrorDomains::NetplanValidationError(_)));
    assert_eq!(tagged.message(), "boom");

    assert!(LibNetplanError::try_from_raw_error(None, Some("x".to_string())).is_none());
}

#[test]
fn test_dump_yaml_subtree_scalar_leaf() {
    let yaml = "\nnetwork:\n  ethernets:\n    eth0:\n      dhcp4: true";

    let parser = parser_from(yaml);
    let mut state = State::new();
    state.import_parser_state(parser).unwrap();

    let sub = state.dump_yaml_subtree("ethernets.eth0.dhcp4").unwrap();
    assert_eq!(sub, "network:\n  ethernets:\n    eth0:\n      dhcp4: true\n");
}

#[test]
fn test_version_kept_from_input() {
    let yaml = "network:\n  version: 2\n  ethernets:\n    eth0:\n      mtu: 9000";

    let parser = parser_from(yaml);
    let mut state = State::new();
    state.import_parser_state(parser).unwrap();
    let dump = state.dump_yaml().unwrap();
    assert_eq!(
        dump,
        "network:\n  version: 2\n  ethernets:\n    eth0:\n      mtu: 9000\n"
    );
}
