use mayaqua::ipv4::{format_ipv4, ip_to_string, parse_ipv4};
use mayaqua::pack_types::{key_matches, Element, Pack, PackError, Value, ValueType};

fn int_element(name: &str, values: &[u32]) -> Element {
    let mut e = Element::new(name.to_string(), ValueType::Int);
    for v in values {
        e.values.push(Value::Int(*v));
    }
    e
}

fn mock_server_response() -> Pack {
    let mut pack = Pack::new();
    pack.add_element(int_element("client_ip", &[(192 << 24) | (168 << 16) | (10 << 8) | 100])).unwrap();
    pack.add_element(int_element("subnet_mask", &[(255 << 24) | (255 << 16) | (255 << 8)])).unwrap();
    pack.add_element(int_element("gateway_ip", &[(192 << 24) | (168 << 16) | (10 << 8) | 1])).unwrap();
    pack.add_element(int_element("dns_server1", &[0x0808_0808])).unwrap();
    pack.add_element(int_element("dns_server2", &[0x0808_0404])).unwrap();
    pack.add_element(int_element("mtu", &[1500])).unwrap();
    pack
}

#[test]
fn add_element_rejects_empty_and_exact_duplicates() {
    let mut pack = Pack::new();
    let empty = Element::new("e".to_string(), ValueType::Int);
    assert!(matches!(pack.add_element(empty), Err(PackError::ZeroNumValue)));
    assert_eq!(pack.get_num(), 0);
    pack.add_element(int_element("Foo", &[1])).unwrap();
    assert!(matches!(pack.add_element(int_element("Foo", &[2])), Err(PackError::SameNameExists)));
    assert_eq!(pack.get_num(), 1);
    // lookup ignores case, insertion does not
    assert_eq!(pack.get_element("FOO", None).unwrap().name, "Foo");
    assert_eq!(pack.get_element("foo", None).unwrap().name, "Foo");
    pack.add_element(int_element("foo", &[3])).unwrap();
    assert_eq!(pack.get_num(), 2);
    assert_eq!(pack.get_int("foo"), 1);
}

#[test]
fn get_element_filters_by_type() {
    let mut pack = Pack::new();
    pack.add_str("a", "text");
    pack.add_int("A", 4);
    assert_eq!(pack.get_element("a", Some(ValueType::Int)).unwrap().name, "A");
    assert_eq!(pack.get_element("A", Some(ValueType::Str)).unwrap().name, "a");
    assert!(pack.get_element("a", Some(ValueType::Data)).is_none());
    assert!(pack.get_element("b", None).is_none());
    assert_eq!(pack.get_int("a"), 4);
}

#[test]
fn key_matches_compares_folded_names_and_type_filter() {
    let a = "ABC".to_string();
    let b = "ABC".to_string();
    assert!(key_matches(&a, ValueType::Int, &b, None));
    assert!(key_matches(&a, ValueType::Int, &b, Some(ValueType::Int)));
    assert!(!key_matches(&a, ValueType::Int, &b, Some(ValueType::Str)));
    assert!(!key_matches(&a, ValueType::Int, &"ABD".to_string(), None));
}

#[test]
fn indexed_getters_default_out_of_range() {
    let mut pack = Pack::new();
    pack.add_element(int_element("e", &[1, 2])).unwrap();
    assert_eq!(pack.get_int_ex("e", 0), 1);
    assert_eq!(pack.get_int_ex("e", 1), 2);
    assert_eq!(pack.get_int_ex("e", 5), 0);
    assert!(pack.get_bool_ex("e", 1));
    assert!(!pack.get_bool_ex("e", 5));
}

#[test]
fn absent_or_mistyped_fields_read_as_defaults() {
    let mut pack = Pack::new();
    pack.add_int("i", 9);
    pack.add_str("s", "x");
    pack.add_data("d", vec![1, 2, 3]);
    assert_eq!(pack.get_int("s"), 0);
    assert_eq!(pack.get_str("i"), "");
    assert_eq!(pack.get_data("i"), Vec::<u8>::new());
    assert!(!pack.get_bool("missing"));
    assert_eq!(pack.get_str_ex("s", 1), "");
    assert_eq!(pack.get_data("D"), vec![1, 2, 3]);
    assert_eq!(pack.get_data_ex("d", 1), Vec::<u8>::new());
    assert_eq!(pack.get_data_size("d"), 3);
    assert_eq!(pack.get_data_size_ex("d", 2), 0);
    assert!(pack.get_array("missing").is_none());
    let arr = pack.get_array("D").unwrap();
    assert_eq!(arr.len(), 1);
    assert!(matches!(&arr[0], Value::Data(x) if x == &vec![1u8, 2, 3]));
}

#[test]
fn element_getters() {
    let mut e = Element::new("x".to_string(), ValueType::Str);
    assert_eq!(e.num_value(), 0);
    e.values.push(Value::Str("one".to_string()));
    e.values.push(Value::Int(3));
    assert_eq!(e.num_value(), 2);
    assert_eq!(e.get_str_value(0), "one");
    assert_eq!(e.get_str_value(1), "");
    assert_eq!(e.get_int_value(1), 3);
    assert_eq!(e.get_int_value(0), 0);
    assert_eq!(e.get_data_value(0), Vec::<u8>::new());
    assert!(!e.json_hint_is_array && !e.json_hint_is_ip);
    assert_eq!(ValueType::Int64.to_u32(), 4);
}

#[test]
fn ip_helpers_zero_is_empty() {
    let mut pack = Pack::new();
    assert!(pack.add_ip32("gw", 0).is_some());
    assert_eq!(pack.get_ip("gw"), "");
    assert_eq!(pack.get_ip_as_bytes("gw"), [0, 0, 0, 0]);
}

#[test]
fn ip_helpers_text_round_trip() {
    let mut pack = Pack::new();
    pack.add_ip("x", "192.168.10.100");
    assert_eq!(pack.get_ip("x"), "192.168.10.100");
    assert_eq!(pack.get_ip_as_bytes("x"), [192, 168, 10, 100]);
    assert_eq!(pack.get_ip_ex("x", 0), "192.168.10.100");
    assert_eq!(pack.get_int("x"), 0xC0A8_0A64);
}

#[test]
fn add_ip_emits_four_elements_in_order() {
    let mut pack = Pack::new();
    let e = pack.add_ip32("addr", 0x0A00_0001).unwrap();
    assert_eq!(e.name, "addr");
    assert_eq!(
        pack.get_names(),
        vec!["addr@ipv6_bool", "addr@ipv6_array", "addr@ipv6_scope_id", "addr"]
    );
    assert_eq!(pack.get_int("addr@ipv6_bool"), 0);
    assert_eq!(pack.get_data("addr@ipv6_array"), vec![0u8; 16]);
    assert_eq!(pack.get_int("addr@ipv6_scope_id"), 0);
    assert_eq!(pack.get_ip("addr"), "10.0.0.1");
    assert!(pack.add_ip32("addr", 5).is_none());
}

#[test]
fn add_ip_with_invalid_text_stores_zero() {
    let mut pack = Pack::new();
    pack.add_ip("bad", "300.1.1.1");
    assert_eq!(pack.get_int("bad"), 0);
    assert_eq!(pack.get_ip("bad"), "");
}

#[test]
fn ipv4_text_helpers() {
    assert_eq!(format_ipv4(0), "0.0.0.0");
    assert_eq!(format_ipv4(0xFFFF_FFFF), "255.255.255.255");
    assert_eq!(ip_to_string(0), "");
    assert_eq!(ip_to_string(0x0102_0304), "1.2.3.4");
    assert_eq!(parse_ipv4("192.168.10.100"), Some(0xC0A8_0A64));
    assert_eq!(parse_ipv4("0.0.0.0"), Some(0));
    assert_eq!(parse_ipv4("01.2.3.4"), None);
    assert_eq!(parse_ipv4("1.2.3"), None);
    assert_eq!(parse_ipv4("1.2.3.4.5"), None);
    assert_eq!(parse_ipv4("256.0.0.1"), None);
    assert_eq!(parse_ipv4("1.2.3.4 "), None);
    assert_eq!(parse_ipv4(""), None);
    assert_eq!(parse_ipv4("１.2.3.4"), None);
    for v in [1u32, 0x0A00_0001, 0xC0A8_0A64, 0x6400_0A0B, 0xFFFF_FFFF] {
        assert_eq!(parse_ipv4(&format_ipv4(v)), Some(v));
    }
}

#[test]
fn network_config_projection() {
    let pack = mock_server_response();
    let net = pack.get_network_config();
    assert_eq!(net.client_ip, "192.168.10.100");
    assert_eq!(net.client_ip_bytes, [192, 168, 10, 100]);
    assert_eq!(net.subnet_mask, "255.255.255.0");
    assert_eq!(net.gateway_ip_bytes, [192, 168, 10, 1]);
    assert_eq!(net.dns_server1, "8.8.8.8");
    assert_eq!(net.dns_server2, "8.8.4.4");
    assert_eq!(net.dhcp_server, "");
    assert_eq!(net.domain_name, "");
    assert_eq!(net.mtu, 1500);
    assert!(!net.use_dhcp);
    assert!(pack.has_valid_client_ip());
    let tun = pack.get_tuntap_config("vpn0");
    assert_eq!(tun.interface_name, "vpn0");
    assert_eq!(tun.ip_address, "192.168.10.100");
    assert_eq!(tun.gateway, "192.168.10.1");
    assert_eq!(tun.dns_servers, vec!["8.8.8.8", "8.8.4.4"]);
    assert_eq!(tun.mtu, 1500);
}

#[test]
fn tuntap_defaults_and_client_ip_validity() {
    let mut pack = Pack::new();
    pack.add_int("client_ip", 0xFFFF_FFFF);
    pack.add_int("dns_server2", 0x0101_0101);
    assert!(!pack.has_valid_client_ip());
    assert!(!Pack::new().has_valid_client_ip());
    let tun = pack.get_tuntap_config("tun1");
    assert_eq!(tun.mtu, 1500);
    assert_eq!(tun.dns_servers, vec!["1.1.1.1"]);
}

#[test]
fn dhcp_options_dns_list_drops_unset_and_repeats() {
    let mut pack = Pack::new();
    pack.add_int("dns_server1", 0x0808_0808);
    pack.add_int("dhcp_dns1", 0x0808_0808);
    pack.add_int("dhcp_dns2", 0x0101_0101);
    pack.add_int("dhcp_lease_time", 3600);
    pack.add_str("dhcp_domain_name", "lan");
    pack.add_int("dhcp_router", 0xC0A8_0001);
    let opts = pack.extract_dhcp_options();
    assert_eq!(opts.dns_servers, vec!["8.8.8.8", "1.1.1.1"]);
    assert_eq!(opts.lease_time, 3600);
    assert_eq!(opts.domain_name, "lan");
    assert_eq!(opts.router, "192.168.0.1");
    assert_eq!(opts.subnet_mask, "");
    assert_eq!(opts.renewal_time, 0);
}

#[test]
fn server_is_not_vpn_message() {
    assert_eq!(mayaqua::ErrServerIsNotVpn.message(), "ERR_SERVER_IS_NOT_VPN");
}

#[test]
fn root_reexports_reach_the_codec() {
    let mut pack = mayaqua::Pack::new();
    pack.add_int("k", 1);
    let buf = pack.to_buf().unwrap();
    assert_eq!(mayaqua::read_pack(&buf).unwrap().get_int("K"), 1);
    assert_eq!(mayaqua::MAX_VALUE_SIZE, 402653184);
}

fn hints_cleared(e: &Element) -> bool {
    !e.json_hint_is_array
        && !e.json_hint_is_bool
        && !e.json_hint_is_date_time
        && !e.json_hint_is_ip
        && e.json_hint_group_name.is_empty()
}

#[test]
fn builders_add_elements_with_cleared_hints_and_keep_the_rest() {
    let mut pack = Pack::new();
    let mut hinted = int_element("keep", &[1]);
    hinted.json_hint_is_ip = true;
    hinted.json_hint_group_name = "g".to_string();
    pack.add_element(hinted).unwrap();
    assert!(hints_cleared(pack.add_str("s", "v").unwrap()));
    assert!(hints_cleared(pack.add_int("i", 1).unwrap()));
    assert!(hints_cleared(pack.add_data("d", vec![1]).unwrap()));
    assert!(hints_cleared(pack.add_bool("b", true).unwrap()));
    assert!(hints_cleared(pack.add_ip32("ip", 1).unwrap()));
    assert!(pack.add_str("s", "again").is_none());
    assert_eq!(pack.get_num(), 9);
    assert!(pack.elements[0].json_hint_is_ip);
    assert_eq!(pack.elements[0].json_hint_group_name, "g");
    assert!(pack.elements[1..].iter().all(hints_cleared));
}

#[test]
fn decoded_elements_have_cleared_hints() {
    let mut pack = Pack::new();
    let mut hinted = int_element("h", &[1, 2]);
    hinted.json_hint_is_array = true;
    pack.add_element(hinted).unwrap();
    pack.add_str("s", "x");
    let back = mayaqua::read_pack(&pack.to_buf().unwrap()).unwrap();
    assert_eq!(back.get_num(), 2);
    assert!(back.elements.iter().all(hints_cleared));
}
