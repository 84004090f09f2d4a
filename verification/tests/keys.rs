use irohsion::keys::{
    build_interface_config, effective_relays, generate_identities, identity_lines, local_udp_dest,
    parse_endpoint_target, parse_interface_configs, InterfaceSpec, SecretArg, DEFAULT_RELAY_URL,
};
use irohsion::path_link::{InterfaceEntry, InterfaceError};

const SECRET: &str = "9d61b19deffd5a60ba844af492ec2cc44449c5697b326919703bac031cae7f60";
const ENDPOINT: &str = "d75a980182b10ab7d54bfed3c964073a0ee172f3daa62325af021a68f707511a";

fn secret() -> [u8; 32] {
    match SecretArg::from_str(SECRET) {
        Ok(SecretArg::Provided(secret)) => secret,
        other => panic!("{other:?}"),
    }
}

fn entries() -> Vec<InterfaceEntry> {
    vec![
        InterfaceEntry {
            name: "eth0".to_string(),
            ipv4: Some(0x0a00_0001),
        },
        InterfaceEntry {
            name: "tun0".to_string(),
            ipv4: None,
        },
    ]
}

#[test]
fn secrets_are_read_from_their_digits() {
    let secret = secret();
    assert_eq!(secret[0], 0x9d);
    assert_eq!(secret[31], 0x60);
    let arg = SecretArg::Provided(secret);
    assert_eq!(arg.provided(), Some(&secret));
    assert_eq!(arg.resolve(), secret);
}

#[test]
fn an_empty_secret_asks_for_a_new_one() {
    assert_eq!(SecretArg::from_str(""), Ok(SecretArg::Generate));
    assert_eq!(SecretArg::default(), SecretArg::Generate);
    assert_eq!(SecretArg::Generate.provided(), None);
    let first = SecretArg::Generate.resolve();
    let second = SecretArg::Generate.resolve();
    assert_ne!(first, second);
}

#[test]
fn what_is_no_secret_is_rejected() {
    assert_eq!(
        SecretArg::from_str("not a key"),
        Err("invalid --secret; expected iroh secret key hex".to_string())
    );
    assert!(SecretArg::from_str(&SECRET[..62]).is_err());
}

#[test]
fn identities_are_printed_with_their_endpoints() {
    assert_eq!(
        identity_lines(&[secret()]),
        vec![format!("secret={SECRET}"), format!("endpoint={ENDPOINT}")]
    );
}

#[test]
fn printed_secrets_are_read_back() {
    let secrets = generate_identities(3);
    assert_eq!(secrets.len(), 3);
    let lines = identity_lines(&secrets);
    assert_eq!(lines.len(), 8);
    assert_eq!(lines[2], "");
    for (index, secret) in secrets.iter().enumerate() {
        let digits = lines[3 * index].strip_prefix("secret=").unwrap();
        assert_eq!(
            SecretArg::from_str(digits),
            Ok(SecretArg::Provided(*secret))
        );
    }
}

#[test]
fn interfaces_are_given_with_or_without_a_secret() {
    let plain = InterfaceSpec::from_str("eth0").unwrap();
    assert_eq!(plain.name, "eth0");
    assert_eq!(plain.secret, None);
    let keyed = InterfaceSpec::from_str(&format!("eth0:{SECRET}")).unwrap();
    assert_eq!(keyed.name, "eth0");
    assert_eq!(keyed.secret, Some(secret()));
    assert_eq!(
        InterfaceSpec::from_str("").err(),
        Some("interface name cannot be empty".to_string())
    );
    assert_eq!(
        InterfaceSpec::from_str(&format!(":{SECRET}")).err(),
        Some("interface name cannot be empty".to_string())
    );
    assert_eq!(
        InterfaceSpec::from_str("eth0:nothing").err(),
        Some("invalid interface secret; expected iroh secret key hex".to_string())
    );
}

#[test]
fn interfaces_are_configured() {
    let spec = InterfaceSpec {
        name: "eth0".to_string(),
        secret: Some(secret()),
    };
    let config = build_interface_config(&spec, &entries()).unwrap();
    assert_eq!(config.endpoint_id, ENDPOINT);
    assert_eq!(config.secret_key, secret());
    assert_eq!(config.binding.bind_addr.ip, 0x0a00_0001);

    let tunnel = InterfaceSpec {
        name: "tun0".to_string(),
        secret: None,
    };
    assert_eq!(
        build_interface_config(&tunnel, &entries()).err(),
        Some(InterfaceError::NoIpv4)
    );
    let configs = parse_interface_configs(&[spec], &entries()).unwrap();
    assert_eq!(configs.len(), 1);
    let missing = InterfaceSpec {
        name: "wlan0".to_string(),
        secret: None,
    };
    let good = InterfaceSpec {
        name: "eth0".to_string(),
        secret: None,
    };
    assert_eq!(
        parse_interface_configs(&[good, missing], &entries()).err(),
        Some((1, InterfaceError::Missing))
    );
}

#[test]
fn targets_name_an_endpoint() {
    let target = parse_endpoint_target(&format!("{ENDPOINT}:2.5")).unwrap();
    assert_eq!(target.endpoint_id, ENDPOINT);
    assert_eq!(target.target_mbps, "2.5");
    assert_eq!(
        parse_endpoint_target("nothing").err(),
        Some("invalid --endpoint-target; expected <endpoint_id>:<mbps>".to_string())
    );
    assert_eq!(
        parse_endpoint_target("nothing:1").err(),
        Some("invalid --endpoint-target endpoint id".to_string())
    );
}

#[test]
fn local_destinations_are_on_this_machine() {
    assert_eq!(local_udp_dest(9000).written(), "127.0.0.1:9000");
}

#[test]
fn a_relay_is_used_if_none_is_given() {
    assert_eq!(
        effective_relays(Vec::new()),
        vec![DEFAULT_RELAY_URL.to_string()]
    );
    let own = vec!["https://relay.example".to_string()];
    assert_eq!(effective_relays(own.clone()), own);
}

#[test]
fn longer_texts_are_no_keys() {
    assert_eq!(
        SecretArg::from_str(&format!("{SECRET}0")),
        Err("invalid --secret; expected iroh secret key hex".to_string())
    );
    assert_eq!(
        InterfaceSpec::from_str(&format!("eth0:{SECRET}0")).err(),
        Some("invalid interface secret; expected iroh secret key hex".to_string())
    );
    assert_eq!(
        parse_endpoint_target(&format!("{ENDPOINT}0:2.5")).err(),
        Some("invalid --endpoint-target endpoint id".to_string())
    );
}
