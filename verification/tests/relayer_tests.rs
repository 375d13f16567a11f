use msg_relay::crypto::{get_rsa, sign};
use msg_relay::message::BridgeMessage;
use msg_relay::relayer::{transfer_msg, PubKeyTable, Relayer, RouteTable, Table, Transferred};

fn msg(from: &str, fg: &str, to: &str, tg: &str, text: &str) -> BridgeMessage {
    BridgeMessage {
        from_name: from.to_string(),
        from_group: fg.to_string(),
        to_name: to.to_string(),
        to_group: tg.to_string(),
        message: text.to_string(),
        error_msg: None,
        sig: None,
    }
}

#[test]
fn tests_it_works() {
    let result = 2 + 2;
    assert_eq!(result, 4);
}

#[test]
fn test_transfer() {
    let mut route_table: RouteTable = Table::new();
    let mut pub_keys: PubKeyTable = Table::new();
    let (send_tx, _send_rx) = tokio::sync::broadcast::channel::<BridgeMessage>(16);

    let (pr, pu) = get_rsa().unwrap();
    let a1 = "a1";
    let sig = sign("a1a", &pr).unwrap();
    let bmsg = BridgeMessage {
        from_name: a1.to_string(),
        from_group: "a".to_string(),
        to_name: a1.to_string(),
        to_group: "a".to_string(),
        message: "erwrew hihi".to_string(),
        error_msg: None,
        sig: Some(sig),
    };

    route_table.insert(bmsg.get_source_id(), send_tx);
    pub_keys.insert(bmsg.get_source_id(), pu);

    assert_eq!(true, transfer_msg(&route_table, &pub_keys, bmsg).is_ok());
}

#[test]
fn relayer_readiness() {
    let mut relayer = Relayer::new();
    assert_eq!(relayer.is_ready(), false);
    let (register_tx, _register_rx) = tokio::sync::mpsc::channel(32);
    relayer.launch(register_tx);
    assert_eq!(relayer.is_ready(), true);
}

#[test]
fn register_before_launch_fails() {
    let mut relayer = Relayer::new();
    let (pr, pu) = get_rsa().unwrap();
    let _ = pr;
    let info = msg_relay::message::RegisterInfo {
        addr: "127.0.0.1:8787".to_string(),
        name: "A1".to_string(),
        group: "A".to_string(),
    };
    assert_eq!(
        relayer.register_node(info, pu),
        Err("relayer not ready".to_string())
    );
}

#[test]
fn unknown_sender_misses_public_key() {
    let route_table: RouteTable = Table::new();
    let pub_keys: PubKeyTable = Table::new();
    let m = msg("A1", "A", "B1", "B", "hello");
    match transfer_msg(&route_table, &pub_keys, m) {
        Err(e) => assert_eq!(e, "miss public key"),
        Ok(_) => panic!("expected a missing key"),
    }
}

#[test]
fn missing_signature_is_rejected() {
    let route_table: RouteTable = Table::new();
    let mut pub_keys: PubKeyTable = Table::new();
    let (_pr, pu) = get_rsa().unwrap();
    pub_keys.insert("A1A".to_string(), pu);
    let m = msg("A1", "A", "B1", "B", "hello");
    match transfer_msg(&route_table, &pub_keys, m) {
        Err(e) => assert_eq!(e, "miss signature"),
        Ok(_) => panic!("expected a missing signature"),
    }
}

#[test]
fn tampered_group_fails_verification() {
    // sign as A1 in group A, then change the group after signing
    let mut route_table: RouteTable = Table::new();
    let mut pub_keys: PubKeyTable = Table::new();
    let (send_tx, _send_rx) = tokio::sync::broadcast::channel::<BridgeMessage>(16);
    let (pr, pu) = get_rsa().unwrap();
    let mut m = msg("A1", "A", "B1", "B", "hello");
    m.sig = Some(sign("A1A", &pr).unwrap());
    m.from_group = "B".to_string();
    route_table.insert("A1B".to_string(), send_tx);
    pub_keys.insert("A1B".to_string(), pu);
    match transfer_msg(&route_table, &pub_keys, m) {
        Err(e) => assert_eq!(e, "verify failed"),
        Ok(_) => panic!("expected verification to fail"),
    }
}

#[test]
fn unknown_target_bounces_to_sender() {
    // register A1 only; a message to X1 comes back annotated
    let mut route_table: RouteTable = Table::new();
    let mut pub_keys: PubKeyTable = Table::new();
    let (send_tx, mut send_rx) = tokio::sync::broadcast::channel::<BridgeMessage>(16);
    let (pr, pu) = get_rsa().unwrap();
    let mut m = msg("A1", "A", "X1", "A", "anyone there?");
    m.sig = Some(sign("A1A", &pr).unwrap());
    route_table.insert("A1A".to_string(), send_tx);
    pub_keys.insert("A1A".to_string(), pu);
    match transfer_msg(&route_table, &pub_keys, m) {
        Ok(Transferred::Bounced(b)) => {
            assert_eq!(b.error_msg, Some("can't find target".to_string()));
            assert_eq!(b.from_name, "A1");
            assert_eq!(b.to_name, "X1");
        },
        other => panic!("expected a bounce, got {:?}", other.is_ok()),
    }
    // the bounce went out on the sender's own queue
    let delivered = send_rx.try_recv().unwrap();
    assert_eq!(delivered.error_msg, Some("can't find target".to_string()));
    assert_eq!(delivered.message, "anyone there?");
}

#[test]
fn both_endpoints_unknown_is_dropped() {
    let route_table: RouteTable = Table::new();
    let mut pub_keys: PubKeyTable = Table::new();
    let (pr, pu) = get_rsa().unwrap();
    let mut m = msg("A1", "A", "X1", "A", "hello");
    m.sig = Some(sign("A1A", &pr).unwrap());
    pub_keys.insert("A1A".to_string(), pu);
    match transfer_msg(&route_table, &pub_keys, m) {
        Err(e) => assert_eq!(e, "relayer can't find both source and target"),
        Ok(_) => panic!("expected a drop"),
    }
}

#[test]
fn self_send_is_forwarded() {
    let mut route_table: RouteTable = Table::new();
    let mut pub_keys: PubKeyTable = Table::new();
    let (send_tx, mut send_rx) = tokio::sync::broadcast::channel::<BridgeMessage>(16);
    let (pr, pu) = get_rsa().unwrap();
    let mut m = msg("A1", "A", "A1", "A", "note to self");
    m.sig = Some(sign("A1A", &pr).unwrap());
    route_table.insert("A1A".to_string(), send_tx);
    pub_keys.insert("A1A".to_string(), pu);
    match transfer_msg(&route_table, &pub_keys, m) {
        Ok(Transferred::Forwarded(f)) => {
            assert_eq!(f.message, "note to self");
            assert_eq!(f.error_msg, None);
        },
        _ => panic!("expected a forward"),
    }
    let delivered = send_rx.try_recv().unwrap();
    assert_eq!(delivered.message, "note to self");
    assert_eq!(delivered.error_msg, None);
}
