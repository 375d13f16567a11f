use msg_relay::hooks::{hook_group, post_receive_group, receive_line, send_msg_group, Group};
use msg_relay::machine::Machine;
use msg_relay::message::{BridgeMessage, Message};
use msg_relay::relayer::{Relayer, Transferred};

#[test]
fn lib_it_works() {
    let result = 2 + 2;
    assert_eq!(result, 4);
}

fn launched_relayer() -> Relayer {
    let mut relayer = Relayer::new();
    let (register_tx, _register_rx) = tokio::sync::mpsc::channel(32);
    relayer.launch(register_tx);
    relayer
}

fn register(
    machine: &mut Machine,
    relayer: &mut Relayer,
    name: &str,
    group: &str,
    addr: &str,
) -> Result<(), String> {
    let (input_tx, _input_rx) = tokio::sync::mpsc::channel::<BridgeMessage>(32);
    let info = machine.register_node(relayer, name, group, addr, input_tx)?;
    assert_eq!(info.name, name);
    assert_eq!(info.group, group);
    assert_eq!(info.addr, addr);
    Ok(())
}

#[test]
fn register_send_and_deliver() {
    // the whole pipeline short of the sockets: register two nodes, build a
    // signed message, run it through the relayer, and read the delivery
    let mut machine = Machine::new();
    let mut relayer = launched_relayer();
    register(&mut machine, &mut relayer, "A1", "A", "127.0.0.1:8787").unwrap();
    register(&mut machine, &mut relayer, "B1", "B", "127.0.0.1:9787").unwrap();

    let (a_tx, _a_rx) = tokio::sync::broadcast::channel::<BridgeMessage>(16);
    let (b_tx, mut b_rx) = tokio::sync::broadcast::channel::<BridgeMessage>(16);
    relayer.install_route("A1A".to_string(), a_tx).unwrap();
    relayer.install_route("B1B".to_string(), b_tx).unwrap();

    let m = machine
        .send_message("A1".to_string(), "B1".to_string(), "hello".to_string())
        .unwrap();
    assert_eq!(m.from_name, "A1");
    assert_eq!(m.from_group, "A");
    assert_eq!(m.to_name, "B1");
    assert_eq!(m.to_group, "B");
    assert_eq!(m.message, "hello");
    assert_eq!(m.error_msg, None);
    assert!(m.sig.is_some());

    match relayer.transfer(m).unwrap() {
        Transferred::Forwarded(f) => {
            assert_eq!(f.message, "hello");
        },
        Transferred::Bounced(_) => panic!("expected a forward"),
    }
    let delivered = b_rx.try_recv().unwrap();
    assert_eq!(receive_line(&delivered), "B1: receive msg from A1: hello");
    assert_eq!(post_receive_group(&delivered), Some(Group::B));
}

#[test]
fn duplicate_registration_is_rejected() {
    let mut machine = Machine::new();
    let mut relayer = launched_relayer();
    register(&mut machine, &mut relayer, "A1", "A", "127.0.0.1:8787").unwrap();
    let second = register(&mut machine, &mut relayer, "A1", "B", "127.0.0.1:9787");
    assert_eq!(second, Err("node already exitst".to_string()));
}

#[test]
fn send_from_unknown_sender_fails() {
    let machine = Machine::new();
    let res = machine.send_message("A1".to_string(), "B1".to_string(), "x".to_string());
    assert_eq!(res, Err("sender do not exist or init!".to_string()));
}

#[test]
fn send_to_unknown_receiver_fails() {
    let mut machine = Machine::new();
    let mut relayer = launched_relayer();
    register(&mut machine, &mut relayer, "A1", "A", "127.0.0.1:8787").unwrap();
    let res = machine.send_message("A1".to_string(), "X1".to_string(), "x".to_string());
    assert_eq!(res, Err("receiver do not exist or init!".to_string()));
}

#[test]
fn hook_groups_are_exact() {
    assert_eq!(hook_group("A"), Some(Group::A));
    assert_eq!(hook_group("B"), Some(Group::B));
    assert_eq!(hook_group("C"), Some(Group::C));
    assert_eq!(hook_group("D"), None);
    assert_eq!(hook_group(""), None);
    assert_eq!(hook_group("AB"), None);
}

#[test]
fn pre_send_hook_runs() {
    let ran = std::cell::Cell::new(false);
    send_msg_group(Some(|| ran.set(true)));
    assert!(ran.get());
    let untouched = std::cell::Cell::new(false);
    let no_hook: Option<fn()> = None;
    send_msg_group(no_hook);
    assert!(!untouched.get());
}

#[test]
fn message_trait_accessors() {
    let mut m = BridgeMessage {
        from_name: "A1".to_string(),
        from_group: "A".to_string(),
        to_name: "B1".to_string(),
        to_group: "B".to_string(),
        message: "x".to_string(),
        error_msg: None,
        sig: None,
    };
    assert!(m.get_signature().is_none());
    m.sig = Some(vec![1, 2, 3]);
    assert_eq!(m.get_signature(), Some(&vec![1, 2, 3]));
    m.set_error_msg("can't find target".to_string());
    assert_eq!(m.error_msg, Some("can't find target".to_string()));
    assert_eq!(m.get_source_id(), "A1A");
    assert_eq!(m.get_target_id(), "B1B");
}

#[test]
fn launch_record_carries_name_and_addr() {
    let mut machine = Machine::new();
    let mut relayer = launched_relayer();
    register(&mut machine, &mut relayer, "A1", "A", "127.0.0.1:8787").unwrap();
    let (biz_input_tx, biz_input_rx) = tokio::sync::mpsc::channel::<BridgeMessage>(32);
    let (biz_output_tx, _biz_output_rx) = tokio::sync::mpsc::channel::<BridgeMessage>(32);
    let _ = biz_input_tx;
    let node = machine.get_node(&"A1".to_string()).unwrap();
    let launch = node.build_machine_register_info(biz_input_rx, biz_output_tx);
    assert_eq!(launch.name, "A1");
    assert_eq!(launch.addr, "127.0.0.1:8787");
    assert_eq!(node.get_source_id(), "A1A");
}
