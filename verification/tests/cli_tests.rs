use msg_relay::cli::{check_fresh_client, parse_command, Command};
use msg_relay::relayer::Table;

#[test]
fn test_input() {
    let mut res = parse_command("AddClient{A1;A;127.0.0.1:8787}");
    assert_eq!(true, res.is_ok());
    res = parse_command("AddjClient{A1;A;127.0.0.1:8787}");
    assert_eq!(true, res.is_err());
    res = parse_command("AddClient{A1,A;127.0.0.1:8787}");
    assert_eq!(true, res.is_err());
    res = parse_command("AddClient {A1;A;127.0.0.1:8787}");
    assert_eq!(true, res.is_err());
    res = parse_command("SendMsg{A1;A2;this is A1, to A group}");
    assert_eq!(true, res.is_ok());
}

#[test]
fn add_client_fields() {
    let res = parse_command("AddClient{A1;A;127.0.0.1:8787}").unwrap();
    assert_eq!(
        res,
        Command::AddClient {
            name: "A1".to_string(),
            group: "A".to_string(),
            addr: "127.0.0.1:8787".to_string(),
        }
    );
}

#[test]
fn send_msg_fields() {
    let res = parse_command("SendMsg{A1;A2;this is A1, to A group}").unwrap();
    assert_eq!(
        res,
        Command::SendMsg {
            from: "A1".to_string(),
            to: "A2".to_string(),
            content: "this is A1, to A group".to_string(),
        }
    );
}

#[test]
fn shutdown_parses_after_trim() {
    assert_eq!(parse_command("Shutdown"), Ok(Command::Shutdown));
    assert_eq!(parse_command("  Shutdown\n"), Ok(Command::Shutdown));
}

#[test]
fn error_lines_are_exact() {
    assert_eq!(
        parse_command("AddClient"),
        Err("Error! input style should be 'Command{{xxx}}'")
    );
    assert_eq!(
        parse_command("AddClient{A1,A;127.0.0.1:8787}"),
        Err("Error! AddClient info should be 'name;group;address'")
    );
    assert_eq!(
        parse_command("SendMsg{A1,A2}"),
        Err("Error! SendMsg info should be 'from;to;content'")
    );
    assert_eq!(
        parse_command("AddjClient{A1;A;127.0.0.1:8787}"),
        Err("command not support")
    );
    assert_eq!(
        parse_command("AddClient {A1;A;127.0.0.1:8787}"),
        Err("command not support")
    );
}

#[test]
fn two_braces_is_an_input_style_error() {
    assert_eq!(
        parse_command("AddClient{A1;A;127.0.0.1:8787}{"),
        Err("Error! input style should be 'Command{{xxx}}'")
    );
}

#[test]
fn fresh_client_check_is_idempotent() {
    let mut map: Table<String> = Table::new();
    assert!(check_fresh_client(&map, "A1").is_ok());
    map.insert("A1".to_string(), "A".to_string());
    assert_eq!(
        check_fresh_client(&map, "A1"),
        Err("client already exitst".to_string())
    );
    assert!(check_fresh_client(&map, "B1").is_ok());
    map.insert("A1".to_string(), "A".to_string());
    assert_eq!(
        check_fresh_client(&map, "A1"),
        Err("client already exitst".to_string())
    );
}
