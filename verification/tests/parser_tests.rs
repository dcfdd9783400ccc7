use textworld::parser::{parse_input, Command};

#[test]
fn parse_movement_words() {
    assert!(matches!(parse_input("next"), Command::Next));
    assert!(matches!(parse_input("previous"), Command::Previous));
    assert!(matches!(parse_input("prev"), Command::Previous));
    assert!(matches!(parse_input("  next  "), Command::Next));
}

#[test]
fn parse_look_forms() {
    assert!(matches!(parse_input("look"), Command::Look));
    match parse_input("look at table") {
        Command::LookAt(x) => assert_eq!(x, "table"),
        _ => panic!("expected a look-at command"),
    }
    match parse_input("look table") {
        Command::LookAt(x) => assert_eq!(x, "table"),
        _ => panic!("expected a look-at command"),
    }
    match parse_input("look in bin") {
        Command::LookIn(x) => assert_eq!(x, "bin"),
        _ => panic!("expected a look-in command"),
    }
}

#[test]
fn parse_get_forms() {
    match parse_input("get key") {
        Command::Get(x) => assert_eq!(x, "key"),
        _ => panic!("expected a get command"),
    }
    match parse_input("get key from bin") {
        Command::GetFrom(x, c) => {
            assert_eq!(x, "key");
            assert_eq!(c, "bin");
        },
        _ => panic!("expected a get-from command"),
    }
    match parse_input("get key bin") {
        Command::GetFrom(x, c) => {
            assert_eq!(x, "key");
            assert_eq!(c, "bin");
        },
        _ => panic!("expected a get-from command"),
    }
}

#[test]
fn parse_put_and_drop() {
    match parse_input("put key in bin") {
        Command::PutIn(x, c) => {
            assert_eq!(x, "key");
            assert_eq!(c, "bin");
        },
        _ => panic!("expected a put-in command"),
    }
    match parse_input("put key bin") {
        Command::PutIn(x, c) => {
            assert_eq!(x, "key");
            assert_eq!(c, "bin");
        },
        _ => panic!("expected a put-in command"),
    }
    match parse_input("drop key") {
        Command::Drop(x) => assert_eq!(x, "key"),
        _ => panic!("expected a drop command"),
    }
}

#[test]
fn parse_informational_words() {
    assert!(matches!(parse_input("inv"), Command::Inventory));
    assert!(matches!(parse_input("inventory"), Command::Inventory));
    assert!(matches!(parse_input("help"), Command::Help));
}

#[test]
fn parse_rejects_garbage() {
    assert!(matches!(parse_input(""), Command::Unknown));
    assert!(matches!(parse_input("dance"), Command::Unknown));
    assert!(matches!(parse_input("look at the table"), Command::Unknown));
    assert!(matches!(parse_input("get a b c d"), Command::Unknown));
}
