use poker_dealer::protocol::{decode_frame, displayed_bet, encode_frame, FRAME_SIZE};

#[test]
fn frames_are_padded_and_read_back() {
    let msg = br#"{"command":"ready","username":"ann"}"#;
    let frame = encode_frame(msg);
    assert_eq!(frame.len(), FRAME_SIZE);
    assert_eq!(&frame[..msg.len()], &msg[..]);
    assert!(frame[msg.len()..].iter().all(|&b| b == 0));
    assert_eq!(decode_frame(&frame), msg.to_vec());
}

#[test]
fn decode_stops_at_first_zero() {
    assert_eq!(decode_frame(&[65, 66, 0, 67]), vec![65, 66]);
    assert_eq!(decode_frame(&[0, 1]), Vec::<u8>::new());
    assert_eq!(decode_frame(&[7, 8]), vec![7, 8]);
}

#[test]
fn long_message_is_cut_to_frame() {
    let long = vec![b'x'; FRAME_SIZE + 10];
    assert_eq!(encode_frame(&long), vec![b'x'; FRAME_SIZE]);
}

#[test]
fn sentinel_bet_displays_as_zero() {
    assert_eq!(displayed_bet(-2), 0);
    assert_eq!(displayed_bet(0), 0);
    assert_eq!(displayed_bet(40), 40);
}

use poker_dealer::commands::{parse_command, Command};
use poker_dealer::protocol::parse_swap_indices;

#[test]
fn swap_selection_is_read_field_by_field() {
    assert_eq!(parse_swap_indices("0,2,4"), vec![0, 2, 4]);
    assert_eq!(parse_swap_indices(" 1 , x, +3,,5 "), vec![1, 3, 5]);
    assert_eq!(parse_swap_indices(""), Vec::<usize>::new());
    assert_eq!(parse_swap_indices("-1,7"), vec![7]);
    assert_eq!(parse_swap_indices("99999999999999999999999,2"), vec![2]);
    assert_eq!(parse_swap_indices("\t4\n"), vec![4]);
}

#[test]
fn commands_are_decoded() {
    match parse_command(r#"{"command":"bet","username":"ann","amount":25}"#) {
        Some(Command::Bet { username, amount }) => {
            assert_eq!(username, "ann");
            assert_eq!(amount, 25);
        }
        other => panic!("unexpected {:?}", other),
    }
    match parse_command(r#"{"command":"bet","username":"bob","amount":-1}"#) {
        Some(Command::Bet { amount, .. }) => assert_eq!(amount, -1),
        other => panic!("unexpected {:?}", other),
    }
    match parse_command(r#"{"command":"bet","username":"bob"}"#) {
        Some(Command::Bet { amount, .. }) => assert_eq!(amount, 0),
        other => panic!("unexpected {:?}", other),
    }
    match parse_command(r#"{"command":"swap","username":"cy","indices":"0,2"}"#) {
        Some(Command::Swap { username, indices }) => {
            assert_eq!(username, "cy");
            assert_eq!(indices, "0,2");
        }
        other => panic!("unexpected {:?}", other),
    }
    match parse_command(r#"{"command":"ready","username":"dee"}"#) {
        Some(Command::Ready { username }) => assert_eq!(username, Some("dee".to_string())),
        other => panic!("unexpected {:?}", other),
    }
    assert!(matches!(parse_command(r#"{"command":"spectate"}"#), Some(Command::Spectate)));
    assert!(matches!(parse_command(r#"{"command":"stats"}"#), Some(Command::Stats)));
    assert!(matches!(parse_command(r#"{"command":"dance"}"#), Some(Command::Unknown)));
    assert!(parse_command("not json").is_none());
    assert!(parse_command(r#"{"username":"x"}"#).is_none());
}

#[test]
fn out_of_range_bet_amount_keeps_its_low_bits() {
    match parse_command(r#"{"command":"bet","username":"ann","amount":4294967306}"#) {
        Some(Command::Bet { amount, .. }) => assert_eq!(amount, 10),
        other => panic!("unexpected {:?}", other),
    }
}
