use imageshare::address::{decrement_port, server_index};
use imageshare::commands::is_valid_message;
use imageshare::election::Election;
use imageshare::intake::{image_file_name, leader_probe_result, Intake, IntakeAction};
use imageshare::peers::{handle_server_message, PeerReply};
use imageshare::roster::{handle_list_command, ProcessedLog};
use imageshare::wire::{serialize_message, ServerMessage};

fn message(sender: i32, client: &str, cur_leader: i32, msg_type: i32) -> Vec<u8> {
    let mut b = serialize_message(&ServerMessage {
        sender,
        client: client.to_string(),
        data: vec![],
        cur_leader,
        msg_type,
    });
    b.extend(vec![0u8; 64]);
    b
}

#[test]
fn decrement_port_examples() {
    assert_eq!(decrement_port("0.0.0.0:8887"), "0.0.0.0:7887");
    assert_eq!(decrement_port("0.0.0.0:8889"), "0.0.0.0:7889");
    assert_eq!(decrement_port("127.0.0.1:1939"), "127.0.0.1:0939");
    assert_eq!(decrement_port("host:9:extra"), "host:8");
}

#[test]
fn server_index_examples() {
    let addrs: Vec<String> = vec!["0.0.0.0:8887".into(), "0.0.0.0:8888".into(), "0.0.0.0:8889".into()];
    assert_eq!(server_index(&addrs, "0.0.0.0:8888"), Some(1));
    assert_eq!(server_index(&addrs, "0.0.0.0:9999"), None);
}

#[test]
fn valid_message_examples() {
    assert!(is_valid_message(b"ping"));
    assert!(is_valid_message(b"list"));
    assert!(is_valid_message(b"  LiSt \n"));
    assert!(is_valid_message("\u{3000}PING\u{a0}".as_bytes()));
    assert!(!is_valid_message(b"pong"));
    assert!(!is_valid_message(b"list\0\0\0"));
    assert!(!is_valid_message(&[0xff, b'l', b'i', b's', b't']));
    assert!(!is_valid_message(b""));
}

#[test]
fn client_list_empty() {
    let log = ProcessedLog::new();
    assert_eq!(handle_list_command(&log), "Client List:");
}

#[test]
fn client_list_sorted_and_distinct() {
    let mut log = ProcessedLog::new();
    assert!(log.record(&"127.0.0.1:5000".to_string(), 4));
    assert!(log.record(&"10.0.0.9:1939".to_string(), 4));
    assert!(log.record(&"127.0.0.1:5000".to_string(), 900));
    assert!(!log.record(&"10.0.0.9:1939".to_string(), 4));
    assert_eq!(log.len(), 3);
    assert_eq!(
        handle_list_command(&log),
        "Client List:\nClient Active: 10.0.0.9:1939\nClient Active: 127.0.0.1:5000"
    );
}

#[test]
fn client_list_does_not_depend_on_order() {
    let mut a = ProcessedLog::new();
    a.record(&"b".to_string(), 1);
    a.record(&"a".to_string(), 2);
    let mut b = ProcessedLog::new();
    b.record(&"a".to_string(), 7);
    b.record(&"b".to_string(), 8);
    assert_eq!(handle_list_command(&a), handle_list_command(&b));
}

#[test]
fn client_list_with_newline_in_name() {
    let mut log = ProcessedLog::new();
    log.record(&"x\nClient Active: a".to_string(), 1);
    log.record(&"a".to_string(), 1);
    assert_eq!(handle_list_command(&log), "Client List:\nClient Active: a\nClient Active: x");
}

fn padded(bytes: &[u8]) -> Vec<u8> {
    let mut b = bytes.to_vec();
    b.extend(vec![0u8; 65507 - bytes.len()]);
    b
}

#[test]
fn intake_list_and_ping() {
    let mut intake = Intake::new(1, 3);
    let buf = padded(b"ping");
    assert!(matches!(intake.on_datagram(&buf, 4, &"c1:5".to_string(), 1), IntakeAction::Ping));
    let buf = padded(b"list");
    match intake.on_datagram(&buf, 4, &"c2:6".to_string(), 1) {
        IntakeAction::SendClientList { to, text } => {
            assert_eq!(to, "c2:6");
            assert_eq!(text, "Client List:\nClient Active: c1:5\nClient Active: c2:6");
        }
        _ => panic!("expected a client list"),
    }
    assert_eq!(intake.processed.len(), 2);
}

#[test]
fn intake_leader_saves_once() {
    let mut intake = Intake::new(2, 3);
    let buf = padded(&[9, 8, 7, 6, 5]);
    match intake.on_datagram(&buf, 5, &"c:1".to_string(), 2) {
        IntakeAction::SaveImage { data } => assert_eq!(data, vec![9, 8, 7, 6, 5]),
        _ => panic!("expected the image to be saved"),
    }
    assert!(matches!(intake.on_datagram(&buf, 5, &"c:1".to_string(), 2), IntakeAction::AlreadyProcessed));
    assert!(matches!(intake.on_datagram(&buf, 4, &"c:1".to_string(), 2), IntakeAction::SaveImage { .. }));
}

#[test]
fn intake_follower_checks_leader_then_elects() {
    let mut intake = Intake::new(1, 3);
    let buf = padded(&[1, 2, 3]);
    match intake.on_datagram(&buf, 3, &"c:1".to_string(), 0) {
        IntakeAction::CheckLeader { leader, probe } => {
            assert_eq!(leader, 0);
            assert_eq!(probe.msg_type, 3);
            assert_eq!(probe.sender, 1);
            assert_eq!(probe.cur_leader, 0);
            assert_eq!(probe.client, "c:1");
            assert_eq!(probe.data, vec![1, 2, 3]);
        }
        _ => panic!("expected a leader check"),
    }
    for _ in 0..4 {
        assert!(matches!(intake.on_leader_checked(false), IntakeAction::CheckLeader { .. }));
    }
    assert!(matches!(intake.on_leader_checked(false), IntakeAction::Elect));
    match intake.on_new_leader(1) {
        IntakeAction::SaveImage { data } => assert_eq!(data, vec![1, 2, 3]),
        _ => panic!("expected the held image to be saved"),
    }
    assert!(intake.pending.is_none());
    assert!(matches!(intake.on_new_leader(1), IntakeAction::Ignore));
}

#[test]
fn intake_follower_leaves_image_to_live_leader() {
    let mut intake = Intake::new(0, 3);
    let buf = padded(&[1, 2, 3]);
    assert!(matches!(intake.on_datagram(&buf, 3, &"c:1".to_string(), 2), IntakeAction::CheckLeader { .. }));
    assert!(matches!(intake.on_leader_checked(true), IntakeAction::Ignore));
    assert!(matches!(intake.on_new_leader(0), IntakeAction::Ignore));
    assert_eq!(intake.processed.len(), 0);
}

#[test]
fn intake_election_lost_drops_image() {
    let mut intake = Intake::new(0, 3);
    let buf = padded(&[4]);
    intake.on_datagram(&buf, 1, &"c:1".to_string(), 2);
    for _ in 0..5 {
        intake.on_leader_checked(false);
    }
    assert!(matches!(intake.on_new_leader(2), IntakeAction::Ignore));
    assert_eq!(intake.processed.len(), 0);
}

#[test]
fn probe_results() {
    assert_eq!(leader_probe_result(None), Some(false));
    let reply = message(0, "c", 0, 3);
    assert_eq!(leader_probe_result(Some(&reply)), Some(true));
    assert_eq!(leader_probe_result(Some(b"garbage")), None);
}

#[test]
fn image_file_names() {
    assert_eq!(image_file_name("2023-12-10T20:10:45+00:00"), "received_2023-12-10T20:10:45+00:00.jpg");
}

#[test]
fn peer_question_is_answered() {
    let step = handle_server_message(&message(2, "cl", 1, 0), 0, 3, 1);
    assert_eq!(step.leader, 1);
    assert!(!step.leader_alive);
    match step.reply {
        PeerReply::Send { server, message } => {
            assert_eq!(server, 2);
            assert_eq!((message.sender, message.cur_leader, message.msg_type), (0, 1, 1));
            assert_eq!(message.client, "cl");
            assert!(message.data.is_empty());
        }
        _ => panic!("expected an answer"),
    }
}

#[test]
fn peer_announcement_raises_leader() {
    let step = handle_server_message(&message(2, "", 2, 2), 0, 3, 1);
    assert_eq!(step.leader, 2);
    match step.reply {
        PeerReply::Send { server, message } => {
            assert_eq!(server, 2);
            assert_eq!((message.cur_leader, message.msg_type), (1, 3));
        }
        _ => panic!("expected an acknowledgement"),
    }
    let step = handle_server_message(&message(0, "", 0, 2), 1, 3, 2);
    assert_eq!(step.leader, 0);
    assert!(step.answered_by.is_none());
}

#[test]
fn peer_answer_is_reported() {
    let step = handle_server_message(&message(2, "", 1, 1), 0, 3, 1);
    assert_eq!(step.answered_by, Some(2));
    assert_eq!(step.leader, 1);
    assert!(matches!(step.reply, PeerReply::Nothing));
}

#[test]
fn peer_alive_messages() {
    let step = handle_server_message(&message(1, "", 0, 4), 0, 3, 0);
    assert!(step.leader_alive);
    match step.reply {
        PeerReply::Send { server, message } => {
            assert_eq!(server, 1);
            assert_eq!((message.sender, message.cur_leader, message.msg_type), (0, 0, 5));
            assert!(message.data.is_empty());
        }
        _ => panic!("expected a leader-is-here answer"),
    }
    let step = handle_server_message(&message(1, "", 0, 5), 0, 3, 0);
    assert!(step.leader_alive);
    assert!(matches!(step.reply, PeerReply::Nothing));
    let step = handle_server_message(&message(1, "", 0, 3), 0, 3, 0);
    assert!(!step.leader_alive);
    assert!(matches!(step.reply, PeerReply::Nothing));
    let step = handle_server_message(b"not a message", 0, 3, 7);
    assert_eq!(step.leader, 7);
    assert!(matches!(step.reply, PeerReply::Nothing));
}

fn run_election(my_index: i32, n: i32, alive: &[i32]) -> (i32, bool) {
    let mut e = Election::start(my_index, n);
    let q = e.question();
    assert_eq!((q.sender, q.msg_type), (my_index, 0));
    let mut asked = vec![];
    while let Some(peer) = e.next_peer() {
        asked.push(peer);
        e.record_answer(alive.contains(&peer));
    }
    assert_eq!(asked, ((my_index + 1)..n).collect::<Vec<i32>>());
    (e.leader, e.takes_lead())
}

#[test]
fn bully_highest_live_server_leads() {
    assert_eq!(run_election(0, 3, &[0, 1, 2]), (2, false));
    assert_eq!(run_election(1, 3, &[0, 1, 2]), (2, false));
    assert_eq!(run_election(2, 3, &[0, 1, 2]), (2, true));
    assert_eq!(run_election(0, 3, &[0, 1]), (1, false));
    assert_eq!(run_election(1, 3, &[0, 1]), (1, true));
    assert_eq!(run_election(0, 3, &[0]), (0, true));
    assert_eq!(run_election(0, 5, &[0, 1, 3]), (3, false));
}

#[test]
fn election_announcement() {
    let e = Election::start(1, 3);
    let a = e.announcement();
    assert_eq!((a.sender, a.cur_leader, a.msg_type), (1, 1, 2));
}

#[test]
fn leader_presumed_dead_after_five_misses() {
    let mut intake = Intake::new(1, 3);
    let buf = padded(&[1, 2, 3]);
    assert!(matches!(intake.on_datagram(&buf, 3, &"c:1".to_string(), 0), IntakeAction::CheckLeader { .. }));
    for _ in 0..4 {
        match intake.on_leader_checked(false) {
            IntakeAction::CheckLeader { leader, probe } => {
                assert_eq!(leader, 0);
                assert_eq!(probe.data, vec![1, 2, 3]);
                assert_eq!(probe.msg_type, 3);
            }
            _ => panic!("expected another check"),
        }
    }
    assert_eq!(intake.missed_checks, 4);
    assert!(matches!(intake.on_leader_checked(false), IntakeAction::Elect));
    assert_eq!(intake.missed_checks, 0);
}

#[test]
fn answer_resets_missed_checks() {
    let mut intake = Intake::new(1, 3);
    let buf = padded(&[1]);
    intake.on_datagram(&buf, 1, &"c:1".to_string(), 0);
    for _ in 0..3 {
        intake.on_leader_checked(false);
    }
    assert!(matches!(intake.on_leader_checked(true), IntakeAction::Ignore));
    assert_eq!(intake.missed_checks, 0);
    intake.on_datagram(&buf, 1, &"c:2".to_string(), 0);
    for _ in 0..4 {
        assert!(matches!(intake.on_leader_checked(false), IntakeAction::CheckLeader { .. }));
    }
    assert!(matches!(intake.on_leader_checked(false), IntakeAction::Elect));
}

#[test]
fn peer_alive_question_answer_carries_leader_and_client() {
    let step = handle_server_message(&message(2, "c:9", 1, 4), 1, 3, 1);
    assert_eq!(step.leader, 1);
    match step.reply {
        PeerReply::Send { server, message } => {
            assert_eq!(server, 2);
            assert_eq!((message.sender, message.cur_leader, message.msg_type), (1, 1, 5));
            assert_eq!(message.client, "c:9");
        }
        _ => panic!("expected a leader-is-here answer"),
    }
}

#[test]
fn peer_messages_from_unknown_servers_are_dropped() {
    for kind in 0..6 {
        let step = handle_server_message(&message(3, "", 0, kind), 0, 3, 1);
        assert_eq!(step.leader, 1);
        assert!(!step.leader_alive);
        assert!(step.answered_by.is_none());
        assert!(matches!(step.reply, PeerReply::Nothing));
        let step = handle_server_message(&message(-1, "", 0, kind), 0, 3, 1);
        assert_eq!(step.leader, 1);
        assert!(matches!(step.reply, PeerReply::Nothing));
    }
}

#[test]
fn election_announces_to_every_other_server() {
    assert_eq!(Election::start(1, 3).announce_to(), vec![0, 2]);
    assert_eq!(Election::start(0, 3).announce_to(), vec![1, 2]);
    assert_eq!(Election::start(2, 3).announce_to(), vec![0, 1]);
    assert_eq!(Election::start(0, 1).announce_to(), Vec::<i32>::new());
}

#[test]
fn intake_leader_answers_a_probe() {
    let mut intake = Intake::new(0, 3);
    let probe = ServerMessage { sender: 2, client: "c:4".to_string(), data: vec![1, 2, 3], cur_leader: 0, msg_type: 3 };
    let bytes = serialize_message(&probe);
    let buf = padded(&bytes);
    match intake.on_datagram(&buf, bytes.len(), &"0.0.0.0:8889".to_string(), 0) {
        IntakeAction::AnswerServer { server, response } => {
            assert_eq!(server, 2);
            assert_eq!((response.sender, response.cur_leader, response.msg_type), (0, 0, 3));
            assert_eq!(response.client, "c:4");
            assert!(response.data.is_empty());
        }
        _ => panic!("expected the probe to be answered"),
    }
    assert_eq!(intake.processed.len(), 0);
}

#[test]
fn intake_follower_answers_a_probe_without_checking() {
    let mut intake = Intake::new(1, 3);
    let probe = ServerMessage { sender: 0, client: "c:4".to_string(), data: vec![7], cur_leader: 2, msg_type: 3 };
    let bytes = serialize_message(&probe);
    let buf = padded(&bytes);
    assert!(matches!(
        intake.on_datagram(&buf, bytes.len(), &"0.0.0.0:8887".to_string(), 2),
        IntakeAction::AnswerServer { server: 0, .. }
    ));
    assert!(intake.pending.is_none());
}

#[test]
fn intake_ignores_messages_from_unknown_servers() {
    let mut intake = Intake::new(0, 3);
    let probe = ServerMessage { sender: 5, client: String::new(), data: vec![], cur_leader: 0, msg_type: 3 };
    let bytes = serialize_message(&probe);
    let buf = padded(&bytes);
    assert!(matches!(intake.on_datagram(&buf, bytes.len(), &"x:1".to_string(), 0), IntakeAction::Ignore));
    assert_eq!(intake.processed.len(), 0);
}

#[test]
fn intake_reads_only_the_datagram() {
    let mut intake = Intake::new(0, 3);
    let probe = ServerMessage { sender: 1, client: String::new(), data: vec![], cur_leader: 0, msg_type: 3 };
    let mut buf = padded(&serialize_message(&probe));
    buf[..4].copy_from_slice(b"ping");
    assert!(matches!(intake.on_datagram(&buf, 4, &"c:1".to_string(), 0), IntakeAction::Ping));
    let mut buf = padded(&serialize_message(&probe));
    buf[..2].copy_from_slice(&[9, 9]);
    match intake.on_datagram(&buf, 2, &"c:2".to_string(), 0) {
        IntakeAction::SaveImage { data } => assert_eq!(data, vec![9, 9]),
        _ => panic!("expected the image to be saved"),
    }
}

#[test]
fn valid_message_ignores_case_and_padding() {
    for buf in [&b"ping"[..], b"List", b" pInG", b"lists", b"", b"pi ng", b"\tlist\n"] {
        let upper = buf.to_ascii_uppercase();
        let padded = [&b" \t"[..], buf, b"\r\n"].concat();
        assert_eq!(is_valid_message(&upper), is_valid_message(buf));
        assert_eq!(is_valid_message(&padded), is_valid_message(buf));
    }
}
