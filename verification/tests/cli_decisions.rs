//! The command-line client's decisions on concrete values.

use iridium_stomp::cli::{
    classify, format_connection_error, format_connection_error_pub, has_prefix,
    heartbeat_indicator, is_common_destination, parse_command, truncate_str, Command,
    CommandResult, History, Span, SubStats, Verb, AUTH_ERROR, NETWORK_ERROR, PROTOCOL_ERROR,
    SUCCESS,
};
use iridium_stomp::{ConnError, Frame, ServerError};
use std::io;

#[test]
fn exit_codes_are_fixed() {
    assert_eq!((SUCCESS, NETWORK_ERROR, AUTH_ERROR, PROTOCOL_ERROR), (0, 1, 2, 3));
}

#[test]
fn connection_refused_is_worded_with_the_address() {
    let err = ConnError::Io(io::Error::new(io::ErrorKind::ConnectionRefused, "nope"));
    assert_eq!(
        format_connection_error_pub(&err, "127.0.0.1:61613"),
        ("Connection refused: 127.0.0.1:61613".to_string(), 1)
    );
}

#[test]
fn connection_timeout_is_worded_with_the_address() {
    let err = ConnError::Io(io::Error::new(io::ErrorKind::TimedOut, "slow"));
    assert_eq!(
        format_connection_error(&err, "host:1"),
        ("Connection timed out: host:1".to_string(), 1)
    );
}

#[test]
fn other_transport_errors_keep_their_wording() {
    let err = ConnError::Io(io::Error::new(io::ErrorKind::BrokenPipe, "pipe went away"));
    assert_eq!(
        format_connection_error_pub(&err, "host:1"),
        ("Connection failed: pipe went away".to_string(), 1)
    );
}

#[test]
fn server_rejection_is_worded_with_message_and_body() {
    let with_body = ConnError::ServerRejected(ServerError::from_frame(
        Frame::new("ERROR")
            .header("message", "bad login")
            .set_body(b"try again".to_vec()),
    ));
    assert_eq!(
        format_connection_error_pub(&with_body, "h"),
        ("Authentication failed: bad login (try again)".to_string(), 2)
    );
    let bare = ConnError::ServerRejected(ServerError::from_frame(
        Frame::new("ERROR").header("message", "bad login"),
    ));
    assert_eq!(
        format_connection_error_pub(&bare, "h"),
        ("Authentication failed: bad login".to_string(), 2)
    );
}

#[test]
fn protocol_errors_and_receipt_timeouts() {
    assert_eq!(
        format_connection_error_pub(&ConnError::Protocol("odd".to_string()), "h"),
        ("Protocol error: odd".to_string(), 3)
    );
    assert_eq!(
        format_connection_error_pub(&ConnError::ReceiptTimeout("rcpt-9".to_string()), "h"),
        ("Receipt timeout: rcpt-9".to_string(), 3)
    );
}

#[test]
fn conn_error_wording() {
    assert_eq!(
        ConnError::Protocol("invalid frame".to_string()).to_string(),
        "protocol error: invalid frame"
    );
    assert_eq!(
        ConnError::ReceiptTimeout("r1".to_string()).to_string(),
        "receipt timeout: no RECEIPT received for 'r1' within timeout"
    );
    assert_eq!(
        ConnError::Io(io::Error::new(io::ErrorKind::Other, "disk")).to_string(),
        "io error: disk"
    );
    let rejected = ConnError::ServerRejected(ServerError::from_frame(
        Frame::new("ERROR").header("message", "no").set_body(b"why".to_vec()),
    ));
    assert_eq!(
        rejected.to_string(),
        "server rejected connection: STOMP server error: no: why"
    );
}

#[test]
fn heartbeat_indicator_states() {
    assert_eq!(heartbeat_indicator(None, 10000), ("\u{25cb}", false));
    assert_eq!(heartbeat_indicator(Some(0), 10000), ("\u{2726}", true));
    assert_eq!(heartbeat_indicator(Some(999), 10000), ("\u{2726}", true));
    assert_eq!(heartbeat_indicator(Some(1000), 10000), ("\u{25c7}", false));
    assert_eq!(heartbeat_indicator(Some(19999), 10000), ("\u{25c7}", false));
    assert_eq!(heartbeat_indicator(Some(20000), 10000), ("!", false));
    assert_eq!(heartbeat_indicator(Some(5000), 0), ("!", false));
    assert_eq!(heartbeat_indicator(Some(u32::MAX), u32::MAX), ("\u{25c7}", false));
}

#[test]
fn truncation() {
    assert_eq!(truncate_str("short", 10), "short");
    assert_eq!(truncate_str("exactly10!", 10), "exactly10!");
    assert_eq!(truncate_str("a longer piece of text", 10), "a longe...");
    assert_eq!(truncate_str("abcdef", 3), "...");
    assert_eq!(truncate_str("abcdef", 2), "..");
    assert_eq!(truncate_str("abcdef", 0), "");
    assert_eq!(truncate_str("caf\u{e9} au lait", 8), "caf\u{e9}...");
}

#[test]
fn history_browsing() {
    let mut h = History::new();
    assert_eq!(h.history_prev("typed"), None);
    assert_eq!(h.history_next(), None);

    h.add_to_history("one");
    h.add_to_history("two");
    h.add_to_history("two");
    h.add_to_history("");
    h.add_to_history("three");
    assert_eq!(h.entries, vec!["one", "two", "three"]);

    assert_eq!(h.history_prev("typed"), Some("three".to_string()));
    assert_eq!(h.saved, "typed");
    assert_eq!(h.history_prev("three"), Some("two".to_string()));
    assert_eq!(h.history_prev("two"), Some("one".to_string()));
    assert_eq!(h.history_prev("one"), None);
    assert_eq!(h.index, Some(0));
    assert_eq!(h.saved, "typed");

    assert_eq!(h.history_next(), Some("two".to_string()));
    assert_eq!(h.history_next(), Some("three".to_string()));
    assert_eq!(h.history_next(), Some("typed".to_string()));
    assert_eq!(h.index, None);
    assert_eq!(h.history_next(), None);

    h.history_prev("again");
    h.add_to_history("four");
    assert_eq!(h.index, None);
    assert_eq!(h.saved, "");
    assert_eq!(h.entries.len(), 4);
}

#[test]
fn command_results_and_stats() {
    assert!(matches!(CommandResult::Done, CommandResult::Done));
    assert!(matches!(CommandResult::Quit, CommandResult::Quit));
    assert!(format!("{:?}", CommandResult::Info("hello".to_string())).contains("hello"));
    assert!(format!("{:?}", CommandResult::Error("bad".to_string())).contains("bad"));
    assert_eq!(SubStats::default().message_count, 0);
}

fn parsed(line: &str) -> Command {
    parse_command(line.as_bytes())
}

fn at(start: usize, end: usize) -> Span {
    Span { start, end }
}

#[test]
fn commands_without_arguments() {
    assert_eq!(parsed(""), Command::Nothing);
    for word in ["quit", "exit", "q"] {
        assert_eq!(parsed(word), Command::Quit);
    }
    assert_eq!(parsed("about"), Command::About);
    assert_eq!(parsed("clear"), Command::Clear);
    assert_eq!(parsed("help"), Command::Help);
    assert_eq!(parsed("?"), Command::Help);
    assert_eq!(parsed("quit now please"), Command::Quit);
    assert_eq!(parsed("Quit"), Command::Unknown(at(0, 4)));
    assert_eq!(parsed("frobnicate it"), Command::Unknown(at(0, 10)));
}

#[test]
fn send_command() {
    assert_eq!(
        parsed("send /queue/a hello world  again"),
        Command::Send {
            destination: at(5, 13),
            message: at(14, 32),
            common: true,
        }
    );
    assert_eq!(
        parsed("send /odd/place x"),
        Command::Send {
            destination: at(5, 15),
            message: at(16, 17),
            common: false,
        }
    );
    assert_eq!(parsed("send"), Command::Usage(Verb::Send));
    assert_eq!(parsed("send /queue/a"), Command::Usage(Verb::Send));
    assert_eq!(parsed("send queue/a hi"), Command::BadDestination(at(5, 12)));
    // Two spaces in a row make an empty destination.
    assert_eq!(parsed("send  /queue/a"), Command::BadDestination(at(5, 5)));
}

#[test]
fn subscribe_command() {
    for (line, end) in [("sub /topic/t", 12), ("subscribe /topic/t", 18)] {
        let start = end - 8;
        assert_eq!(
            parsed(line),
            Command::Subscribe {
                destination: at(start, end),
                common: true,
            }
        );
    }
    assert_eq!(
        parsed("sub /exchange/x rest"),
        Command::Subscribe {
            destination: at(4, 15),
            common: true,
        }
    );
    assert_eq!(
        parsed("sub /amq/q"),
        Command::Subscribe {
            destination: at(4, 10),
            common: true,
        }
    );
    assert_eq!(
        parsed("sub /topic"),
        Command::Subscribe {
            destination: at(4, 10),
            common: false,
        }
    );
    assert_eq!(parsed("sub"), Command::Usage(Verb::Subscribe));
    assert_eq!(parsed("sub topic"), Command::BadDestination(at(4, 9)));
}

#[test]
fn summary_and_report_commands() {
    assert_eq!(parsed("summary"), Command::Summary(None));
    assert_eq!(parsed("summary out.txt"), Command::Summary(Some(at(8, 15))));
    assert_eq!(parsed("report"), Command::Report(None));
    assert_eq!(parsed("report a b c"), Command::Report(Some(at(7, 8))));
}

#[test]
fn words_and_prefixes() {
    assert_eq!(classify(b""), Verb::Nothing);
    assert_eq!(classify(b"send"), Verb::Send);
    assert_eq!(classify(b"sends"), Verb::Unknown);
    assert!(has_prefix(b"/queue/a", b"/queue/"));
    assert!(has_prefix(b"abc", b""));
    assert!(!has_prefix(b"/que", b"/queue/"));
    assert!(is_common_destination(b"/topic/"));
    assert!(!is_common_destination(b"/topics/x"));
}
