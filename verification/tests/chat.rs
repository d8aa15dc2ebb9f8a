use eintel::channels::{
    figureout_channel, is_relevant_message, relevant_channel_path, restore_channels, sort_by_time, Channels,
};
use eintel::chat::{Channel, Header, HeaderError, Message, MessageError};
use eintel::config::Config;
use eintel::header::{Fields, Length};
use eintel::text::is_whitespace;

fn utf16(text: &str) -> Vec<u8> {
    let mut bytes = Vec::new();
    for unit in text.encode_utf16() {
        bytes.push((unit & 0xff) as u8);
        bytes.push((unit >> 8) as u8);
    }
    bytes
}

fn head(channel_id: &str, name: &str, listener: &str, started: &str) -> String {
    let rule = "---------------------------------------------------------------";
    format!(
        "\u{feff}\r\n\r\n  {}\r\n  Channel ID:      {}\r\n  Channel Name:    {}\r\n  Listener:        {}\r\n  Session started: {}\r\n  {}\r\n\r\n",
        rule, channel_id, name, listener, started, rule
    )
}

fn log(name: &str, listener: &str, started: &str, lines: &[&str]) -> Vec<u8> {
    let mut text = head("local", name, listener, started);
    for line in lines {
        text.push_str(&format!("\u{feff}{}\r\n", line));
    }
    utf16(&text)
}

fn header(name: &str, listener: &str, started_at: i64) -> Header {
    Header {
        id: "id".to_string(),
        name: name.to_string(),
        listener: listener.to_string(),
        started_at,
        offset: 10,
    }
}

fn handle(name: &str, listener: &str, started_at: i64, path: &str) -> Channel {
    Channel { header: header(name, listener, started_at), path: path.to_string(), offset: 10 }
}

fn message(at: i64, listener: &str, channel: &str, sender: &str, text: &str) -> Message {
    Message {
        received_at: at,
        listener: listener.to_string(),
        channel: channel.to_string(),
        sender: sender.to_string(),
        message: text.to_string(),
    }
}

#[test]
fn scanner_steps_through_the_mark() {
    let start = Length::ExpectingFF;
    assert_eq!(start.parse(0x00), Length::ExpectingFF);
    assert_eq!(start.parse(0xfe), Length::ExpectingFF);
    assert_eq!(start.parse(0x5b), Length::ExpectingFF);
    let second = start.parse(0xff);
    assert_eq!(second, Length::ExpectingFE);
    assert_eq!(second.parse(0xff), Length::ExpectingFE);
    assert_eq!(second.parse(0x5b), Length::ExpectingFF);
    let third = second.parse(0xfe);
    assert_eq!(third, Length::Expecting5B);
    assert_eq!(third.parse(0xff), Length::ExpectingFE);
    assert_eq!(third.parse(0xfe), Length::ExpectingFF);
    let found = third.parse(0x5b);
    assert_eq!(found, Length::PositionFound);
    assert!(found.done());
    assert!(!third.done());
    assert_eq!(found.parse(0xff), Length::ExpectingFE);
    assert_eq!(found.parse(0x41), Length::ExpectingFF);
}

#[test]
fn scanner_finds_the_head_length() {
    assert_eq!(Length::from(&[0x41, 0x00, 0x42, 0x00, 0xff, 0xfe, 0x5b, 0x00]), Some(4));
    assert_eq!(Length::from(&[0xff, 0xfe, 0x5b]), Some(0));
    assert_eq!(Length::from(&[0xff, 0xfe, 0x0d, 0x00, 0xff, 0xfe, 0x5b, 0x00, 0xff, 0xfe, 0x5b]), Some(4));
    assert_eq!(Length::from(&[]), None);
    assert_eq!(Length::from(&[0xff, 0xfe]), None);
    assert_eq!(Length::from(&[0xff, 0xfe, 0x5a, 0x5b]), None);
    assert_eq!(Length::from(&[0xfe, 0x5b, 0xff]), None);
}

#[test]
fn scanner_restarts_on_a_broken_partial_match() {
    assert_eq!(Length::from(&[0xff, 0xff, 0xfe, 0x5b]), Some(1));
    assert_eq!(Length::from(&[0xff, 0xfe, 0xff, 0xfe, 0x5b]), Some(2));
    assert_eq!(Length::from(&[0x00, 0xff, 0xff, 0xff, 0xfe, 0x5b, 0x00]), Some(3));
}

#[test]
fn field_parser_reads_the_four_fields() {
    let fields = Fields::from(
        "-----\nChannel ID: local\nChannel Name: Local\nListener: Alice\nSession started: 2024.01.01 00:00:00\n-----",
    );
    assert_eq!(fields.len(), 4);
    assert_eq!(fields.get("Channel ID"), Some(&"local".to_string()));
    assert_eq!(fields.get("Channel Name"), Some(&"Local".to_string()));
    assert_eq!(fields.get("Listener"), Some(&"Alice".to_string()));
    assert_eq!(fields.get("Session started"), Some(&"2024.01.01 00:00:00".to_string()));
    let header = Header::from_text(
        "-----\nChannel ID: local\nChannel Name: Local\nListener: Alice\nSession started: 2024.01.01 00:00:00\n-----",
        40,
    )
    .unwrap();
    assert_eq!(header.started_at, 1704067200);
    assert_eq!(header.len(), 40);
}

#[test]
fn field_parser_follows_its_states() {
    let state = Fields::ExpectingSeparator;
    let state = state.line("Channel ID: early");
    assert_eq!(state, Fields::ExpectingSeparator);
    let state = state.line("------");
    assert_eq!(state, Fields::ExpectingField);
    let state = state.line("no colon here");
    assert_eq!(state, Fields::ExpectingField);
    let state = state.line("Key :  some : value ");
    assert_eq!(state, Fields::Field("Key".to_string(), "some : value".to_string()));
    assert_eq!(state.clone(), state);
    let state = state.line("Empty:");
    assert_eq!(state, Fields::Field("Empty".to_string(), "".to_string()));
    let state = state.line("-");
    assert_eq!(state, Fields::Done);
    let state = state.line("Late: field");
    assert_eq!(state, Fields::Done);
    assert_eq!(Fields::ExpectingField.line("---"), Fields::Done);
}

#[test]
fn field_parser_skips_blank_lines_and_what_stands_outside_the_rules() {
    let fields = Fields::from("Before: no\r\n\r\n   ---\r\n  A: 1 \r\n \t \r\n  A: 2\r\n  B : x:y\r\n---\r\nAfter: no\r\n");
    assert_eq!(fields.len(), 2);
    assert_eq!(fields.get("A"), Some(&"2".to_string()));
    assert_eq!(fields.get("B"), Some(&"x:y".to_string()));
    assert_eq!(fields.get("Before"), None);
    assert_eq!(fields.get("After"), None);
    assert_eq!(Fields::from("").len(), 0);
}

#[test]
fn header_is_read_from_the_bytes_of_a_log() {
    let mem = log("Local", "Alice", "2024.01.01 00:00:00", &["[ 2024.01.01 00:00:05 ] EVE System > hello"]);
    let text = head("local", "Local", "Alice", "2024.01.01 00:00:00");
    let header = Header::from(&mem).unwrap();
    assert_eq!(header.id, "local");
    assert_eq!(header.name, "Local");
    assert_eq!(header.listener, "Alice");
    assert_eq!(header.started_at, 1704067200);
    assert_eq!(header.offset, utf16(&text).len());
    assert_eq!(header.len(), header.offset);
    assert_eq!(header.clone(), header);
    let later = Header::from(&log("Local", "Alice", "2024.01.01 00:01:00", &["[ x"])).unwrap();
    assert_eq!(later.started_at, 1704067260);
}

#[test]
fn header_errors_name_what_is_missing() {
    assert_eq!(Header::from(&utf16("no mark in here")), Err(HeaderError::NoMarker));
    assert_eq!(Header::from(&[]), Err(HeaderError::NoMarker));
    let rule = "-----";
    let with = |fields: &str| utf16(&format!("{}\r\n{}{}\r\n\u{feff}[ line", rule, fields, rule));
    assert_eq!(
        Header::from(&with("Channel ID: a\r\nChannel Name: b\r\nListener: c\r\n")),
        Err(HeaderError::NoSessionStarted)
    );
    assert_eq!(
        Header::from(&with("Session started: yesterday\r\nChannel ID: a\r\nChannel Name: b\r\nListener: c\r\n")),
        Err(HeaderError::BadSessionStarted)
    );
    assert_eq!(
        Header::from(&with("Session started: 2024.01.01 00:00:00\r\nChannel Name: b\r\nListener: c\r\n")),
        Err(HeaderError::NoChannelId)
    );
    assert_eq!(
        Header::from(&with("Session started: 2024.01.01 00:00:00\r\nChannel ID: a\r\nListener: c\r\n")),
        Err(HeaderError::NoChannelName)
    );
    assert_eq!(
        Header::from(&with("Session started: 2024.01.01 00:00:00\r\nChannel ID: a\r\nChannel Name: b\r\n")),
        Err(HeaderError::NoListener)
    );
    assert!(Header::from(&with(
        "Session started: 2024.01.01 00:00:00\r\nChannel ID: a\r\nChannel Name: b\r\nListener: c\r\n"
    ))
    .is_ok());
    assert_eq!(Header::from_text("", 0), Err(HeaderError::NoSessionStarted));
}

#[test]
fn message_is_read_from_a_line() {
    let info = header("Intel", "Alice", 0);
    let message = Message::from(&info, "[ 2024.01.01 00:00:05 ] Bob Smith > Alpha  Tengu > nv ").unwrap();
    assert_eq!(message.received_at, 1704067205);
    assert_eq!(message.listener, "Alice");
    assert_eq!(message.channel, "Intel");
    assert_eq!(message.sender, "Bob Smith > Alpha  Tengu");
    assert_eq!(message.message, "nv");
    assert!(!message.is_local_channel());
    assert_eq!(message.clone(), message);
    let plain = Message::from(&info, "[ 2024.01.01 00:00:05 ] Bob > Alpha clr").unwrap();
    assert_eq!(plain.sender, "Bob");
    assert_eq!(plain.message, "Alpha clr");
    let empty = Message::from(&info, "[ 2024.01.01 00:00:05 ] Bob > ").unwrap();
    assert_eq!(empty.message, "");
    assert_eq!(Message::from(&info, "Bob > Alpha clr"), Err(MessageError::NoMatch));
    assert_eq!(Message::from(&info, ""), Err(MessageError::NoMatch));
    assert_eq!(Message::from(&info, "[ 2024.13.41 00:00:05 ] Bob > x"), Err(MessageError::BadTimestamp));
    let local = Message::from(&header("Local", "Alice", 0), "[ 2024.01.01 00:00:05 ] EVE System > x").unwrap();
    assert!(local.is_local_channel());
}

#[test]
fn message_from_groups_wants_all_groups_and_a_time() {
    let info = header("Intel", "Alice", 0);
    let groups = |parts: &[Option<&str>]| Some(parts.iter().map(|p| p.map(|t| t.to_string())).collect::<Vec<_>>());
    let full = groups(&[Some("whole"), Some("time"), Some("Bob"), Some("  text  ")]);
    let message = Message::from_groups(&info, full.clone(), Some(7)).unwrap();
    assert_eq!(message.received_at, 7);
    assert_eq!(message.sender, "Bob");
    assert_eq!(message.message, "text");
    assert_eq!(Message::from_groups(&info, full, None), Err(MessageError::BadTimestamp));
    assert_eq!(Message::from_groups(&info, None, Some(7)), Err(MessageError::NoMatch));
    assert_eq!(
        Message::from_groups(&info, groups(&[Some("w"), Some("t"), Some("s")]), Some(7)),
        Err(MessageError::NoMatch)
    );
    assert_eq!(
        Message::from_groups(&info, groups(&[Some("w"), Some("t"), None, Some("m")]), Some(7)),
        Err(MessageError::NoMatch)
    );
}

#[test]
fn handle_reads_only_what_is_new() {
    let first = ["[ 2024.01.01 00:00:05 ] Bob > Alpha clr", "garbage", "[ 2024.01.01 00:00:07 ] Eve >  Beta  "];
    let mem = log("Intel", "Alice", "2024.01.01 00:00:00", &first);
    let mut channel = Channel::from("logs/Intel_1.txt", &mem).unwrap();
    assert_eq!(channel.path, "logs/Intel_1.txt");
    assert_eq!(channel.offset, channel.header.offset);
    assert_eq!(channel.clone(), channel);
    let messages = channel.messages(&mem);
    assert_eq!(messages.len(), 2);
    assert_eq!(messages[0].sender, "Bob");
    assert_eq!(messages[0].message, "Alpha clr");
    assert_eq!(messages[0].received_at, 1704067205);
    assert_eq!(messages[1].sender, "Eve");
    assert_eq!(messages[1].message, "Beta");
    assert_eq!(channel.offset, mem.len());

    let again = channel.messages(&mem);
    assert!(again.is_empty());
    assert_eq!(channel.offset, mem.len());

    let mut grown = mem.clone();
    grown.extend(utf16("\u{feff}[ 2024.01.01 00:00:09 ] Bob > Gamma\r\n"));
    let messages = channel.messages(&grown);
    assert_eq!(messages.len(), 1);
    assert_eq!(messages[0].message, "Gamma");
    assert_eq!(messages[0].listener, "Alice");
    assert_eq!(messages[0].channel, "Intel");
    assert_eq!(channel.offset, grown.len());
    assert!(channel.messages(&grown).is_empty());

    assert!(channel.messages(&mem).is_empty());
    assert_eq!(channel.offset, grown.len());
    assert_eq!(Channel::from("x", &utf16("nothing")), Err(HeaderError::NoMarker));
}

#[test]
fn fast_forward_never_goes_back() {
    let mut channel = handle("Intel", "Alice", 5, "a");
    channel.fast_forward(100);
    assert_eq!(channel.offset, 100);
    channel.fast_forward(40);
    assert_eq!(channel.offset, 100);
    assert_eq!(channel.header, header("Intel", "Alice", 5));
}

#[test]
fn store_keeps_the_handle_of_the_latest_session() {
    let mut channels = Channels::new().player("Alice").name("Intel");
    assert_eq!(channels.len(), 0);
    let first = figureout_channel(handle("Intel", "Alice", 10, "first"), &mut channels);
    assert_eq!(first.path, "first");
    channels.replace(first);
    assert_eq!(channels.len(), 1);

    let stale = figureout_channel(handle("Intel", "Alice", 9, "stale"), &mut channels);
    assert_eq!(stale.path, "first");
    assert_eq!(channels.len(), 0);
    channels.replace(stale);

    let same = figureout_channel(handle("Intel", "Alice", 10, "same"), &mut channels);
    assert_eq!(same.path, "first");
    channels.replace(same);

    let newer = figureout_channel(handle("Intel", "Alice", 11, "newer"), &mut channels);
    assert_eq!(newer.path, "newer");
    channels.replace(newer);
    assert_eq!(channels.len(), 1);

    channels.replace(handle("Intel", "Bob", 1, "bob"));
    channels.replace(handle("Local", "Alice", 1, "local"));
    assert_eq!(channels.len(), 3);
    let name = "Intel".to_string();
    assert_eq!(channels.get(&name, &"Alice".to_string()).unwrap().path, "newer");
    assert_eq!(channels.get(&name, &"Bob".to_string()).unwrap().path, "bob");
    assert!(channels.get(&name, &"Carol".to_string()).is_none());
    assert_eq!(channels.take(&name, &"Bob".to_string()).unwrap().path, "bob");
    assert!(channels.take(&name, &"Bob".to_string()).is_none());
    assert_eq!(channels.len(), 2);
    let mut paths: Vec<String> = channels.handles().into_iter().map(|c| c.path).collect();
    paths.sort();
    assert_eq!(paths, vec!["local", "newer"]);
}

#[test]
fn restore_takes_the_latest_of_each_channel() {
    let mut channels = Channels::new();
    restore_channels(
        &mut channels,
        vec![
            handle("Intel", "Alice", 10, "a10"),
            handle("Intel", "Bob", 3, "b3"),
            handle("Intel", "Alice", 12, "a12"),
            handle("Intel", "Alice", 11, "a11"),
            handle("Intel", "Bob", 3, "b3-again"),
        ],
    );
    assert_eq!(channels.len(), 2);
    let name = "Intel".to_string();
    assert_eq!(channels.get(&name, &"Alice".to_string()).unwrap().path, "a12");
    assert_eq!(channels.get(&name, &"Bob".to_string()).unwrap().path, "b3");
}

#[test]
fn watched_channels_and_paths() {
    let channels = Channels::new().player("Alice").name("Intel");
    assert!(channels.is_relevant_channel(&handle("Intel", "Alice", 1, "p")));
    assert!(channels.is_relevant_channel(&handle("Local", "Alice", 1, "p")));
    assert!(!channels.is_relevant_channel(&handle("Intel", "Bob", 1, "p")));
    assert!(!channels.is_relevant_channel(&handle("Corp", "Alice", 1, "p")));
    let names = vec!["Local".to_string(), "Home Intel".to_string()];
    assert!(relevant_channel_path("Local_20240101_000000", &names));
    assert!(relevant_channel_path("Home Intel_20240101_000000", &names));
    assert!(relevant_channel_path("Local", &names));
    assert!(!relevant_channel_path("Loca", &names));
    assert!(!relevant_channel_path("Corp_20240101_000000", &names));
    assert!(!relevant_channel_path("", &names));
    assert!(!relevant_channel_path("Local", &vec![]));
}

#[test]
fn relevant_messages() {
    let conf = Config::new("/logs").player("Alice").channel("Intel");
    assert_eq!(conf.channels, vec!["Local", "Intel"]);
    assert_eq!(conf.players, vec!["Alice"]);
    assert_eq!(conf.chat_logs, "/logs");
    assert_eq!(conf.clone(), conf);
    assert!(is_relevant_message(&message(1, "Alice", "Local", "EVE System", "x"), &conf));
    assert!(!is_relevant_message(&message(1, "Bob", "Local", "EVE System", "x"), &conf));
    assert!(!is_relevant_message(&message(1, "Alice", "Local", "Carol", "x"), &conf));
    assert!(is_relevant_message(&message(1, "Alice", "Intel", "Carol", "x"), &conf));
    assert!(is_relevant_message(&message(1, "Bob", "Intel", "Carol", "x"), &conf));
    assert!(!is_relevant_message(&message(1, "Alice", "Intel", "EVE System", "x"), &conf));
}

#[test]
fn messages_are_sorted_by_time_and_keep_their_order() {
    let messages = vec![
        message(5, "a", "c", "s", "five"),
        message(3, "a", "c", "s", "three"),
        message(5, "a", "c", "s", "five again"),
        message(1, "a", "c", "s", "one"),
        message(3, "a", "c", "s", "three again"),
    ];
    let sorted = sort_by_time(&messages);
    let texts: Vec<&str> = sorted.iter().map(|m| m.message.as_str()).collect();
    assert_eq!(texts, vec!["one", "three", "three again", "five", "five again"]);
    assert!(sort_by_time(&vec![]).is_empty());
}

#[test]
fn only_watched_channels_are_restored() {
    let found = || {
        vec![
            handle("Intel", "Alice", 10, "a10"),
            handle("Corp", "Alice", 50, "corp"),
            handle("Intel", "Bob", 3, "b3"),
            handle("Intel", "Alice", 12, "a12"),
            handle("Local", "Alice", 7, "local"),
            handle("Intel", "Alice", 12, "a12-again"),
            handle("Intel", "Alice", 11, "a11"),
        ]
    };
    let watch = Channels::new().player("Alice").name("Intel");
    let mut latest: Vec<(String, i64)> = watch.all(found()).into_iter().map(|c| (c.path, c.header.started_at)).collect();
    latest.sort();
    assert_eq!(latest, vec![("a12".to_string(), 12), ("local".to_string(), 7)]);
    assert!(watch.all(vec![]).is_empty());
    assert!(Channels::new().all(found()).is_empty());
    assert_eq!(watch.len(), 0);

    let mut channels = Channels::new().player("Alice").name("Intel");
    channels.restore(found());
    assert_eq!(channels.len(), 2);
    assert_eq!(channels.get(&"Intel".to_string(), &"Alice".to_string()).unwrap().path, "a12");
    assert_eq!(channels.get(&"Local".to_string(), &"Alice".to_string()).unwrap().path, "local");
    assert!(channels.get(&"Intel".to_string(), &"Bob".to_string()).is_none());
    assert!(channels.get(&"Corp".to_string(), &"Alice".to_string()).is_none());
    channels.restore(vec![handle("Intel", "Alice", 5, "old"), handle("Local", "Alice", 8, "local8")]);
    assert_eq!(channels.get(&"Intel".to_string(), &"Alice".to_string()).unwrap().path, "a12");
    assert_eq!(channels.get(&"Local".to_string(), &"Alice".to_string()).unwrap().path, "local8");
}

#[test]
fn select_passes_over_what_is_not_watched() {
    let mut channels = Channels::new().player("Alice").name("Intel");
    assert!(channels.select(handle("Intel", "Bob", 1, "bob")).is_none());
    assert!(channels.select(handle("Corp", "Alice", 1, "corp")).is_none());
    assert_eq!(channels.len(), 0);
    let first = channels.select(handle("Intel", "Alice", 10, "first")).unwrap();
    assert_eq!(first.path, "first");
    channels.replace(first);
    let stale = channels.select(handle("Intel", "Alice", 9, "stale")).unwrap();
    assert_eq!(stale.path, "first");
    assert_eq!(channels.len(), 0);
    channels.replace(stale);
    let newer = channels.select(handle("Intel", "Alice", 11, "newer")).unwrap();
    assert_eq!(newer.path, "newer");
}

#[test]
fn white_space_around_fields_and_lines_is_dropped() {
    let fields = Fields::from("---\n\u{a0}Key\u{2003}:\u{3000}value\u{85}\n\u{feff}Other: \u{feff}\n---");
    assert_eq!(fields.get("Key"), Some(&"value".to_string()));
    assert_eq!(fields.get("\u{feff}Other"), Some(&"\u{feff}".to_string()));
    assert_eq!(fields.len(), 2);
}

#[test]
fn white_space_is_what_the_standard_library_takes_for_it() {
    for code in 0..=0x10ffffu32 {
        if let Some(c) = char::from_u32(code) {
            assert_eq!(is_whitespace(c), c.is_whitespace(), "{:x}", code);
        }
    }
}

#[test]
fn exactly_the_white_space_characters_are_trimmed() {
    let value_of = |c: char| match Fields::ExpectingField.line(&format!("k:{}v{}", c, c)) {
        Fields::Field(_, value) => value,
        other => panic!("{:?}", other),
    };
    let mut white = vec![0x20u32, 0x85, 0xa0, 0x1680, 0x2028, 0x2029, 0x202f, 0x205f, 0x3000];
    white.extend(0x09..=0x0d);
    white.extend(0x2000..=0x200a);
    assert_eq!(white.len(), 25);
    for code in white {
        let c = char::from_u32(code).unwrap();
        assert_eq!(value_of(c), "v", "{:x}", code);
    }
    let black = [
        0x08u32, 0x0e, 0x1f, 0x21, 0x41, 0x7f, 0x84, 0x86, 0x9f, 0xa1, 0x167f, 0x1681, 0x180e, 0x1fff, 0x200b,
        0x2027, 0x202a, 0x202e, 0x2030, 0x205e, 0x2060, 0x2fff, 0x3001, 0xfeff,
    ];
    for code in black {
        let c = char::from_u32(code).unwrap();
        assert_eq!(value_of(c), format!("{}v{}", c, c), "{:x}", code);
    }
}
