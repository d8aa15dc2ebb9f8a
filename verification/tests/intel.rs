use eintel::chat::Message;
use eintel::intel::{
    assess_thread_level, normalize, possible_names, tokenize, tokens_difference, Event, Intel, IntelError,
    IntelMessage, Outcome, PlayerLocation, ThreatAssetment,
};
use eintel::notifications::{
    decimal, human_system, DebounceMessages, DebouncedMessage, Notification, Notifications,
};
use eintel::universe::{route, Route, System, Universe};

// Twenty systems in a row, N0 - N1 - ... - N19, and the lone system Far.
fn chain() -> Universe {
    let mut systems = Vec::new();
    let mut aliases = Vec::new();
    for i in 0..20 {
        let mut neighbours = Vec::new();
        if i > 0 {
            neighbours.push(format!("s{}", i - 1));
        }
        if i < 19 {
            neighbours.push(format!("s{}", i + 1));
        }
        systems.push(System {
            id: format!("s{}", i),
            name: format!("N{}", i),
            constelation: "C".to_string(),
            region: "R".to_string(),
            neighbours,
        });
        aliases.push((format!("N{}", i), vec![format!("s{}", i)]));
    }
    systems.push(System {
        id: "far".to_string(),
        name: "Far".to_string(),
        constelation: "C".to_string(),
        region: "R".to_string(),
        neighbours: vec![],
    });
    aliases.push(("FAR".to_string(), vec!["far".to_string()]));
    let ships = vec!["TENGU".to_string(), "LOKI".to_string()];
    let stop_words = vec!["IN".to_string(), "THE".to_string(), "ON".to_string()];
    Universe::new(systems, aliases, ships, stop_words).unwrap()
}

fn at(universe: &Universe, player: &str, id: &str) -> PlayerLocation {
    PlayerLocation { player: player.to_string(), system: System::get(universe, id) }
}

fn report(universe: &Universe, text: &str, here: &str) -> IntelMessage {
    IntelMessage::new(universe, text.to_string(), &at(universe, "Alice", here), "Bob".to_string())
}

fn strings(words: &[&str]) -> Vec<String> {
    words.iter().map(|w| w.to_string()).collect()
}

fn way(universe: &Universe, from: &str, to: &str) -> Route {
    route(universe, &System::get(universe, from), &System::get(universe, to)).unwrap()
}

fn line(listener: &str, channel: &str, sender: &str, text: &str) -> Message {
    Message {
        received_at: 1,
        listener: listener.to_string(),
        channel: channel.to_string(),
        sender: sender.to_string(),
        message: text.to_string(),
    }
}

#[test]
fn normalize_drops_marks_and_noise() {
    let universe = chain();
    assert_eq!(normalize(&universe, "N3* Tengu  the on  Bob Smith"), "N3  Bob Smith");
    assert_eq!(normalize(&universe, "the Tengu in"), "");
    assert_eq!(normalize(&universe, ""), "");
    assert_eq!(normalize(&universe, "N3   N4"), "N3   N4");
    assert_eq!(normalize(&universe, "a the b"), "a b");
    assert_eq!(normalize(&universe, "loki"), "");
}

#[test]
fn tokenize_gives_upper_case_tokens_without_noise() {
    let universe = chain();
    assert_eq!(tokenize(&universe, "n3 \t bob?  the *clr* Tengu"), strings(&["N3", "BOB", "CLR"]));
    assert_eq!(tokenize(&universe, "   "), Vec::<String>::new());
    assert_eq!(tokenize(&universe, "ten*gu t?he x"), strings(&["X"]));
}

#[test]
fn possible_names_are_the_clauses_that_name_nothing_known() {
    let universe = chain();
    assert_eq!(possible_names(&universe, "N3  Bob Smith  Tengu  the  Eve"), strings(&["Bob Smith", "Eve"]));
    assert_eq!(possible_names(&universe, "n3"), Vec::<String>::new());
    assert_eq!(possible_names(&universe, ""), Vec::<String>::new());
    assert_eq!(possible_names(&universe, " Bob"), strings(&[" Bob"]));
}

#[test]
fn tokens_difference_takes_every_vocabulary_word() {
    let vocabulary = strings(&["CLR", "CLEAR", "CLEA"]);
    assert_eq!(tokens_difference(&strings(&["CLR"]), &vocabulary), Some(vec![]));
    assert_eq!(tokens_difference(&strings(&["X", "CLR"]), &vocabulary), Some(strings(&["X"])));
    assert_eq!(tokens_difference(&strings(&["CLEAR", "CLR", "X"]), &vocabulary), Some(strings(&["X"])));
    assert_eq!(tokens_difference(&strings(&["CLR", "CLEA", "X"]), &vocabulary), Some(strings(&["X"])));
    assert_eq!(tokens_difference(&strings(&["CLR", "CLR"]), &vocabulary), Some(vec![]));
    assert_eq!(tokens_difference(&strings(&["X", "CLEA", "Y", "CLR"]), &vocabulary), Some(strings(&["X", "Y"])));
    assert_eq!(tokens_difference(&strings(&["X", "Y"]), &vocabulary), None);
    assert_eq!(tokens_difference(&strings(&["clr"]), &vocabulary), None);
    assert_eq!(tokens_difference(&strings(&[]), &vocabulary), None);
    assert_eq!(tokens_difference(&strings(&["A"]), &strings(&[])), None);
}

#[test]
fn threat_follows_the_distance() {
    let universe = chain();
    let level = |to: &str| assess_thread_level(vec![], &Some(way(&universe, "s0", to))).0;
    assert_eq!(level("s0"), ThreatAssetment::ProximityAlertCritical(0));
    assert_eq!(level("s1"), ThreatAssetment::ProximityAlertHigh(1));
    assert_eq!(level("s3"), ThreatAssetment::ProximityAlertHigh(3));
    assert_eq!(level("s4"), ThreatAssetment::ProximityAlertHigh(4));
    assert_eq!(level("s5"), ThreatAssetment::ProximityAlertLow(5));
    assert_eq!(level("s7"), ThreatAssetment::ProximityAlertLow(7));
    assert_eq!(level("s10"), ThreatAssetment::ProximityAlertLow(10));
    assert_eq!(level("s11"), ThreatAssetment::ProximityIrelevant(11));
    assert_eq!(level("s15"), ThreatAssetment::ProximityIrelevant(15));
    assert_eq!(assess_thread_level(strings(&["X"]), &None), (ThreatAssetment::Unknown, strings(&["X"])));
    let kept = assess_thread_level(strings(&["X", "Y"]), &Some(way(&universe, "s0", "s3")));
    assert_eq!(kept, (ThreatAssetment::ProximityAlertHigh(3), strings(&["X", "Y"])));
}

#[test]
fn status_words_override_the_distance() {
    let universe = chain();
    let n2 = System::get(&universe, "s2");
    let n5 = System::get(&universe, "s5");
    let n6 = System::get(&universe, "s6");
    let n15 = System::get(&universe, "s15");
    let clear = assess_thread_level(strings(&["CLR"]), &Some(way(&universe, "s0", "s2")));
    assert_eq!(clear, (ThreatAssetment::NoThreat(n2.clone()), vec![]));
    let edge = assess_thread_level(strings(&["CLEAR", "X"]), &Some(way(&universe, "s0", "s5")));
    assert_eq!(edge, (ThreatAssetment::NoThreat(n5), strings(&["X"])));
    let beyond = assess_thread_level(strings(&["CLEA"]), &Some(way(&universe, "s0", "s6")));
    assert_eq!(beyond, (ThreatAssetment::ProximityIrelevant(6), vec![]));
    let status = assess_thread_level(strings(&["STATUS"]), &Some(way(&universe, "s0", "s15")));
    assert_eq!(status, (ThreatAssetment::StatusRequest(n15), vec![]));
    let near = assess_thread_level(strings(&["STS", "Y"]), &Some(way(&universe, "s0", "s2")));
    assert_eq!(near, (ThreatAssetment::StatusRequest(n2.clone()), strings(&["Y"])));
    let both = assess_thread_level(strings(&["CLR", "STAT"]), &Some(way(&universe, "s0", "s6")));
    assert_eq!(both, (ThreatAssetment::ProximityIrelevant(6), strings(&["STAT"])));
    let late = assess_thread_level(strings(&["STAT", "CLR"]), &Some(way(&universe, "s0", "s6")));
    assert_eq!(late, (ThreatAssetment::ProximityIrelevant(6), strings(&["STAT"])));
    let behind = assess_thread_level(strings(&["FOO", "CLR"]), &Some(way(&universe, "s0", "s2")));
    assert_eq!(behind, (ThreatAssetment::NoThreat(System::get(&universe, "s2")), strings(&["FOO"])));
    let asked = assess_thread_level(strings(&["FOO", "STS", "BAR"]), &Some(way(&universe, "s0", "s6")));
    assert_eq!(asked, (ThreatAssetment::StatusRequest(n6), strings(&["FOO", "BAR"])));
    assert_eq!(ThreatAssetment::NoThreat(n2.clone()).clone(), ThreatAssetment::NoThreat(n2));
}

#[test]
fn report_on_a_line() {
    let universe = chain();
    let seen = report(&universe, "N3  Tengu  Bob Smith nv", "s0");
    assert_eq!(seen.message, "N3  Tengu  Bob Smith nv");
    assert_eq!(seen.player, "Alice");
    assert_eq!(seen.sender, "Bob");
    assert_eq!(seen.threat_assement, ThreatAssetment::ProximityAlertHigh(3));
    assert_eq!(seen.origin, Some(System::get(&universe, "s3")));
    let found = seen.route.clone().unwrap();
    assert_eq!(found.distance, 3);
    assert_eq!(found.source, System::get(&universe, "s0"));
    assert_eq!(found.destination, System::get(&universe, "s3"));
    assert_eq!(found.systems.len(), 4);
    assert_eq!(seen.tokens, strings(&["BOB", "SMITH", "NV"]));
    assert_eq!(seen.involved_players, strings(&["Bob Smith nv"]));
    assert_eq!(seen.clone(), seen);

    assert_eq!(report(&universe, "n0", "s0").threat_assement, ThreatAssetment::ProximityAlertCritical(0));
    assert_eq!(report(&universe, "N7 loki", "s0").threat_assement, ThreatAssetment::ProximityAlertLow(7));
    assert_eq!(report(&universe, "N15", "s0").threat_assement, ThreatAssetment::ProximityIrelevant(15));
    let clear = report(&universe, "N2 clr", "s0");
    assert_eq!(clear.threat_assement, ThreatAssetment::NoThreat(System::get(&universe, "s2")));
    assert_eq!(clear.tokens, Vec::<String>::new());
    let named = report(&universe, "N2 Bob Smith clr", "s0");
    assert_eq!(named.threat_assement, ThreatAssetment::NoThreat(System::get(&universe, "s2")));
    assert_eq!(named.tokens, strings(&["BOB", "SMITH"]));
    let status = report(&universe, "N15 status?", "s0");
    assert_eq!(status.threat_assement, ThreatAssetment::StatusRequest(System::get(&universe, "s15")));
}

#[test]
fn report_without_a_system_is_unknown() {
    let universe = chain();
    let noise = report(&universe, "the Tengu in", "s0");
    assert_eq!(noise.threat_assement, ThreatAssetment::Unknown);
    assert_eq!(noise.route, None);
    assert_eq!(noise.origin, None);
    assert_eq!(noise.tokens, Vec::<String>::new());
    assert_eq!(noise.involved_players, Vec::<String>::new());
    let chatter = report(&universe, "anyone clr", "s0");
    assert_eq!(chatter.threat_assement, ThreatAssetment::Unknown);
    assert_eq!(chatter.tokens, strings(&["ANYONE", "CLR"]));
    let unreachable = report(&universe, "Far clr", "s0");
    assert_eq!(unreachable.threat_assement, ThreatAssetment::Unknown);
    assert_eq!(unreachable.route, None);
    assert_eq!(unreachable.tokens, strings(&["CLR"]));
}

#[test]
fn the_farthest_system_is_reported_and_of_equals_the_last() {
    let universe = chain();
    let far = report(&universe, "N1 N4 N2", "s0");
    assert_eq!(far.origin, Some(System::get(&universe, "s4")));
    assert_eq!(far.threat_assement, ThreatAssetment::ProximityAlertHigh(4));
    assert_eq!(far.tokens, Vec::<String>::new());
    let tie = report(&universe, "N3 N7", "s5");
    assert_eq!(tie.origin, Some(System::get(&universe, "s7")));
    let tie = report(&universe, "N7 N3", "s5");
    assert_eq!(tie.origin, Some(System::get(&universe, "s3")));
    let (found, rest) = IntelMessage::route(&universe, &strings(&["X", "N2", "FAR", "N1"]), &System::get(&universe, "s0"));
    assert_eq!(found.unwrap().destination.id, "s2");
    assert_eq!(rest, strings(&["X"]));
}

#[test]
fn locations_are_tracked_from_the_local_channel() {
    let universe = chain();
    let mut intel = Intel::new();
    assert_eq!(intel.location("Alice"), None);
    assert_eq!(intel.intel_message(&universe, &line("Alice", "Intel", "Bob", "N3")), None);

    let moved = intel.location_message(&universe, &line("Alice", "Local", "EVE System", "Channel changed to Local : n2"));
    assert_eq!(moved, Ok(()));
    assert_eq!(intel.location("Alice"), Some(System::get(&universe, "s2")));
    assert_eq!(intel.location_message(&universe, &line("Alice", "Local", "EVE System", "hello")), Ok(()));
    assert_eq!(intel.location("Alice"), Some(System::get(&universe, "s2")));
    assert_eq!(
        intel.location_message(&universe, &line("Alice", "Local", "EVE System", "Channel changed to Local : Nowhere")),
        Err(IntelError::NoSuchSystem)
    );
    assert_eq!(intel.location("Alice"), Some(System::get(&universe, "s2")));

    let seen = intel.intel_message(&universe, &line("Alice", "Intel", "Bob", "N3")).unwrap();
    assert_eq!(seen.threat_assement, ThreatAssetment::ProximityAlertHigh(1));
    assert_eq!(seen.player, "Alice");
    assert_eq!(seen.sender, "Bob");

    intel.new_location(at(&universe, "Carol", "s9"));
    assert_eq!(intel.location("Carol"), Some(System::get(&universe, "s9")));
    assert_eq!(intel.relocate(&universe, "Carol", None), Ok(()));
    assert_eq!(intel.relocate(&universe, "Carol", Some(vec![Some("whole".to_string())])), Err(IntelError::NoName));
    assert_eq!(
        intel.relocate(&universe, "Carol", Some(vec![Some("whole".to_string()), None])),
        Err(IntelError::NoName)
    );
    assert_eq!(
        intel.relocate(&universe, "Carol", Some(vec![Some("whole".to_string()), Some("n4".to_string())])),
        Ok(())
    );
    assert_eq!(intel.location("Carol"), Some(System::get(&universe, "s4")));
}

#[test]
fn events_are_handled() {
    let universe = chain();
    let mut intel = Intel::new();
    let here = line("Alice", "Local", "EVE System", "Channel changed to Local : N0");
    assert_eq!(intel.handle(&universe, Event::PreviousMessage(here.clone())), Outcome::Moved);
    assert_eq!(intel.location("Alice"), Some(System::get(&universe, "s0")));
    assert_eq!(intel.handle(&universe, Event::PreviousMessage(line("Alice", "Intel", "Bob", "N3"))), Outcome::Ignored);
    assert_eq!(intel.handle(&universe, Event::NewMessage(line("Alice", "Local", "Bob", "hi"))), Outcome::Ignored);
    assert_eq!(
        intel.handle(&universe, Event::NewMessage(line("Alice", "Local", "EVE System", "Channel changed to Local : ??"))),
        Outcome::Failed(IntelError::NoSuchSystem)
    );
    assert_eq!(intel.handle(&universe, Event::NewMessage(line("Zed", "Intel", "Bob", "N3"))), Outcome::Ignored);
    let seen = match intel.handle(&universe, Event::NewMessage(line("Alice", "Intel", "Bob", "N3"))) {
        Outcome::Report(seen) => seen,
        other => panic!("{:?}", other),
    };
    assert_eq!(seen.threat_assement, ThreatAssetment::ProximityAlertHigh(3));
    assert_eq!(intel.handle(&universe, Event::IntelReport(seen.clone())), Outcome::Deliver(seen));
}

#[test]
fn numbers_and_names_as_they_are_told() {
    assert_eq!(decimal(0), "0");
    assert_eq!(decimal(7), "7");
    assert_eq!(decimal(10), "10");
    assert_eq!(decimal(409), "409");
    assert_eq!(decimal(65535), "65535");
    let named = |name: &str| System {
        id: "x".to_string(),
        name: name.to_string(),
        constelation: "C".to_string(),
        region: "R".to_string(),
        neighbours: vec![],
    };
    assert_eq!(human_system(&named("8S-28X")), "8S tac 2");
    assert_eq!(human_system(&named("O-CNPR")), "O tac C");
    assert_eq!(human_system(&named("Jita")), "Jit");
    assert_eq!(human_system(&named("AB")), "AB");
    assert_eq!(human_system(&named("AB-")), "AB tac ");
    assert_eq!(human_system(&named("")), "");
    assert_eq!(human_system(&named("---")), " tac  tac  tac ");
}

#[test]
fn notifications_say_what_matters() {
    let universe = chain();
    assert_eq!(
        Notification::from(&report(&universe, "N2 clr", "s0")),
        Notification::Sound("N2 is clear".to_string())
    );
    assert_eq!(
        Notification::from(&report(&universe, "N0", "s0")),
        Notification::Sound("Alice threat in local, dock immediately".to_string())
    );
    assert_eq!(
        Notification::from(&report(&universe, "N3", "s0")),
        Notification::Sound("threat 3 jumps from Alice in N3".to_string())
    );
    assert_eq!(
        Notification::from(&report(&universe, "N10", "s0")),
        Notification::Desktop("threat 10 jumps from Alice in N10".to_string())
    );
    assert_eq!(Notification::from(&report(&universe, "N15", "s0")), Notification::Nothing);
    assert_eq!(Notification::from(&report(&universe, "N3 status", "s0")), Notification::Nothing);
    assert_eq!(Notification::from(&report(&universe, "nothing", "s0")), Notification::Nothing);
}

#[test]
fn queue_keeps_the_farther_of_two_reports_with_the_same_text() {
    let universe = chain();
    let mut queue = Notifications::new();
    assert_eq!(queue.pending(), 0);
    queue.deliver(report(&universe, "N5", "s4"));
    assert_eq!(queue.pending(), 1);
    queue.deliver(report(&universe, "N5", "s2"));
    assert_eq!(queue.pending(), 1);
    queue.deliver(report(&universe, "N5", "s3"));
    assert_eq!(queue.pending(), 1);
    queue.deliver(report(&universe, "N6", "s6"));
    assert_eq!(queue.pending(), 2);
    let told = queue.tick();
    assert_eq!(queue.pending(), 0);
    assert_eq!(told.len(), 2);
    assert_eq!(told[0].message, "N5");
    assert_eq!(told[0].notification, Notification::Sound("threat 3 jumps from Alice in N5".to_string()));
    assert_eq!(told[1].message, "N6");
    assert_eq!(told[1].notification, Notification::Sound("Alice threat in local, dock immediately".to_string()));
    assert!(queue.tick().is_empty());
}

#[test]
fn queue_takes_the_later_of_equals_and_a_route_over_none() {
    let universe = chain();
    let mut queue = Notifications::new();
    let mut first = report(&universe, "N5", "s4");
    first.player = "First".to_string();
    let mut second = report(&universe, "N5", "s6");
    second.player = "Second".to_string();
    assert!(queue.handle(DebounceMessages::Intel(first)).is_empty());
    assert!(queue.handle(DebounceMessages::Intel(second)).is_empty());
    let told = queue.handle(DebounceMessages::Tick);
    assert_eq!(told.len(), 1);
    assert_eq!(told[0].notification, Notification::Sound("threat 1 jumps from Second in N5".to_string()));

    queue.deliver(report(&universe, "Far", "s0"));
    queue.deliver(report(&universe, "Far", "far"));
    assert_eq!(queue.pending(), 1);
    queue.deliver(report(&universe, "Far", "s0"));
    let told = queue.handle(DebounceMessages::Tick);
    assert_eq!(told.len(), 1);
    assert_eq!(told[0].message, "Far");
    assert_eq!(told[0].notification, Notification::Nothing);
    assert!(queue.handle(DebounceMessages::Tick).is_empty());
    let kept = DebouncedMessage::new(report(&universe, "N1", "s0"));
    assert_eq!(kept.0.message, "N1");
}

#[test]
fn alerts_name_the_whole_system() {
    let systems = vec![
        System {
            id: "a".to_string(),
            name: "Amamake".to_string(),
            constelation: "C".to_string(),
            region: "R".to_string(),
            neighbours: vec!["j".to_string()],
        },
        System {
            id: "j".to_string(),
            name: "Jita".to_string(),
            constelation: "C".to_string(),
            region: "R".to_string(),
            neighbours: vec!["a".to_string(), "o".to_string()],
        },
        System {
            id: "o".to_string(),
            name: "O-CNPR".to_string(),
            constelation: "C".to_string(),
            region: "R".to_string(),
            neighbours: vec!["j".to_string()],
        },
    ];
    let aliases = vec![
        ("JITA".to_string(), vec!["j".to_string()]),
        ("O-CNPR".to_string(), vec!["o".to_string()]),
        ("AMAMAKE".to_string(), vec!["a".to_string()]),
    ];
    let universe = Universe::new(systems, aliases, vec![], vec![]).unwrap();
    let high = report(&universe, "Jita", "a");
    assert_eq!(high.threat_assement, ThreatAssetment::ProximityAlertHigh(1));
    assert_eq!(Notification::from(&high), Notification::Sound("threat 1 jumps from Alice in Jita".to_string()));
    let mut low = report(&universe, "o-cnpr", "a");
    assert_eq!(Notification::from(&low), Notification::Sound("threat 2 jumps from Alice in O-CNPR".to_string()));
    low.threat_assement = ThreatAssetment::ProximityAlertLow(7);
    assert_eq!(Notification::from(&low), Notification::Desktop("threat 7 jumps from Alice in O-CNPR".to_string()));
    let mut same = high.clone();
    same.threat_assement = ThreatAssetment::ProximityAlertLow(1);
    assert_eq!(Notification::from(&same), Notification::Desktop("threat 1 jumps from Alice in Jita".to_string()));
    same.origin = None;
    assert_eq!(Notification::from(&same), Notification::Desktop("threat 1 jumps from Alice in ".to_string()));
    assert_eq!(
        Notification::from(&report(&universe, "amamake clr", "j")),
        Notification::Sound("Ama is clear".to_string())
    );
    assert_eq!(
        Notification::from(&report(&universe, "O-CNPR clear", "j")),
        Notification::Sound("O tac C is clear".to_string())
    );
}
