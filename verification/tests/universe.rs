use eintel::graph::{Graph, Step};
use eintel::universe::{is_stop_word, route, ship_exists, System, Universe, UniverseError};

fn system(id: &str, name: &str, neighbours: &[&str]) -> System {
    System {
        id: id.to_string(),
        name: name.to_string(),
        constelation: "C".to_string(),
        region: "R".to_string(),
        neighbours: neighbours.iter().map(|n| n.to_string()).collect(),
    }
}

// A chain 1 - 2 - 3 - 4, a triangle 4 - 5 - 6 - 4, the lone pair 7 - 8 and
// the isolated system 9.
fn fixture() -> Universe {
    let systems = vec![
        system("1", "Alpha", &["2"]),
        system("2", "Beta", &["1", "3"]),
        system("3", "Gamma", &["2", "4"]),
        system("4", "Delta", &["3", "5", "6"]),
        system("5", "Epsilon", &["4", "6"]),
        system("6", "Zeta", &["5", "4"]),
        system("7", "Eta", &["8"]),
        system("8", "Theta", &["7"]),
        system("9", "Iota", &[]),
    ];
    let aliases = vec![
        ("ALPHA".to_string(), vec!["1".to_string()]),
        ("BETA".to_string(), vec!["2".to_string()]),
        ("ZETA".to_string(), vec!["unknown".to_string(), "6".to_string()]),
        ("ETA".to_string(), vec!["7".to_string()]),
        ("GHOST".to_string(), vec!["nowhere".to_string()]),
        ("BETA".to_string(), vec!["2".to_string(), "3".to_string()]),
    ];
    let ships = vec!["TENGU".to_string(), "LOKI".to_string()];
    let stop_words = vec!["IN".to_string(), "THE".to_string()];
    Universe::new(systems, aliases, ships, stop_words).unwrap()
}

fn names(systems: &[System]) -> Vec<String> {
    systems.iter().map(|s| s.name.clone()).collect()
}

#[test]
fn graph_route_is_shortest() {
    let graph = Graph::new(vec![vec![1, 2], vec![0, 3], vec![0, 3], vec![1, 2, 4], vec![3], vec![]]).unwrap();
    assert_eq!(graph.len(), 6);
    let path = graph.route(0, 4).unwrap();
    assert_eq!(path.len(), 4);
    assert_eq!(path[0], 0);
    assert_eq!(path[3], 4);
    assert!(path[1] == 1 || path[1] == 2);
    assert_eq!(path[2], 3);
    assert_eq!(graph.route(4, 0).unwrap().len(), 4);
    assert_eq!(graph.route(2, 2), Some(vec![2]));
    assert_eq!(graph.route(0, 5), None);
    assert_eq!(graph.route(5, 0), None);
    assert_eq!(graph.route(0, 17), None);
}

#[test]
fn graph_walk_reports_the_meeting_node() {
    let graph = Graph::new(vec![vec![1], vec![0, 2], vec![1]]).unwrap();
    let (pred, succ, met) = graph.walk(0, 2);
    assert_eq!(met, Some(2));
    assert_eq!(pred, vec![Step::Origin, Step::Via(0), Step::Via(1)]);
    assert_eq!(succ, vec![Step::Unseen, Step::Unseen, Step::Origin]);
    let graph = Graph::new(vec![vec![1], vec![0, 2, 3], vec![1], vec![1, 4], vec![3]]).unwrap();
    let (pred, succ, met) = graph.walk(0, 4);
    assert_eq!(met, Some(3));
    assert_eq!(pred, vec![Step::Origin, Step::Via(0), Step::Via(1), Step::Via(1), Step::Unseen]);
    assert_eq!(succ, vec![Step::Unseen, Step::Unseen, Step::Unseen, Step::Via(4), Step::Origin]);
    let (pred, succ, met) = graph.walk(1, 1);
    assert_eq!(met, Some(1));
    assert_eq!(pred, vec![Step::Unseen, Step::Origin, Step::Unseen, Step::Unseen, Step::Unseen]);
    assert_eq!(succ, vec![Step::Unseen, Step::Origin, Step::Unseen, Step::Unseen, Step::Unseen]);
    let (pred, succ, met) = graph.walk(1, 7);
    assert_eq!(met, None);
    assert_eq!(pred, vec![Step::Unseen; 5]);
    assert_eq!(succ, vec![Step::Unseen; 5]);
    let apart = Graph::new(vec![vec![1], vec![0], vec![]]).unwrap();
    let (pred, succ, met) = apart.walk(0, 2);
    assert_eq!(met, None);
    assert_eq!(pred, vec![Step::Origin, Step::Via(0), Step::Unseen]);
    assert_eq!(succ, vec![Step::Unseen, Step::Unseen, Step::Origin]);
    assert_eq!(graph.succ(1), &vec![0, 2, 3]);
    assert_eq!(graph.pred(4), &vec![3]);
}

#[test]
fn graph_refuses_one_way_and_dangling_links() {
    assert!(Graph::new(vec![vec![1], vec![]]).is_none());
    assert!(Graph::new(vec![vec![3]]).is_none());
    assert!(Graph::new(vec![vec![0]]).is_some());
    assert!(Graph::new(vec![]).is_some());
}

#[test]
fn universe_refuses_bad_snapshots() {
    let twice = vec![system("1", "A", &[]), system("1", "B", &[])];
    assert_eq!(Universe::new(twice, vec![], vec![], vec![]).err(), Some(UniverseError::DuplicateSystem));
    let dangling = vec![system("1", "A", &["2"])];
    assert_eq!(Universe::new(dangling, vec![], vec![], vec![]).err(), Some(UniverseError::UnknownNeighbour));
    let one_way = vec![system("1", "A", &["2"]), system("2", "B", &[])];
    assert_eq!(Universe::new(one_way, vec![], vec![], vec![]).err(), Some(UniverseError::OneWayLink));
}

#[test]
fn find_is_case_insensitive_and_takes_the_first_known_candidate() {
    let universe = fixture();
    assert_eq!(universe.len(), 9);
    assert_eq!(System::find(&universe, "alpha").unwrap().id, "1");
    assert_eq!(System::find(&universe, "Alpha").unwrap().name, "Alpha");
    assert_eq!(System::find(&universe, "zeta").unwrap().id, "6");
    assert_eq!(System::find(&universe, "beta").unwrap().id, "2");
    assert!(System::find(&universe, "ghost").is_none());
    assert!(System::find(&universe, "omega").is_none());
    assert!(universe.lookup("alpha").is_none());
    assert_eq!(universe.lookup("ALPHA").unwrap().id, "1");
    assert_eq!(System::get(&universe, "4").name, "Delta");
    assert!(universe.knows("4"));
    assert!(!universe.knows("Delta"));
}

#[test]
fn ships_and_stop_words_are_matched_in_upper_case() {
    let universe = fixture();
    assert!(ship_exists(&universe, "Tengu"));
    assert!(ship_exists(&universe, "LOKI"));
    assert!(!ship_exists(&universe, "Rifter"));
    assert!(is_stop_word(&universe, "the"));
    assert!(!is_stop_word(&universe, "Tengu"));
    assert!(universe.lists_ship(&"TENGU".to_string()));
    assert!(!universe.lists_ship(&"Tengu".to_string()));
    assert!(universe.lists_stop_word(&"IN".to_string()));
    assert!(!universe.lists_stop_word(&"in".to_string()));
}

#[test]
fn route_to_self_is_a_single_system() {
    let universe = fixture();
    for id in ["1", "2", "3", "4", "5", "6", "7", "8"] {
        let here = System::get(&universe, id);
        let route = route(&universe, &here, &here).unwrap();
        assert_eq!(route.distance, 0);
        assert_eq!(route.systems, vec![here.clone()]);
        assert_eq!(route.source, here);
        assert_eq!(route.destination, here);
    }
}

#[test]
fn route_is_shortest_in_both_directions() {
    let universe = fixture();
    let alpha = System::get(&universe, "1");
    let epsilon = System::get(&universe, "5");
    let there = route(&universe, &alpha, &epsilon).unwrap();
    assert_eq!(there.distance, 4);
    assert_eq!(names(&there.systems), vec!["Alpha", "Beta", "Gamma", "Delta", "Epsilon"]);
    assert_eq!(there.source, alpha);
    assert_eq!(there.destination, epsilon);
    let back = route(&universe, &epsilon, &alpha).unwrap();
    assert_eq!(back.distance, 4);
    assert_eq!(names(&back.systems), vec!["Epsilon", "Delta", "Gamma", "Beta", "Alpha"]);
    for route in [&there, &back] {
        assert_eq!(route.distance, route.systems.len() - 1);
        for pair in route.systems.windows(2) {
            assert_ne!(pair[0], pair[1]);
        }
    }
    let zeta = System::get(&universe, "6");
    assert_eq!(route(&universe, &alpha, &zeta).unwrap().distance, 4);
    assert_eq!(route(&universe, &zeta, &epsilon).unwrap().distance, 1);
}

#[test]
fn no_route_between_disconnected_or_isolated_systems() {
    let universe = fixture();
    let alpha = System::get(&universe, "1");
    let eta = System::get(&universe, "7");
    let iota = System::get(&universe, "9");
    assert_eq!(route(&universe, &alpha, &eta), None);
    assert_eq!(route(&universe, &eta, &alpha), None);
    assert_eq!(route(&universe, &alpha, &iota), None);
    assert_eq!(route(&universe, &iota, &alpha), None);
    assert_eq!(route(&universe, &iota, &iota), None);
    let stranger = system("42", "Stranger", &["1"]);
    assert_eq!(route(&universe, &stranger, &alpha), None);
    assert_eq!(route(&universe, &alpha, &stranger), None);
}

#[test]
fn clones_keep_every_field() {
    let universe = fixture();
    let alpha = System::get(&universe, "1");
    assert_eq!(alpha.clone(), alpha);
    let delta = System::get(&universe, "4");
    let there = route(&universe, &alpha, &delta).unwrap();
    assert_eq!(there.clone(), there);
}
