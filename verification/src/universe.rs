//! The universe: its systems, their links, name aliases, ship names and
//! stop words, and the search for the shortest route between two systems.

use crate::graph::{adjacency, apart_by, connected, is_path, joins, shortest, undirected, well_formed, Graph, Links};
use crate::text::{copy_strings, lists_word, texts, to_uppercase, uppercase};
use vstd::hash_map::StringHashMap;
use vstd::pervasive::unreached;
use vstd::prelude::*;

verus! {

/// A solar system of the universe.
#[derive(Debug, PartialEq, Eq, Hash)]
pub struct System {
    pub id: String,
    pub name: String,
    pub constelation: String,
    pub region: String,
    pub neighbours: Vec<String>,
}

/// The mathematical model of a [`System`].
pub struct SystemView {
    pub id: Seq<char>,
    pub name: Seq<char>,
    pub constelation: Seq<char>,
    pub region: Seq<char>,
    pub neighbours: Seq<Seq<char>>,
}

impl View for System {
    type V = SystemView;

    open spec fn view(&self) -> SystemView {
        SystemView {
            id: self.id@,
            name: self.name@,
            constelation: self.constelation@,
            region: self.region@,
            neighbours: texts(self.neighbours@),
        }
    }
}

impl Clone for System {
    fn clone(&self) -> (r: System)
        ensures
            r@ == self@,
    {
        System {
            id: self.id.clone(),
            name: self.name.clone(),
            constelation: self.constelation.clone(),
            region: self.region.clone(),
            neighbours: copy_strings(&self.neighbours),
        }
    }
}

/// The models of a sequence of systems.
pub open spec fn system_views(v: Seq<System>) -> Seq<SystemView> {
    Seq::new(v.len(), |i: int| v[i]@)
}


/// The mathematical model of a [`Universe`].
pub struct UniverseView {
    /// The systems, in the order in which they were given.
    pub systems: Seq<SystemView>,
    /// Each alias with the identifiers of the systems it may stand for.
    pub aliases: Map<Seq<char>, Seq<Seq<char>>>,
    /// The known ship names.
    pub ships: Seq<Seq<char>>,
    /// The stop words.
    pub stop_words: Seq<Seq<char>>,
}

impl UniverseView {
    /// One of the first `count` systems has the identifier `id`.
    pub open spec fn known_among(self, count: int, id: Seq<char>) -> bool {
        exists|k: int| 0 <= k < count && k < self.systems.len() && (#[trigger] self.systems[k]).id == id
    }

    /// Some system has the identifier `id`.
    pub open spec fn knows(self, id: Seq<char>) -> bool {
        self.known_among(self.systems.len() as int, id)
    }

    /// The position of the system with the identifier `id`.
    pub open spec fn position(self, id: Seq<char>) -> int {
        choose|k: int| 0 <= k < self.systems.len() && (#[trigger] self.systems[k]).id == id
    }

    /// The system with the identifier `id`.
    pub open spec fn system(self, id: Seq<char>) -> SystemView {
        self.systems[self.position(id)]
    }

    /// No two systems share an identifier.
    pub open spec fn distinct(self) -> bool {
        forall|i: int, j: int|
            0 <= i < j < self.systems.len() ==> (#[trigger] self.systems[i]).id != (
            #[trigger] self.systems[j]).id
    }

    /// Every neighbour that a system names is a system.
    pub open spec fn closed(self) -> bool {
        forall|i: int, j: int|
            0 <= i < self.systems.len() && 0 <= j < self.systems[i].neighbours.len() ==> self.knows(
                #[trigger] self.systems[i].neighbours[j],
            )
    }

    /// The links between the systems, by position: the graph that routes
    /// are searched in.
    pub open spec fn links(self) -> Links {
        Seq::new(
            self.systems.len(),
            |i: int|
                Seq::new(
                    self.systems[i].neighbours.len(),
                    |j: int| self.position(self.systems[i].neighbours[j]) as usize,
                ),
        )
    }

    /// The universe is one that routes can be searched in: its systems can
    /// be counted, identifiers are unique, neighbours exist, and every link
    /// is named from both ends.
    pub open spec fn sound(self) -> bool {
        &&& self.systems.len() <= usize::MAX
        &&& self.distinct()
        &&& self.closed()
        &&& undirected(self.links())
    }

    /// The first of `candidates` that is the identifier of a system.
    pub open spec fn first_known(self, candidates: Seq<Seq<char>>) -> Option<SystemView>
        decreases candidates.len(),
    {
        if candidates.len() == 0 {
            None
        } else if self.knows(candidates[0]) {
            Some(self.system(candidates[0]))
        } else {
            self.first_known(candidates.drop_first())
        }
    }

    /// The system that the alias `key` stands for: the first known one of
    /// its candidates.
    pub open spec fn find(self, key: Seq<char>) -> Option<SystemView> {
        if self.aliases.contains_key(key) {
            self.first_known(self.aliases[key])
        } else {
            None
        }
    }

    /// The positions of the systems of a route.
    pub open spec fn trail(self, systems: Seq<SystemView>) -> Seq<usize> {
        Seq::new(systems.len(), |k: int| self.position(systems[k].id) as usize)
    }
}

/// In a universe with unique identifiers a system is found at its own
/// position.
pub proof fn lemma_position(v: UniverseView, i: int)
    requires
        v.distinct(),
        0 <= i < v.systems.len(),
    ensures
        v.knows(v.systems[i].id),
        v.position(v.systems[i].id) == i,
{
    let id = v.systems[i].id;
    assert(v.systems[i].id == id);
    let k = v.position(id);
    assert(0 <= k < v.systems.len() && v.systems[k].id == id);
    if k < i {
        assert(v.systems[k].id != v.systems[i].id);
    } else if i < k {
        assert(v.systems[i].id != v.systems[k].id);
    }
}

/// The aliases that a list of pairs defines, a later pair replacing an
/// earlier one for the same alias.
pub open spec fn alias_table(pairs: Seq<(String, Vec<String>)>) -> Map<Seq<char>, Seq<Seq<char>>>
    decreases pairs.len(),
{
    if pairs.len() == 0 {
        Map::empty()
    } else {
        alias_table(pairs.drop_last()).insert(pairs.last().0@, texts(pairs.last().1@))
    }
}

/// Why a universe was refused.
#[derive(Clone, Copy, Debug, PartialEq, Eq)]
pub enum UniverseError {
    /// Two systems share an identifier.
    DuplicateSystem,
    /// A system names a neighbour that is no system.
    UnknownNeighbour,
    /// A link is named from one of its ends only.
    OneWayLink,
}

/// The read-only reference data: systems and their links, name aliases,
/// ship names and stop words.
pub struct Universe {
    systems: Vec<System>,
    index: StringHashMap<usize>,
    graph: Graph,
    aliases: StringHashMap<Vec<String>>,
    ships: Vec<String>,
    stop_words: Vec<String>,
}

impl View for Universe {
    type V = UniverseView;

    closed spec fn view(&self) -> UniverseView {
        UniverseView {
            systems: system_views(self.systems@),
            aliases: Map::new(
                |key: Seq<char>| self.aliases@.contains_key(key),
                |key: Seq<char>| texts(self.aliases@[key]@),
            ),
            ships: texts(self.ships@),
            stop_words: texts(self.stop_words@),
        }
    }
}

impl Universe {
    #[verifier::type_invariant]
    spec fn inv(self) -> bool {
        &&& self@.sound()
        &&& self.graph@ == self@.links()
        &&& forall|id: Seq<char>| #[trigger] self.index@.contains_key(id) <==> self@.knows(id)
        &&& forall|id: Seq<char>| #[trigger]
            self.index@.contains_key(id) ==> self.index@[id] == self@.position(id)
    }
}


/// The model of a universe made of the given parts.
pub open spec fn universe_of(
    systems: Seq<System>,
    aliases: Seq<(String, Vec<String>)>,
    ships: Seq<String>,
    stop_words: Seq<String>,
) -> UniverseView {
    UniverseView {
        systems: system_views(systems),
        aliases: alias_table(aliases),
        ships: texts(ships),
        stop_words: texts(stop_words),
    }
}

fn index_systems(systems: &Vec<System>, Ghost(v): Ghost<UniverseView>) -> (r: Option<StringHashMap<usize>>)
    requires
        v.systems == system_views(systems@),
    ensures
        r is Some <==> v.distinct(),
        r matches Some(index) ==> {
            &&& forall|id: Seq<char>| #[trigger] index@.contains_key(id) <==> v.knows(id)
            &&& forall|id: Seq<char>| #[trigger] index@.contains_key(id) ==> index@[id] == v.position(id)
        },
{
    let n = systems.len();
    let mut index: StringHashMap<usize> = StringHashMap::new();
    let mut i: usize = 0;
    while i < n
        invariant
            n == systems@.len(),
            v.systems == system_views(systems@),
            i <= n,
            forall|id: Seq<char>| #[trigger] index@.contains_key(id) <==> v.known_among(i as int, id),
            forall|k: int| 0 <= k < i ==> index@[(#[trigger] v.systems[k]).id] == k,
            forall|a: int, b: int| 0 <= a < b < i ==> (#[trigger] v.systems[a]).id != (#[trigger] v.systems[b]).id,
        decreases n - i,
    {
        let ghost id = v.systems[i as int].id;
        assert(systems@[i as int]@ == v.systems[i as int]);
        if index.contains_key(systems[i].id.as_str()) {
            proof {
                let k = choose|k: int| 0 <= k < i && k < v.systems.len() && (#[trigger] v.systems[k]).id == id;
                assert(v.systems[k].id == v.systems[i as int].id);
            }
            return None;
        }
        let ghost before = index@;
        index.insert(systems[i].id.clone(), i);
        proof {
            assert forall|key: Seq<char>| #[trigger] index@.contains_key(key) <==> v.known_among(i + 1, key) by {
                if v.known_among(i + 1, key) {
                    let k = choose|k: int| 0 <= k < i + 1 && k < v.systems.len() && (#[trigger] v.systems[k]).id == key;
                    if k < i {
                        assert(v.known_among(i as int, key));
                        assert(before.contains_key(key));
                    }
                }
                if index@.contains_key(key) {
                    if key == id {
                        assert(v.systems[i as int].id == key);
                    } else {
                        assert(before.contains_key(key));
                        assert(v.known_among(i as int, key));
                        let k = choose|k: int| 0 <= k < i && k < v.systems.len() && (#[trigger] v.systems[k]).id == key;
                        assert(v.systems[k].id == key);
                    }
                }
            }
            assert forall|k: int| 0 <= k < i + 1 implies index@[(#[trigger] v.systems[k]).id] == k by {
                if k < i {
                    assert(v.known_among(i as int, v.systems[k].id));
                    assert(before.contains_key(v.systems[k].id));
                }
            }
            assert forall|a: int, b: int| 0 <= a < b < i + 1 implies (#[trigger] v.systems[a]).id != (
            #[trigger] v.systems[b]).id by {
                if b == i {
                    assert(v.known_among(i as int, v.systems[a].id));
                    assert(before.contains_key(v.systems[a].id));
                }
            }
        }
        i += 1;
    }
    proof {
        assert forall|key: Seq<char>| #[trigger] index@.contains_key(key) implies index@[key] == v.position(key) by {
            assert(v.known_among(n as int, key));
            let k = v.position(key);
            assert(0 <= k < v.systems.len() && v.systems[k].id == key);
        }
    }
    Some(index)
}

fn link_systems(systems: &Vec<System>, index: &StringHashMap<usize>, Ghost(v): Ghost<UniverseView>) -> (r: Option<
    Vec<Vec<usize>>,
>)
    requires
        v.systems == system_views(systems@),
        v.distinct(),
        forall|id: Seq<char>| #[trigger] index@.contains_key(id) <==> v.knows(id),
        forall|id: Seq<char>| #[trigger] index@.contains_key(id) ==> index@[id] == v.position(id),
    ensures
        r is Some <==> v.closed(),
        r matches Some(links) ==> adjacency(links@) == v.links() && well_formed(v.links()),
{
    let n = systems.len();
    let mut links: Vec<Vec<usize>> = Vec::new();
    let mut i: usize = 0;
    while i < n
        invariant
            n == systems@.len(),
            v.systems == system_views(systems@),
            v.distinct(),
            forall|id: Seq<char>| #[trigger] index@.contains_key(id) <==> v.knows(id),
            forall|id: Seq<char>| #[trigger] index@.contains_key(id) ==> index@[id] == v.position(id),
            i <= n,
            links@.len() == i,
            forall|a: int| 0 <= a < i ==> (#[trigger] links@[a])@ == v.links()[a],
            forall|a: int, j: int|
                0 <= a < i && 0 <= j < v.systems[a].neighbours.len() ==> v.knows(
                    #[trigger] v.systems[a].neighbours[j],
                ),
        decreases n - i,
    {
        let system = &systems[i];
        assert(system@ == v.systems[i as int]);
        let mut row: Vec<usize> = Vec::new();
        let mut j: usize = 0;
        while j < system.neighbours.len()
            invariant
                i < n,
                n == systems@.len(),
                v.systems == system_views(systems@),
                system@ == v.systems[i as int],
                forall|id: Seq<char>| #[trigger] index@.contains_key(id) <==> v.knows(id),
                forall|id: Seq<char>| #[trigger] index@.contains_key(id) ==> index@[id] == v.position(id),
                j <= system.neighbours@.len(),
                row@.len() == j,
                forall|k: int| 0 <= k < j ==> (#[trigger] row@[k]) == v.position(system@.neighbours[k]) as usize,
                forall|k: int| 0 <= k < j ==> v.knows(#[trigger] system@.neighbours[k]),
            decreases system.neighbours@.len() - j,
        {
            let ghost name = system@.neighbours[j as int];
            assert(system.neighbours@[j as int]@ == name);
            match index.get(system.neighbours[j].as_str()) {
                None => {
                    proof {
                        assert(!index@.contains_key(name));
                        assert(!v.knows(v.systems[i as int].neighbours[j as int]));
                    }
                    return None;
                },
                Some(k) => {
                    proof {
                        assert(index@.contains_key(name));
                    }
                    row.push(*k);
                },
            }
            j += 1;
        }
        proof {
            assert(row@ =~= v.links()[i as int]);
        }
        links.push(row);
        i += 1;
    }
    proof {
        assert(adjacency(links@) =~= v.links());
        assert forall|a: int, j: int| 0 <= a < v.links().len() && 0 <= j < v.links()[a].len() implies (
        #[trigger] v.links()[a][j]) < v.links().len() by {
            let name = v.systems[a].neighbours[j];
            assert(v.knows(name));
            let k = v.position(name);
            assert(0 <= k < v.systems.len() && v.systems[k].id == name);
        }
    }
    Some(links)
}

fn alias_map(aliases: &Vec<(String, Vec<String>)>) -> (r: StringHashMap<Vec<String>>)
    ensures
        Map::new(|key: Seq<char>| r@.contains_key(key), |key: Seq<char>| texts(r@[key]@)) == alias_table(
            aliases@,
        ),
{
    let mut map: StringHashMap<Vec<String>> = StringHashMap::new();
    let mut i: usize = 0;
    while i < aliases.len()
        invariant
            i <= aliases@.len(),
            Map::new(|key: Seq<char>| map@.contains_key(key), |key: Seq<char>| texts(map@[key]@))
                == alias_table(aliases@.take(i as int)),
        decreases aliases@.len() - i,
    {
        let ghost before = map@;
        let key = aliases[i].0.clone();
        let candidates = copy_strings(&aliases[i].1);
        map.insert(key, candidates);
        proof {
            let done = aliases@.take(i as int);
            let next = aliases@.take(i + 1);
            assert(next.drop_last() =~= done);
            assert(next.last() == aliases@[i as int]);
            assert(Map::new(|key: Seq<char>| map@.contains_key(key), |key: Seq<char>| texts(map@[key]@))
                =~= Map::new(|key: Seq<char>| before.contains_key(key), |key: Seq<char>| texts(before[key]@)).insert(
                aliases@[i as int].0@,
                texts(aliases@[i as int].1@),
            ));
        }
        i += 1;
    }
    proof {
        assert(aliases@.take(aliases@.len() as int) =~= aliases@);
    }
    map
}

impl Universe {
    /// The universe made of the given systems, aliases (a later pair
    /// replacing an earlier one for the same alias), ship names and stop
    /// words. It is refused where two systems share an identifier, else
    /// where a system names a neighbour that is no system, else where a link
    /// is named from one end only.
    pub fn new(
        systems: Vec<System>,
        aliases: Vec<(String, Vec<String>)>,
        ships: Vec<String>,
        stop_words: Vec<String>,
    ) -> (r: Result<Universe, UniverseError>)
        ensures
            match r {
                Ok(universe) => {
                    &&& universe@ == universe_of(systems@, aliases@, ships@, stop_words@)
                    &&& universe@.sound()
                },
                Err(UniverseError::DuplicateSystem) => !universe_of(systems@, aliases@, ships@, stop_words@).distinct(),
                Err(UniverseError::UnknownNeighbour) => {
                    let v = universe_of(systems@, aliases@, ships@, stop_words@);
                    v.distinct() && !v.closed()
                },
                Err(UniverseError::OneWayLink) => {
                    let v = universe_of(systems@, aliases@, ships@, stop_words@);
                    v.distinct() && v.closed() && !undirected(v.links())
                },
            },
    {
        let ghost v = universe_of(systems@, aliases@, ships@, stop_words@);
        let index = match index_systems(&systems, Ghost(v)) {
            Some(index) => index,
            None => {
                return Err(UniverseError::DuplicateSystem);
            },
        };
        let links = match link_systems(&systems, &index, Ghost(v)) {
            Some(links) => links,
            None => {
                return Err(UniverseError::UnknownNeighbour);
            },
        };
        let graph = match Graph::new(links) {
            Some(graph) => graph,
            None => {
                return Err(UniverseError::OneWayLink);
            },
        };
        let aliases = alias_map(&aliases);
        let count = systems.len();
        assert(v.systems.len() == count);
        let universe = Universe { systems, index, graph, aliases, ships, stop_words };
        assert(universe@ == v);
        Ok(universe)
    }

    /// The number of systems.
    pub fn len(&self) -> (n: usize)
        ensures
            n == self@.systems.len(),
            self@.sound(),
    {
        proof {
            use_type_invariant(self);
        }
        self.systems.len()
    }

    /// Whether some system has the identifier `id`.
    pub fn knows(&self, id: &str) -> (r: bool)
        ensures
            r == self@.knows(id@),
    {
        proof {
            use_type_invariant(self);
        }
        self.index.contains_key(id)
    }

    /// Whether `word`, as it stands, is a known ship name.
    pub fn lists_ship(&self, word: &String) -> (r: bool)
        ensures
            r == self@.ships.contains(word@),
    {
        lists_word(&self.ships, word)
    }

    /// Whether `word`, as it stands, is a stop word.
    pub fn lists_stop_word(&self, word: &String) -> (r: bool)
        ensures
            r == self@.stop_words.contains(word@),
    {
        lists_word(&self.stop_words, word)
    }

    /// The system that the alias `key`, as it stands, stands for: the first
    /// of its candidates that is a system.
    pub fn lookup(&self, key: &str) -> (r: Option<System>)
        ensures
            match r {
                Some(system) => self@.find(key@) == Some(system@),
                None => self@.find(key@) is None,
            },
    {
        proof {
            use_type_invariant(self);
        }
        let candidates = match self.aliases.get(key) {
            Some(candidates) => candidates,
            None => {
                return None;
            },
        };
        let ghost all = texts(candidates@);
        proof {
            assert(self.aliases@.contains_key(key@));
            assert(self@.aliases.contains_key(key@));
            assert(self@.aliases[key@] == all);
            assert(all.skip(0) =~= all);
        }
        let mut i: usize = 0;
        while i < candidates.len()
            invariant
                i <= candidates@.len(),
                all == texts(candidates@),
                self@.find(key@) == self@.first_known(all.skip(i as int)),
                forall|id: Seq<char>| #[trigger] self.index@.contains_key(id) <==> self@.knows(id),
                forall|id: Seq<char>| #[trigger] self.index@.contains_key(id) ==> self.index@[id] == self@.position(id),
                self@.systems == system_views(self.systems@),
            decreases candidates@.len() - i,
        {
            let ghost rest = all.skip(i as int);
            assert(rest[0] == candidates@[i as int]@);
            match self.index.get(candidates[i].as_str()) {
                Some(k) => {
                    proof {
                        let id = candidates@[i as int]@;
                        assert(self.index@.contains_key(id));
                        assert(self@.knows(id));
                        let p = self@.position(id);
                        assert(0 <= p < self@.systems.len() && self@.systems[p].id == id);
                    }
                    return Some(self.systems[*k].clone());
                },
                None => {
                    proof {
                        assert(!self.index@.contains_key(rest[0]));
                        assert(rest.drop_first() =~= all.skip(i + 1));
                    }
                },
            }
            i += 1;
        }
        None
    }
}

impl System {
    /// The system that `name` stands for in any letter case: the first
    /// known candidate of the upper-case form of `name` in the alias table.
    pub fn find(universe: &Universe, name: &str) -> (r: Option<System>)
        ensures
            match r {
                Some(system) => universe@.find(uppercase(name@)) == Some(system@),
                None => universe@.find(uppercase(name@)) is None,
            },
    {
        let key = to_uppercase(name);
        universe.lookup(key.as_str())
    }

    /// The system with the identifier `id`.
    pub fn get(universe: &Universe, id: &str) -> (r: System)
        requires
            universe@.knows(id@),
        ensures
            r@ == universe@.system(id@),
    {
        proof {
            use_type_invariant(universe);
        }
        match universe.index.get(id) {
            Some(k) => {
                proof {
                    assert(universe.index@.contains_key(id@));
                    let p = universe@.position(id@);
                    assert(0 <= p < universe@.systems.len() && universe@.systems[p].id == id@);
                }
                universe.systems[*k].clone()
            },
            None => {
                proof {
                    assert(!universe.index@.contains_key(id@));
                }
                unreached()
            },
        }
    }
}

/// Whether `name`, in any letter case, is a known ship name.
pub fn ship_exists(universe: &Universe, name: &str) -> (r: bool)
    ensures
        r == universe@.ships.contains(uppercase(name@)),
{
    let word = to_uppercase(name);
    universe.lists_ship(&word)
}

/// Whether `word`, in any letter case, is a stop word.
pub fn is_stop_word(universe: &Universe, word: &str) -> (r: bool)
    ensures
        r == universe@.stop_words.contains(uppercase(word@)),
{
    let upper = to_uppercase(word);
    universe.lists_stop_word(&upper)
}


/// A route between two systems.
#[derive(Debug, PartialEq, Eq, Hash)]
pub struct Route {
    /// The systems on the way, from the source to the destination, both
    /// included.
    pub systems: Vec<System>,
    /// The number of jumps.
    pub distance: usize,
    pub destination: System,
    pub source: System,
}

/// The mathematical model of a [`Route`].
pub struct RouteView {
    pub systems: Seq<SystemView>,
    pub distance: nat,
    pub destination: SystemView,
    pub source: SystemView,
}

impl View for Route {
    type V = RouteView;

    open spec fn view(&self) -> RouteView {
        RouteView {
            systems: system_views(self.systems@),
            distance: self.distance as nat,
            destination: self.destination@,
            source: self.source@,
        }
    }
}

impl RouteView {
    /// The route leads from its source to its destination, its distance is
    /// the number of its jumps, and no system follows itself.
    pub open spec fn wf(self) -> bool {
        &&& self.systems.len() > 0
        &&& self.distance == self.systems.len() - 1
        &&& self.source == self.systems.first()
        &&& self.destination == self.systems.last()
        &&& forall|k: int| 0 <= k < self.systems.len() - 1 ==> (#[trigger] self.systems[k]) != self.systems[k + 1]
    }
}

/// A copy of a list of systems.
pub fn copy_systems(v: &Vec<System>) -> (r: Vec<System>)
    ensures
        system_views(r@) == system_views(v@),
{
    let mut out: Vec<System> = Vec::new();
    let mut i: usize = 0;
    while i < v.len()
        invariant
            i <= v@.len(),
            out@.len() == i,
            forall|k: int| 0 <= k < i ==> out@[k]@ == v@[k]@,
        decreases v@.len() - i,
    {
        out.push(v[i].clone());
        i += 1;
    }
    assert(system_views(out@) =~= system_views(v@));
    out
}

impl Clone for Route {
    fn clone(&self) -> (r: Route)
        ensures
            r@ == self@,
    {
        Route {
            systems: copy_systems(&self.systems),
            distance: self.distance,
            destination: self.destination.clone(),
            source: self.source.clone(),
        }
    }
}

impl UniverseView {
    /// There is a route from the system `source` to the system
    /// `destination`: both are systems with at least one neighbour, and
    /// links lead from the one to the other.
    pub open spec fn routable(self, source: Seq<char>, destination: Seq<char>) -> bool {
        &&& self.knows(source)
        &&& self.knows(destination)
        &&& self.system(source).neighbours.len() > 0
        &&& self.system(destination).neighbours.len() > 0
        &&& connected(self.links(), self.position(source) as usize, self.position(destination) as usize)
    }

    /// The number of jumps of the shortest routes from the system `source`
    /// to the system `destination`, where there is a route.
    pub open spec fn jumps(self, source: Seq<char>, destination: Seq<char>) -> Option<nat> {
        if self.routable(source, destination) {
            let links = self.links();
            let s = self.position(source) as usize;
            let t = self.position(destination) as usize;
            Some(choose|d: nat| apart_by(links, s, t, d))
        } else {
            None
        }
    }

    /// `route` is a shortest route from the system `source` to the system
    /// `destination`, made of this universe's systems.
    pub open spec fn routes(self, route: RouteView, source: Seq<char>, destination: Seq<char>) -> bool {
        &&& route.wf()
        &&& forall|k: int|
            0 <= k < route.systems.len() ==> self.knows((#[trigger] route.systems[k]).id) && route.systems[k]
                == self.system(route.systems[k].id)
        &&& shortest(
            self.links(),
            self.trail(route.systems),
            self.position(source) as usize,
            self.position(destination) as usize,
        )
    }
}

/// The shortest route from `source` to `destination`, each taken by its
/// identifier, or `None` where either is no system of the universe or has no
/// neighbour, or where no links lead from the one to the other.
pub fn route(universe: &Universe, source: &System, destination: &System) -> (r: Option<Route>)
    ensures
        match r {
            Some(route) => universe@.routable(source.id@, destination.id@) && universe@.routes(
                route@,
                source.id@,
                destination.id@,
            ),
            None => !universe@.routable(source.id@, destination.id@),
        },
{
    proof {
        use_type_invariant(universe);
    }
    let ghost v = universe@;
    let s = match universe.index.get(source.id.as_str()) {
        Some(k) => *k,
        None => {
            assert(!universe.index@.contains_key(source.id@));
            return None;
        },
    };
    let t = match universe.index.get(destination.id.as_str()) {
        Some(k) => *k,
        None => {
            assert(!universe.index@.contains_key(destination.id@));
            return None;
        },
    };
    proof {
        assert(universe.index@.contains_key(source.id@));
        assert(universe.index@.contains_key(destination.id@));
        let ps = v.position(source.id@);
        assert(0 <= ps < v.systems.len() && v.systems[ps].id == source.id@);
        let pt = v.position(destination.id@);
        assert(0 <= pt < v.systems.len() && v.systems[pt].id == destination.id@);
    }
    assert(universe.systems@[s as int]@ == v.systems[s as int]);
    assert(universe.systems@[t as int]@ == v.systems[t as int]);
    if universe.systems[s].neighbours.len() == 0 || universe.systems[t].neighbours.len() == 0 {
        return None;
    }
    let path = match universe.graph.route(s, t) {
        Some(path) => path,
        None => {
            return None;
        },
    };
    let ghost links = v.links();
    let mut systems: Vec<System> = Vec::new();
    let mut k: usize = 0;
    while k < path.len()
        invariant
            k <= path@.len(),
            systems@.len() == k,
            v == universe@,
            v.systems == system_views(universe.systems@),
            is_path(links, path@),
            links.len() == universe.systems@.len(),
            forall|i: int| 0 <= i < k ==> (#[trigger] systems@[i])@ == v.systems[path@[i] as int],
        decreases path@.len() - k,
    {
        assert(path@[k as int] < links.len());
        systems.push(universe.systems[path[k]].clone());
        k += 1;
    }
    let distance = path.len() - 1;
    let route = Route {
        systems,
        distance,
        destination: universe.systems[t].clone(),
        source: universe.systems[s].clone(),
    };
    proof {
        let rv = route@;
        assert forall|i: int| 0 <= i < rv.systems.len() implies v.knows((#[trigger] rv.systems[i]).id)
            && rv.systems[i] == v.system(rv.systems[i].id) && v.trail(rv.systems)[i] == path@[i] by {
            assert(path@[i] < links.len());
            lemma_position(v, path@[i] as int);
        }
        assert(v.trail(rv.systems) =~= path@);
        assert forall|i: int| 0 <= i < rv.systems.len() - 1 implies (#[trigger] rv.systems[i]) != rv.systems[i + 1] by {
            crate::graph::lemma_shortest_no_repeat(links, path@, s, t, i);
            lemma_position(v, path@[i] as int);
            lemma_position(v, path@[i + 1] as int);
        }
    }
    Some(route)
}

/// There is a route from every system with a neighbour to itself, and it is
/// that system alone, at distance 0.
pub proof fn lemma_route_to_self(v: UniverseView, id: Seq<char>, route: RouteView)
    requires
        v.sound(),
        v.knows(id),
        v.system(id).neighbours.len() > 0,
    ensures
        v.routable(id, id),
        v.routes(route, id, id) ==> route.distance == 0 && route.systems == seq![v.system(id)],
{
    let p = v.position(id);
    assert(0 <= p < v.systems.len() && v.systems[p].id == id);
    let here = seq![p as usize];
    assert(here[0] == p as usize);
    assert(joins(v.links(), here, p as usize, p as usize));
    if v.routes(route, id, id) {
        crate::graph::lemma_shortest_to_self(v.links(), v.trail(route.systems), p as usize);
        assert(v.trail(route.systems).len() == 1);
        assert(v.trail(route.systems)[0] == p as usize);
        assert(route.systems[0] == v.system(route.systems[0].id));
        let q = v.position(route.systems[0].id);
        assert(0 <= q < v.systems.len() && v.systems[q].id == route.systems[0].id);
        assert(route.systems =~= seq![v.system(id)]);
    }
}

/// Whether there is a route does not depend on the direction, and the
/// shortest routes in the two directions have the same distance.
pub proof fn lemma_route_symmetric(v: UniverseView, a: Seq<char>, b: Seq<char>, there: RouteView, back: RouteView)
    requires
        v.sound(),
    ensures
        v.routable(a, b) == v.routable(b, a),
        v.routes(there, a, b) && v.routes(back, b, a) ==> there.distance == back.distance,
{
    let g = v.links();
    let pa = v.position(a) as usize;
    let pb = v.position(b) as usize;
    if connected(g, pa, pb) {
        let p = choose|p: Seq<usize>| joins(g, p, pa, pb);
        crate::graph::lemma_reverse_path(g, p);
        assert(joins(g, p.reverse(), pb, pa));
    }
    if connected(g, pb, pa) {
        let p = choose|p: Seq<usize>| joins(g, p, pb, pa);
        crate::graph::lemma_reverse_path(g, p);
        assert(joins(g, p.reverse(), pa, pb));
    }
    if v.routes(there, a, b) && v.routes(back, b, a) {
        crate::graph::lemma_shortest_symmetric(g, v.trail(there.systems), v.trail(back.systems), pa, pb);
    }
}


/// Every shortest route between two systems has the number of jumps that
/// the universe gives for them.
pub proof fn lemma_jumps(v: UniverseView, a: Seq<char>, b: Seq<char>, route: RouteView)
    requires
        v.routable(a, b),
        v.routes(route, a, b),
    ensures
        v.jumps(a, b) == Some(route.distance),
{
    let g = v.links();
    let pa = v.position(a) as usize;
    let pb = v.position(b) as usize;
    let trail = v.trail(route.systems);
    assert(shortest(g, trail, pa, pb) && trail.len() == route.distance + 1);
    assert(apart_by(g, pa, pb, route.distance));
    let d = choose|d: nat| apart_by(g, pa, pb, d);
    let p = choose|p: Seq<usize>| #[trigger] shortest(g, p, pa, pb) && p.len() == d + 1;
    assert(joins(g, p, pa, pb));
    assert(joins(g, trail, pa, pb));
}

} // verus!
