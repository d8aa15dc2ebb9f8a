//! The intel classifier: from a chat line and the listener's location to a
//! report with the reported system, the route to it and a threat assessment.

use crate::graph::shortest;
use crate::text::{
    chars_of, copy_chars, join, join_with, lists_word, remove_char, rows, split, split_on, split_whitespace,
    string_of, texts, to_uppercase, uppercase, without, words,
};
use crate::universe::{
    is_stop_word, route, ship_exists, Route, RouteView, System, SystemView, Universe, UniverseView,
};
use crate::chat::Message;
use crate::codec::{captures, groups_view, regex_groups};
use vstd::hash_map::StringHashMap;
use vstd::prelude::*;

verus! {

/// How much of a threat a report tells of.
#[derive(Debug, PartialEq, Eq)]
pub enum ThreatAssetment {
    /// No system could be made out.
    Unknown,
    /// The system is reported clear.
    NoThreat(System),
    /// Hostiles so many jumps away that they do not matter.
    ProximityIrelevant(usize),
    ProximityAlertLow(usize),
    ProximityAlertHigh(usize),
    /// Hostiles in the listener's own system.
    ProximityAlertCritical(usize),
    /// Somebody asks for the status of the system.
    StatusRequest(System),
}

/// The mathematical model of a [`ThreatAssetment`].
pub enum ThreatView {
    Unknown,
    NoThreat(SystemView),
    ProximityIrelevant(nat),
    ProximityAlertLow(nat),
    ProximityAlertHigh(nat),
    ProximityAlertCritical(nat),
    StatusRequest(SystemView),
}

impl View for ThreatAssetment {
    type V = ThreatView;

    open spec fn view(&self) -> ThreatView {
        match self {
            ThreatAssetment::Unknown => ThreatView::Unknown,
            ThreatAssetment::NoThreat(system) => ThreatView::NoThreat(system@),
            ThreatAssetment::ProximityIrelevant(jumps) => ThreatView::ProximityIrelevant(*jumps as nat),
            ThreatAssetment::ProximityAlertLow(jumps) => ThreatView::ProximityAlertLow(*jumps as nat),
            ThreatAssetment::ProximityAlertHigh(jumps) => ThreatView::ProximityAlertHigh(*jumps as nat),
            ThreatAssetment::ProximityAlertCritical(jumps) => ThreatView::ProximityAlertCritical(*jumps as nat),
            ThreatAssetment::StatusRequest(system) => ThreatView::StatusRequest(system@),
        }
    }
}

impl Clone for ThreatAssetment {
    fn clone(&self) -> (r: ThreatAssetment)
        ensures
            r@ == self@,
    {
        match self {
            ThreatAssetment::Unknown => ThreatAssetment::Unknown,
            ThreatAssetment::NoThreat(system) => ThreatAssetment::NoThreat(system.clone()),
            ThreatAssetment::ProximityIrelevant(jumps) => ThreatAssetment::ProximityIrelevant(*jumps),
            ThreatAssetment::ProximityAlertLow(jumps) => ThreatAssetment::ProximityAlertLow(*jumps),
            ThreatAssetment::ProximityAlertHigh(jumps) => ThreatAssetment::ProximityAlertHigh(*jumps),
            ThreatAssetment::ProximityAlertCritical(jumps) => ThreatAssetment::ProximityAlertCritical(*jumps),
            ThreatAssetment::StatusRequest(system) => ThreatAssetment::StatusRequest(system.clone()),
        }
    }
}

/// Where a watched player is.
#[derive(Debug, PartialEq, Eq)]
pub struct PlayerLocation {
    pub player: String,
    pub system: System,
}

/// A classified chat line.
#[derive(Debug, PartialEq, Eq)]
pub struct IntelMessage {
    /// The text of the chat line.
    pub message: String,
    /// The player in whose log the line stood.
    pub player: String,
    /// The tokens that neither named the reported system nor were taken
    /// for a status word.
    pub tokens: Vec<String>,
    /// The route from the player's system to the reported one.
    pub route: Option<Route>,
    /// The reported system.
    pub origin: Option<System>,
    /// What may be names of pilots.
    pub involved_players: Vec<String>,
    pub threat_assement: ThreatAssetment,
    /// Who wrote the line.
    pub sender: String,
}

/// The mathematical model of an [`IntelMessage`].
pub struct IntelMessageView {
    pub message: Seq<char>,
    pub player: Seq<char>,
    pub tokens: Seq<Seq<char>>,
    pub route: Option<RouteView>,
    pub origin: Option<SystemView>,
    pub involved_players: Seq<Seq<char>>,
    pub threat_assement: ThreatView,
    pub sender: Seq<char>,
}

/// The model of a route that may be absent.
pub open spec fn route_view(route: Option<Route>) -> Option<RouteView> {
    match route {
        Some(r) => Some(r@),
        None => None,
    }
}

/// The model of a system that may be absent.
pub open spec fn system_view(system: Option<System>) -> Option<SystemView> {
    match system {
        Some(s) => Some(s@),
        None => None,
    }
}

impl View for IntelMessage {
    type V = IntelMessageView;

    open spec fn view(&self) -> IntelMessageView {
        IntelMessageView {
            message: self.message@,
            player: self.player@,
            tokens: texts(self.tokens@),
            route: route_view(self.route),
            origin: system_view(self.origin),
            involved_players: texts(self.involved_players@),
            threat_assement: self.threat_assement@,
            sender: self.sender@,
        }
    }
}

impl IntelMessageView {
    /// The number of jumps to the reported system, where there is one.
    pub open spec fn jumps(self) -> Option<nat> {
        match self.route {
            Some(r) => Some(r.distance),
            None => None,
        }
    }
}

impl Clone for IntelMessage {
    fn clone(&self) -> (r: IntelMessage)
        ensures
            r@ == self@,
    {
        IntelMessage {
            message: self.message.clone(),
            player: self.player.clone(),
            tokens: crate::text::copy_strings(&self.tokens),
            route: match &self.route {
                Some(r) => Some(r.clone()),
                None => None,
            },
            origin: match &self.origin {
                Some(s) => Some(s.clone()),
                None => None,
            },
            involved_players: crate::text::copy_strings(&self.involved_players),
            threat_assement: self.threat_assement.clone(),
            sender: self.sender.clone(),
        }
    }
}

/// `word` is noise: in upper case it is a ship name or a stop word.
pub open spec fn is_noise(u: UniverseView, word: Seq<char>) -> bool {
    u.ships.contains(uppercase(word)) || u.stop_words.contains(uppercase(word))
}

/// Those of `words` that are not noise.
pub open spec fn keep_words(u: UniverseView, words: Seq<Seq<char>>) -> Seq<Seq<char>>
    decreases words.len(),
{
    if words.len() == 0 {
        words
    } else if is_noise(u, words.last()) {
        keep_words(u, words.drop_last())
    } else {
        keep_words(u, words.drop_last()).push(words.last())
    }
}

/// A clause without its noise words.
pub open spec fn clean_clause(u: UniverseView, clause: Seq<char>) -> Seq<char> {
    join(keep_words(u, split(clause, seq![' '])), seq![' '])
}

/// The clauses without their noise words, and without those that are
/// empty then.
pub open spec fn clean_clauses(u: UniverseView, clauses: Seq<Seq<char>>) -> Seq<Seq<char>>
    decreases clauses.len(),
{
    if clauses.len() == 0 {
        clauses
    } else if clean_clause(u, clauses.last()).len() == 0 {
        clean_clauses(u, clauses.drop_last())
    } else {
        clean_clauses(u, clauses.drop_last()).push(clean_clause(u, clauses.last()))
    }
}

/// The line without wildcard marks and noise words. Two spaces part its
/// clauses, one space the words of a clause.
pub open spec fn normalized(u: UniverseView, text: Seq<char>) -> Seq<char> {
    join(clean_clauses(u, split(without(text, '*'), seq![' ', ' '])), seq![' ', ' '])
}

/// The token that a word gives: in upper case, without `*` and `?`.
pub open spec fn token_of(word: Seq<char>) -> Seq<char> {
    without(without(uppercase(word), '*'), '?')
}

/// The tokens of the words, without those that are noise.
pub open spec fn tokens_of(u: UniverseView, words: Seq<Seq<char>>) -> Seq<Seq<char>>
    decreases words.len(),
{
    if words.len() == 0 {
        words
    } else if is_noise(u, token_of(words.last())) {
        tokens_of(u, words.drop_last())
    } else {
        tokens_of(u, words.drop_last()).push(token_of(words.last()))
    }
}

/// The tokens of a line.
pub open spec fn tokenized(u: UniverseView, text: Seq<char>) -> Seq<Seq<char>> {
    tokens_of(u, split_whitespace(text))
}

/// The text names a system.
pub open spec fn resolves(u: UniverseView, text: Seq<char>) -> bool {
    u.find(uppercase(text)) is Some
}

/// Those of `tokens` that name no system.
pub open spec fn residue(u: UniverseView, tokens: Seq<Seq<char>>) -> Seq<Seq<char>>
    decreases tokens.len(),
{
    if tokens.len() == 0 {
        tokens
    } else if resolves(u, tokens.last()) {
        residue(u, tokens.drop_last())
    } else {
        residue(u, tokens.drop_last()).push(tokens.last())
    }
}

/// The number of jumps from the system `here` to the system that `token`
/// names, where it names one and a route leads there.
pub open spec fn reach(u: UniverseView, here: Seq<char>, token: Seq<char>) -> Option<nat> {
    match u.find(uppercase(token)) {
        Some(system) => u.jumps(here, system.id),
        None => None,
    }
}

/// The position of the token that names the reported system: of the tokens
/// that name a system with a route from `here`, the last of those that are
/// farthest away.
pub open spec fn target(u: UniverseView, here: Seq<char>, tokens: Seq<Seq<char>>) -> Option<int>
    decreases tokens.len(),
{
    if tokens.len() == 0 {
        None
    } else {
        let earlier = target(u, here, tokens.drop_last());
        match reach(u, here, tokens.last()) {
            None => earlier,
            Some(d) => match earlier {
                Some(k) if 0 <= k < tokens.len() - 1 && reach(u, here, tokens[k]) is Some && reach(
                    u,
                    here,
                    tokens[k],
                )->0 > d => earlier,
                _ => Some(tokens.len() - 1),
            },
        }
    }
}

/// The words that report a system clear.
pub open spec fn all_clear() -> Seq<Seq<char>> {
    seq![seq!['C', 'L', 'R'], seq!['C', 'L', 'E', 'A', 'R'], seq!['C', 'L', 'E', 'A']]
}

/// The words that ask for a status.
pub open spec fn status_words() -> Seq<Seq<char>> {
    seq![seq!['S', 'T', 'S'], seq!['S', 'T', 'A', 'T', 'U', 'S'], seq!['S', 'T', 'A', 'T']]
}

/// The tokens of `first` that are no word of the vocabulary `last`, in
/// their order.
pub open spec fn difference(first: Seq<Seq<char>>, last: Seq<Seq<char>>) -> Seq<Seq<char>>
    decreases first.len(),
{
    if first.len() == 0 {
        first
    } else if last.contains(first.last()) {
        difference(first.drop_last(), last)
    } else {
        difference(first.drop_last(), last).push(first.last())
    }
}

/// Taking vocabulary words away never adds a token, and leaves as many
/// tokens as there were exactly where none of them is a vocabulary word.
pub proof fn lemma_difference(first: Seq<Seq<char>>, last: Seq<Seq<char>>)
    ensures
        difference(first, last).len() <= first.len(),
        difference(first, last).len() == first.len() <==> forall|i: int|
            0 <= i < first.len() ==> !last.contains(#[trigger] first[i]),
    decreases first.len(),
{
    if first.len() > 0 {
        let rest = first.drop_last();
        lemma_difference(rest, last);
        if forall|i: int| 0 <= i < first.len() ==> !last.contains(#[trigger] first[i]) {
            assert(!last.contains(first[first.len() - 1]));
            assert forall|i: int| 0 <= i < rest.len() implies !last.contains(#[trigger] rest[i]) by {
                assert(rest[i] == first[i]);
            }
        }
        if difference(first, last).len() == first.len() {
            assert forall|i: int| 0 <= i < first.len() implies !last.contains(#[trigger] first[i]) by {
                if i < rest.len() {
                    assert(rest[i] == first[i]);
                }
            }
        }
    }
}

/// The alert level that goes with a number of jumps.
pub open spec fn band(jumps: nat) -> ThreatView {
    if jumps == 0 {
        ThreatView::ProximityAlertCritical(jumps)
    } else if jumps <= 4 {
        ThreatView::ProximityAlertHigh(jumps)
    } else if jumps <= 10 {
        ThreatView::ProximityAlertLow(jumps)
    } else {
        ThreatView::ProximityIrelevant(jumps)
    }
}

/// The assessment of a report with the given tokens and route, and the
/// tokens that are left. Without a route nothing is known. An all-clear
/// word among the tokens, wherever it stands, makes the system clear where
/// it is at most 5 jumps away and irrelevant beyond; else a status word
/// among them makes it a status request; else the number of jumps decides.
/// A vocabulary counts as soon as it takes at least one token away, also
/// where it takes all of them: a lone `CLR` reports the system clear.
pub open spec fn assess(tokens: Seq<Seq<char>>, route: Option<RouteView>) -> (ThreatView, Seq<Seq<char>>) {
    match route {
        None => (ThreatView::Unknown, tokens),
        Some(r) => {
            let clear = difference(tokens, all_clear());
            let status = difference(tokens, status_words());
            if clear.len() != tokens.len() {
                if r.distance <= 5 {
                    (ThreatView::NoThreat(r.destination), clear)
                } else {
                    (ThreatView::ProximityIrelevant(r.distance), clear)
                }
            } else if status.len() != tokens.len() {
                (ThreatView::StatusRequest(r.destination), status)
            } else {
                (band(r.distance), tokens)
            }
        },
    }
}

/// Those of `clauses` that are not empty, name no system and are not
/// noise.
pub open spec fn names_of(u: UniverseView, clauses: Seq<Seq<char>>) -> Seq<Seq<char>>
    decreases clauses.len(),
{
    if clauses.len() == 0 {
        clauses
    } else if clauses.last().len() == 0 || resolves(u, clauses.last()) || is_noise(u, clauses.last()) {
        names_of(u, clauses.drop_last())
    } else {
        names_of(u, clauses.drop_last()).push(clauses.last())
    }
}

/// What may be names of pilots in a normalized line: its clauses that are
/// not empty, name no system and are not noise. An empty line holds none.
pub open spec fn possible_names_of(u: UniverseView, line: Seq<char>) -> Seq<Seq<char>> {
    names_of(u, split(line, seq![' ', ' ']))
}


fn noise(universe: &Universe, word: &str) -> (r: bool)
    ensures
        r == is_noise(universe@, word@),
{
    ship_exists(universe, word) || is_stop_word(universe, word)
}

fn one_space() -> (r: Vec<char>)
    ensures
        r@ == seq![' '],
{
    let mut sep: Vec<char> = Vec::new();
    sep.push(' ');
    assert(sep@ =~= seq![' ']);
    sep
}

fn two_spaces() -> (r: Vec<char>)
    ensures
        r@ == seq![' ', ' '],
{
    let mut sep: Vec<char> = Vec::new();
    sep.push(' ');
    sep.push(' ');
    assert(sep@ =~= seq![' ', ' ']);
    sep
}

fn clean(universe: &Universe, clause: &Vec<char>) -> (r: Vec<char>)
    ensures
        r@ == clean_clause(universe@, clause@),
{
    let space = one_space();
    let parts = split_on(clause, &space);
    let ghost all = rows(parts@);
    let mut kept: Vec<Vec<char>> = Vec::new();
    let mut i: usize = 0;
    while i < parts.len()
        invariant
            i <= parts@.len(),
            all == rows(parts@),
            rows(kept@) == keep_words(universe@, all.take(i as int)),
        decreases parts@.len() - i,
    {
        let ghost before = rows(kept@);
        assert(all.take(i + 1).drop_last() =~= all.take(i as int));
        assert(all.take(i + 1).last() == parts@[i as int]@);
        let word = string_of(&parts[i]);
        if !noise(universe, word.as_str()) {
            kept.push(copy_chars(&parts[i]));
            assert(rows(kept@) =~= before.push(parts@[i as int]@));
        }
        i += 1;
    }
    assert(all.take(parts@.len() as int) =~= all);
    join_with(&kept, &space)
}

/// The line without wildcard marks and noise words.
pub fn normalize(universe: &Universe, text: &str) -> (r: String)
    ensures
        r@ == normalized(universe@, text@),
{
    let chars = chars_of(text);
    let bare = remove_char(&chars, '*');
    let gap = two_spaces();
    let clauses = split_on(&bare, &gap);
    let ghost all = rows(clauses@);
    let mut kept: Vec<Vec<char>> = Vec::new();
    let mut i: usize = 0;
    while i < clauses.len()
        invariant
            i <= clauses@.len(),
            all == rows(clauses@),
            rows(kept@) == clean_clauses(universe@, all.take(i as int)),
        decreases clauses@.len() - i,
    {
        let ghost before = rows(kept@);
        assert(all.take(i + 1).drop_last() =~= all.take(i as int));
        assert(all.take(i + 1).last() == clauses@[i as int]@);
        let clause = clean(universe, &clauses[i]);
        if clause.len() > 0 {
            let ghost text = clause@;
            kept.push(clause);
            assert(rows(kept@) =~= before.push(text));
        }
        i += 1;
    }
    assert(all.take(clauses@.len() as int) =~= all);
    let line = join_with(&kept, &gap);
    string_of(&line)
}

/// The tokens of a line: its words in upper case without `*` and `?`,
/// without those that are noise.
pub fn tokenize(universe: &Universe, text: &str) -> (r: Vec<String>)
    ensures
        texts(r@) == tokenized(universe@, text@),
{
    let chars = chars_of(text);
    let parts = words(&chars);
    let ghost all = rows(parts@);
    let mut tokens: Vec<String> = Vec::new();
    let mut i: usize = 0;
    while i < parts.len()
        invariant
            i <= parts@.len(),
            all == rows(parts@),
            texts(tokens@) == tokens_of(universe@, all.take(i as int)),
        decreases parts@.len() - i,
    {
        let ghost before = texts(tokens@);
        assert(all.take(i + 1).drop_last() =~= all.take(i as int));
        assert(all.take(i + 1).last() == parts@[i as int]@);
        let word = string_of(&parts[i]);
        let upper = to_uppercase(word.as_str());
        let upper_chars = chars_of(upper.as_str());
        let bare = remove_char(&remove_char(&upper_chars, '*'), '?');
        let token = string_of(&bare);
        if !noise(universe, token.as_str()) {
            let ghost text = token@;
            tokens.push(token);
            assert(texts(tokens@) =~= before.push(text));
        }
        i += 1;
    }
    assert(all.take(parts@.len() as int) =~= all);
    tokens
}

/// What may be names of pilots in a normalized line.
pub fn possible_names(universe: &Universe, line: &str) -> (r: Vec<String>)
    ensures
        texts(r@) == possible_names_of(universe@, line@),
{
    let chars = chars_of(line);
    let gap = two_spaces();
    let clauses = split_on(&chars, &gap);
    let ghost all = rows(clauses@);
    let mut names: Vec<String> = Vec::new();
    let mut i: usize = 0;
    while i < clauses.len()
        invariant
            i <= clauses@.len(),
            all == rows(clauses@),
            texts(names@) == names_of(universe@, all.take(i as int)),
        decreases clauses@.len() - i,
    {
        let ghost before = texts(names@);
        assert(all.take(i + 1).drop_last() =~= all.take(i as int));
        assert(all.take(i + 1).last() == clauses@[i as int]@);
        let clause = string_of(&clauses[i]);
        let named = System::find(universe, clause.as_str());
        if clauses[i].len() > 0 && named.is_none() && !noise(universe, clause.as_str()) {
            let ghost text = clause@;
            names.push(clause);
            assert(texts(names@) =~= before.push(text));
        }
        i += 1;
    }
    assert(all.take(clauses@.len() as int) =~= all);
    names
}

/// The tokens of `first` that are no word of the vocabulary `last`, where
/// at least one of them is such a word.
pub fn tokens_difference(first: &Vec<String>, last: &Vec<String>) -> (r: Option<Vec<String>>)
    ensures
        match r {
            Some(rest) => texts(rest@) == difference(texts(first@), texts(last@)) && rest@.len() < first@.len(),
            None => difference(texts(first@), texts(last@)) == texts(first@),
        },
        r is Some <==> exists|i: int| 0 <= i < first@.len() && texts(last@).contains(#[trigger] texts(first@)[i]),
{
    let ghost f = texts(first@);
    let ghost l = texts(last@);
    let mut out: Vec<String> = Vec::new();
    let mut i: usize = 0;
    proof {
        assert(f.take(0) =~= Seq::<Seq<char>>::empty());
        assert(texts(out@) =~= Seq::<Seq<char>>::empty());
    }
    while i < first.len()
        invariant
            i <= first@.len(),
            f == texts(first@),
            l == texts(last@),
            texts(out@) == difference(f.take(i as int), l),
            out@.len() == i ==> texts(out@) == f.take(i as int),
        decreases first@.len() - i,
    {
        let ghost before = texts(out@);
        proof {
            assert(f.take(i + 1).drop_last() =~= f.take(i as int));
            assert(f.take(i + 1).last() == first@[i as int]@);
            lemma_difference(f.take(i as int), l);
        }
        if !lists_word(last, &first[i]) {
            out.push(first[i].clone());
            proof {
                assert(texts(out@) =~= before.push(first@[i as int]@));
                if out@.len() == i + 1 {
                    assert(f.take(i + 1) =~= f.take(i as int).push(first@[i as int]@));
                }
            }
        }
        i += 1;
    }
    proof {
        assert(f.take(first@.len() as int) =~= f);
        lemma_difference(f, l);
    }
    if out.len() != first.len() {
        Some(out)
    } else {
        None
    }
}

fn clear_words() -> (r: Vec<String>)
    ensures
        texts(r@) == all_clear(),
{
    let mut list: Vec<String> = Vec::new();
    list.push("CLR".to_string());
    list.push("CLEAR".to_string());
    list.push("CLEA".to_string());
    proof {
        reveal_strlit("CLR");
        reveal_strlit("CLEAR");
        reveal_strlit("CLEA");
        assert("CLR"@ =~= seq!['C', 'L', 'R']);
        assert("CLEAR"@ =~= seq!['C', 'L', 'E', 'A', 'R']);
        assert("CLEA"@ =~= seq!['C', 'L', 'E', 'A']);
        assert(texts(list@) =~= all_clear());
    }
    list
}

fn status_list() -> (r: Vec<String>)
    ensures
        texts(r@) == status_words(),
{
    let mut list: Vec<String> = Vec::new();
    list.push("STS".to_string());
    list.push("STATUS".to_string());
    list.push("STAT".to_string());
    proof {
        reveal_strlit("STS");
        reveal_strlit("STATUS");
        reveal_strlit("STAT");
        assert("STS"@ =~= seq!['S', 'T', 'S']);
        assert("STATUS"@ =~= seq!['S', 'T', 'A', 'T', 'U', 'S']);
        assert("STAT"@ =~= seq!['S', 'T', 'A', 'T']);
        assert(texts(list@) =~= status_words());
    }
    list
}

/// The assessment of a report with the given tokens and route, and the
/// tokens that are left.
pub fn assess_thread_level(tokens: Vec<String>, route: &Option<Route>) -> (r: (ThreatAssetment, Vec<String>))
    ensures
        (r.0@, texts(r.1@)) == assess(texts(tokens@), route_view(*route)),
{
    match route {
        None => (ThreatAssetment::Unknown, tokens),
        Some(route) => {
            let no_proximity = clear_words();
            let no_threat = status_list();
            match tokens_difference(&tokens, &no_proximity) {
                Some(new_tokens) => {
                    if route.distance <= 5 {
                        (ThreatAssetment::NoThreat(route.destination.clone()), new_tokens)
                    } else {
                        (ThreatAssetment::ProximityIrelevant(route.distance), new_tokens)
                    }
                },
                None => match tokens_difference(&tokens, &no_threat) {
                    Some(new_tokens) => (ThreatAssetment::StatusRequest(route.destination.clone()), new_tokens),
                    None => {
                        let level = if route.distance == 0 {
                            ThreatAssetment::ProximityAlertCritical(route.distance)
                        } else if route.distance <= 4 {
                            ThreatAssetment::ProximityAlertHigh(route.distance)
                        } else if route.distance <= 10 {
                            ThreatAssetment::ProximityAlertLow(route.distance)
                        } else {
                            ThreatAssetment::ProximityIrelevant(route.distance)
                        };
                        (level, tokens)
                    },
                },
            }
        },
    }
}

/// `found` is what the search for the reported system among `tokens`
/// gives from the system `here`: no route where no token names a system
/// with a route from `here`, else a shortest route to the system named by
/// the token at the target position.
pub open spec fn picks(u: UniverseView, here: Seq<char>, tokens: Seq<Seq<char>>, found: Option<RouteView>) -> bool {
    match target(u, here, tokens) {
        None => found is None,
        Some(k) => {
            &&& 0 <= k < tokens.len()
            &&& found is Some
            &&& u.find(uppercase(tokens[k])) is Some
            &&& u.routable(here, u.find(uppercase(tokens[k]))->0.id)
            &&& u.routes(found->0, here, u.find(uppercase(tokens[k]))->0.id)
            &&& reach(u, here, tokens[k]) == Some(found->0.distance)
        },
    }
}

/// A report says of the text `text`, heard in the system `here`, what the
/// classifier finds in it.
pub open spec fn reports(u: UniverseView, report: IntelMessageView, text: Seq<char>, here: Seq<char>) -> bool {
    let line = normalized(u, text);
    let tokens = tokenized(u, line);
    &&& picks(u, here, tokens, report.route)
    &&& report.origin == match report.route {
        Some(r) => Some(r.destination),
        None => None,
    }
    &&& (report.threat_assement, report.tokens) == assess(residue(u, tokens), report.route)
    &&& report.involved_players == possible_names_of(u, line)
}

impl IntelMessage {
    /// The route to the system that the tokens report, seen from the
    /// system `location`, and the tokens that name no system.
    pub fn route(universe: &Universe, tokens: &Vec<String>, location: &System) -> (r: (Option<Route>, Vec<String>))
        ensures
            picks(universe@, location.id@, texts(tokens@), route_view(r.0)),
            texts(r.1@) == residue(universe@, texts(tokens@)),
    {
        let ghost u = universe@;
        let ghost here = location.id@;
        let ghost all = texts(tokens@);
        let mut best: Option<Route> = None;
        let mut rest: Vec<String> = Vec::new();
        let mut i: usize = 0;
        while i < tokens.len()
            invariant
                i <= tokens@.len(),
                u == universe@,
                here == location.id@,
                all == texts(tokens@),
                picks(u, here, all.take(i as int), route_view(best)),
                texts(rest@) == residue(u, all.take(i as int)),
            decreases tokens@.len() - i,
        {
            let ghost before = texts(rest@);
            let ghost seen = all.take(i as int);
            let ghost next = all.take(i + 1);
            let ghost earlier = target(u, here, seen);
            proof {
                assert(next.drop_last() =~= seen);
                assert(next.last() == tokens@[i as int]@);
                assert forall|k: int| 0 <= k < i implies next[k] == seen[k] by {}
            }
            match System::find(universe, tokens[i].as_str()) {
                Some(system) => {
                    match route(universe, location, &system) {
                        Some(found) => {
                            proof {
                                crate::universe::lemma_jumps(u, here, system.id@, found@);
                            }
                            let keep = match &best {
                                Some(b) => b.distance > found.distance,
                                None => false,
                            };
                            if !keep {
                                best = Some(found);
                            }
                        },
                        None => {},
                    }
                },
                None => {
                    rest.push(tokens[i].clone());
                    proof {
                        assert(texts(rest@) =~= before.push(tokens@[i as int]@));
                    }
                },
            }
            i += 1;
        }
        proof {
            assert(all.take(tokens@.len() as int) =~= all);
        }
        (best, rest)
    }

    /// The report on a chat line with the text `message`, written by
    /// `sender` and heard by the player at `location`.
    pub fn new(universe: &Universe, message: String, location: &PlayerLocation, sender: String) -> (r:
        IntelMessage)
        ensures
            r@.message == message@,
            r@.player == location.player@,
            r@.sender == sender@,
            reports(universe@, r@, message@, location.system.id@),
    {
        let line = normalize(universe, message.as_str());
        let tokens = tokenize(universe, line.as_str());
        let (route, tokens) = IntelMessage::route(universe, &tokens, &location.system);
        let origin = match &route {
            Some(r) => Some(r.destination.clone()),
            None => None,
        };
        let (threat_assement, tokens) = assess_thread_level(tokens, &route);
        let involved_players = possible_names(universe, line.as_str());
        IntelMessage {
            player: location.player.clone(),
            message,
            tokens,
            route,
            origin,
            involved_players,
            threat_assement,
            sender,
        }
    }
}


/// The form of the message of the game that tells where a player is.
pub const LOCATION_PATTERN: &'static str = "^Channel changed to Local : (.*)";

/// Why a message of the game does not tell where a player is.
#[derive(Clone, Copy, Debug, PartialEq, Eq)]
pub enum IntelError {
    /// The message names nothing.
    NoName,
    /// The message names no system.
    NoSuchSystem,
}

/// What comes of an event.
#[derive(Debug, PartialEq, Eq)]
pub enum Outcome {
    /// The event changes nothing and asks for nothing.
    Ignored,
    /// A player has moved.
    Moved,
    /// A message of the game could not be read.
    Failed(IntelError),
    /// A line of chat has been classified; the report is to come back as
    /// an event.
    Report(IntelMessage),
    /// A report is to be handed to the notifications.
    Deliver(IntelMessage),
}

/// What happens in the watch.
#[derive(Debug, PartialEq, Eq)]
pub enum Event {
    /// A line that stood in a log before the watch began.
    PreviousMessage(Message),
    /// A line that has been added to a log.
    NewMessage(Message),
    /// A line of chat that has been classified.
    IntelReport(IntelMessage),
}

/// Where the watched players are, as far as the game has told.
pub struct Intel {
    locations: StringHashMap<System>,
}

/// The system that the groups of a message name, where it has the form
/// of a message that tells where a player is.
pub open spec fn named_system(u: UniverseView, groups: Option<Seq<Option<Seq<char>>>>) -> Result<
    Option<SystemView>,
    IntelError,
> {
    match groups {
        None => Ok(None),
        Some(g) => if g.len() < 2 || g[1] is None {
            Err(IntelError::NoName)
        } else {
            match u.find(uppercase(g[1]->0)) {
                Some(system) => Ok(Some(system)),
                None => Err(IntelError::NoSuchSystem),
            }
        },
    }
}

/// What comes of a line in the channel `Local`: where it tells that its
/// listener is in a system, the listener has moved there; where it tells
/// nothing of the kind, nothing changes; where it names no system, that is
/// an error and nothing changes.
pub open spec fn tracks(
    u: UniverseView,
    before: Map<Seq<char>, SystemView>,
    after: Map<Seq<char>, SystemView>,
    message: crate::chat::MessageView,
    outcome: Outcome,
) -> bool {
    match named_system(u, regex_groups(LOCATION_PATTERN@, message.message)) {
        Ok(Some(system)) => outcome is Moved && after == before.insert(message.listener, system),
        Ok(None) => outcome is Ignored && after == before,
        Err(e) => outcome == Outcome::Failed(e) && after == before,
    }
}

impl View for Intel {
    type V = Map<Seq<char>, SystemView>;

    closed spec fn view(&self) -> Map<Seq<char>, SystemView> {
        Map::new(|player: Seq<char>| self.locations@.contains_key(player), |player: Seq<char>| self.locations@[player]@)
    }
}

impl Intel {
    /// No player's location is known.
    pub fn new() -> (r: Intel)
        ensures
            r@ == Map::<Seq<char>, SystemView>::empty(),
    {
        let r = Intel { locations: StringHashMap::new() };
        assert(r@ =~= Map::<Seq<char>, SystemView>::empty());
        r
    }

    /// The system where `player` is, where it is known.
    pub fn location(&self, player: &str) -> (r: Option<System>)
        ensures
            match r {
                Some(system) => self@.contains_key(player@) && self@[player@] == system@,
                None => !self@.contains_key(player@),
            },
    {
        match self.locations.get(player) {
            Some(system) => Some(system.clone()),
            None => None,
        }
    }

    /// Takes note of where a player is.
    pub fn new_location(&mut self, location: PlayerLocation)
        ensures
            final(self)@ == old(self)@.insert(location.player@, location.system@),
    {
        let ghost before = self@;
        let ghost player = location.player@;
        let ghost system = location.system@;
        self.locations.insert(location.player, location.system);
        assert(self@ =~= before.insert(player, system));
    }

    /// Takes note of where `listener` is, from the groups of a message of
    /// the game: a message of another form changes nothing, one that names
    /// a system moves the listener there, one that names none is an error.
    pub fn relocate(&mut self, universe: &Universe, listener: &str, groups: Option<Vec<Option<String>>>) -> (r:
        Result<(), IntelError>)
        ensures
            match named_system(universe@, groups_view(groups)) {
                Ok(Some(system)) => r is Ok && final(self)@ == old(self)@.insert(listener@, system),
                Ok(None) => r is Ok && final(self)@ == old(self)@,
                Err(e) => r == Err::<(), IntelError>(e) && final(self)@ == old(self)@,
            },
    {
        let list = match groups {
            Some(list) => list,
            None => {
                return Ok(());
            },
        };
        if list.len() < 2 {
            return Err(IntelError::NoName);
        }
        let name = match &list[1] {
            Some(name) => name,
            None => {
                return Err(IntelError::NoName);
            },
        };
        match System::find(universe, name.as_str()) {
            Some(system) => {
                let ghost before = self@;
                let ghost view = system@;
                self.locations.insert(listener.to_string(), system);
                assert(self@ =~= before.insert(listener@, view));
                Ok(())
            },
            None => Err(IntelError::NoSuchSystem),
        }
    }

    /// Takes note of where the listener of a message of the game is, where
    /// the message tells it.
    pub fn location_message(&mut self, universe: &Universe, message: &Message) -> (r: Result<(), IntelError>)
        ensures
            match named_system(universe@, regex_groups(LOCATION_PATTERN@, message.message@)) {
                Ok(Some(system)) => r is Ok && final(self)@ == old(self)@.insert(message.listener@, system),
                Ok(None) => r is Ok && final(self)@ == old(self)@,
                Err(e) => r == Err::<(), IntelError>(e) && final(self)@ == old(self)@,
            },
    {
        let groups = captures(LOCATION_PATTERN, message.message.as_str());
        self.relocate(universe, message.listener.as_str(), groups)
    }

    /// The report on a line of chat, where the location of its listener is
    /// known.
    pub fn intel_message(&self, universe: &Universe, message: &Message) -> (r: Option<IntelMessage>)
        ensures
            match r {
                Some(report) => {
                    &&& self@.contains_key(message.listener@)
                    &&& report@.message == message.message@
                    &&& report@.player == message.listener@
                    &&& report@.sender == message.sender@
                    &&& reports(universe@, report@, message.message@, self@[message.listener@].id)
                },
                None => !self@.contains_key(message.listener@),
            },
    {
        match self.locations.get(message.listener.as_str()) {
            Some(system) => {
                let location = PlayerLocation { player: message.listener.clone(), system: system.clone() };
                Some(IntelMessage::new(universe, message.message.clone(), &location, message.sender.clone()))
            },
            None => None,
        }
    }

    /// What comes of an event. A line in the channel `Local` may tell where
    /// its listener is. A new line in another channel is classified where
    /// the location of its listener is known. A report is handed on.
    pub fn handle(&mut self, universe: &Universe, event: Event) -> (r: Outcome)
        ensures
            match event {
                Event::PreviousMessage(message) => if message.channel@ == "Local"@ {
                    tracks(universe@, old(self)@, final(self)@, message@, r)
                } else {
                    r is Ignored && final(self)@ == old(self)@
                },
                Event::NewMessage(message) => if message.channel@ == "Local"@ {
                    tracks(universe@, old(self)@, final(self)@, message@, r)
                } else {
                    &&& final(self)@ == old(self)@
                    &&& match r {
                        Outcome::Report(report) => {
                            &&& old(self)@.contains_key(message.listener@)
                            &&& report@.message == message.message@
                            &&& report@.player == message.listener@
                            &&& report@.sender == message.sender@
                            &&& reports(universe@, report@, message.message@, old(self)@[message.listener@].id)
                        },
                        Outcome::Ignored => !old(self)@.contains_key(message.listener@),
                        _ => false,
                    }
                },
                Event::IntelReport(report) => r == Outcome::Deliver(report) && final(self)@ == old(self)@,
            },
    {
        match event {
            Event::PreviousMessage(message) => {
                if message.is_local_channel() {
                    self.moved(universe, &message)
                } else {
                    Outcome::Ignored
                }
            },
            Event::NewMessage(message) => {
                if message.is_local_channel() {
                    self.moved(universe, &message)
                } else {
                    match self.intel_message(universe, &message) {
                        Some(report) => Outcome::Report(report),
                        None => Outcome::Ignored,
                    }
                }
            },
            Event::IntelReport(report) => Outcome::Deliver(report),
        }
    }

    fn moved(&mut self, universe: &Universe, message: &Message) -> (r: Outcome)
        ensures
            tracks(universe@, old(self)@, final(self)@, message@, r),
    {
        let groups = captures(LOCATION_PATTERN, message.message.as_str());
        let known = groups.is_some();
        match self.relocate(universe, message.listener.as_str(), groups) {
            Ok(()) => if known {
                Outcome::Moved
            } else {
                Outcome::Ignored
            },
            Err(e) => Outcome::Failed(e),
        }
    }
}


proof fn lemma_keep_none(u: UniverseView, words: Seq<Seq<char>>)
    requires
        forall|i: int| 0 <= i < words.len() ==> is_noise(u, #[trigger] words[i]),
    ensures
        keep_words(u, words).len() == 0,
    decreases words.len(),
{
    if words.len() > 0 {
        assert(is_noise(u, words[words.len() - 1]));
        assert forall|i: int| 0 <= i < words.drop_last().len() implies is_noise(u, #[trigger] words.drop_last()[i]) by {
            assert(words.drop_last()[i] == words[i]);
        }
        lemma_keep_none(u, words.drop_last());
    }
}

proof fn lemma_clean_none(u: UniverseView, clauses: Seq<Seq<char>>)
    requires
        forall|i: int| 0 <= i < clauses.len() ==> clean_clause(u, #[trigger] clauses[i]).len() == 0,
    ensures
        clean_clauses(u, clauses).len() == 0,
    decreases clauses.len(),
{
    if clauses.len() > 0 {
        assert(clean_clause(u, clauses[clauses.len() - 1]).len() == 0);
        assert forall|i: int| 0 <= i < clauses.drop_last().len() implies clean_clause(
            u,
            #[trigger] clauses.drop_last()[i],
        ).len() == 0 by {
            assert(clauses.drop_last()[i] == clauses[i]);
        }
        lemma_clean_none(u, clauses.drop_last());
    }
}

/// Every word of every clause of the line is noise.
pub open spec fn only_noise(u: UniverseView, text: Seq<char>) -> bool {
    let clauses = split(without(text, '*'), seq![' ', ' ']);
    forall|c: int, w: int|
        0 <= c < clauses.len() && 0 <= w < split(clauses[c], seq![' ']).len() ==> is_noise(
            u,
            #[trigger] split(clauses[c], seq![' '])[w],
        )
}

/// A line that holds nothing but stop words and ship names leaves no
/// token, and the report on it knows of no threat.
pub proof fn lemma_noise_only(u: UniverseView, text: Seq<char>, here: Seq<char>, report: IntelMessageView)
    requires
        only_noise(u, text),
        reports(u, report, text, here),
    ensures
        normalized(u, text).len() == 0,
        report.route is None,
        report.origin is None,
        report.tokens.len() == 0,
        report.involved_players.len() == 0,
        report.threat_assement is Unknown,
{
    let clauses = split(without(text, '*'), seq![' ', ' ']);
    assert forall|c: int| 0 <= c < clauses.len() implies clean_clause(u, #[trigger] clauses[c]).len() == 0 by {
        let words = split(clauses[c], seq![' ']);
        assert forall|w: int| 0 <= w < words.len() implies is_noise(u, #[trigger] words[w]) by {
            assert(is_noise(u, split(clauses[c], seq![' '])[w]));
        }
        lemma_keep_none(u, words);
        assert(keep_words(u, words) =~= Seq::<Seq<char>>::empty());
    }
    lemma_clean_none(u, clauses);
    assert(clean_clauses(u, clauses) =~= Seq::<Seq<char>>::empty());
    let line = normalized(u, text);
    assert(line =~= Seq::<char>::empty());
    assert(split_whitespace(line) =~= Seq::<Seq<char>>::empty());
    assert(tokenized(u, line) =~= Seq::<Seq<char>>::empty());
    let parts = split(line, seq![' ', ' ']);
    assert(parts.len() == 1 && parts[0].len() == 0);
    assert(names_of(u, parts.drop_last()).len() == 0);
}

/// Where no token of a line names a system, the report on it knows of no
/// threat, and keeps all tokens.
pub proof fn lemma_no_system(u: UniverseView, text: Seq<char>, here: Seq<char>, report: IntelMessageView)
    requires
        forall|i: int|
            0 <= i < tokenized(u, normalized(u, text)).len() ==> !resolves(
                u,
                #[trigger] tokenized(u, normalized(u, text))[i],
            ),
        reports(u, report, text, here),
    ensures
        report.route is None,
        report.threat_assement is Unknown,
        report.tokens == tokenized(u, normalized(u, text)),
{
    let tokens = tokenized(u, normalized(u, text));
    lemma_unresolved(u, here, tokens);
}

proof fn lemma_unresolved(u: UniverseView, here: Seq<char>, tokens: Seq<Seq<char>>)
    requires
        forall|i: int| 0 <= i < tokens.len() ==> !resolves(u, #[trigger] tokens[i]),
    ensures
        target(u, here, tokens) is None,
        residue(u, tokens) == tokens,
    decreases tokens.len(),
{
    if tokens.len() > 0 {
        let rest = tokens.drop_last();
        assert(!resolves(u, tokens[tokens.len() - 1]));
        assert forall|i: int| 0 <= i < rest.len() implies !resolves(u, #[trigger] rest[i]) by {
            assert(rest[i] == tokens[i]);
        }
        lemma_unresolved(u, here, rest);
        assert(rest.push(tokens.last()) =~= tokens);
    }
}

} // verus!
