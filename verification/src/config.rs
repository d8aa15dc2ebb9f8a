//! What to watch: the directory of the chat logs, the channels and the
//! players.

use crate::text::texts;
use vstd::prelude::*;

verus! {

/// The configuration of the watch.
#[derive(Debug, PartialEq, Eq)]
pub struct Config {
    /// The names of the watched channels; `Local` is always among them.
    pub channels: Vec<String>,
    /// The names of the watched players.
    pub players: Vec<String>,
    /// The directory of the chat logs.
    pub chat_logs: String,
}

/// The mathematical model of a [`Config`].
pub struct ConfigView {
    pub channels: Seq<Seq<char>>,
    pub players: Seq<Seq<char>>,
    pub chat_logs: Seq<char>,
}

impl View for Config {
    type V = ConfigView;

    open spec fn view(&self) -> ConfigView {
        ConfigView { channels: texts(self.channels@), players: texts(self.players@), chat_logs: self.chat_logs@ }
    }
}

impl Clone for Config {
    fn clone(&self) -> (r: Config)
        ensures
            r@ == self@,
    {
        Config {
            channels: crate::text::copy_strings(&self.channels),
            players: crate::text::copy_strings(&self.players),
            chat_logs: self.chat_logs.clone(),
        }
    }
}

impl Config {
    /// The watch of the channel `Local` alone, for no player yet, in the
    /// directory `chat_logs`.
    pub fn new(chat_logs: &str) -> (r: Config)
        ensures
            r@ == (ConfigView { channels: seq!["Local"@], players: Seq::empty(), chat_logs: chat_logs@ }),
    {
        let mut channels: Vec<String> = Vec::new();
        channels.push("Local".to_string());
        let players: Vec<String> = Vec::new();
        let conf = Config { channels, players, chat_logs: chat_logs.to_string() };
        assert(conf@.channels =~= seq!["Local"@]);
        assert(conf@.players =~= Seq::<Seq<char>>::empty());
        conf
    }

    /// The same watch, for one more player.
    pub fn player(self, player: &str) -> (r: Config)
        ensures
            r@ == (ConfigView { players: self@.players.push(player@), ..self@ }),
    {
        let mut conf = self;
        conf.players.push(player.to_string());
        assert(conf@.players =~= self@.players.push(player@));
        conf
    }

    /// The same watch, of one more channel.
    pub fn channel(self, channel: &str) -> (r: Config)
        ensures
            r@ == (ConfigView { channels: self@.channels.push(channel@), ..self@ }),
    {
        let mut conf = self;
        conf.channels.push(channel.to_string());
        assert(conf@.channels =~= self@.channels.push(channel@));
        conf
    }
}

} // verus!
