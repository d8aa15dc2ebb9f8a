//! Chat logs: the head of a log, the handle that follows a log as it
//! grows, the lines read from it, and the store of the handles by channel.

use crate::codec::{captures, decode_utf16, groups_view, parse_timestamp, regex_groups, timestamp_of, utf16le_text};
use crate::header::{field_texts, head_length, header_fields, Fields, Length};
use crate::text::{chars_of, remove_char, rows, split, split_on, string_of, trim, trimmed, without};
use vstd::hash_map::StringHashMap;
use vstd::pervasive::unreached;
use vstd::prelude::*;
use vstd::slice::slice_subrange;

verus! {

/// The form of a line of chat: time, sender and text.
pub const MESSAGE_PATTERN: &'static str =
    "^\\[ (\\d{4}\\.\\d{2}\\.\\d{2} \\d{2}:\\d{2}:\\d{2}) \\] (.+) > (.*)";

/// The form of the times in a chat log.
pub const TIME_FORMAT: &'static str = "%Y.%m.%d %H:%M:%S";

/// The head of a chat log.
#[derive(Debug, PartialEq, Eq)]
pub struct Header {
    pub id: String,
    pub name: String,
    pub listener: String,
    /// When the session began, in seconds: the version of the log.
    pub started_at: i64,
    /// The length of the head in bytes.
    pub offset: usize,
}

/// The mathematical model of a [`Header`].
pub struct HeaderView {
    pub id: Seq<char>,
    pub name: Seq<char>,
    pub listener: Seq<char>,
    pub started_at: i64,
    pub offset: usize,
}

impl View for Header {
    type V = HeaderView;

    open spec fn view(&self) -> HeaderView {
        HeaderView {
            id: self.id@,
            name: self.name@,
            listener: self.listener@,
            started_at: self.started_at,
            offset: self.offset,
        }
    }
}

impl Clone for Header {
    fn clone(&self) -> (r: Header)
        ensures
            r@ == self@,
    {
        Header {
            id: self.id.clone(),
            name: self.name.clone(),
            listener: self.listener.clone(),
            started_at: self.started_at,
            offset: self.offset,
        }
    }
}

/// Why a file is no chat log.
#[derive(Clone, Copy, Debug, PartialEq, Eq)]
pub enum HeaderError {
    /// The mark that ends the head stands nowhere.
    NoMarker,
    /// The field `Session started` is missing.
    NoSessionStarted,
    /// The field `Session started` holds no time.
    BadSessionStarted,
    /// The field `Channel ID` is missing.
    NoChannelId,
    /// The field `Channel Name` is missing.
    NoChannelName,
    /// The field `Listener` is missing.
    NoListener,
}

/// The key of the field with the time at which the session began.
pub open spec fn session_key() -> Seq<char> {
    "Session started"@
}

/// The head that the fields give, with the time `started_at` read from the
/// field `Session started`, or the first thing that is missing.
pub open spec fn header_from_fields(fields: Map<Seq<char>, Seq<char>>, started_at: Option<i64>, len: usize) -> Result<
    HeaderView,
    HeaderError,
> {
    if !fields.contains_key(session_key()) {
        Err(HeaderError::NoSessionStarted)
    } else if started_at is None {
        Err(HeaderError::BadSessionStarted)
    } else if !fields.contains_key("Channel ID"@) {
        Err(HeaderError::NoChannelId)
    } else if !fields.contains_key("Channel Name"@) {
        Err(HeaderError::NoChannelName)
    } else if !fields.contains_key("Listener"@) {
        Err(HeaderError::NoListener)
    } else {
        Ok(
            HeaderView {
                id: fields["Channel ID"@],
                name: fields["Channel Name"@],
                listener: fields["Listener"@],
                started_at: started_at->0,
                offset: len,
            },
        )
    }
}

/// The time that the field `Session started` holds, where it is there and
/// holds one.
pub open spec fn session_time(fields: Map<Seq<char>, Seq<char>>) -> Option<i64> {
    if fields.contains_key(session_key()) {
        timestamp_of(fields[session_key()], TIME_FORMAT@)
    } else {
        None
    }
}

/// The head with the text `text` and the length `len`.
pub open spec fn header_from_text(text: Seq<char>, len: usize) -> Result<HeaderView, HeaderError> {
    header_from_fields(header_fields(text), session_time(header_fields(text)), len)
}

/// The head of the log with the bytes `mem`.
pub open spec fn header_of(mem: Seq<u8>) -> Result<HeaderView, HeaderError> {
    match head_length(mem) {
        None => Err(HeaderError::NoMarker),
        Some(len) => header_from_text(utf16le_text(mem.subrange(0, len)), len as usize),
    }
}

/// The model of a head or of the reason why there is none.
pub open spec fn header_result(r: Result<Header, HeaderError>) -> Result<HeaderView, HeaderError> {
    match r {
        Ok(header) => Ok(header@),
        Err(e) => Err(e),
    }
}

impl Header {
    /// The head that the fields give, with the time `started_at` read from
    /// the field `Session started`, or the first thing that is missing.
    pub fn from_fields(fields: &StringHashMap<String>, started_at: Option<i64>, len: usize) -> (r: Result<
        Header,
        HeaderError,
    >)
        ensures
            header_result(r) == header_from_fields(field_texts(fields@), started_at, len),
    {
        if !fields.contains_key("Session started") {
            return Err(HeaderError::NoSessionStarted);
        }
        let started_at = match started_at {
            Some(at) => at,
            None => {
                return Err(HeaderError::BadSessionStarted);
            },
        };
        let id = match fields.get("Channel ID") {
            Some(id) => id.clone(),
            None => {
                return Err(HeaderError::NoChannelId);
            },
        };
        let name = match fields.get("Channel Name") {
            Some(name) => name.clone(),
            None => {
                return Err(HeaderError::NoChannelName);
            },
        };
        let listener = match fields.get("Listener") {
            Some(listener) => listener.clone(),
            None => {
                return Err(HeaderError::NoListener);
            },
        };
        Ok(Header { id, name, listener, started_at, offset: len })
    }

    /// The head with the text `content` and the length `len`.
    pub fn from_text(content: &str, len: usize) -> (r: Result<Header, HeaderError>)
        ensures
            header_result(r) == header_from_text(content@, len),
    {
        let fields = Fields::from(content);
        let started_at = match fields.get("Session started") {
            Some(text) => parse_timestamp(text.as_str(), TIME_FORMAT),
            None => None,
        };
        Header::from_fields(&fields, started_at, len)
    }

    /// The head of the log with the bytes `mem`: what stands before the
    /// mark, read as little-endian UTF-16.
    pub fn from(mem: &[u8]) -> (r: Result<Header, HeaderError>)
        ensures
            header_result(r) == header_of(mem@),
    {
        let len = match Length::from(mem) {
            Some(len) => len,
            None => {
                return Err(HeaderError::NoMarker);
            },
        };
        let content = decode_utf16(slice_subrange(mem, 0, len));
        Header::from_text(content.as_str(), len)
    }

    /// The length of the head in bytes.
    pub fn len(&self) -> (r: usize)
        ensures
            r == self.offset,
    {
        self.offset
    }
}

/// A line of chat.
#[derive(Debug, PartialEq, Eq)]
pub struct Message {
    /// When the line was written, in seconds.
    pub received_at: i64,
    pub listener: String,
    pub channel: String,
    pub sender: String,
    pub message: String,
}

/// The mathematical model of a [`Message`].
pub struct MessageView {
    pub received_at: i64,
    pub listener: Seq<char>,
    pub channel: Seq<char>,
    pub sender: Seq<char>,
    pub message: Seq<char>,
}

impl View for Message {
    type V = MessageView;

    open spec fn view(&self) -> MessageView {
        MessageView {
            received_at: self.received_at,
            listener: self.listener@,
            channel: self.channel@,
            sender: self.sender@,
            message: self.message@,
        }
    }
}

impl Clone for Message {
    fn clone(&self) -> (r: Message)
        ensures
            r@ == self@,
    {
        Message {
            received_at: self.received_at,
            listener: self.listener.clone(),
            channel: self.channel.clone(),
            sender: self.sender.clone(),
            message: self.message.clone(),
        }
    }
}

/// Why a line is no line of chat.
#[derive(Clone, Copy, Debug, PartialEq, Eq)]
pub enum MessageError {
    /// The line has not the form of a line of chat.
    NoMatch,
    /// The line holds no time.
    BadTimestamp,
}

/// The models of a sequence of messages.
pub open spec fn message_views(v: Seq<Message>) -> Seq<MessageView> {
    Seq::new(v.len(), |i: int| v[i]@)
}

/// The groups are those of a line of chat: the whole line, the time, the
/// sender and the text.
pub open spec fn is_chat_line(groups: Option<Seq<Option<Seq<char>>>>) -> bool {
    groups matches Some(g) && g.len() == 4 && g[1] is Some && g[2] is Some && g[3] is Some
}

/// The line of chat that the groups of a line give in the log with the
/// head `info`, with the time `stamp` read from the first group.
pub open spec fn message_from_groups(info: HeaderView, groups: Option<Seq<Option<Seq<char>>>>, stamp: Option<i64>) -> Result<
    MessageView,
    MessageError,
> {
    if !is_chat_line(groups) {
        Err(MessageError::NoMatch)
    } else if stamp is None {
        Err(MessageError::BadTimestamp)
    } else {
        Ok(
            MessageView {
                received_at: stamp->0,
                listener: info.listener,
                channel: info.name,
                sender: groups->0[2]->0,
                message: trim(groups->0[3]->0),
            },
        )
    }
}

/// The time that the groups of a line hold, where they are those of a line
/// of chat and hold one.
pub open spec fn stamp_of(groups: Option<Seq<Option<Seq<char>>>>) -> Option<i64> {
    if is_chat_line(groups) {
        timestamp_of(groups->0[1]->0, TIME_FORMAT@)
    } else {
        None
    }
}

/// The line of chat that `line` is in the log with the head `info`.
pub open spec fn message_of(info: HeaderView, line: Seq<char>) -> Result<MessageView, MessageError> {
    let groups = regex_groups(MESSAGE_PATTERN@, line);
    message_from_groups(info, groups, stamp_of(groups))
}

/// The model of a line of chat or of the reason why there is none.
pub open spec fn message_result(r: Result<Message, MessageError>) -> Result<MessageView, MessageError> {
    match r {
        Ok(message) => Ok(message@),
        Err(e) => Err(e),
    }
}

fn chat_line(groups: &Option<Vec<Option<String>>>) -> (r: bool)
    ensures
        r == is_chat_line(groups_view(*groups)),
{
    match groups {
        Some(list) => list.len() == 4 && list[1].is_some() && list[2].is_some() && list[3].is_some(),
        None => false,
    }
}

impl Message {
    /// The line of chat that the groups of a line give in the log with the
    /// head `info`, with the time `stamp` read from the first group.
    pub fn from_groups(info: &Header, groups: Option<Vec<Option<String>>>, stamp: Option<i64>) -> (r: Result<
        Message,
        MessageError,
    >)
        ensures
            message_result(r) == message_from_groups(info@, groups_view(groups), stamp),
    {
        if !chat_line(&groups) {
            return Err(MessageError::NoMatch);
        }
        let received_at = match stamp {
            Some(at) => at,
            None => {
                return Err(MessageError::BadTimestamp);
            },
        };
        let list = groups.unwrap();
        let sender = match &list[2] {
            Some(text) => text.clone(),
            None => unreached(),
        };
        let message = match &list[3] {
            Some(text) => string_of(&trimmed(&chars_of(text.as_str()))),
            None => unreached(),
        };
        Ok(Message { received_at, listener: info.listener.clone(), channel: info.name.clone(), sender, message })
    }

    /// The line of chat that `line` is in the log with the head `info`.
    pub fn from(info: &Header, line: &str) -> (r: Result<Message, MessageError>)
        ensures
            message_result(r) == message_of(info@, line@),
    {
        let groups = captures(MESSAGE_PATTERN, line);
        let stamp = if chat_line(&groups) {
            match &groups {
                Some(list) => match &list[1] {
                    Some(text) => parse_timestamp(text.as_str(), TIME_FORMAT),
                    None => None,
                },
                None => None,
            }
        } else {
            None
        };
        Message::from_groups(info, groups, stamp)
    }

    /// Whether the line stood in the channel `Local`.
    pub fn is_local_channel(&self) -> (r: bool)
        ensures
            r == (self.channel@ == "Local"@),
    {
        let local = "Local".to_string();
        self.channel == local
    }
}

/// The lines without white space around them and without byte-order
/// marks.
pub open spec fn chat_lines(raw: Seq<Seq<char>>) -> Seq<Seq<char>>
    decreases raw.len(),
{
    if raw.len() == 0 {
        raw
    } else {
        chat_lines(raw.drop_last()).push(without(trim(raw.last()), '\u{feff}'))
    }
}

/// The lines of chat among `lines` in the log with the head `info`.
pub open spec fn messages_of(info: HeaderView, lines: Seq<Seq<char>>) -> Seq<MessageView>
    decreases lines.len(),
{
    if lines.len() == 0 {
        Seq::empty()
    } else {
        match message_of(info, lines.last()) {
            Ok(message) => messages_of(info, lines.drop_last()).push(message),
            Err(_) => messages_of(info, lines.drop_last()),
        }
    }
}

/// The lines of chat in the bytes of `mem` from `offset` on, in the log
/// with the head `info`: none where nothing stands there.
pub open spec fn unread(info: HeaderView, offset: usize, mem: Seq<u8>) -> Seq<MessageView> {
    if offset < mem.len() {
        messages_of(info, chat_lines(split(utf16le_text(mem.subrange(offset as int, mem.len() as int)), seq!['\n'])))
    } else {
        Seq::empty()
    }
}

/// How far a log with the bytes `mem` has been read after what stands
/// from `offset` on has been read: to its end, unless it had been read
/// farther already.
pub open spec fn next_offset(offset: usize, mem: Seq<u8>) -> usize {
    if offset < mem.len() <= usize::MAX {
        mem.len() as usize
    } else {
        offset
    }
}

/// Reading a log again that has not grown gives no line and leaves the
/// handle where it is.
pub proof fn lemma_read_again(info: HeaderView, offset: usize, mem: Seq<u8>)
    requires
        mem.len() <= usize::MAX,
    ensures
        unread(info, next_offset(offset, mem), mem) == Seq::<MessageView>::empty(),
        next_offset(next_offset(offset, mem), mem) == next_offset(offset, mem),
        offset <= next_offset(offset, mem),
        offset <= mem.len() ==> next_offset(offset, mem) <= mem.len(),
{
}

/// The handle on a chat log: its head, its path and how far it has been
/// read.
#[derive(Debug, PartialEq, Eq)]
pub struct Channel {
    pub header: Header,
    pub path: String,
    /// The number of bytes that have been read.
    pub offset: usize,
}

/// The mathematical model of a [`Channel`].
pub struct ChannelView {
    pub header: HeaderView,
    pub path: Seq<char>,
    pub offset: usize,
}

impl View for Channel {
    type V = ChannelView;

    open spec fn view(&self) -> ChannelView {
        ChannelView { header: self.header@, path: self.path@, offset: self.offset }
    }
}

impl Clone for Channel {
    fn clone(&self) -> (r: Channel)
        ensures
            r@ == self@,
    {
        Channel { header: self.header.clone(), path: self.path.clone(), offset: self.offset }
    }
}

impl ChannelView {
    /// What tells one channel from another: its name and its listener.
    pub open spec fn identity(self) -> (Seq<char>, Seq<char>) {
        (self.header.name, self.header.listener)
    }
}

/// The model of a handle or of the reason why there is none.
pub open spec fn channel_result(r: Result<Channel, HeaderError>) -> Result<ChannelView, HeaderError> {
    match r {
        Ok(channel) => Ok(channel@),
        Err(e) => Err(e),
    }
}

impl Channel {
    /// The handle on the log at `path` with the bytes `mem`, of which the
    /// head has been read.
    pub fn from(path: &str, mem: &[u8]) -> (r: Result<Channel, HeaderError>)
        ensures
            channel_result(r) == match header_of(mem@) {
                Ok(header) => Ok(ChannelView { header, path: path@, offset: header.offset }),
                Err(e) => Err(e),
            },
    {
        match Header::from(mem) {
            Ok(header) => {
                let offset = header.offset;
                Ok(Channel { header, path: path.to_string(), offset })
            },
            Err(e) => Err(e),
        }
    }

    /// Passes over what the log holds: a log with `len` bytes counts as
    /// read to its end.
    pub fn fast_forward(&mut self, len: usize)
        ensures
            final(self).header == old(self).header,
            final(self).path == old(self).path,
            final(self).offset == if len > old(self).offset {
                len
            } else {
                old(self).offset
            },
    {
        if len > self.offset {
            self.offset = len;
        }
    }

    /// The lines of chat that the log with the bytes `mem` holds beyond
    /// what has been read, in the order of the log. The handle then counts
    /// the log as read to its end.
    pub fn messages(&mut self, mem: &[u8]) -> (r: Vec<Message>)
        ensures
            message_views(r@) == unread(old(self).header@, old(self).offset, mem@),
            final(self).offset == next_offset(old(self).offset, mem@),
            final(self).header == old(self).header,
            final(self).path == old(self).path,
    {
        let mut out: Vec<Message> = Vec::new();
        let n = mem.len();
        if self.offset >= n {
            assert(message_views(out@) =~= Seq::<MessageView>::empty());
            return out;
        }
        let text = decode_utf16(slice_subrange(mem, self.offset, n));
        let chars = chars_of(text.as_str());
        let mut newline: Vec<char> = Vec::new();
        newline.push('\n');
        assert(newline@ =~= seq!['\n']);
        let raw = split_on(&chars, &newline);
        let ghost all = rows(raw@);
        let ghost info = self.header@;
        let mut i: usize = 0;
        assert(message_views(out@) =~= Seq::<MessageView>::empty());
        while i < raw.len()
            invariant
                i <= raw@.len(),
                all == rows(raw@),
                info == self.header@,
                message_views(out@) == messages_of(info, chat_lines(all.take(i as int))),
            decreases raw@.len() - i,
        {
            let ghost before = message_views(out@);
            let ghost lines = chat_lines(all.take(i as int));
            assert(all.take(i + 1).drop_last() =~= all.take(i as int));
            assert(all.take(i + 1).last() == raw@[i as int]@);
            let line = string_of(&remove_char(&trimmed(&raw[i]), '\u{feff}'));
            assert(chat_lines(all.take(i + 1)) == lines.push(line@));
            assert(lines.push(line@).drop_last() =~= lines);
            match Message::from(&self.header, line.as_str()) {
                Ok(message) => {
                    let ghost view = message@;
                    out.push(message);
                    assert(message_views(out@) =~= before.push(view));
                },
                Err(_) => {},
            }
            i += 1;
        }
        assert(all.take(raw@.len() as int) =~= all);
        self.offset = n;
        out
    }
}

} // verus!
