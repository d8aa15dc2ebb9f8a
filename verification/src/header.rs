//! The head of a chat log: the scanner that finds where it ends and the
//! parser of its fields.

use crate::text::{chars_of, find, position, rows, slice, split, split_on, string_of, trim, trimmed};
use vstd::hash_map::StringHashMap;
use vstd::prelude::*;

verus! {

/// The mark that ends the head stands in `buf` at position `at`: the bytes
/// `0xFF 0xFE 0x5B`.
pub open spec fn marker_at(buf: Seq<u8>, at: int) -> bool {
    0 <= at && at + 3 <= buf.len() && buf[at] == 0xff && buf[at + 1] == 0xfe && buf[at + 2] == 0x5b
}

/// The length of the head of `buf`: the first position where the mark
/// stands, where it stands anywhere.
pub open spec fn head_length(buf: Seq<u8>) -> Option<int> {
    if exists|k: int| marker_at(buf, k) {
        Some(choose|k: int| marker_at(buf, k) && forall|j: int| 0 <= j < k ==> !marker_at(buf, j))
    } else {
        None
    }
}

/// Where the last byte of the first mark stands at position `p`, the head
/// has the length `p - 2`.
pub proof fn lemma_head_ends(buf: Seq<u8>, p: int)
    requires
        marker_at(buf, p - 2),
        forall|k: int| 0 <= k < p - 2 ==> !marker_at(buf, k),
    ensures
        head_length(buf) == Some(p - 2),
{
    let first = choose|k: int| marker_at(buf, k) && forall|j: int| 0 <= j < k ==> !marker_at(buf, j);
    assert(marker_at(buf, first) && forall|j: int| 0 <= j < first ==> !marker_at(buf, j));
    if first < p - 2 {
        assert(!marker_at(buf, first));
    } else if p - 2 < first {
        assert(!marker_at(buf, p - 2));
    }
}

/// The state of the scanner for the end of the head.
#[derive(Clone, Copy, Debug, PartialEq, Eq)]
pub enum Length {
    ExpectingFF,
    ExpectingFE,
    Expecting5B,
    PositionFound,
}

impl Length {
    /// The state after the byte `c`. A `0xFF` always begins the mark anew;
    /// every other byte either continues the mark or leads back to the
    /// beginning.
    pub open spec fn step(self, c: u8) -> Length {
        if c == 0xff {
            Length::ExpectingFE
        } else if c == 0xfe && self is ExpectingFE {
            Length::Expecting5B
        } else if c == 0x5b && self is Expecting5B {
            Length::PositionFound
        } else {
            Length::ExpectingFF
        }
    }

    /// The state after the byte `c`.
    pub fn parse(&self, c: u8) -> (r: Length)
        ensures
            r == self.step(c),
    {
        if c == 0xff {
            Length::ExpectingFE
        } else if c == 0xfe {
            match self {
                Length::ExpectingFE => Length::Expecting5B,
                _ => Length::ExpectingFF,
            }
        } else if c == 0x5b {
            match self {
                Length::Expecting5B => Length::PositionFound,
                _ => Length::ExpectingFF,
            }
        } else {
            Length::ExpectingFF
        }
    }

    /// Whether the mark has been read to its end.
    pub fn done(&self) -> (r: bool)
        ensures
            r == (self is PositionFound),
    {
        match self {
            Length::PositionFound => true,
            _ => false,
        }
    }

    /// The length of the head: the position where the mark first stands in
    /// `buf`, or nothing where it stands nowhere.
    pub fn from(buf: &[u8]) -> (r: Option<usize>)
        ensures
            match r {
                Some(len) => marker_at(buf@, len as int) && forall|k: int| 0 <= k < len ==> !marker_at(buf@, k),
                None => forall|k: int| !marker_at(buf@, k),
            },
            head_length(buf@) == match r {
                Some(len) => Some(len as int),
                None => None,
            },
    {
        let mut state = Length::ExpectingFF;
        let mut i: usize = 0;
        while i < buf.len()
            invariant
                i <= buf@.len(),
                forall|k: int| k + 3 <= i ==> !marker_at(buf@, k),
                state is ExpectingFE <==> i >= 1 && buf@[i - 1] == 0xff,
                state is Expecting5B <==> i >= 2 && buf@[i - 2] == 0xff && buf@[i - 1] == 0xfe,
                !(state is PositionFound),
            decreases buf@.len() - i,
        {
            state = state.parse(buf[i]);
            if state.done() {
                proof {
                    lemma_head_ends(buf@, i as int);
                }
                return Some(i - 2);
            }
            i += 1;
        }
        None
    }
}

/// The state of the parser of the fields of a head.
#[derive(Debug, PartialEq, Eq)]
pub enum Fields {
    /// Before the line of dashes that opens the fields.
    ExpectingSeparator,
    /// Among the fields, after a line that is no field.
    ExpectingField,
    /// After the line of a field, with its key and its value.
    Field(String, String),
    /// After the line of dashes that closes the fields.
    Done,
}

/// The mathematical model of a [`Fields`].
pub enum FieldsView {
    ExpectingSeparator,
    ExpectingField,
    Field(Seq<char>, Seq<char>),
    Done,
}

impl View for Fields {
    type V = FieldsView;

    open spec fn view(&self) -> FieldsView {
        match self {
            Fields::ExpectingSeparator => FieldsView::ExpectingSeparator,
            Fields::ExpectingField => FieldsView::ExpectingField,
            Fields::Field(key, value) => FieldsView::Field(key@, value@),
            Fields::Done => FieldsView::Done,
        }
    }
}

impl Clone for Fields {
    fn clone(&self) -> (r: Fields)
        ensures
            r@ == self@,
    {
        match self {
            Fields::ExpectingSeparator => Fields::ExpectingSeparator,
            Fields::ExpectingField => Fields::ExpectingField,
            Fields::Field(key, value) => Fields::Field(key.clone(), value.clone()),
            Fields::Done => Fields::Done,
        }
    }
}

/// The state after a line. A line that begins with a dash opens the
/// fields, or closes them once they are open. Among the fields a line with
/// a colon is a field: its key stands before the first colon, its value
/// after it, both without white space around them.
pub open spec fn next_state(state: FieldsView, line: Seq<char>) -> FieldsView {
    let dash = line.len() > 0 && line[0] == '-';
    match state {
        FieldsView::ExpectingSeparator => if dash {
            FieldsView::ExpectingField
        } else {
            FieldsView::ExpectingSeparator
        },
        FieldsView::Done => FieldsView::Done,
        _ => if dash {
            FieldsView::Done
        } else {
            match find(line, seq![':'], 0) {
                Some(at) => FieldsView::Field(
                    trim(line.subrange(0, at)),
                    trim(line.subrange(at + 1, line.len() as int)),
                ),
                None => FieldsView::ExpectingField,
            }
        },
    }
}

/// The lines without white space around them, and without those that are
/// empty then.
pub open spec fn header_lines(raw: Seq<Seq<char>>) -> Seq<Seq<char>>
    decreases raw.len(),
{
    if raw.len() == 0 {
        raw
    } else if trim(raw.last()).len() == 0 {
        header_lines(raw.drop_last())
    } else {
        header_lines(raw.drop_last()).push(trim(raw.last()))
    }
}

/// The state of the parser after the lines, and the fields it has read:
/// each key with the value of its last line.
pub open spec fn parsed(lines: Seq<Seq<char>>) -> (FieldsView, Map<Seq<char>, Seq<char>>)
    decreases lines.len(),
{
    if lines.len() == 0 {
        (FieldsView::ExpectingSeparator, Map::empty())
    } else {
        let (state, fields) = parsed(lines.drop_last());
        let next = next_state(state, lines.last());
        match next {
            FieldsView::Field(key, value) => (next, fields.insert(key, value)),
            _ => (next, fields),
        }
    }
}

/// The fields of the head with the text `header`.
pub open spec fn header_fields(header: Seq<char>) -> Map<Seq<char>, Seq<char>> {
    parsed(header_lines(split(header, seq!['\n']))).1
}

/// The texts of the values of a map of strings.
pub open spec fn field_texts(fields: Map<Seq<char>, String>) -> Map<Seq<char>, Seq<char>> {
    Map::new(|key: Seq<char>| fields.contains_key(key), |key: Seq<char>| fields[key]@)
}

fn advance(state: Fields, line: &Vec<char>) -> (r: Fields)
    ensures
        r@ == next_state(state@, line@),
{
    let dash = line.len() > 0 && line[0] == '-';
    match state {
        Fields::ExpectingSeparator => {
            if dash {
                Fields::ExpectingField
            } else {
                Fields::ExpectingSeparator
            }
        },
        Fields::Done => Fields::Done,
        _ => {
            if dash {
                Fields::Done
            } else {
                let mut colon: Vec<char> = Vec::new();
                colon.push(':');
                assert(colon@ =~= seq![':']);
                match position(line, &colon, 0) {
                    Some(at) => {
                        let key = trimmed(&slice(line, 0, at));
                        let value = trimmed(&slice(line, at + 1, line.len()));
                        Fields::Field(string_of(&key), string_of(&value))
                    },
                    None => Fields::ExpectingField,
                }
            }
        },
    }
}

impl Fields {
    /// The state after a line.
    pub fn line(self, line: &str) -> (r: Fields)
        ensures
            r@ == next_state(self@, line@),
    {
        let chars = chars_of(line);
        advance(self, &chars)
    }

    /// The fields of the head with the text `header`: its lines are read
    /// without white space around them, empty lines are passed over.
    pub fn from(header: &str) -> (r: StringHashMap<String>)
        ensures
            field_texts(r@) == header_fields(header@),
    {
        let chars = chars_of(header);
        let mut newline: Vec<char> = Vec::new();
        newline.push('\n');
        assert(newline@ =~= seq!['\n']);
        let raw = split_on(&chars, &newline);
        let ghost all = rows(raw@);
        let mut map: StringHashMap<String> = StringHashMap::new();
        let mut state = Fields::ExpectingSeparator;
        let mut i: usize = 0;
        proof {
            assert(field_texts(map@) =~= Map::<Seq<char>, Seq<char>>::empty());
        }
        while i < raw.len()
            invariant
                i <= raw@.len(),
                all == rows(raw@),
                (state@, field_texts(map@)) == parsed(header_lines(all.take(i as int))),
            decreases raw@.len() - i,
        {
            let ghost before = field_texts(map@);
            let ghost lines = header_lines(all.take(i as int));
            assert(all.take(i + 1).drop_last() =~= all.take(i as int));
            assert(all.take(i + 1).last() == raw@[i as int]@);
            let line = trimmed(&raw[i]);
            if line.len() > 0 {
                assert(lines.push(line@).drop_last() =~= lines);
                state = advance(state, &line);
                match &state {
                    Fields::Field(key, value) => {
                        map.insert(key.clone(), value.clone());
                        assert(field_texts(map@) =~= before.insert(key@, value@));
                    },
                    _ => {},
                }
            }
            i += 1;
        }
        assert(all.take(raw@.len() as int) =~= all);
        map
    }
}

} // verus!
