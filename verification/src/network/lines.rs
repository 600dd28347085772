//! Connection records written as lines of text.

use vstd::prelude::*;
use vstd::string::StrSliceExecFns;
use crate::network::graph::{adjacency, build, record_names, Graph, Location, Name};

verus! {

/// Where the word that starts at `from` ends: the position of the first
/// space at or after `from`, or the length of the text where there is none.
pub open spec fn word_end(text: Seq<char>, from: int) -> int
    decreases text.len() - from,
{
    if from >= text.len() {
        text.len() as int
    } else if text[from] == ' ' {
        from
    } else {
        word_end(text, from + 1)
    }
}

/// The two locations that a line of the form `<LEFT> <ARROW> <RIGHT>` names:
/// its first and its third word, where words are parted by single spaces.
/// There are none where the line has fewer than two spaces.
pub open spec fn connection_of(text: Seq<char>) -> Option<(Name, Name)> {
    let first = word_end(text, 0);
    let second = word_end(text, first + 1);
    let third = word_end(text, second + 1);
    if first < text.len() && second < text.len() {
        Some((text.subrange(0, first), text.subrange(second + 1, third)))
    } else {
        None
    }
}

/// Where the word that starts at `from` ends.
fn find_word_end(line: &str, len: usize, from: usize) -> (end: usize)
    requires
        len == line@.len(),
        from <= len,
    ensures
        end == word_end(line@, from as int),
        from <= end <= len,
{
    let mut at: usize = from;
    while at < len && line.get_char(at) != ' '
        invariant
            from <= at <= len,
            len == line@.len(),
            word_end(line@, at as int) == word_end(line@, from as int),
        decreases len - at,
    {
        at += 1;
    }
    at
}

/// Reads a line of the form `<LEFT> <ARROW> <RIGHT>`. The arrow is not
/// looked at, and neither is what follows a space after the right side.
pub fn parse_connection(line: &str) -> (out: Option<(Location, Location)>)
    ensures
        out.is_some() == connection_of(line@).is_some(),
        out.is_some() ==> (out.unwrap().0@, out.unwrap().1@) == connection_of(line@).unwrap(),
{
    let len = line.unicode_len();
    let first = find_word_end(line, len, 0);
    if first == len {
        return None;
    }
    let second = find_word_end(line, len, first + 1);
    if second == len {
        return None;
    }
    let third = find_word_end(line, len, second + 1);
    let left = Location::new(line.substring_char(0, first));
    let right = Location::new(line.substring_char(second + 1, third));
    Some((left, right))
}

/// Every line names a connection.
pub open spec fn all_connections(lines: Seq<String>) -> bool {
    forall|i: int| 0 <= i < lines.len() ==> connection_of(#[trigger] lines[i]@).is_some()
}

/// The connections that the lines name, in the order of the lines.
pub open spec fn connections_of(lines: Seq<String>) -> Seq<(Name, Name)> {
    Seq::new(lines.len(), |i: int| connection_of(lines[i]@).unwrap())
}

/// Builds the network from lines of the form `<LEFT> <ARROW> <RIGHT>`.
/// There is no network where some line names no connection.
pub fn build_from_lines(lines: &Vec<String>) -> (out: Option<Graph>)
    ensures
        out.is_some() == all_connections(lines@),
        out.is_some() ==> out.unwrap()@ == adjacency(connections_of(lines@)),
        out.is_some() ==> out.unwrap().well_formed(),
{
    let mut records: Vec<(Location, Location)> = Vec::new();
    let mut i: usize = 0;
    while i < lines.len()
        invariant
            i <= lines.len(),
            records@.len() == i,
            forall|k: int| 0 <= k < i ==> connection_of(#[trigger] lines@[k]@).is_some(),
            forall|k: int|
                0 <= k < i ==> (#[trigger] records@[k].0@, records@[k].1@) == connection_of(
                    lines@[k]@,
                ).unwrap(),
        decreases lines.len() - i,
    {
        match parse_connection(lines[i].as_str()) {
            Some(record) => {
                records.push(record);
            },
            None => {
                return None;
            },
        }
        i += 1;
    }
    proof {
        assert(record_names(records@) =~= connections_of(lines@));
    }
    Some(build(&records))
}

} // verus!
