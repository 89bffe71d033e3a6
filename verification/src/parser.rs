//! Reading desktop entry files: one function for each rule of the grammar,
//! and `parse_desktop_entry` for a whole document.
//!
//! A rule function takes the text in front of it and, where the rule
//! matches, returns the text behind the match together with what the rule
//! yields. All pieces are slices of the text that was handed in.

use vstd::prelude::*;
use crate::errors::{ParseError, ParseResult};
use crate::grammar::{
    behind_line_end, body_line_rule, body_pairs, comment_rule, document, empty_line_rule,
    entries_rule, entry_rule, eof_rule, eol_rule, group_header_rule, group_rule, groups_rule,
    item_rule, key_len, key_rule, lemma_item_takes_bytes, lemma_lines_take_bytes, named_groups,
    Named, Pair, Step,
};
use crate::tables::{pairs_to_map, Entries, Groups, GroupsView};
use crate::text::{
    bytes_of, lemma_boundary, scan, slice, slice_from, slice_to, ByteClass, CLOSE_BRACKET, EQUALS,
    HASH, NEWLINE, OPEN_BRACKET,
};

verus! {

/// Why a rule function returns no match.
#[derive(Debug, Clone, Copy, PartialEq, Eq)]
pub enum NoMatch<'a> {
    /// The rule does not apply to the text. Another rule may.
    Declined,
    /// The rule applied to the text and could not be completed. Holds that
    /// text. No other rule may be tried in its place.
    Broken(&'a str),
}

/// What a rule function returns: the text behind the match and the value of
/// the rule, or the reason why there is no match.
pub type Parsed<'a, T> = Result<(&'a str, T), NoMatch<'a>>;

/// The step of the grammar that a result of a rule function stands for,
/// with the value seen through `view`.
pub open spec fn outcome<'a, T, V>(r: Parsed<'a, T>, view: spec_fn(T) -> V) -> Step<V> {
    match r {
        Ok((rest, value)) => Step::Taken { value: view(value), rest: bytes_of(rest) },
        Err(NoMatch::Declined) => Step::Declined,
        Err(NoMatch::Broken(at)) => Step::Broken { at: bytes_of(at) },
    }
}

/// The offset behind the line end at `at`.
fn behind(bytes: &[u8], at: usize) -> (r: usize)
    requires
        at <= bytes@.len(),
    ensures
        r == behind_line_end(bytes@, at as int),
{
    if at < bytes.len() {
        at + 1
    } else {
        at
    }
}

/// The end of the text.
pub fn eof<'a>(input: &'a str) -> (r: Parsed<'a, &'a str>)
    ensures
        outcome(r, |v: &str| bytes_of(v)) == eof_rule(bytes_of(input)),
{
    if input.as_bytes().len() == 0 {
        Ok((input, input))
    } else {
        Err(NoMatch::Declined)
    }
}

/// A line end: a newline, or the end of the text.
pub fn eol<'a>(input: &'a str) -> (r: Parsed<'a, ()>)
    ensures
        outcome(r, |v: ()| ()) == eol_rule(bytes_of(input)),
{
    let bytes = input.as_bytes();
    if bytes.len() == 0 {
        assert(bytes_of(input).skip(0) =~= bytes_of(input));
        Ok((input, ()))
    } else if bytes[0] == NEWLINE {
        proof {
            lemma_boundary(input, 1);
        }
        Ok((slice_from(input, 1), ()))
    } else {
        Err(NoMatch::Declined)
    }
}

/// A blank line.
pub fn empty_line<'a>(input: &'a str) -> (r: Parsed<'a, ()>)
    ensures
        outcome(r, |v: ()| ()) == empty_line_rule(bytes_of(input)),
{
    let bytes = input.as_bytes();
    let end = scan(bytes, 0, ByteClass::Blank);
    if end < bytes.len() && bytes[end] == NEWLINE {
        proof {
            lemma_boundary(input, end + 1);
        }
        Ok((slice_from(input, end + 1), ()))
    } else if end == bytes.len() && end > 0 {
        proof {
            lemma_boundary(input, end as int);
        }
        Ok((slice_from(input, end), ()))
    } else {
        Err(NoMatch::Declined)
    }
}

/// A comment. Yields the line without its `#` and without its end.
pub fn comment<'a>(input: &'a str) -> (r: Parsed<'a, &'a str>)
    ensures
        outcome(r, |v: &str| bytes_of(v)) == comment_rule(bytes_of(input)),
{
    let bytes = input.as_bytes();
    if bytes.len() == 0 || bytes[0] != HASH {
        return Err(NoMatch::Declined);
    }
    let end = scan(bytes, 1, ByteClass::Except(NEWLINE));
    let next = behind(bytes, end);
    proof {
        lemma_boundary(input, 1);
        lemma_boundary(input, end as int);
        lemma_boundary(input, next as int);
    }
    Ok((slice_from(input, next), slice(input, 1, end)))
}

/// A group header. Yields the name of the group.
pub fn group_header<'a>(input: &'a str) -> (r: Parsed<'a, &'a str>)
    ensures
        outcome(r, |v: &str| bytes_of(v)) == group_header_rule(bytes_of(input)),
{
    let bytes = input.as_bytes();
    if bytes.len() == 0 || bytes[0] != OPEN_BRACKET {
        return Err(NoMatch::Declined);
    }
    let end = scan(bytes, 1, ByteClass::Except(CLOSE_BRACKET));
    if end < bytes.len() && (end + 1 == bytes.len() || bytes[end + 1] == NEWLINE) {
        let next = behind(bytes, end + 1);
        proof {
            lemma_boundary(input, 1);
            lemma_boundary(input, end as int);
            lemma_boundary(input, next as int);
        }
        Ok((slice_from(input, next), slice(input, 1, end)))
    } else {
        Err(NoMatch::Broken(input))
    }
}

/// The length of the raw key at the front of the text.
fn key_end(bytes: &[u8]) -> (r: usize)
    ensures
        r == key_len(bytes@),
        r <= bytes@.len(),
        r == 0 || bytes@[r - 1] < 0x80,
{
    let base = scan(bytes, 0, ByteClass::KeyByte);
    if base < bytes.len() && bytes[base] == OPEN_BRACKET {
        let close = scan(bytes, base + 1, ByteClass::Except(CLOSE_BRACKET));
        if base + 1 < close && close < bytes.len() {
            return close + 1;
        }
    }
    base
}

/// A raw key, with its locale tag if it has one.
pub fn key<'a>(input: &'a str) -> (r: Parsed<'a, &'a str>)
    ensures
        outcome(r, |v: &str| bytes_of(v)) == key_rule(bytes_of(input)),
{
    let end = key_end(input.as_bytes());
    proof {
        lemma_boundary(input, end as int);
    }
    Ok((slice_from(input, end), slice_to(input, end)))
}

/// An entry. Yields the raw key and the value.
pub fn entry<'a>(input: &'a str) -> (r: Parsed<'a, (&'a str, &'a str)>)
    ensures
        outcome(r, |v: (&str, &str)| (bytes_of(v.0), bytes_of(v.1))) == entry_rule(
            bytes_of(input),
        ),
{
    let bytes = input.as_bytes();
    let key_end = key_end(bytes);
    let sign = scan(bytes, key_end, ByteClass::Blank);
    if sign < bytes.len() && bytes[sign] == EQUALS {
        let start = scan(bytes, sign + 1, ByteClass::Blank);
        let end = scan(bytes, start, ByteClass::Except(NEWLINE));
        let next = behind(bytes, end);
        proof {
            lemma_boundary(input, key_end as int);
            lemma_boundary(input, start as int);
            lemma_boundary(input, end as int);
            lemma_boundary(input, next as int);
        }
        Ok((slice_from(input, next), (slice_to(input, key_end), slice(input, start, end))))
    } else {
        Err(NoMatch::Declined)
    }
}

/// The bytes of a raw key and of its value.
pub open spec fn pair_bytes(pair: (&str, &str)) -> Pair {
    (bytes_of(pair.0), bytes_of(pair.1))
}

/// The bytes of a group name, and the view of the group's entries.
pub open spec fn named_view(group: (&str, Entries)) -> Named {
    (bytes_of(group.0), group.1@)
}

/// One line of a group body. Yields the pair of an entry, and nothing for a
/// comment or a blank line.
fn body_line<'a>(input: &'a str) -> (r: Parsed<'a, Option<(&'a str, &'a str)>>)
    ensures
        outcome(
            r,
            |v: Option<(&str, &str)>|
                match v {
                    Some(pair) => Some(pair_bytes(pair)),
                    None => None,
                },
        ) == body_line_rule(bytes_of(input)),
{
    if let Ok((rest, _)) = comment(input) {
        return Ok((rest, None));
    }
    if let Ok((rest, pair)) = entry(input) {
        return Ok((rest, Some(pair)));
    }
    if let Ok((rest, _)) = empty_line(input) {
        return Ok((rest, None));
    }
    Err(NoMatch::Declined)
}

/// A group body: its lines, up to the first text that is none. Yields the
/// table of the entries.
pub fn entries<'a>(input: &'a str) -> (r: Parsed<'a, Entries<'a>>)
    ensures
        outcome(r, |v: Entries| v@) == entries_rule(bytes_of(input)),
{
    let mut table = Entries::new();
    let mut rest = input;
    let ghost mut seen: Seq<Pair> = Seq::empty();
    assert(seen + body_pairs(bytes_of(rest)).0 =~= body_pairs(bytes_of(rest)).0);
    loop
        invariant
            table@ == pairs_to_map(seen),
            body_pairs(bytes_of(input)).0 == seen + body_pairs(bytes_of(rest)).0,
            body_pairs(bytes_of(input)).1 == body_pairs(bytes_of(rest)).1,
        decreases bytes_of(rest).len(),
    {
        proof {
            lemma_lines_take_bytes(bytes_of(rest));
        }
        let ghost tail = body_pairs(bytes_of(rest)).0;
        match body_line(rest) {
            Ok((next, line)) => {
                if let Some((raw_key, value)) = line {
                    table.insert(raw_key, value);
                    proof {
                        let pair = pair_bytes((raw_key, value));
                        assert(seen.push(pair).drop_last() =~= seen);
                        assert(seen + tail =~= seen.push(pair) + body_pairs(bytes_of(next)).0);
                        seen = seen.push(pair);
                    }
                }
                rest = next;
            },
            Err(_) => {
                assert(seen + tail =~= seen);
                return Ok((rest, table));
            },
        }
    }
}

/// A group: its header and its body. Yields the name and the table of the
/// entries.
pub fn group<'a>(input: &'a str) -> (r: Parsed<'a, (&'a str, Entries<'a>)>)
    ensures
        outcome(r, |v: (&str, Entries)| named_view(v)) == group_rule(bytes_of(input)),
{
    match group_header(input) {
        Ok((rest, name)) => {
            match entries(rest) {
                Ok((rest, table)) => Ok((rest, (name, table))),
                Err(stop) => Err(stop),
            }
        },
        Err(stop) => Err(stop),
    }
}

/// One item of a document. Yields the name and the entries of a group, and
/// nothing for a comment or a blank line.
fn item<'a>(input: &'a str) -> (r: Parsed<'a, Option<(&'a str, Entries<'a>)>>)
    ensures
        outcome(
            r,
            |v: Option<(&str, Entries)>|
                match v {
                    Some(group) => Some(named_view(group)),
                    None => None,
                },
        ) == item_rule(bytes_of(input)),
{
    if let Ok((rest, _)) = comment(input) {
        return Ok((rest, None));
    }
    match group(input) {
        Ok((rest, group)) => Ok((rest, Some(group))),
        Err(NoMatch::Broken(at)) => Err(NoMatch::Broken(at)),
        Err(NoMatch::Declined) => {
            if let Ok((rest, _)) = empty_line(input) {
                Ok((rest, None))
            } else {
                Err(NoMatch::Declined)
            }
        },
    }
}

/// `step` with `seen` in front of the list that it took, if it took one.
spec fn after<T>(seen: Seq<T>, step: Step<Seq<T>>) -> Step<Seq<T>> {
    match step {
        Step::Taken { value, rest } => Step::Taken { value: seen + value, rest },
        other => other,
    }
}

/// The items of a document, up to the first text that is none. Yields the
/// table of the groups.
pub fn groups<'a>(input: &'a str) -> (r: Parsed<'a, Groups<'a>>)
    ensures
        outcome(r, |v: Groups| v@) == groups_rule(bytes_of(input)),
{
    let mut table = Groups::new();
    let mut rest = input;
    let ghost mut seen: Seq<Named> = Seq::empty();
    proof {
        if let Step::Taken { value, rest } = named_groups(bytes_of(input)) {
            assert(seen + value =~= value);
        }
    }
    loop
        invariant
            table@ == pairs_to_map(seen),
            named_groups(bytes_of(input)) == after(seen, named_groups(bytes_of(rest))),
        decreases bytes_of(rest).len(),
    {
        proof {
            lemma_item_takes_bytes(bytes_of(rest));
        }
        match item(rest) {
            Ok((next, found)) => {
                let ghost more = named_groups(bytes_of(next));
                if let Some((name, entries)) = found {
                    proof {
                        let named = named_view((name, entries));
                        assert(seen.push(named).drop_last() =~= seen);
                        if let Step::Taken { value, rest } = more {
                            assert(seen + (seq![named] + value) =~= seen.push(named) + value);
                        }
                        seen = seen.push(named);
                    }
                    table.insert(name, entries);
                }
                rest = next;
            },
            Err(NoMatch::Declined) => {
                assert(seen + Seq::<Named>::empty() =~= seen);
                return Ok((rest, table));
            },
            Err(NoMatch::Broken(at)) => {
                return Err(NoMatch::Broken(at));
            },
        }
    }
}

/// Whether `r` is what reading the text `t` as a document gives: the table
/// of its groups, or else the text from the first item that could not be
/// read.
pub open spec fn reads_as(t: Seq<u8>, r: ParseResult<Groups>) -> bool {
    match r {
        Ok(groups) => document(t) == Ok::<GroupsView, Seq<u8>>(groups@),
        Err(e) => document(t) == Err::<GroupsView, Seq<u8>>(e.unread()),
    }
}

/// Reads a whole desktop entry file.
///
/// The text is a document where its items cover it to the end. Any other
/// text is refused as a whole, with what is left from the first item that
/// could not be read.
pub fn parse_desktop_entry<'a>(input: &'a str) -> (r: ParseResult<Groups<'a>>)
    ensures
        reads_as(bytes_of(input), r),
{
    match groups(input) {
        Ok((rest, table)) => {
            if rest.as_bytes().len() == 0 {
                Ok(table)
            } else {
                Err(ParseError::InvalidLine(rest.to_owned()))
            }
        },
        Err(NoMatch::Broken(at)) => Err(ParseError::InvalidLine(at.to_owned())),
        Err(NoMatch::Declined) => Err(ParseError::InvalidLine(input.to_owned())),
    }
}

} // verus!
