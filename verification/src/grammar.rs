//! The grammar of desktop entry files, over the bytes of a text.
//!
//! Each rule is a function of the text in front of it. It either takes a
//! front part of that text and yields a value together with the rest,
//! declines, so that another rule may be tried on the same text, or breaks
//! off, which ends the reading of the whole document.
//!
//! ```text
//! document     := (comment | group | blank-line)*
//! group        := group-header group-body
//! group-header := '[' (any byte but ']')* ']' line-end
//! group-body   := (comment | entry | blank-line)*
//! entry        := key blank* '=' blank* value line-end
//! key          := (letter | digit | '-')* ('[' (any byte but ']')+ ']')?
//! value        := (any byte but newline)*
//! comment      := '#' (any byte but newline)* line-end
//! blank-line   := blank* newline | blank+ end-of-text
//! line-end     := newline | end-of-text
//! blank        := ' ' | tab
//! ```
//!
//! A group header is committed once its `[` is read: if no `]` with a line
//! end right behind it follows, the rule breaks off.

use vstd::prelude::*;
use crate::tables::{pairs_to_map, EntriesView, GroupsView};
use crate::text::{
    lemma_run_end, run_end, ByteClass, CLOSE_BRACKET, EQUALS, HASH, NEWLINE, OPEN_BRACKET,
};

verus! {

/// What a rule does with the text in front of it.
pub enum Step<T> {
    /// The rule took a front part of the text; `rest` is what follows it.
    Taken { value: T, rest: Seq<u8> },
    /// The rule does not apply to this text.
    Declined,
    /// The rule applied to the text `at` and could not be completed.
    Broken { at: Seq<u8> },
}

/// A raw key and its value.
pub type Pair = (Seq<u8>, Seq<u8>);

/// A group name and the entries of the group.
pub type Named = (Seq<u8>, EntriesView);

/// The offset behind the line end at `at`, where `at` is the offset of a
/// newline or the length of the text.
pub open spec fn behind_line_end(t: Seq<u8>, at: int) -> int {
    if at < t.len() {
        at + 1
    } else {
        at
    }
}

/// The end of the text: taken, with nothing consumed, only from an empty text.
pub open spec fn eof_rule(t: Seq<u8>) -> Step<Seq<u8>> {
    if t.len() == 0 {
        Step::Taken { value: t, rest: t }
    } else {
        Step::Declined
    }
}

/// A line end: a newline, or the end of the text.
pub open spec fn eol_rule(t: Seq<u8>) -> Step<()> {
    if t.len() == 0 || t[0] == NEWLINE {
        Step::Taken { value: (), rest: t.skip(behind_line_end(t, 0)) }
    } else {
        Step::Declined
    }
}

/// A blank line: blanks up to a newline, or at least one blank up to the end
/// of the text.
pub open spec fn empty_line_rule(t: Seq<u8>) -> Step<()> {
    let end = run_end(t, 0, ByteClass::Blank);
    if end < t.len() && t[end] == NEWLINE {
        Step::Taken { value: (), rest: t.skip(end + 1) }
    } else if end == t.len() && end > 0 {
        Step::Taken { value: (), rest: t.skip(end) }
    } else {
        Step::Declined
    }
}

/// A comment: `#` and the rest of the line. The value is the line without
/// the `#` and without its end.
pub open spec fn comment_rule(t: Seq<u8>) -> Step<Seq<u8>> {
    if t.len() > 0 && t[0] == HASH {
        let end = run_end(t, 1, ByteClass::Except(NEWLINE));
        Step::Taken { value: t.subrange(1, end), rest: t.skip(behind_line_end(t, end)) }
    } else {
        Step::Declined
    }
}

/// A group header: `[`, the name, `]` and a line end. The value is the name.
/// After the `[` the rule no longer declines.
pub open spec fn group_header_rule(t: Seq<u8>) -> Step<Seq<u8>> {
    if t.len() > 0 && t[0] == OPEN_BRACKET {
        let end = run_end(t, 1, ByteClass::Except(CLOSE_BRACKET));
        if end < t.len() && (end + 1 == t.len() || t[end + 1] == NEWLINE) {
            Step::Taken { value: t.subrange(1, end), rest: t.skip(behind_line_end(t, end + 1)) }
        } else {
            Step::Broken { at: t }
        }
    } else {
        Step::Declined
    }
}

/// The length of the raw key at the front of the text: letters, digits and
/// hyphens, and behind them a locale tag in brackets if a complete and
/// non-empty one follows.
pub open spec fn key_len(t: Seq<u8>) -> int {
    let base = run_end(t, 0, ByteClass::KeyByte);
    if base < t.len() && t[base] == OPEN_BRACKET {
        let close = run_end(t, base + 1, ByteClass::Except(CLOSE_BRACKET));
        if base + 1 < close < t.len() {
            close + 1
        } else {
            base
        }
    } else {
        base
    }
}

/// A raw key. The rule takes any text, if only an empty key.
pub open spec fn key_rule(t: Seq<u8>) -> Step<Seq<u8>> {
    Step::Taken { value: t.take(key_len(t)), rest: t.skip(key_len(t)) }
}

/// An entry: a raw key, `=` with any blanks around it, and the value, which
/// runs to the end of the line.
pub open spec fn entry_rule(t: Seq<u8>) -> Step<Pair> {
    let key_end = key_len(t);
    let sign = run_end(t, key_end, ByteClass::Blank);
    if sign < t.len() && t[sign] == EQUALS {
        let start = run_end(t, sign + 1, ByteClass::Blank);
        let end = run_end(t, start, ByteClass::Except(NEWLINE));
        Step::Taken {
            value: (t.take(key_end), t.subrange(start, end)),
            rest: t.skip(behind_line_end(t, end)),
        }
    } else {
        Step::Declined
    }
}

/// One line of a group body: a comment, an entry or a blank line, tried in
/// this order. Only an entry yields a pair.
pub open spec fn body_line_rule(t: Seq<u8>) -> Step<Option<Pair>> {
    if let Step::Taken { value, rest } = comment_rule(t) {
        Step::Taken { value: None, rest }
    } else if let Step::Taken { value, rest } = entry_rule(t) {
        Step::Taken { value: Some(value), rest }
    } else if let Step::Taken { value, rest } = empty_line_rule(t) {
        Step::Taken { value: None, rest }
    } else {
        Step::Declined
    }
}

/// Each rule for a line takes at least one byte where it takes anything.
pub proof fn lemma_lines_take_bytes(t: Seq<u8>)
    ensures
        comment_rule(t) matches Step::Taken { rest, .. } ==> rest.len() < t.len(),
        entry_rule(t) matches Step::Taken { rest, .. } ==> rest.len() < t.len(),
        empty_line_rule(t) matches Step::Taken { rest, .. } ==> rest.len() < t.len(),
        group_header_rule(t) matches Step::Taken { rest, .. } ==> rest.len() < t.len(),
        body_line_rule(t) matches Step::Taken { rest, .. } ==> rest.len() < t.len(),
{
    lemma_run_end(t, 0, ByteClass::Blank);
    if t.len() > 0 {
        lemma_run_end(t, 1, ByteClass::Except(NEWLINE));
        lemma_run_end(t, 1, ByteClass::Except(CLOSE_BRACKET));
    }
    lemma_key_len(t);
    let sign = run_end(t, key_len(t), ByteClass::Blank);
    lemma_run_end(t, key_len(t), ByteClass::Blank);
    if sign < t.len() {
        lemma_run_end(t, sign + 1, ByteClass::Blank);
        lemma_run_end(
            t,
            run_end(t, sign + 1, ByteClass::Blank),
            ByteClass::Except(NEWLINE),
        );
    }
}

/// A raw key lies within the text.
pub proof fn lemma_key_len(t: Seq<u8>)
    ensures
        0 <= key_len(t) <= t.len(),
{
    lemma_run_end(t, 0, ByteClass::KeyByte);
    let base = run_end(t, 0, ByteClass::KeyByte);
    if base < t.len() {
        lemma_run_end(t, base + 1, ByteClass::Except(CLOSE_BRACKET));
    }
}

/// `list` with `item` in front of it, if there is an item.
pub open spec fn with_front<T>(item: Option<T>, list: Seq<T>) -> Seq<T> {
    match item {
        Some(item) => seq![item] + list,
        None => list,
    }
}

/// The pairs of the entries of a group body, in the order of the text, and
/// the text behind the body. The body ends where no body line follows.
pub open spec fn body_pairs(t: Seq<u8>) -> (Seq<Pair>, Seq<u8>)
    decreases t.len(),
{
    match body_line_rule(t) {
        Step::Taken { value, rest } => {
            if rest.len() < t.len() {
                (with_front(value, body_pairs(rest).0), body_pairs(rest).1)
            } else {
                (Seq::empty(), t)
            }
        },
        _ => (Seq::empty(), t),
    }
}

/// The text behind a group body is an end part of the text.
pub proof fn lemma_body_rest(t: Seq<u8>)
    ensures
        body_pairs(t).1.len() <= t.len(),
    decreases t.len(),
{
    if let Step::Taken { value, rest } = body_line_rule(t) {
        if rest.len() < t.len() {
            lemma_body_rest(rest);
        }
    }
}

/// A group body as a table: of two entries with the same raw key the later
/// one counts. The rule takes any text, if only an empty body.
pub open spec fn entries_rule(t: Seq<u8>) -> Step<EntriesView> {
    Step::Taken { value: pairs_to_map(body_pairs(t).0), rest: body_pairs(t).1 }
}

/// A group: its header and its body.
pub open spec fn group_rule(t: Seq<u8>) -> Step<Named> {
    match group_header_rule(t) {
        Step::Taken { value, rest } => Step::Taken {
            value: (value, pairs_to_map(body_pairs(rest).0)),
            rest: body_pairs(rest).1,
        },
        Step::Declined => Step::Declined,
        Step::Broken { at } => Step::Broken { at },
    }
}

/// One item of a document: a comment, a group or a blank line, tried in this
/// order. Only a group yields a value. A group header that breaks off breaks
/// off the item.
pub open spec fn item_rule(t: Seq<u8>) -> Step<Option<Named>> {
    if let Step::Taken { value, rest } = comment_rule(t) {
        Step::Taken { value: None, rest }
    } else {
        match group_rule(t) {
            Step::Taken { value, rest } => Step::Taken { value: Some(value), rest },
            Step::Broken { at } => Step::Broken { at },
            Step::Declined => {
                if let Step::Taken { value, rest } = empty_line_rule(t) {
                    Step::Taken { value: None, rest }
                } else {
                    Step::Declined
                }
            },
        }
    }
}

/// An item takes at least one byte where it takes anything.
pub proof fn lemma_item_takes_bytes(t: Seq<u8>)
    ensures
        item_rule(t) matches Step::Taken { rest, .. } ==> rest.len() < t.len(),
{
    lemma_lines_take_bytes(t);
    if let Step::Taken { value, rest } = group_header_rule(t) {
        lemma_body_rest(rest);
    }
}

/// `step` with `item` in front of the list that it took, if it took one.
pub open spec fn step_with_front<T>(item: Option<T>, step: Step<Seq<T>>) -> Step<Seq<T>> {
    match step {
        Step::Taken { value, rest } => Step::Taken { value: with_front(item, value), rest },
        other => other,
    }
}

/// The groups of a document, in the order of the text, and the text behind
/// them. The groups end where no item follows.
pub open spec fn named_groups(t: Seq<u8>) -> Step<Seq<Named>>
    decreases t.len(),
{
    match item_rule(t) {
        Step::Taken { value, rest } => {
            if rest.len() < t.len() {
                step_with_front(value, named_groups(rest))
            } else {
                Step::Taken { value: Seq::empty(), rest: t }
            }
        },
        Step::Declined => Step::Taken { value: Seq::empty(), rest: t },
        Step::Broken { at } => Step::Broken { at },
    }
}

/// The groups of a document as a table: of two groups with the same name the
/// later one counts, with its entries alone.
pub open spec fn groups_rule(t: Seq<u8>) -> Step<GroupsView> {
    match named_groups(t) {
        Step::Taken { value, rest } => Step::Taken { value: pairs_to_map(value), rest },
        Step::Declined => Step::Declined,
        Step::Broken { at } => Step::Broken { at },
    }
}

/// A whole document: its groups, if the items cover the text to its end.
/// Otherwise the text from the first item that could not be read.
pub open spec fn document(t: Seq<u8>) -> Result<GroupsView, Seq<u8>> {
    match groups_rule(t) {
        Step::Taken { value, rest } => {
            if rest.len() == 0 {
                Ok(value)
            } else {
                Err(rest)
            }
        },
        Step::Declined => Err(t),
        Step::Broken { at } => Err(at),
    }
}

} // verus!
