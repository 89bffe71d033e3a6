//! What holds of the grammar and of the lookups for every text, document,
//! key and locale.

use vstd::prelude::*;
use vstd::utf8::{
    char_u32_cast, encode_scalar, encode_utf8, encode_utf8_decode_utf8, has_width_1_encoding,
    is_ascii_chars, is_ascii_chars_encode_utf8,
};
use crate::desktop_entry::{
    candidates, held, lemma_first_hit_at, locale_tag, localized, stored, stored_localized,
    tagged_key,
};
use crate::errors::{ParseError, ParseResult};
use crate::grammar::{
    body_line_rule, body_pairs, comment_rule, document, empty_line_rule, entry_rule,
    group_header_rule, item_rule, key_len, lemma_item_takes_bytes, lemma_lines_take_bytes,
    named_groups, Pair, Step,
};
use crate::locale::{locale_rule, part_end, part_text, LocaleView, AT_SIGN, DOT, UNDERSCORE};
use crate::parser::reads_as;
use crate::tables::{EntriesView, Groups, GroupsView};
use crate::text::{
    lemma_run_end, lemma_run_end_is, opt_bytes_of, run_end, ByteClass, CLOSE_BRACKET, EQUALS,
    HASH, NEWLINE, OPEN_BRACKET,
};

verus! {

/// A comment line yields no entry, and a group body that starts with one
/// holds the entries, and ends, as the body behind the comment does.
pub proof fn law_comment_keeps_group(t: Seq<u8>)
    requires
        comment_rule(t) is Taken,
    ensures
        body_line_rule(t) == (Step::Taken { value: None::<Pair>, rest: comment_rule(t)->rest }),
        body_pairs(t) == body_pairs(comment_rule(t)->rest),
{
    lemma_lines_take_bytes(t);
}

/// A blank line yields no entry, and a group body that starts with one
/// holds the entries, and ends, as the body behind the blank line does.
pub proof fn law_blank_line_keeps_group(t: Seq<u8>)
    requires
        empty_line_rule(t) is Taken,
    ensures
        body_line_rule(t) == (Step::Taken { value: None::<Pair>, rest: empty_line_rule(t)->rest }),
        body_pairs(t) == body_pairs(empty_line_rule(t)->rest),
{
    lemma_lines_take_bytes(t);
    lemma_blank_line_is_nothing_else(t);
}

/// A blank line is no comment, no entry and no group header.
proof fn lemma_blank_line_is_nothing_else(t: Seq<u8>)
    requires
        empty_line_rule(t) is Taken,
    ensures
        comment_rule(t) is Declined,
        entry_rule(t) is Declined,
        group_header_rule(t) is Declined,
{
    lemma_run_end(t, 0, ByteClass::Blank);
    let end = run_end(t, 0, ByteClass::Blank);
    if end > 0 {
        assert(ByteClass::Blank.holds(t[0]));
    }
    lemma_run_end_is(t, 0, ByteClass::KeyByte, 0);
}

/// A comment between two entries does not part them: where an entry is
/// followed by a comment, the group body holds the entry and then what the
/// body behind the comment holds, and ends where that body ends.
pub proof fn law_comment_between_entries(t: Seq<u8>)
    requires
        entry_rule(t) is Taken,
        comment_rule(entry_rule(t)->rest) is Taken,
    ensures
        body_pairs(t).0 == seq![entry_rule(t)->value] + body_pairs(
            comment_rule(entry_rule(t)->rest)->rest,
        ).0,
        body_pairs(t).1 == body_pairs(comment_rule(entry_rule(t)->rest)->rest).1,
{
    lemma_lines_take_bytes(t);
    lemma_entry_is_no_comment(t);
    law_comment_keeps_group(entry_rule(t)->rest);
}

/// An entry is no comment.
proof fn lemma_entry_is_no_comment(t: Seq<u8>)
    requires
        entry_rule(t) is Taken,
    ensures
        comment_rule(t) is Declined,
{
    if t.len() > 0 && t[0] == HASH {
        lemma_run_end_is(t, 0, ByteClass::KeyByte, 0);
        lemma_run_end_is(t, 0, ByteClass::Blank, 0);
    }
}

/// Comments and blank lines between the groups of a document change
/// nothing: a document that starts with one holds the groups, and ends, as
/// the text behind it does.
pub proof fn law_document_skips_comments_and_blank_lines(t: Seq<u8>)
    ensures
        comment_rule(t) is Taken ==> named_groups(t) == named_groups(comment_rule(t)->rest)
            && document(t) == document(comment_rule(t)->rest),
        empty_line_rule(t) is Taken ==> named_groups(t) == named_groups(empty_line_rule(t)->rest)
            && document(t) == document(empty_line_rule(t)->rest),
{
    lemma_item_takes_bytes(t);
    if comment_rule(t) is Taken {
        lemma_groups_never_decline(comment_rule(t)->rest);
    }
    if empty_line_rule(t) is Taken {
        lemma_blank_line_is_nothing_else(t);
        lemma_groups_never_decline(empty_line_rule(t)->rest);
    }
}

/// The groups of a document are taken, if only none, or a header breaks off.
proof fn lemma_groups_never_decline(t: Seq<u8>)
    ensures
        !(named_groups(t) is Declined),
    decreases t.len(),
{
    if let Step::Taken { value, rest } = item_rule(t) {
        if rest.len() < t.len() {
            lemma_groups_never_decline(rest);
        }
    }
}

/// A group header that is opened and not closed on its line fails the
/// whole document, with the text from the header on as what could not be
/// read.
pub proof fn law_broken_header_fails(t: Seq<u8>)
    requires
        group_header_rule(t) is Broken,
    ensures
        document(t) == Err::<GroupsView, Seq<u8>>(t),
{
    assert(comment_rule(t) is Declined);
}

/// No part of a document is read alone: where the text behind the first
/// item of a document cannot be read, the document cannot be read, and what
/// is left unread is the same.
pub proof fn law_failure_is_whole(t: Seq<u8>)
    requires
        item_rule(t) is Taken,
        document(item_rule(t)->rest) is Err,
    ensures
        document(t) == document(item_rule(t)->rest),
{
    lemma_item_takes_bytes(t);
    lemma_groups_never_decline(item_rule(t)->rest);
}

/// A comment is `#` and anything up to the line end.
pub proof fn law_comment_of_parts(body: Seq<u8>, rest: Seq<u8>)
    requires
        forall|i: int| 0 <= i < body.len() ==> #[trigger] body[i] != NEWLINE,
    ensures
        comment_rule(seq![HASH] + body + seq![NEWLINE] + rest) == (Step::Taken {
            value: body,
            rest,
        }),
        comment_rule(seq![HASH] + body) == (Step::Taken { value: body, rest: Seq::<u8>::empty() }),
{
    let line = seq![HASH] + body;
    let whole = line + seq![NEWLINE] + rest;
    let end = line.len() as int;
    assert forall|i: int| 1 <= i < end implies ByteClass::Except(NEWLINE).holds(
        #[trigger] whole[i],
    ) by {
        assert(whole[i] == body[i - 1]);
    }
    assert forall|i: int| 1 <= i < end implies ByteClass::Except(NEWLINE).holds(
        #[trigger] line[i],
    ) by {
        assert(line[i] == body[i - 1]);
    }
    assert(whole[end] == NEWLINE);
    lemma_run_end_is(whole, 1, ByteClass::Except(NEWLINE), end);
    lemma_run_end_is(line, 1, ByteClass::Except(NEWLINE), end);
    assert(whole.subrange(1, end) =~= body);
    assert(line.subrange(1, end) =~= body);
    assert(whole.skip(end + 1) =~= rest);
    assert(line.skip(end) =~= Seq::<u8>::empty());
}

/// A group header is the name in brackets on a line of its own. The name
/// holds any bytes but `]`.
pub proof fn law_header_of_parts(name: Seq<u8>, rest: Seq<u8>)
    requires
        forall|i: int| 0 <= i < name.len() ==> #[trigger] name[i] != CLOSE_BRACKET,
    ensures
        group_header_rule(seq![OPEN_BRACKET] + name + seq![CLOSE_BRACKET, NEWLINE] + rest) == (
        Step::Taken { value: name, rest }),
        group_header_rule(seq![OPEN_BRACKET] + name + seq![CLOSE_BRACKET]) == (Step::Taken {
            value: name,
            rest: Seq::<u8>::empty(),
        }),
{
    let line = seq![OPEN_BRACKET] + name + seq![CLOSE_BRACKET];
    let whole = seq![OPEN_BRACKET] + name + seq![CLOSE_BRACKET, NEWLINE] + rest;
    let end = name.len() as int + 1;
    assert forall|i: int| 1 <= i < end implies ByteClass::Except(CLOSE_BRACKET).holds(
        #[trigger] whole[i],
    ) by {
        assert(whole[i] == name[i - 1]);
    }
    assert forall|i: int| 1 <= i < end implies ByteClass::Except(CLOSE_BRACKET).holds(
        #[trigger] line[i],
    ) by {
        assert(line[i] == name[i - 1]);
    }
    assert(whole[end] == CLOSE_BRACKET);
    assert(whole[end + 1] == NEWLINE);
    assert(line[end] == CLOSE_BRACKET);
    lemma_run_end_is(whole, 1, ByteClass::Except(CLOSE_BRACKET), end);
    lemma_run_end_is(line, 1, ByteClass::Except(CLOSE_BRACKET), end);
    assert(whole.subrange(1, end) =~= name);
    assert(line.subrange(1, end) =~= name);
    assert(whole.skip(end + 2) =~= rest);
    assert(line.skip(end + 1) =~= Seq::<u8>::empty());
}

/// A group header whose `]` is missing, or is followed by anything but a
/// line end, breaks off.
pub proof fn law_header_must_close(t: Seq<u8>)
    requires
        t.len() > 0,
        t[0] == OPEN_BRACKET,
    ensures
        (forall|i: int| 1 <= i < t.len() ==> #[trigger] t[i] != CLOSE_BRACKET)
            ==> group_header_rule(t) is Broken,
        forall|i: int|
            #![trigger t[i]]
            1 <= i < t.len() - 1 && t[i] == CLOSE_BRACKET && t[i + 1] != NEWLINE && (forall|j: int|
                1 <= j < i ==> #[trigger] t[j] != CLOSE_BRACKET) ==> group_header_rule(t) is Broken,
{
    if forall|i: int| 1 <= i < t.len() ==> #[trigger] t[i] != CLOSE_BRACKET {
        lemma_run_end_is(t, 1, ByteClass::Except(CLOSE_BRACKET), t.len() as int);
    }
    assert forall|i: int|
        #![trigger t[i]]
        1 <= i < t.len() - 1 && t[i] == CLOSE_BRACKET && t[i + 1] != NEWLINE && (forall|j: int|
            1 <= j < i ==> #[trigger] t[j] != CLOSE_BRACKET) implies group_header_rule(
        t,
    ) is Broken by {
        lemma_run_end_is(t, 1, ByteClass::Except(CLOSE_BRACKET), i);
    }
}

/// A raw key of the given parts: `base`, or `base[tag]`.
pub open spec fn raw_key(base: Seq<u8>, tag: Option<Seq<u8>>) -> Seq<u8> {
    match tag {
        Some(tag) => tagged_key(base, tag),
        None => base,
    }
}

/// Whether the given parts make up a raw key: letters, digits and hyphens,
/// and a tag, if there is one, that is not empty and holds no `]`.
pub open spec fn makes_raw_key(base: Seq<u8>, tag: Option<Seq<u8>>) -> bool {
    &&& forall|i: int| 0 <= i < base.len() ==> ByteClass::KeyByte.holds(#[trigger] base[i])
    &&& tag matches Some(tag) ==> tag.len() > 0 && forall|i: int|
        0 <= i < tag.len() ==> #[trigger] tag[i] != CLOSE_BRACKET
}

/// An entry is its raw key, `=` with any blanks around it, and its value up
/// to the line end: the blanks around `=` are dropped, all of them and
/// nothing else, so that blanks at the end of the value stay. The key is
/// taken with its tag, as it is looked up later. Key and value may be empty.
pub proof fn law_entry_of_parts(
    base: Seq<u8>,
    tag: Option<Seq<u8>>,
    before: Seq<u8>,
    behind: Seq<u8>,
    value: Seq<u8>,
    rest: Seq<u8>,
)
    requires
        makes_raw_key(base, tag),
        forall|i: int| 0 <= i < before.len() ==> ByteClass::Blank.holds(#[trigger] before[i]),
        forall|i: int| 0 <= i < behind.len() ==> ByteClass::Blank.holds(#[trigger] behind[i]),
        forall|i: int| 0 <= i < value.len() ==> #[trigger] value[i] != NEWLINE,
        value.len() > 0 ==> !ByteClass::Blank.holds(value[0]),
    ensures
        entry_rule(
            raw_key(base, tag) + before + seq![EQUALS] + behind + value + seq![NEWLINE] + rest,
        ) == (Step::Taken { value: (raw_key(base, tag), value), rest }),
        entry_rule(raw_key(base, tag) + before + seq![EQUALS] + behind + value) == (Step::Taken {
            value: (raw_key(base, tag), value),
            rest: Seq::<u8>::empty(),
        }),
{
    lemma_entry_of_parts(base, tag, before, behind, value, seq![NEWLINE] + rest);
    lemma_entry_of_parts(base, tag, before, behind, value, Seq::empty());
    let line = raw_key(base, tag) + before + seq![EQUALS] + behind + value;
    assert(line + (seq![NEWLINE] + rest) =~= line + seq![NEWLINE] + rest);
    assert(line + Seq::<u8>::empty() =~= line);
    let whole = line + seq![NEWLINE] + rest;
    assert(whole.skip(line.len() as int + 1) =~= rest);
    assert(line.skip(line.len() as int) =~= Seq::<u8>::empty());
}

/// A raw key in front of a byte that is none of a key is taken whole.
proof fn lemma_key_of_parts(base: Seq<u8>, tag: Option<Seq<u8>>, tail: Seq<u8>)
    requires
        makes_raw_key(base, tag),
        tail.len() > 0,
        !ByteClass::KeyByte.holds(tail[0]),
        tail[0] != OPEN_BRACKET,
    ensures
        key_len(raw_key(base, tag) + tail) == raw_key(base, tag).len(),
{
    let key = raw_key(base, tag);
    let t = key + tail;
    let base_end = base.len() as int;
    assert forall|i: int| 0 <= i < base_end implies ByteClass::KeyByte.holds(#[trigger] t[i]) by {
        assert(t[i] == base[i]);
    }
    match tag {
        Some(tag) => {
            let close = base_end + 1 + tag.len();
            assert(t[base_end] == OPEN_BRACKET);
            assert(t[close] == CLOSE_BRACKET);
            lemma_run_end_is(t, 0, ByteClass::KeyByte, base_end);
            assert forall|i: int| base_end + 1 <= i < close implies ByteClass::Except(
                CLOSE_BRACKET,
            ).holds(#[trigger] t[i]) by {
                assert(t[i] == tag[i - base_end - 1]);
            }
            lemma_run_end_is(t, base_end + 1, ByteClass::Except(CLOSE_BRACKET), close);
        },
        None => {
            assert(t[base_end] == tail[0]);
            lemma_run_end_is(t, 0, ByteClass::KeyByte, base_end);
        },
    }
}

/// The offsets that `entry_rule` finds in a line made of the given parts.
proof fn lemma_entry_of_parts(
    base: Seq<u8>,
    tag: Option<Seq<u8>>,
    before: Seq<u8>,
    behind: Seq<u8>,
    value: Seq<u8>,
    tail: Seq<u8>,
)
    requires
        makes_raw_key(base, tag),
        forall|i: int| 0 <= i < before.len() ==> ByteClass::Blank.holds(#[trigger] before[i]),
        forall|i: int| 0 <= i < behind.len() ==> ByteClass::Blank.holds(#[trigger] behind[i]),
        forall|i: int| 0 <= i < value.len() ==> #[trigger] value[i] != NEWLINE,
        value.len() > 0 ==> !ByteClass::Blank.holds(value[0]),
        tail.len() == 0 || tail[0] == NEWLINE,
    ensures
        ({
            let line = raw_key(base, tag) + before + seq![EQUALS] + behind + value;
            let t = line + tail;
            let end = if tail.len() == 0 {
                line.len() as int
            } else {
                line.len() as int + 1
            };
            entry_rule(t) == (Step::Taken { value: (raw_key(base, tag), value), rest: t.skip(end) })
        }),
{
    let key = raw_key(base, tag);
    let line = key + before + seq![EQUALS] + behind + value;
    let t = line + tail;
    let sign: int = key.len() as int + before.len();
    let start: int = sign + 1 + behind.len();
    let end: int = start + value.len();
    assert(t[sign] == EQUALS);
    assert forall|i: int| key.len() <= i < sign implies ByteClass::Blank.holds(#[trigger] t[i]) by {
        assert(t[i] == before[i - key.len()]);
    }
    assert forall|i: int| sign + 1 <= i < start implies ByteClass::Blank.holds(#[trigger] t[i]) by {
        assert(t[i] == behind[i - sign - 1]);
    }
    assert forall|i: int| start <= i < end implies ByteClass::Except(NEWLINE).holds(
        #[trigger] t[i],
    ) by {
        assert(t[i] == value[i - start]);
    }
    let behind_key = before + seq![EQUALS] + behind + value + tail;
    assert(t =~= key + behind_key);
    assert(behind_key[0] == t[key.len() as int]);
    if before.len() > 0 {
        assert(t[key.len() as int] == before[0]);
    }
    lemma_key_of_parts(base, tag, behind_key);
    lemma_run_end_is(t, key.len() as int, ByteClass::Blank, sign);
    if value.len() > 0 {
        assert(t[start] == value[0]);
    } else if tail.len() > 0 {
        assert(t[start] == tail[0]);
    }
    lemma_run_end_is(t, sign + 1, ByteClass::Blank, start);
    if tail.len() > 0 {
        assert(t[end] == tail[0]);
    }
    lemma_run_end_is(t, start, ByteClass::Except(NEWLINE), end);
    assert(t.take(key.len() as int) =~= key);
    assert(t.subrange(start, end) =~= value);
}

/// Without a locale the localized lookup is the plain lookup, for every
/// document, group and key.
pub proof fn law_no_locale_is_plain_lookup(
    doc: GroupsView,
    group: Seq<u8>,
    key: Seq<u8>,
)
    ensures
        stored_localized(doc, group, key, None) == stored(doc, group, key),
{
}

/// The candidates count in their order: where a group holds none of the
/// first `n` candidate keys for a locale and holds the next one, the lookup
/// gives what stands under that one.
pub proof fn law_first_held_candidate_counts(
    entries: EntriesView,
    key: Seq<u8>,
    locale: LocaleView,
    n: int,
)
    requires
        0 <= n < candidates(key, locale).len(),
        forall|i: int| 0 <= i < n ==> !entries.contains_key(#[trigger] candidates(key, locale)[i]),
        entries.contains_key(candidates(key, locale)[n]),
    ensures
        localized(entries, key, Some(locale)) == Some(entries[candidates(key, locale)[n]]),
{
    lemma_first_hit_at(entries, candidates(key, locale), n);
}

/// For a locale with a country and without a modifier, the variant of
/// `key` for language and country is found wherever the group holds it,
/// whatever else the group holds.
pub proof fn law_country_variant_counts_most(
    entries: EntriesView,
    key: Seq<u8>,
    lang: Seq<u8>,
    country: Seq<u8>,
)
    requires
        entries.contains_key(tagged_key(key, locale_tag(lang, Some(country), None))),
    ensures
        localized(
            entries,
            key,
            Some(LocaleView { lang, country: Some(country), modifier: None }),
        ) == Some(entries[tagged_key(key, locale_tag(lang, Some(country), None))]),
{
    let locale = LocaleView { lang, country: Some(country), modifier: None };
    lemma_first_hit_at(entries, candidates(key, locale), 0);
}

/// For a locale without a modifier, the variant of `key` for the language
/// alone is found where the group holds it and does not hold the variant
/// for language and country, whether or not it holds `key` itself.
pub proof fn law_language_variant_before_plain(
    entries: EntriesView,
    key: Seq<u8>,
    lang: Seq<u8>,
    country: Option<Seq<u8>>,
)
    requires
        country.is_none() || !entries.contains_key(
            tagged_key(key, locale_tag(lang, country, None)),
        ),
        entries.contains_key(tagged_key(key, locale_tag(lang, None, None))),
    ensures
        localized(entries, key, Some(LocaleView { lang, country, modifier: None })) == Some(
            entries[tagged_key(key, locale_tag(lang, None, None))],
        ),
{
    let locale = LocaleView { lang, country, modifier: None };
    let keys = candidates(key, locale);
    if country.is_some() {
        lemma_first_hit_at(entries, keys, 1);
    } else {
        lemma_first_hit_at(entries, keys, 0);
    }
}

/// Where a group holds no tagged variant of `key`, the lookup for any
/// locale gives what the group holds under `key` itself.
pub proof fn law_untagged_fallback(
    entries: EntriesView,
    key: Seq<u8>,
    locale: LocaleView,
)
    requires
        forall|tag: Seq<u8>| !entries.contains_key(#[trigger] tagged_key(key, tag)),
    ensures
        localized(entries, key, Some(locale)) == held(entries, key),
{
    let keys = candidates(key, locale);
    let last = keys.len() - 1;
    assert(keys[last] == key);
    assert forall|i: int| 0 <= i < last implies !entries.contains_key(#[trigger] keys[i]) by {
        let LocaleView { lang, country, modifier } = locale;
        assert(keys[i] == tagged_key(key, locale_tag(lang, country, modifier)) || keys[i]
            == tagged_key(key, locale_tag(lang, country, None)) || keys[i] == tagged_key(
            key,
            locale_tag(lang, None, modifier),
        ) || keys[i] == tagged_key(key, locale_tag(lang, None, None)));
    }
    lemma_first_hit_at(entries, keys, last);
}

/// Where a group holds `key` and nothing else, the lookup for any locale
/// gives the value of `key`.
pub proof fn law_only_untagged_present(
    entries: EntriesView,
    key: Seq<u8>,
    locale: LocaleView,
)
    requires
        entries.dom() == set![key],
    ensures
        localized(entries, key, Some(locale)) == Some(entries[key]),
{
    assert(entries.dom().contains(key));
    assert forall|tag: Seq<u8>| !entries.contains_key(#[trigger] tagged_key(key, tag)) by {
        assert(tagged_key(key, tag).len() == key.len() + tag.len() + 2);
    }
    law_untagged_fallback(entries, key, locale);
}

/// A part of a locale text with its mark in front, or nothing.
pub open spec fn marked(mark: u8, part: Option<Seq<u8>>) -> Seq<u8> {
    match part {
        Some(part) => seq![mark] + part,
        None => Seq::empty(),
    }
}

/// Whether an optional part of a locale text is well-formed: if it is
/// there, it is not empty and holds bytes of `class` only.
pub open spec fn part_of(class: ByteClass, part: Option<Seq<u8>>) -> bool {
    part matches Some(part) ==> part.len() > 0 && forall|i: int|
        0 <= i < part.len() ==> class.holds(#[trigger] part[i])
}

/// A locale text is read back as the parts that it was written from: the
/// language, then the country behind `_`, the encoding behind `.` and the
/// modifier behind `@`, each of the three only if it is there. The encoding
/// does not come back.
pub proof fn law_locale_of_parts(
    lang: Seq<u8>,
    country: Option<Seq<u8>>,
    encoding: Option<Seq<u8>>,
    modifier: Option<Seq<u8>>,
)
    requires
        lang.len() > 0,
        forall|i: int| 0 <= i < lang.len() ==> ByteClass::Letter.holds(#[trigger] lang[i]),
        part_of(ByteClass::Letter, country),
        part_of(ByteClass::Except(AT_SIGN), encoding),
        part_of(ByteClass::Except(AT_SIGN), modifier),
    ensures
        locale_rule(
            lang + marked(UNDERSCORE, country) + marked(DOT, encoding) + marked(AT_SIGN, modifier),
        ) == Some(LocaleView { lang, country, modifier }),
{
    let c = marked(UNDERSCORE, country);
    let e = marked(DOT, encoding);
    let m = marked(AT_SIGN, modifier);
    let t = lang + c + e + m;
    let lang_end = lang.len() as int;
    let country_end = lang_end + c.len();
    let encoding_end = country_end + e.len();
    assert forall|i: int| 0 <= i < lang_end implies ByteClass::Letter.holds(#[trigger] t[i]) by {
        assert(t[i] == lang[i]);
    }
    assert(t.skip(lang_end) =~= c + e + m);
    assert(t.skip(country_end) =~= e + m);
    assert(t.skip(encoding_end) =~= m);
    let after_lang = c + e + m;
    if after_lang.len() > 0 {
        assert(t[lang_end] == after_lang[0]);
        assert(after_lang[0] == UNDERSCORE || after_lang[0] == DOT || after_lang[0] == AT_SIGN);
    }
    lemma_run_end_is(t, 0, ByteClass::Letter, lang_end);
    let after_country = e + m;
    if after_country.len() > 0 {
        assert(t[country_end] == after_country[0]);
        assert(after_country[0] == DOT || after_country[0] == AT_SIGN);
    }
    lemma_part(t, lang_end, UNDERSCORE, ByteClass::Letter, country, after_country);
    if m.len() > 0 {
        assert(t[encoding_end] == m[0]);
    }
    lemma_part(t, country_end, DOT, ByteClass::Except(AT_SIGN), encoding, m);
    lemma_part(t, encoding_end, AT_SIGN, ByteClass::Except(AT_SIGN), modifier, Seq::empty());
    assert(t.take(lang_end) =~= lang);
}

/// An optional part is found where it stands, and not found where it is
/// not written.
proof fn lemma_part(
    t: Seq<u8>,
    at: int,
    mark: u8,
    class: ByteClass,
    part: Option<Seq<u8>>,
    tail: Seq<u8>,
)
    requires
        0 <= at <= t.len(),
        t.skip(at) =~= marked(mark, part) + tail,
        part_of(class, part),
        tail.len() > 0 ==> !class.holds(tail[0]) && tail[0] != mark,
    ensures
        part_end(t, at, mark, class) == match part {
            Some(part) => Some(at + 1 + part.len()),
            None => None,
        },
        part_text(t, at, part_end(t, at, mark, class)) == part,
{
    let left = t.skip(at);
    match part {
        Some(part) => {
            let end = at + 1 + part.len();
            let front = seq![mark] + part;
            assert(left.len() == front.len() + tail.len());
            assert(left.len() == t.len() - at);
            assert(left[0] == front[0]);
            assert(t[at] == left[0]);
            assert forall|i: int| at + 1 <= i < end implies class.holds(#[trigger] t[i]) by {
                assert(t[i] == left[i - at]);
                assert(left[i - at] == front[i - at]);
                assert(front[i - at] == part[i - at - 1]);
            }
            if tail.len() > 0 {
                assert(t[end] == left[end - at]);
                assert(left[end - at] == tail[0]);
            }
            lemma_run_end_is(t, at + 1, class, end);
            assert forall|i: int| 0 <= i < part.len() implies t.subrange(at + 1, end)[i]
                == part[i] by {
                assert(t[at + 1 + i] == left[i + 1]);
                assert(left[i + 1] == front[i + 1]);
            }
            assert(t.subrange(at + 1, end) =~= part);
        },
        None => {
            assert(left.len() == t.len() - at);
            if tail.len() > 0 {
                assert(t[at] == left[0]);
            }
        },
    }
}

/// Two texts have the same bytes exactly if they are the same text. So a
/// table that is keyed by the bytes of a key is keyed by the key.
pub proof fn law_same_bytes_same_text(a: Seq<char>, b: Seq<char>)
    ensures
        encode_utf8(a) == encode_utf8(b) <==> a == b,
{
    encode_utf8_decode_utf8(a);
    encode_utf8_decode_utf8(b);
}

/// The bytes of a text hold an ASCII byte exactly if the text holds that
/// character. So a piece that a rule cuts off before a newline, a bracket
/// or a sign holds no such character, and one that it cuts off behind one
/// ends with it.
pub proof fn law_ascii_bytes_are_characters(text: Seq<char>, b: u8)
    requires
        b < 0x80,
    ensures
        encode_utf8(text).contains(b) <==> text.contains(b as char),
    decreases text.len(),
{
    let bytes = encode_utf8(text);
    if text.len() > 0 {
        let first = encode_scalar(text[0] as u32);
        let rest = text.drop_first();
        let rest_bytes = encode_utf8(rest);
        lemma_scalar_bytes(text[0], b);
        law_ascii_bytes_are_characters(rest, b);
        if text[0] as u32 == b as u32 {
            char_u32_cast(text[0], b as u32);
        }
        if bytes.contains(b) {
            let i = choose|i: int| 0 <= i < bytes.len() && bytes[i] == b;
            if i < first.len() {
                assert(first[i] == b);
                assert(text[0] == b as char);
            } else {
                assert(rest_bytes[i - first.len()] == b);
                let k = choose|k: int| 0 <= k < rest.len() && rest[k] == b as char;
                assert(text[k + 1] == b as char);
            }
        }
        if text.contains(b as char) {
            let k = choose|k: int| 0 <= k < text.len() && text[k] == b as char;
            if k == 0 {
                let i = choose|i: int| 0 <= i < first.len() && first[i] == b;
                assert(bytes[i] == b);
            } else {
                assert(rest[k - 1] == b as char);
                let i = choose|i: int| 0 <= i < rest_bytes.len() && rest_bytes[i] == b;
                assert(bytes[first.len() + i] == b);
            }
        }
    }
}

/// A text whose bytes are all ASCII holds ASCII characters only, each the
/// same as its byte. So a language, a country and the front part of a key
/// are letters, digits and hyphens as characters too.
pub proof fn law_ascii_bytes_mean_ascii_text(text: Seq<char>)
    requires
        forall|i: int| 0 <= i < encode_utf8(text).len() ==> #[trigger] encode_utf8(text)[i] < 0x80,
    ensures
        is_ascii_chars(text),
        encode_utf8(text).len() == text.len(),
        forall|i: int| 0 <= i < text.len() ==> #[trigger] text[i] as u32 == encode_utf8(text)[i],
    decreases text.len(),
{
    let bytes = encode_utf8(text);
    if text.len() > 0 {
        let first = encode_scalar(text[0] as u32);
        let rest = text.drop_first();
        let rest_bytes = encode_utf8(rest);
        lemma_scalar_width(text[0]);
        assert(bytes[0] == first[0]);
        assert forall|i: int| 0 <= i < rest_bytes.len() implies #[trigger] rest_bytes[i] < 0x80 by {
            assert(bytes[first.len() + i] == rest_bytes[i]);
        }
        law_ascii_bytes_mean_ascii_text(rest);
        assert forall|i: int| 0 <= i < text.len() implies '\0' <= #[trigger] text[i]
            <= '\u{7f}' by {
            if i > 0 {
                assert(text[i] == rest[i - 1]);
            } else {
                assert(has_width_1_encoding(text[0] as u32));
                let v = text[0] as u32;
                char_u32_cast(text[0], v);
                assert(v as char <= '\u{7f}');
            }
        }
        is_ascii_chars_encode_utf8(text);
        assert forall|i: int| 0 <= i < text.len() implies #[trigger] text[i] as u32
            == bytes[i] by {
            let c = text[i] as u32;
            assert(c as u8 == bytes[i]);
            assert(c as u8 as u32 == c) by (bit_vector)
                requires
                    c <= 0x7f,
            ;
        }
    }
}

/// The encoding of a character holds an ASCII byte only as the encoding of
/// that very character.
proof fn lemma_scalar_bytes(c: char, b: u8)
    requires
        b < 0x80,
    ensures
        encode_scalar(c as u32).contains(b) <==> c as u32 == b as u32,
{
    let v = c as u32;
    let bytes = encode_scalar(v);
    lemma_scalar_width(c);
    if has_width_1_encoding(v) {
        assert(bytes[0] == (v & 0x7F) as u8);
        assert(((v & 0x7F) as u8 == b) <==> (v == b as u32)) by (bit_vector)
            requires
                v <= 0x7f,
                b < 0x80,
        ;
    } else {
        assert forall|i: int| 0 <= i < bytes.len() implies bytes[i] != b by {}
    }
}

/// The encoding of an ASCII character is one ASCII byte, and that of any
/// other character holds no ASCII byte.
proof fn lemma_scalar_width(c: char)
    ensures
        encode_scalar(c as u32).len() > 0,
        has_width_1_encoding(c as u32) ==> encode_scalar(c as u32).len() == 1 && encode_scalar(
            c as u32,
        )[0] < 0x80,
        !has_width_1_encoding(c as u32) ==> forall|i: int|
            0 <= i < encode_scalar(c as u32).len() ==> #[trigger] encode_scalar(c as u32)[i]
                >= 0x80,
{
    let v = c as u32;
    assert((v & 0x7F) as u8 <= 0x7f) by (bit_vector);
    assert((0xC0 | ((v >> 6) & 0x1F) as u8) >= 0x80) by (bit_vector);
    assert((0xE0 | ((v >> 12) & 0x0F) as u8) >= 0x80) by (bit_vector);
    assert((0xF0 | ((v >> 18) & 0x7) as u8) >= 0x80) by (bit_vector);
    assert((0x80 | (v & 0x3F) as u8) >= 0x80) by (bit_vector);
    assert((0x80 | ((v >> 6) & 0x3F) as u8) >= 0x80) by (bit_vector);
    assert((0x80 | ((v >> 12) & 0x3F) as u8) >= 0x80) by (bit_vector);
}

/// A lookup is a function of the document, the group, the key and the
/// locale: two results of the same lookup are both nothing, or both the
/// same text.
pub proof fn law_lookup_is_a_function(
    doc: GroupsView,
    group: Seq<u8>,
    key: Seq<u8>,
    locale: Option<LocaleView>,
    a: Option<&str>,
    b: Option<&str>,
)
    requires
        opt_bytes_of(a) == stored_localized(doc, group, key, locale),
        opt_bytes_of(b) == stored_localized(doc, group, key, locale),
    ensures
        match (a, b) {
            (Some(a), Some(b)) => a@ == b@,
            (None, None) => true,
            _ => false,
        },
{
    if let (Some(a), Some(b)) = (a, b) {
        encode_utf8_decode_utf8(a@);
        encode_utf8_decode_utf8(b@);
    }
}

/// Reading is a function of the text: two results of reading the same text
/// are both documents with the same groups and entries, or both errors with
/// the same text left unread.
pub proof fn law_reading_is_a_function(t: Seq<u8>, a: ParseResult<Groups>, b: ParseResult<Groups>)
    requires
        reads_as(t, a),
        reads_as(t, b),
    ensures
        match (a, b) {
            (Ok(a), Ok(b)) => a@ == b@,
            (Err(ParseError::InvalidLine(a)), Err(ParseError::InvalidLine(b))) => a@ == b@,
            _ => false,
        },
{
    if let (Err(ParseError::InvalidLine(a)), Err(ParseError::InvalidLine(b))) = (a, b) {
        encode_utf8_decode_utf8(a@);
        encode_utf8_decode_utf8(b@);
    }
}

} // verus!
