//! A desktop entry that has been read, and the lookups on it.

use vstd::prelude::*;
use crate::errors::ParseResult;
use crate::grammar::document;
use crate::locale::{locale_of, Locale, LocaleView, AT_SIGN, UNDERSCORE};
use crate::parser::parse_desktop_entry;
use crate::tables::{pairs_to_map, Entries, EntriesView, Groups, GroupsView};
use crate::text::{
    append_bytes, bytes_of, bytes_of_each, bytes_of_pairs, opt_bytes_of, CLOSE_BRACKET,
    OPEN_BRACKET,
};

verus! {

/// The keys that freedesktop.org defines for desktop entries.
#[derive(PartialEq, Debug)]
pub enum StandardKey {
    Type,
    Version,
    Name,
    GenericName,
    NoDisplay,
    Comment,
    Icon,
    Hidden,
    OnlyShowIn,
    NotShowIn,
    DbusActivatable,
    TryExec,
    Exec,
    Path,
    Terminal,
    Actions,
    MimeType,
    Categories,
    Implements,
    Keywords,
    StartupNotify,
    StartupWmClass,
    Url,
}

impl StandardKey {
    /// The key as it is written in a file.
    pub open spec fn spec_key_name(&self) -> &'static str {
        match *self {
            StandardKey::Type => "Type",
            StandardKey::Version => "Version",
            StandardKey::Name => "Name",
            StandardKey::GenericName => "GenericName",
            StandardKey::NoDisplay => "NoDisplay",
            StandardKey::Comment => "Comment",
            StandardKey::Icon => "Icon",
            StandardKey::Hidden => "Hidden",
            StandardKey::OnlyShowIn => "OnlyShowIn",
            StandardKey::NotShowIn => "NotShowIn",
            StandardKey::DbusActivatable => "DBusActivatable",
            StandardKey::TryExec => "TryExec",
            StandardKey::Exec => "Exec",
            StandardKey::Path => "Path",
            StandardKey::Terminal => "Terminal",
            StandardKey::Actions => "Actions",
            StandardKey::MimeType => "MimeType",
            StandardKey::Categories => "Categories",
            StandardKey::Implements => "Implements",
            StandardKey::Keywords => "Keywords",
            StandardKey::StartupNotify => "StartupNotify",
            StandardKey::StartupWmClass => "StartupWMClass",
            StandardKey::Url => "URL",
        }
    }

    /// The key as it is written in a file.
    #[verifier::when_used_as_spec(spec_key_name)]
    pub fn key_name(&self) -> (r: &'static str)
        ensures
            r == self.spec_key_name(),
    {
        match *self {
            StandardKey::Type => "Type",
            StandardKey::Version => "Version",
            StandardKey::Name => "Name",
            StandardKey::GenericName => "GenericName",
            StandardKey::NoDisplay => "NoDisplay",
            StandardKey::Comment => "Comment",
            StandardKey::Icon => "Icon",
            StandardKey::Hidden => "Hidden",
            StandardKey::OnlyShowIn => "OnlyShowIn",
            StandardKey::NotShowIn => "NotShowIn",
            StandardKey::DbusActivatable => "DBusActivatable",
            StandardKey::TryExec => "TryExec",
            StandardKey::Exec => "Exec",
            StandardKey::Path => "Path",
            StandardKey::Terminal => "Terminal",
            StandardKey::Actions => "Actions",
            StandardKey::MimeType => "MimeType",
            StandardKey::Categories => "Categories",
            StandardKey::Implements => "Implements",
            StandardKey::Keywords => "Keywords",
            StandardKey::StartupNotify => "StartupNotify",
            StandardKey::StartupWmClass => "StartupWMClass",
            StandardKey::Url => "URL",
        }
    }
}

/// The name of the main group of a desktop entry.
pub open spec fn main_group() -> Seq<u8> {
    bytes_of("Desktop Entry")
}

/// What the entries of a group hold under `key`.
pub open spec fn held(entries: EntriesView, key: Seq<u8>) -> Option<Seq<u8>> {
    if entries.contains_key(key) {
        Some(entries[key])
    } else {
        None
    }
}

/// What a document holds under `key` in `group`.
pub open spec fn stored(
    doc: GroupsView,
    group: Seq<u8>,
    key: Seq<u8>,
) -> Option<Seq<u8>> {
    if doc.contains_key(group) {
        held(doc[group], key)
    } else {
        None
    }
}

/// The locale tag of the given parts: `lang`, `lang_COUNTRY`,
/// `lang@MODIFIER` or `lang_COUNTRY@MODIFIER`.
pub open spec fn locale_tag(
    lang: Seq<u8>,
    country: Option<Seq<u8>>,
    modifier: Option<Seq<u8>>,
) -> Seq<u8> {
    let front = match country {
        Some(country) => lang + seq![UNDERSCORE] + country,
        None => lang,
    };
    match modifier {
        Some(modifier) => front + seq![AT_SIGN] + modifier,
        None => front,
    }
}

/// The raw key that holds the value of `key` for a locale tag: `key[tag]`.
pub open spec fn tagged_key(key: Seq<u8>, tag: Seq<u8>) -> Seq<u8> {
    key + seq![OPEN_BRACKET] + tag + seq![CLOSE_BRACKET]
}

/// The raw keys under which the value of `key` for a locale may stand, the
/// one that counts most first: with country and modifier, with the country,
/// with the modifier, with the language alone, and `key` itself. Those that
/// need a part that the locale lacks are left out.
pub open spec fn candidates(key: Seq<u8>, locale: LocaleView) -> Seq<Seq<u8>> {
    let LocaleView { lang, country, modifier } = locale;
    let both = if country.is_some() && modifier.is_some() {
        seq![tagged_key(key, locale_tag(lang, country, modifier))]
    } else {
        seq![]
    };
    let by_country = if country.is_some() {
        seq![tagged_key(key, locale_tag(lang, country, None))]
    } else {
        seq![]
    };
    let by_modifier = if modifier.is_some() {
        seq![tagged_key(key, locale_tag(lang, None, modifier))]
    } else {
        seq![]
    };
    both + by_country + by_modifier + seq![tagged_key(key, locale_tag(lang, None, None)), key]
}

/// The value under the first of `keys` that the entries hold.
pub open spec fn first_hit(entries: EntriesView, keys: Seq<Seq<u8>>) -> Option<Seq<u8>>
    decreases keys.len(),
{
    if keys.len() == 0 {
        None
    } else if entries.contains_key(keys[0]) {
        Some(entries[keys[0]])
    } else {
        first_hit(entries, keys.drop_first())
    }
}

/// `first_hit` passes over keys that the entries do not hold: if they hold
/// none of the first `n`, the key at `n` decides, or nothing is found where
/// `n` is the last.
pub proof fn lemma_first_hit_at(entries: EntriesView, keys: Seq<Seq<u8>>, n: int)
    requires
        0 <= n < keys.len(),
        forall|i: int| 0 <= i < n ==> !entries.contains_key(#[trigger] keys[i]),
    ensures
        entries.contains_key(keys[n]) ==> first_hit(entries, keys) == Some(entries[keys[n]]),
        !entries.contains_key(keys[n]) && n + 1 == keys.len() ==> first_hit(
            entries,
            keys,
        ).is_none(),
    decreases n,
{
    let rest = keys.drop_first();
    if n > 0 {
        assert(!entries.contains_key(keys[0]));
        assert forall|i: int| 0 <= i < n - 1 implies !entries.contains_key(#[trigger] rest[i]) by {
            assert(rest[i] == keys[i + 1]);
        }
        assert(rest[n - 1] == keys[n]);
        lemma_first_hit_at(entries, rest, n - 1);
    } else {
        assert(rest.len() == 0 ==> first_hit(entries, rest).is_none());
    }
}

/// The value of `key` among the entries of a group for a locale: without a
/// locale what stands under `key`, with one the first hit among the
/// candidates.
pub open spec fn localized(
    entries: EntriesView,
    key: Seq<u8>,
    locale: Option<LocaleView>,
) -> Option<Seq<u8>> {
    match locale {
        Some(locale) => first_hit(entries, candidates(key, locale)),
        None => held(entries, key),
    }
}

/// The value of `key` in `group` of a document for a locale.
pub open spec fn stored_localized(
    doc: GroupsView,
    group: Seq<u8>,
    key: Seq<u8>,
    locale: Option<LocaleView>,
) -> Option<Seq<u8>> {
    if doc.contains_key(group) {
        localized(doc[group], key, locale)
    } else {
        None
    }
}

/// The keys of `group` in a document; none where there is no such group.
pub open spec fn stored_keys(doc: GroupsView, group: Seq<u8>) -> Set<Seq<u8>> {
    if doc.contains_key(group) {
        doc[group].dom()
    } else {
        Set::empty()
    }
}

/// The groups that a list of names with their pairs stands for. Of two
/// pairs with the same key in one list the later one counts, and of two
/// lists with the same name the later one, with its pairs alone.
pub open spec fn group_values(input: Seq<(&str, Vec<(&str, &str)>)>) -> Seq<
    (Seq<u8>, EntriesView),
> {
    Seq::new(
        input.len(),
        |i: int| (bytes_of(input[i].0), pairs_to_map(bytes_of_pairs(input[i].1@))),
    )
}

/// Builds the raw key `key[tag]` for the locale tag of the given parts.
fn build_tagged_key(key: &str, lang: &str, country: Option<&str>, modifier: Option<&str>) -> (r:
    Vec<u8>)
    ensures
        r@ == tagged_key(
            bytes_of(key),
            locale_tag(bytes_of(lang), opt_bytes_of(country), opt_bytes_of(modifier)),
        ),
{
    let mut r: Vec<u8> = Vec::new();
    append_bytes(&mut r, key.as_bytes());
    r.push(OPEN_BRACKET);
    append_bytes(&mut r, lang.as_bytes());
    if let Some(country) = country {
        r.push(UNDERSCORE);
        append_bytes(&mut r, country.as_bytes());
    }
    if let Some(modifier) = modifier {
        r.push(AT_SIGN);
        append_bytes(&mut r, modifier.as_bytes());
    }
    r.push(CLOSE_BRACKET);
    assert(r@ =~= tagged_key(
        bytes_of(key),
        locale_tag(bytes_of(lang), opt_bytes_of(country), opt_bytes_of(modifier)),
    ));
    r
}

/// A desktop entry that has been read: its groups and their entries.
#[derive(Debug)]
pub struct DesktopEntry<'a> {
    groups: Groups<'a>,
}

impl<'a> View for DesktopEntry<'a> {
    type V = GroupsView;

    /// The bytes of each group name, mapped to the entries of the group:
    /// the bytes of each raw key, mapped to the bytes of its value.
    closed spec fn view(&self) -> GroupsView {
        self.groups@
    }
}

impl<'a> DesktopEntry<'a> {
    /// Reads a desktop entry file.
    pub fn parse_string(input: &'a str) -> (r: ParseResult<Self>)
        ensures
            match r {
                Ok(entry) => document(bytes_of(input)) == Ok::<GroupsView, Seq<u8>>(entry@),
                Err(e) => document(bytes_of(input)) == Err::<GroupsView, Seq<u8>>(e.unread()),
            },
    {
        match parse_desktop_entry(input) {
            Ok(groups) => Ok(DesktopEntry { groups }),
            Err(e) => Err(e),
        }
    }

    /// The desktop entry with the given groups.
    pub fn from_groups(groups: Groups<'a>) -> (r: Self)
        ensures
            r@ == groups@,
    {
        DesktopEntry { groups }
    }

    /// The groups of the desktop entry.
    pub fn groups(&self) -> (r: &Groups<'a>)
        ensures
            r@ == self@,
    {
        &self.groups
    }

    /// The desktop entry that holds the given groups, each a name with its
    /// pairs of raw key and value.
    pub fn from_group_values(input: Vec<(&'a str, Vec<(&'a str, &'a str)>)>) -> (r: Self)
        ensures
            r@ == pairs_to_map(group_values(input@)),
    {
        let mut groups = Groups::new();
        let ghost all = group_values(input@);
        assert(all.take(0) =~= Seq::empty());
        let mut i: usize = 0;
        while i < input.len()
            invariant
                i <= input@.len(),
                all == group_values(input@),
                groups@ == pairs_to_map(all.take(i as int)),
            decreases input@.len() - i,
        {
            groups.insert(input[i].0, Entries::from_pairs(input[i].1.as_slice()));
            assert(all.take(i + 1).drop_last() =~= all.take(i as int));
            i += 1;
        }
        assert(all.take(i as int) =~= all);
        DesktopEntry { groups }
    }

    /// The value of a standard key in the main group.
    pub fn get_key(&self, key: StandardKey) -> (r: Option<&'a str>)
        ensures
            opt_bytes_of(r) == stored(self@, main_group(), bytes_of(key.spec_key_name())),
    {
        self.group_get("Desktop Entry", key.key_name())
    }

    /// The value of `key` in the main group.
    pub fn get(&self, key: &str) -> (r: Option<&'a str>)
        ensures
            opt_bytes_of(r) == stored(self@, main_group(), bytes_of(key)),
    {
        self.group_get("Desktop Entry", key)
    }

    /// The value of `key` in the main group for a locale.
    pub fn localized_get(&self, key: &str, locale: &Option<Locale>) -> (r: Option<&'a str>)
        ensures
            opt_bytes_of(r) == stored_localized(
                self@,
                main_group(),
                bytes_of(key),
                locale_of(*locale),
            ),
            locale.is_none() ==> opt_bytes_of(r) == stored(self@, main_group(), bytes_of(key)),
    {
        self.group_localized_get("Desktop Entry", key, locale)
    }

    /// The raw keys of the main group, each once, in no particular order.
    pub fn keys(&self) -> (r: Vec<&'a str>)
        ensures
            bytes_of_each(r@).no_duplicates(),
            bytes_of_each(r@).to_set() == stored_keys(self@, main_group()),
    {
        self.group_keys("Desktop Entry")
    }

    /// The raw keys of `group`, each once, in no particular order. None
    /// where there is no such group.
    pub fn group_keys(&self, group: &str) -> (r: Vec<&'a str>)
        ensures
            bytes_of_each(r@).no_duplicates(),
            bytes_of_each(r@).to_set() == stored_keys(self@, bytes_of(group)),
            !self@.contains_key(bytes_of(group)) ==> r@.len() == 0,
    {
        match self.groups.get(group) {
            Some(entries) => entries.keys(),
            None => {
                let r: Vec<&'a str> = Vec::new();
                assert(bytes_of_each(r@).to_set() =~= Set::empty());
                r
            },
        }
    }

    /// The value of `key` in `group`.
    pub fn group_get(&self, group: &str, key: &str) -> (r: Option<&'a str>)
        ensures
            opt_bytes_of(r) == stored(self@, bytes_of(group), bytes_of(key)),
    {
        match self.groups.get(group) {
            Some(entries) => entries.get(key),
            None => None,
        }
    }

    /// The value of `key` in `group` for a locale: without a locale what
    /// stands under `key`, with one what stands under the first candidate
    /// key that the group holds.
    pub fn group_localized_get(&self, group: &str, key: &str, locale: &Option<Locale>) -> (r:
        Option<&'a str>)
        ensures
            opt_bytes_of(r) == stored_localized(
                self@,
                bytes_of(group),
                bytes_of(key),
                locale_of(*locale),
            ),
            locale.is_none() ==> opt_bytes_of(r) == stored(self@, bytes_of(group), bytes_of(key)),
    {
        let entries = match self.groups.get(group) {
            Some(entries) => entries,
            None => {
                return None;
            },
        };
        let locale = match locale {
            Some(locale) => locale,
            None => {
                return entries.get(key);
            },
        };
        let ghost keys = candidates(bytes_of(key), locale@);
        let ghost mut tried: int = 0;
        if let Some(country) = locale.country() {
            if let Some(modifier) = locale.modifier() {
                let lkey = build_tagged_key(key, locale.lang(), Some(country), Some(modifier));
                assert(keys[tried] == lkey@);
                if let Some(result) = entries.get_bytes(lkey.as_slice()) {
                    proof {
                        lemma_first_hit_at(entries@, keys, tried);
                    }
                    return Some(result);
                }
                proof {
                    tried = tried + 1;
                }
            }
        }
        if let Some(country) = locale.country() {
            let lkey = build_tagged_key(key, locale.lang(), Some(country), None);
            assert(keys[tried] == lkey@);
            if let Some(result) = entries.get_bytes(lkey.as_slice()) {
                proof {
                    lemma_first_hit_at(entries@, keys, tried);
                }
                return Some(result);
            }
            proof {
                tried = tried + 1;
            }
        }
        if let Some(modifier) = locale.modifier() {
            let lkey = build_tagged_key(key, locale.lang(), None, Some(modifier));
            assert(keys[tried] == lkey@);
            if let Some(result) = entries.get_bytes(lkey.as_slice()) {
                proof {
                    lemma_first_hit_at(entries@, keys, tried);
                }
                return Some(result);
            }
            proof {
                tried = tried + 1;
            }
        }
        let lkey = build_tagged_key(key, locale.lang(), None, None);
        assert(keys[tried] == lkey@);
        if let Some(result) = entries.get_bytes(lkey.as_slice()) {
            proof {
                lemma_first_hit_at(entries@, keys, tried);
            }
            return Some(result);
        }
        proof {
            tried = tried + 1;
            assert(keys[tried] == bytes_of(key));
            assert(keys.len() == tried + 1);
            lemma_first_hit_at(entries@, keys, tried);
        }
        entries.get(key)
    }
}

} // verus!
