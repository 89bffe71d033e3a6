//! Locales as they are written in `LC_MESSAGES`: a language, and optionally
//! a country and a modifier.
//!
//! ```text
//! locale   := language ('_' country)? ('.' encoding)? ('@' modifier)?
//! language := letter+
//! country  := letter+
//! encoding := (any byte but '@')+
//! modifier := (any byte but '@')+
//! ```
//!
//! The encoding is read and dropped. A text is a locale only as a whole.

use vstd::prelude::*;
use vstd::utf8::encode_utf8;
use crate::text::{
    bytes_of, lemma_boundary, opt_bytes_of, run_end, same_bytes, scan, slice, slice_to, ByteClass,
};

verus! {

/// `_`, which introduces the country.
pub const UNDERSCORE: u8 = 0x5f;

/// `.`, which introduces the encoding.
pub const DOT: u8 = 0x2e;

/// `@`, which introduces the modifier.
pub const AT_SIGN: u8 = 0x40;

/// A locale, each part by its bytes.
pub struct LocaleView {
    pub lang: Seq<u8>,
    pub country: Option<Seq<u8>>,
    pub modifier: Option<Seq<u8>>,
}

/// The end of the optional part at offset `at`: the part is there if `at`
/// holds `mark` and at least one byte of `class` follows it, and it ends
/// where those bytes end.
pub open spec fn part_end(t: Seq<u8>, at: int, mark: u8, class: ByteClass) -> Option<int> {
    if 0 <= at < t.len() && t[at] == mark && run_end(t, at + 1, class) > at + 1 {
        Some(run_end(t, at + 1, class))
    } else {
        None
    }
}

/// The offset behind an optional part that starts at `at`.
pub open spec fn behind_part(at: int, end: Option<int>) -> int {
    match end {
        Some(end) => end,
        None => at,
    }
}

/// What lies between the mark of an optional part and its end.
pub open spec fn part_text(t: Seq<u8>, at: int, end: Option<int>) -> Option<Seq<u8>> {
    match end {
        Some(end) => Some(t.subrange(at + 1, end)),
        None => None,
    }
}

/// The locale that a text stands for, if it is one.
pub open spec fn locale_rule(t: Seq<u8>) -> Option<LocaleView> {
    let lang_end = run_end(t, 0, ByteClass::Letter);
    let country = part_end(t, lang_end, UNDERSCORE, ByteClass::Letter);
    let country_end = behind_part(lang_end, country);
    let encoding = part_end(t, country_end, DOT, ByteClass::Except(AT_SIGN));
    let encoding_end = behind_part(country_end, encoding);
    let modifier = part_end(t, encoding_end, AT_SIGN, ByteClass::Except(AT_SIGN));
    let modifier_end = behind_part(encoding_end, modifier);
    if lang_end > 0 && modifier_end == t.len() {
        Some(
            LocaleView {
                lang: t.take(lang_end),
                country: part_text(t, lang_end, country),
                modifier: part_text(t, encoding_end, modifier),
            },
        )
    } else {
        None
    }
}

/// Finds the end of the optional part at offset `at`.
fn optional_part(bytes: &[u8], at: usize, mark: u8, class: ByteClass) -> (r: Option<usize>)
    requires
        at <= bytes@.len(),
    ensures
        r matches Some(end) ==> part_end(bytes@, at as int, mark, class) == Some(end as int)
            && at + 1 < end <= bytes@.len() && class.holds(bytes@[end - 1]),
        r.is_none() ==> part_end(bytes@, at as int, mark, class).is_none(),
{
    if at < bytes.len() && bytes[at] == mark {
        let end = scan(bytes, at + 1, class);
        if end > at + 1 {
            return Some(end);
        }
    }
    None
}

/// A locale: a language, and optionally a country and a modifier.
#[derive(Debug)]
pub struct Locale {
    lang: String,
    country: Option<String>,
    modifier: Option<String>,
}

impl View for Locale {
    type V = LocaleView;

    open spec fn view(&self) -> LocaleView {
        LocaleView {
            lang: self.spec_lang(),
            country: self.spec_country(),
            modifier: self.spec_modifier(),
        }
    }
}

/// The bytes of an optional string.
spec fn opt_string_bytes(s: Option<String>) -> Option<Seq<u8>> {
    match s {
        Some(s) => Some(encode_utf8(s@)),
        None => None,
    }
}

/// An owned copy of an optional string slice.
fn opt_to_owned(s: Option<&str>) -> (r: Option<String>)
    ensures
        opt_string_bytes(r) == opt_bytes_of(s),
{
    match s {
        Some(s) => Some(s.to_owned()),
        None => None,
    }
}

/// An optional string as a slice.
fn opt_as_str(s: &Option<String>) -> (r: Option<&str>)
    ensures
        opt_bytes_of(r) == opt_string_bytes(*s),
{
    match s {
        Some(s) => Some(s.as_str()),
        None => None,
    }
}

/// Whether two optional string slices hold the same bytes, or both nothing.
fn same_opt_bytes(a: Option<&str>, b: Option<&str>) -> (r: bool)
    ensures
        r == (opt_bytes_of(a) == opt_bytes_of(b)),
{
    match (a, b) {
        (Some(a), Some(b)) => same_bytes(a.as_bytes(), b.as_bytes()),
        (None, None) => true,
        _ => false,
    }
}

impl Locale {
    /// The bytes of the language.
    pub closed spec fn spec_lang(&self) -> Seq<u8> {
        encode_utf8(self.lang@)
    }

    /// The bytes of the country, if the locale has one.
    pub closed spec fn spec_country(&self) -> Option<Seq<u8>> {
        opt_string_bytes(self.country)
    }

    /// The bytes of the modifier, if the locale has one.
    pub closed spec fn spec_modifier(&self) -> Option<Seq<u8>> {
        opt_string_bytes(self.modifier)
    }

    /// The locale with the given parts.
    pub fn new(lang: &str, country: Option<&str>, modifier: Option<&str>) -> (r: Self)
        ensures
            r@ == (LocaleView {
                lang: bytes_of(lang),
                country: opt_bytes_of(country),
                modifier: opt_bytes_of(modifier),
            }),
    {
        Locale {
            lang: lang.to_owned(),
            country: opt_to_owned(country),
            modifier: opt_to_owned(modifier),
        }
    }

    /// The locale that the message settings of an environment ask for:
    /// the one written in `lc_messages` where that is set, else the one
    /// written in `lc_all`. None where the setting that counts is no locale,
    /// or neither is set.
    pub fn from_env(lc_messages: Option<&str>, lc_all: Option<&str>) -> (r: Option<Self>)
        ensures
            locale_of(r) == match lc_messages {
                Some(text) => locale_rule(bytes_of(text)),
                None => match lc_all {
                    Some(text) => locale_rule(bytes_of(text)),
                    None => None,
                },
            },
    {
        if let Some(text) = lc_messages {
            parse_locale(text)
        } else if let Some(text) = lc_all {
            parse_locale(text)
        } else {
            None
        }
    }

    /// The locale that `lang_str` stands for, if it is one.
    pub fn from_string(lang_str: &str) -> (r: Option<Self>)
        ensures
            locale_of(r) == locale_rule(bytes_of(lang_str)),
    {
        parse_locale(lang_str)
    }

    pub fn lang(&self) -> (r: &str)
        ensures
            bytes_of(r) == self@.lang,
    {
        self.lang.as_str()
    }

    pub fn country(&self) -> (r: Option<&str>)
        ensures
            opt_bytes_of(r) == self@.country,
    {
        opt_as_str(&self.country)
    }

    pub fn modifier(&self) -> (r: Option<&str>)
        ensures
            opt_bytes_of(r) == self@.modifier,
    {
        opt_as_str(&self.modifier)
    }
}

impl PartialEq for Locale {
    /// Two locales are equal when they agree in all three parts.
    fn eq(&self, other: &Self) -> (r: bool) {
        same_bytes(self.lang().as_bytes(), other.lang().as_bytes()) && same_opt_bytes(
            self.country(),
            other.country(),
        ) && same_opt_bytes(self.modifier(), other.modifier())
    }
}

impl vstd::std_specs::cmp::PartialEqSpecImpl for Locale {
    open spec fn obeys_eq_spec() -> bool {
        true
    }

    open spec fn eq_spec(&self, other: &Self) -> bool {
        self@ == other@
    }
}

/// The view of an optional locale.
pub open spec fn locale_of(l: Option<Locale>) -> Option<LocaleView> {
    match l {
        Some(l) => Some(l@),
        None => None,
    }
}

/// Reads a locale. The text must be a locale as a whole.
pub fn parse_locale(input: &str) -> (r: Option<Locale>)
    ensures
        locale_of(r) == locale_rule(bytes_of(input)),
{
    let bytes = input.as_bytes();
    let lang_end = scan(bytes, 0, ByteClass::Letter);
    let country = optional_part(bytes, lang_end, UNDERSCORE, ByteClass::Letter);
    let country_end = match country {
        Some(end) => end,
        None => lang_end,
    };
    let encoding = optional_part(bytes, country_end, DOT, ByteClass::Except(AT_SIGN));
    let encoding_end = match encoding {
        Some(end) => end,
        None => country_end,
    };
    let modifier = optional_part(bytes, encoding_end, AT_SIGN, ByteClass::Except(AT_SIGN));
    let modifier_end = match modifier {
        Some(end) => end,
        None => encoding_end,
    };
    if lang_end == 0 || modifier_end != bytes.len() {
        return None;
    }
    proof {
        lemma_boundary(input, lang_end as int);
    }
    let lang = slice_to(input, lang_end);
    let country = match country {
        Some(end) => {
            proof {
                lemma_boundary(input, lang_end + 1);
                lemma_boundary(input, end as int);
            }
            Some(slice(input, lang_end + 1, end))
        },
        None => None,
    };
    let modifier = match modifier {
        Some(end) => {
            proof {
                lemma_boundary(input, encoding_end + 1);
                lemma_boundary(input, end as int);
            }
            Some(slice(input, encoding_end + 1, end))
        },
        None => None,
    };
    Some(Locale::new(lang, country, modifier))
}

} // verus!
