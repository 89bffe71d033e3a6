//! The rule functions against the same grammar written with nom's
//! combinators, on a list of chosen texts and on generated ones.

use nom::branch::alt;
use nom::bytes::complete::{take_while, take_while1};
use nom::character::complete::{alpha1, char, space0, space1};
use nom::combinator::{all_consuming, cut, eof, opt, recognize};
use nom::multi::many0;
use nom::sequence::{delimited, pair, preceded, separated_pair, terminated, tuple};
use nom::IResult;

use xdg_desktop_entry::locale::{parse_locale, Locale};
use xdg_desktop_entry::parser::{
    comment, empty_line, entries, entry, group, group_header, groups, key, parse_desktop_entry,
    NoMatch, Parsed,
};
use xdg_desktop_entry::tables::{Entries, Groups};

type Pairs<'a> = Vec<(&'a str, &'a str)>;

fn eol_nom(input: &str) -> IResult<&str, ()> {
    alt((nom::combinator::map(char('\n'), |_| ()), nom::combinator::map(eof, |_| ())))(input)
}

fn empty_line_nom(input: &str) -> IResult<&str, ()> {
    alt((
        preceded(space0, nom::combinator::map(char('\n'), |_| ())),
        preceded(space1, nom::combinator::map(eof, |_| ())),
    ))(input)
}

fn comment_nom(input: &str) -> IResult<&str, &str> {
    delimited(char('#'), take_while(|c| c != '\n'), eol_nom)(input)
}

fn group_header_nom(input: &str) -> IResult<&str, &str> {
    preceded(
        char('['),
        cut(terminated(take_while(|c| c != ']'), pair(char(']'), eol_nom))),
    )(input)
}

fn key_nom(input: &str) -> IResult<&str, &str> {
    recognize(tuple((
        take_while(|c: char| c.is_ascii_alphanumeric() || c == '-'),
        opt(delimited(char('['), take_while1(|c: char| c != ']'), char(']'))),
    )))(input)
}

fn entry_nom(input: &str) -> IResult<&str, (&str, &str)> {
    terminated(
        separated_pair(key_nom, tuple((space0, char('='), space0)), take_while(|c| c != '\n')),
        eol_nom,
    )(input)
}

fn entries_nom(input: &str) -> IResult<&str, Pairs> {
    nom::combinator::map(
        many0(alt((
            nom::combinator::map(comment_nom, |_| None),
            nom::combinator::map(entry_nom, Some),
            nom::combinator::map(empty_line_nom, |_| None),
        ))),
        |lines: Vec<_>| lines.into_iter().flatten().collect(),
    )(input)
}

fn group_nom(input: &str) -> IResult<&str, (&str, Pairs)> {
    pair(group_header_nom, entries_nom)(input)
}

fn groups_nom(input: &str) -> IResult<&str, Vec<(&str, Pairs)>> {
    nom::combinator::map(
        many0(alt((
            nom::combinator::map(comment_nom, |_| None),
            nom::combinator::map(group_nom, Some),
            nom::combinator::map(empty_line_nom, |_| None),
        ))),
        |items: Vec<_>| items.into_iter().flatten().collect(),
    )(input)
}

fn locale_nom(input: &str) -> Option<Locale> {
    let parsed: IResult<&str, _> = all_consuming(tuple((
        alpha1,
        opt(preceded(char('_'), alpha1)),
        opt(preceded(char('.'), take_while1(|c: char| c != '@'))),
        opt(preceded(char('@'), take_while1(|c: char| c != '@'))),
    )))(input);
    match parsed {
        Ok((_, (lang, country, _, modifier))) => Some(Locale::new(lang, country, modifier)),
        Err(_) => None,
    }
}

/// What a nom result says in the terms of the rule functions: the rest and
/// the value, or whether the rule declined or broke off.
fn outline<'a, T, U>(
    parsed: IResult<&'a str, T>,
    value: impl Fn(T) -> U,
) -> Result<(&'a str, U), bool> {
    match parsed {
        Ok((rest, found)) => Ok((rest, value(found))),
        Err(nom::Err::Failure(_)) => Err(true),
        Err(_) => Err(false),
    }
}

fn outline_own<'a, T, U>(
    parsed: Parsed<'a, T>,
    value: impl Fn(T) -> U,
) -> Result<(&'a str, U), bool> {
    match parsed {
        Ok((rest, found)) => Ok((rest, value(found))),
        Err(NoMatch::Broken(_)) => Err(true),
        Err(NoMatch::Declined) => Err(false),
    }
}

fn table(pairs: Pairs) -> Entries {
    Entries::from_pairs(&pairs)
}

fn tables<'a>(list: Vec<(&'a str, Pairs<'a>)>) -> Groups<'a> {
    let mut groups = Groups::new();
    for (name, pairs) in list {
        groups.insert(name, table(pairs));
    }
    groups
}

fn agree_on(text: &str) {
    assert_eq!(
        outline_own(xdg_desktop_entry::parser::eof(text), |v| v),
        outline(eof(text), |v| v),
        "eof on {:?}",
        text
    );
    assert_eq!(
        outline_own(xdg_desktop_entry::parser::eol(text), |v| v),
        outline(eol_nom(text), |v| v),
        "eol on {:?}",
        text
    );
    assert_eq!(
        outline_own(comment(text), |v| v),
        outline(comment_nom(text), |v| v),
        "comment on {:?}",
        text
    );
    assert_eq!(
        outline_own(empty_line(text), |v| v),
        outline(empty_line_nom(text), |v| v),
        "empty_line on {:?}",
        text
    );
    assert_eq!(
        outline_own(group_header(text), |v| v),
        outline(group_header_nom(text), |v| v),
        "group_header on {:?}",
        text
    );
    assert_eq!(
        outline_own(key(text), |v| v),
        outline(key_nom(text), |v| v),
        "key on {:?}",
        text
    );
    assert_eq!(
        outline_own(entry(text), |v| v),
        outline(entry_nom(text), |v| v),
        "entry on {:?}",
        text
    );
    assert_eq!(
        outline_own(entries(text), |v| v),
        outline(entries_nom(text), table),
        "entries on {:?}",
        text
    );
    assert_eq!(
        outline_own(group(text), |v| v),
        outline(group_nom(text), |(name, pairs)| (name, table(pairs))),
        "group on {:?}",
        text
    );
    assert_eq!(
        outline_own(groups(text), |v| v),
        outline(groups_nom(text), tables),
        "groups on {:?}",
        text
    );
    let whole = match all_consuming(groups_nom)(text) {
        Ok((_, list)) => Some(tables(list)),
        Err(_) => None,
    };
    assert_eq!(parse_desktop_entry(text).ok(), whole, "document on {:?}", text);
    assert_eq!(parse_locale(text), locale_nom(text), "locale on {:?}", text);
}

/// A sequence of numbers that is the same in every run.
fn next(state: &mut u64) -> u64 {
    *state = state.wrapping_mul(6364136223846793005).wrapping_add(1442695040888963407);
    *state >> 33
}

fn generated(state: &mut u64, pieces: &[&str], most: u64) -> String {
    let mut text = String::new();
    for _ in 0..next(state) % (most + 1) {
        text.push_str(pieces[(next(state) % pieces.len() as u64) as usize]);
    }
    text
}

#[test]
fn rules_agree_with_nom_on_chosen_texts() {
    let texts = [
        "",
        "\n",
        " ",
        " \t ",
        " \t \n",
        "#",
        "# a\n",
        "#\n#\n",
        "[",
        "[]",
        "[]\n",
        "[a]",
        "[a] \n",
        "[a\nb]\nk=v",
        "[a]\n[b]\n",
        "[a]\n[a]=c\n",
        "[a]\n[]=c\n",
        "[a]\nk[]=c\n",
        "[a]\nk[x=c\n",
        "[a]\nk[x]y=c\n",
        "k=v",
        "k=v\n",
        "k = v = w \n",
        "=",
        " = ",
        "k\t=\tv\t\n",
        "k=v\r\n",
        "\r\n",
        "Name[de_DE@nord]=Anwendung\n",
        "[Desktop Entry]\nName=Größe\nName[ja]=日本語\n",
        "[Größe]\nk=v\n",
        "ключ=1\n",
        "[Desktop Entry]\nVersion=1.0\n\n# c\n[Desktop Action X]\nExec=x\n  ",
        "[unterminated\nVersion=1.0",
        "Version=1.0\n[Desktop Entry]\n",
        "[a]\nk=1\nk=2\n[a]\nj=3\n",
        "en_US.UTF-8@euro",
        "sr.UTF@8@latin",
        "de_",
        "de_.x",
        "de.",
        "de@",
        "de_DE_AT",
        "C",
    ];
    for text in texts {
        agree_on(text);
    }
}

#[test]
fn rules_agree_with_nom_on_generated_lines() {
    let pieces = ["a", "Z", "7", "-", " ", "\t", "\n", "=", "[", "]", "#", "é", "\r"];
    let mut state = 1;
    for _ in 0..4000 {
        agree_on(&generated(&mut state, &pieces, 12));
    }
}

#[test]
fn rules_agree_with_nom_on_generated_documents() {
    let pieces = [
        "[Desktop Entry]\n",
        "[Desktop Action Gallery]\n",
        "[broken\n",
        "[x]y\n",
        "Name=Foo\n",
        "Name[de]=Föö\n",
        "Exec = foo %F \n",
        "=\n",
        "# comment\n",
        "\n",
        " \t\n",
        "stray\n",
        "  ",
        "Name=Last",
    ];
    let mut state = 7;
    for _ in 0..2000 {
        agree_on(&generated(&mut state, &pieces, 10));
    }
}

#[test]
fn locales_agree_with_nom_on_generated_texts() {
    let pieces = ["d", "E", "_", ".", "@", "8", "-", "é", " "];
    let mut state = 3;
    for _ in 0..20000 {
        let text = generated(&mut state, &pieces, 9);
        assert_eq!(parse_locale(&text), locale_nom(&text), "locale on {:?}", text);
    }
}
