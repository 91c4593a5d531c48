use vstd::prelude::*;

use crate::entry::{ParsedEntry, ParsedView};

verus! {

#[verifier::external_type_specification]
#[verifier::external_body]
pub struct ExIni(tini::Ini);

/// What an INI document parses to: the sections of the text, each a map from
/// key to value, or nothing when the text is not well-formed INI. The result
/// depends on the text alone.
pub uninterp spec fn ini_of(text: Seq<char>) -> Option<Map<Seq<char>, Map<Seq<char>, Seq<char>>>>;

/// The sections a parsed `tini::Ini` document holds, each a map from key to
/// value.
pub uninterp spec fn ini_rep(conf: tini::Ini) -> Map<Seq<char>, Map<Seq<char>, Seq<char>>>;

/// Relies on tini's `Ini::from_string`: it parses the text alone, returning
/// the document's sections, and an error exactly when the text is malformed.
///
/// tini's INI dialect differs from the desktop-entry convention in two
/// ways: it cuts every line at the first `;` or `#` (the descriptor format
/// comments whole lines with `#` only and uses `;` as a literal list
/// separator inside values), and a stray line without `=` makes the whole
/// text malformed — every field absent — where descriptor readers commonly
/// skip such lines.
#[verifier::external_body]
pub(crate) fn parse_ini(text: &str) -> (r: Option<tini::Ini>)
    ensures
        r is Some <==> ini_of(text@) is Some,
        r matches Some(conf) ==> Some(ini_rep(conf)) == ini_of(text@),
{
    tini::Ini::from_string(text).ok()
}

/// Relies on tini's `Ini::get::<String>`: it looks the key up in the named
/// section of the parsed document; the `String` conversion never fails.
#[verifier::external_body]
pub(crate) fn ini_get(conf: &tini::Ini, section: &str, key: &str) -> (r: Option<String>)
    ensures
        r is Some <==> (ini_rep(*conf).contains_key(section@) && ini_rep(*conf)[section@].contains_key(key@)),
        r matches Some(v) ==> (ini_rep(*conf).contains_key(section@)
            && ini_rep(*conf)[section@].contains_key(key@) && v@ == ini_rep(*conf)[section@][key@]),
{
    conf.get::<String>(section, key)
}

/// The value of `key` in `section` of the INI text, absent when the text is
/// malformed, the section is missing, or the key is missing.
pub open spec fn field_of(text: Seq<char>, section: Seq<char>, key: Seq<char>) -> Option<
    Seq<char>,
> {
    match ini_of(text) {
        None => None,
        Some(m) => if m.contains_key(section) && m[section].contains_key(key) {
            Some(m[section][key])
        } else {
            None
        },
    }
}

/// The record a descriptor text parses to: each consumed key of the
/// `[Desktop Entry]` section, absent when the text does not carry it.
pub open spec fn parsed_view_of(text: Seq<char>) -> ParsedView {
    ParsedView {
        name: field_of(text, "Desktop Entry"@, "Name"@),
        generic_name: field_of(text, "Desktop Entry"@, "GenericName"@),
        comment: field_of(text, "Desktop Entry"@, "Comment"@),
        exec_cmd: field_of(text, "Desktop Entry"@, "Exec"@),
        icon: field_of(text, "Desktop Entry"@, "Icon"@),
    }
}

/// Turns the full text of one descriptor file into the structured record of
/// the fields this index consumes. Malformed text yields a record with every
/// field absent; it never fails.
pub fn parse_desktop_fields(contents: &str) -> (r: ParsedEntry)
    ensures
        r@ == parsed_view_of(contents@),
{
    match parse_ini(contents) {
        None => ParsedEntry {
            name: None,
            generic_name: None,
            comment: None,
            exec_cmd: None,
            icon: None,
        },
        Some(conf) => ParsedEntry {
            name: ini_get(&conf, "Desktop Entry", "Name"),
            generic_name: ini_get(&conf, "Desktop Entry", "GenericName"),
            comment: ini_get(&conf, "Desktop Entry", "Comment"),
            exec_cmd: ini_get(&conf, "Desktop Entry", "Exec"),
            icon: ini_get(&conf, "Desktop Entry", "Icon"),
        },
    }
}

} // verus!
