//! Extraction of payloads from text by a regular expression.
//!
//! An [`Extractor`] is made once for a pattern and then used for every line.
use regex::Regex;
use vstd::prelude::*;

use crate::error::Error;
use crate::RawPacket;
#[allow(unused_imports)]
use crate::{error, error::ErrorModel};

verus! {

// ---------------------------------------------------------------------------
// Regular expressions
// ---------------------------------------------------------------------------

/// A compiled regular expression of the `regex` crate.
#[verifier::external_type_specification]
#[verifier::external_body]
pub struct ExRegex(Regex);

/// The pattern that an expression was compiled from, as `Regex::as_str` gives it.
pub uninterp spec fn regex_source(re: Regex) -> Seq<char>;

/// The text of the error that a pattern is rejected with, where it is rejected.
pub uninterp spec fn regex_failure(pattern: Seq<char>) -> Option<Seq<char>>;

/// The names of the groups of a pattern, in order; the whole match is the first
/// group.
pub uninterp spec fn regex_groups(pattern: Seq<char>) -> Seq<Option<Seq<char>>>;

/// What the groups of a pattern catch, for each match in a text, in order.
pub uninterp spec fn regex_matches(pattern: Seq<char>, text: Seq<char>) -> Seq<
    Seq<Option<Seq<char>>>,
>;

pub open spec fn name_models(names: Seq<Option<String>>) -> Seq<Option<Seq<char>>> {
    Seq::new(names.len(), |i: int| error::seen(names[i]))
}

pub open spec fn row_model(row: Seq<Option<&str>>) -> Seq<Option<Seq<char>>> {
    Seq::new(
        row.len(),
        |i: int|
            match row[i] {
                Some(s) => Some(s@),
                None => None,
            },
    )
}

pub open spec fn row_models(rows: Seq<Vec<Option<&str>>>) -> Seq<Seq<Option<Seq<char>>>> {
    Seq::new(rows.len(), |i: int| row_model(rows[i]@))
}

/// `Regex::new`: compiles a pattern, or rejects it with an error, here by its
/// text. Which of the two, and the text, are functions of the pattern.
#[verifier::external_body]
fn compile(pattern: &str) -> (r: Result<Regex, String>)
    ensures
        match r {
            Ok(re) => regex_failure(pattern@) is None && regex_source(re) == pattern@,
            Err(m) => regex_failure(pattern@) == Some(m@),
        },
{
    match Regex::new(pattern) {
        Ok(re) => Ok(re),
        Err(e) => Err(e.to_string()),
    }
}

/// `Regex::capture_names`: the names of the groups, `None` for a group without
/// one. There are as many as `Regex::captures_len` says.
#[verifier::external_body]
fn group_names(re: &Regex) -> (r: Vec<Option<String>>)
    ensures
        name_models(r@) == regex_groups(regex_source(*re)),
{
    re.capture_names().map(|n| n.map(str::to_owned)).collect()
}

/// `Regex::captures_iter`: for each match in the text, what each group caught,
/// `None` for a group that took no part.
#[verifier::external_body]
fn all_captures<'a>(re: &Regex, text: &'a str) -> (r: Vec<Vec<Option<&'a str>>>)
    ensures
        row_models(r@) == regex_matches(regex_source(*re), text@),
{
    re.captures_iter(text).map(|c| c.iter().map(|m| m.map(|m| m.as_str())).collect()).collect()
}

// ---------------------------------------------------------------------------
// The group that holds the payload
// ---------------------------------------------------------------------------

/// The first group of a name.
pub open spec fn group_from(names: Seq<Option<Seq<char>>>, i: int, name: Seq<char>) -> Option<int>
    decreases names.len() - i,
{
    if i < 0 || i >= names.len() {
        None
    } else if names[i] == Some(name) {
        Some(i)
    } else {
        group_from(names, i + 1, name)
    }
}

/// The group that holds the payload: the one named `hex`, else `packet`, else
/// `payload`, else `data`, else the last group. Groups for a time stamp or a
/// channel mostly come before the payload.
pub open spec fn payload_group(names: Seq<Option<Seq<char>>>) -> Option<int> {
    if group_from(names, 0, "hex"@) is Some {
        group_from(names, 0, "hex"@)
    } else if group_from(names, 0, "packet"@) is Some {
        group_from(names, 0, "packet"@)
    } else if group_from(names, 0, "payload"@) is Some {
        group_from(names, 0, "payload"@)
    } else if group_from(names, 0, "data"@) is Some {
        group_from(names, 0, "data"@)
    } else if names.len() > 1 {
        Some(names.len() - 1)
    } else {
        None
    }
}

/// The error for a pattern without a group.
pub open spec fn no_group() -> ErrorModel {
    ErrorModel::Regex(
        "pattern must have a 'hex' named capture group or at least one capture group"@,
    )
}

fn find_group(names: &Vec<Option<String>>, name: &str) -> (r: Option<usize>)
    ensures
        match (r, group_from(name_models(names@), 0, name@)) {
            (Some(i), Some(k)) => i == k,
            (None, None) => true,
            _ => false,
        },
{
    let ghost all = name_models(names@);
    let mut i: usize = 0;
    while i < names.len()
        invariant
            all == name_models(names@),
            i <= names@.len(),
            group_from(all, 0, name@) == group_from(all, i as int, name@),
        decreases names@.len() - i,
    {
        assert(all[i as int] == error::seen(names@[i as int]));
        if let Some(n) = &names[i] {
            if *n.as_str() == *name {
                return Some(i);
            }
        }
        i = i + 1;
    }
    None
}

/// Picks the group that holds the payload, by the names of the groups.
pub fn choose_group(names: &Vec<Option<String>>) -> (r: Result<usize, Error>)
    ensures
        match (r, payload_group(name_models(names@))) {
            (Ok(i), Some(k)) => i == k,
            (Err(e), None) => e@ == no_group(),
            _ => false,
        },
{
    if let Some(i) = find_group(names, "hex") {
        return Ok(i);
    }
    if let Some(i) = find_group(names, "packet") {
        return Ok(i);
    }
    if let Some(i) = find_group(names, "payload") {
        return Ok(i);
    }
    if let Some(i) = find_group(names, "data") {
        return Ok(i);
    }
    if names.len() > 1 {
        return Ok(names.len() - 1);
    }
    Err(
        Error::Regex(
            "pattern must have a 'hex' named capture group or at least one capture group".to_owned(),
        ),
    )
}

// ---------------------------------------------------------------------------
// Payloads
// ---------------------------------------------------------------------------

/// What the group caught in one match.
pub open spec fn caught(row: Seq<Option<Seq<char>>>, group: int) -> Option<Seq<char>> {
    if 0 <= group < row.len() {
        row[group]
    } else {
        None
    }
}

/// The payload of the last match. What stands before the payload, such as a
/// time stamp, may match too.
pub open spec fn last_caught(rows: Seq<Seq<Option<Seq<char>>>>, group: int) -> Option<Seq<char>> {
    if rows.len() == 0 {
        None
    } else {
        caught(rows.last(), group)
    }
}

/// The payloads of all the matches, in order.
pub open spec fn all_caught(rows: Seq<Seq<Option<Seq<char>>>>, group: int) -> Seq<Seq<char>>
    decreases rows.len(),
{
    if rows.len() == 0 {
        Seq::empty()
    } else {
        match caught(rows.last(), group) {
            Some(s) => all_caught(rows.drop_last(), group).push(s),
            None => all_caught(rows.drop_last(), group),
        }
    }
}

fn pick<'a>(row: &Vec<Option<&'a str>>, group: usize) -> (r: Option<&'a str>)
    ensures
        match (r, caught(row_model(row@), group as int)) {
            (Some(a), Some(b)) => a@ == b,
            (None, None) => true,
            _ => false,
        },
{
    if group < row.len() {
        row[group]
    } else {
        None
    }
}

/// The payload of the last of the matches.
pub fn last_payload<'a>(rows: &Vec<Vec<Option<&'a str>>>, group: usize) -> (r: Option<
    RawPacket<'a>,
>)
    ensures
        error::seen(r) == last_caught(row_models(rows@), group as int),
{
    if rows.len() == 0 {
        return None;
    }
    assert(row_models(rows@).last() == row_model(rows@[rows@.len() - 1]@));
    match pick(&rows[rows.len() - 1], group) {
        Some(hex) => Some(RawPacket { hex }),
        None => None,
    }
}

pub open spec fn packet_models(packets: Seq<RawPacket<'_>>) -> Seq<Seq<char>> {
    Seq::new(packets.len(), |i: int| packets[i]@)
}

/// The payloads of all the matches, in order.
pub fn all_payloads<'a>(rows: &Vec<Vec<Option<&'a str>>>, group: usize) -> (r: Vec<RawPacket<'a>>)
    ensures
        packet_models(r@) == all_caught(row_models(rows@), group as int),
{
    let ghost all = row_models(rows@);
    let mut out: Vec<RawPacket<'a>> = Vec::new();
    let mut i: usize = 0;
    proof {
        assert(all.take(0) =~= Seq::<Seq<Option<Seq<char>>>>::empty());
        assert(packet_models(out@) =~= Seq::<Seq<char>>::empty());
    }
    while i < rows.len()
        invariant
            all == row_models(rows@),
            i <= rows@.len(),
            packet_models(out@) == all_caught(all.take(i as int), group as int),
        decreases rows@.len() - i,
    {
        proof {
            assert(all.take(i + 1).drop_last() =~= all.take(i as int));
            assert(all.take(i + 1).last() == row_model(rows@[i as int]@));
        }
        let ghost before = packet_models(out@);
        if let Some(hex) = pick(&rows[i], group) {
            out.push(RawPacket { hex });
            assert(packet_models(out@) =~= before.push(hex@));
        }
        i = i + 1;
    }
    assert(all.take(i as int) =~= all);
    out
}

// ---------------------------------------------------------------------------
// Extractors
// ---------------------------------------------------------------------------

/// A compiled pattern, and which of its groups holds the payload.
pub struct Extractor {
    re: Regex,
    group: usize,
}

/// The mathematical counterpart of [`Extractor`].
pub struct ExtractorModel {
    pub pattern: Seq<char>,
    pub group: int,
}

impl View for Extractor {
    type V = ExtractorModel;

    closed spec fn view(&self) -> ExtractorModel {
        ExtractorModel { pattern: regex_source(self.re), group: self.group as int }
    }
}

/// The extractor for a pattern.
pub open spec fn extractor_for(pattern: Seq<char>) -> Result<ExtractorModel, ErrorModel> {
    match regex_failure(pattern) {
        Some(m) => Err(ErrorModel::Regex(m)),
        None => match payload_group(regex_groups(pattern)) {
            Some(group) => Ok(ExtractorModel { pattern, group }),
            None => Err(no_group()),
        },
    }
}

/// The payload that is found in a line.
pub open spec fn payload_in(x: ExtractorModel, line: Seq<char>) -> Option<Seq<char>> {
    last_caught(regex_matches(x.pattern, line), x.group)
}

/// The payloads that are found in a text.
pub open spec fn payloads_in(x: ExtractorModel, text: Seq<char>) -> Seq<Seq<char>> {
    all_caught(regex_matches(x.pattern, text), x.group)
}

impl Extractor {
    /// Makes an extractor for a pattern. The pattern must have at least one
    /// group.
    pub fn new(pattern: &str) -> (r: Result<Extractor, Error>)
        ensures
            error::outcome(r) == extractor_for(pattern@),
    {
        let re = match compile(pattern) {
            Ok(re) => re,
            Err(m) => return Err(Error::Regex(m)),
        };
        match choose_group(&group_names(&re)) {
            Ok(group) => Ok(Extractor { re, group }),
            Err(e) => Err(e),
        }
    }

    /// Finds the payload in a line, that of the last match.
    pub fn extract_from_line<'a>(&self, line: &'a str) -> (r: Option<RawPacket<'a>>)
        ensures
            error::seen(r) == payload_in(self@, line@),
    {
        last_payload(&all_captures(&self.re, line), self.group)
    }

    /// Finds all the payloads in a text, in order.
    pub fn extract_all<'a>(&self, text: &'a str) -> (r: Vec<RawPacket<'a>>)
        ensures
            packet_models(r@) == payloads_in(self@, text@),
    {
        all_payloads(&all_captures(&self.re, text), self.group)
    }
}

} // verus!
