use regex::Regex;
use vstd::prelude::*;
use crate::boundary::Area;

verus! {

/// Whether the regular expression `pattern` matches anywhere in `haystack`.
pub uninterp spec fn regex_matches(pattern: Seq<char>, haystack: Seq<char>) -> bool;

/// The lowercase form of `text`.
pub uninterp spec fn lowercased(text: Seq<char>) -> Seq<char>;

/// Whether `needle` occurs in `text` as a run of neighbouring characters.
pub open spec fn occurs_in(needle: Seq<char>, text: Seq<char>) -> bool {
    exists|at: int|
        0 <= at <= text.len() - needle.len() && #[trigger] text.subrange(at, at + needle.len())
            == needle
}

/// `Regex::new` and `Regex::is_match` of the regex crate: compiles
/// `pattern` with the crate's default settings and searches `haystack` for a
/// match. Whether a pattern compiles is left to the crate, which also limits
/// the size of what it compiles. Assumed, not proved: what a compiled pattern
/// finds depends on the pattern and the haystack alone.
#[verifier::external_body]
fn regex_match(pattern: &str, haystack: &str) -> (verdict: Option<bool>)
    ensures
        verdict is Some ==> verdict == Some(regex_matches(pattern@, haystack@)),
{
    match Regex::new(pattern) {
        Ok(re) => Some(re.is_match(haystack)),
        Err(_) => None,
    }
}

/// `str::to_lowercase` of std: the text with every character in its
/// lowercase form, as Unicode defines it. Assumed, not proved: the result
/// depends on the text alone.
#[verifier::external_body]
fn lowercase(text: &str) -> (lower: String)
    ensures
        lower@ == lowercased(text@),
{
    text.to_lowercase()
}

/// `str::contains` of std with a string as the pattern. Assumed, not proved:
/// it says whether `needle` is a substring of `text`.
#[verifier::external_body]
fn contains(text: &str, needle: &str) -> (r: bool)
    ensures
        r == occurs_in(needle@, text@),
{
    text.contains(needle)
}

/// Whether an area with these tags is an administrative boundary of one of
/// the levels that are extracted: it has a name and a regional key, is a
/// boundary of the administrative kind, and its level is 2, 4, 6, 7 or 8.
pub open spec fn is_target(tags: Map<Seq<char>, Seq<char>>) -> bool {
    &&& tags.contains_key("name"@)
    &&& tags.contains_key("type"@) && tags["type"@] == "boundary"@
    &&& tags.contains_key("boundary"@) && tags["boundary"@] == "administrative"@
    &&& tags.contains_key("de:regionalschluessel"@)
    &&& tags.contains_key("admin_level"@) && is_target_level(tags["admin_level"@])
}

/// Whether `level` is one of the administrative levels that are extracted.
pub open spec fn is_target_level(level: Seq<char>) -> bool {
    level == "2"@ || level == "4"@ || level == "6"@ || level == "7"@ || level == "8"@
}

/// Whether `area` is an administrative boundary of a level that is
/// extracted.
pub fn by_target(area: &Area) -> (r: bool)
    ensures
        r == is_target(area.tags@),
{
    let tags = &area.tags;
    tags.contains_key("name") && tags.has("type", "boundary") && tags.has(
        "boundary",
        "administrative",
    ) && tags.contains_key("de:regionalschluessel") && (tags.has("admin_level", "2") || tags.has(
        "admin_level",
        "4",
    ) || tags.has("admin_level", "6") || tags.has("admin_level", "7") || tags.has(
        "admin_level",
        "8",
    ))
}

/// What a name is worth to a query, given the verdict of the regular
/// expression: the verdict where there is one, otherwise whether the query
/// occurs in the name, letter case aside.
pub open spec fn answers_with(verdict: Option<bool>, query: Seq<char>, name: Seq<char>) -> bool {
    match verdict {
        Some(found) => found,
        None => occurs_in(lowercased(query), lowercased(name)),
    }
}

/// A query for areas by their names.
pub struct Query {
    pattern: String,
}

impl View for Query {
    type V = Seq<char>;

    closed spec fn view(&self) -> Seq<char> {
        self.pattern@
    }
}

/// Settles whether `name` answers `query`, once the regular expression has
/// given its verdict.
pub fn settle(verdict: Option<bool>, query: &str, name: &str) -> (r: bool)
    ensures
        r == answers_with(verdict, query@, name@),
{
    match verdict {
        Some(found) => found,
        None => {
            let wanted = lowercase(query);
            let given = lowercase(name);
            contains(given.as_str(), wanted.as_str())
        },
    }
}

impl Query {
    /// Whether the name `name` answers the query: where the query compiles
    /// as a regular expression, whether it matches in the name; otherwise
    /// whether the query occurs in the name, letter case aside.
    pub fn matches_name(&self, name: &str) -> (r: bool)
        ensures
            r == regex_matches(self@, name@) || r == occurs_in(
                lowercased(self@),
                lowercased(name@),
            ),
    {
        let verdict = regex_match(self.pattern.as_str(), name);
        settle(verdict, self.pattern.as_str(), name)
    }

    /// Whether `area` has a name that answers the query. An area without a
    /// name answers none.
    pub fn matches(&self, area: &Area) -> (r: bool)
        ensures
            !area.tags@.contains_key("name"@) ==> !r,
            area.tags@.contains_key("name"@) ==> r == regex_matches(self@, area.tags@["name"@])
                || r == occurs_in(lowercased(self@), lowercased(area.tags@["name"@])),
    {
        match area.tags.get("name") {
            Some(name) => self.matches_name(name.as_str()),
            None => false,
        }
    }
}

/// The query for areas whose name answers `query`, which is a regular
/// expression or, failing that, a piece of text.
pub fn by_query(query: &str) -> (q: Query)
    ensures
        q@ == query@,
{
    Query { pattern: query.to_owned() }
}

} // verus!
