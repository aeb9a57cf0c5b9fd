//! The calls into outside crates: regular expressions (`regex`), JSON (`serde_json`) and
//! HTML (`scraper`). Each function here is trusted: Verus believes its contract, which
//! names what the outside crate computes, and does not read its body.

use vstd::prelude::*;
use crate::config::{members_view, JsonMember, MemberView};

verus! {

/// The plain form of a list of strings.
pub open spec fn strings_view(v: Seq<String>) -> Seq<Seq<char>> {
    v.map_values(|s: String| s@)
}

/// What `regex::Regex::new(pattern)` followed by `split(text)` gives: `None` when the
/// pattern is refused, else the pieces of `text` between the matches of the pattern.
pub uninterp spec fn regex_split_of(pattern: Seq<char>, text: Seq<char>) -> Option<Seq<Seq<char>>>;

/// Compiles `pattern` with `regex::Regex::new` and splits `text` at its matches with
/// `Regex::split`. The contract claims only that the result is the one that the regex
/// crate computes from these two strings (`regex_split_of`), `None` when it refuses the
/// pattern; what the pieces are is left to the regex crate.
#[verifier::external_body]
pub(crate) fn regex_split(pattern: &str, text: &str) -> (r: Option<Vec<String>>)
    ensures
        match r {
            None => regex_split_of(pattern@, text@) is None,
            Some(v) => regex_split_of(pattern@, text@) == Some(strings_view(v@)),
        },
{
    regex::Regex::new(pattern).ok().map(|re| re.split(text).map(String::from).collect())
}

/// The plain form of a table of strings.
pub open spec fn rows_view(v: Seq<Vec<String>>) -> Seq<Seq<Seq<char>>> {
    v.map_values(|row: Vec<String>| strings_view(row@))
}

/// What `scraper` gives for an HTML document, a row selector and a cell selector: `None`
/// when it refuses a selector, else, for every element that the row selector matches in the
/// document (in the order in which scraper's `select` walks its tree of nodes), the text of every element that the cell selector matches
/// within it.
pub uninterp spec fn selected_cell_texts(html: Seq<char>, rows: Seq<char>, cells: Seq<char>) -> Option<Seq<Seq<Seq<char>>>>;

/// Parses `html` with `scraper::Html::parse_document` and, for every element that
/// `rows` selects (`Html::select`), collects the text (`ElementRef::text`) of every element
/// that `cells` selects within it (`ElementRef::select`). The contract claims only that the
/// result is the one that scraper computes from these three strings (`selected_cell_texts`),
/// `None` when `scraper::Selector::parse` refuses a selector.
#[verifier::external_body]
pub(crate) fn select_cell_texts(html: &str, rows: &str, cells: &str) -> (r: Option<Vec<Vec<String>>>)
    ensures
        match r {
            None => selected_cell_texts(html@, rows@, cells@) is None,
            Some(v) => selected_cell_texts(html@, rows@, cells@) == Some(rows_view(v@)),
        },
{
    let rows = scraper::Selector::parse(rows).ok()?;
    let cells = scraper::Selector::parse(cells).ok()?;
    let doc = scraper::Html::parse_document(html);
    Some(doc.select(&rows).map(|tr| tr.select(&cells).map(|e| e.text().collect()).collect()).collect())
}

/// For every element that the selector `elements` picks in an HTML document (in the order
/// in which scraper's `select` walks its tree of nodes), the number of its child nodes, as `scraper` counts them; `None` when the selector
/// is refused.
pub uninterp spec fn child_counts_of(html: Seq<char>, elements: Seq<char>) -> Option<Seq<usize>>;

/// Parses `html` with `scraper::Html::parse_document` and counts, for every element that
/// `elements` selects (`Html::select`), its children (`NodeRef::children`). The contract
/// claims only that the result is the one that scraper computes from these two strings
/// (`child_counts_of`), `None` when `scraper::Selector::parse` refuses the selector.
#[verifier::external_body]
pub(crate) fn child_counts(html: &str, elements: &str) -> (r: Option<Vec<usize>>)
    ensures
        match r {
            None => child_counts_of(html@, elements@) is None,
            Some(v) => child_counts_of(html@, elements@) == Some(v@),
        },
{
    let elements = scraper::Selector::parse(elements).ok()?;
    let doc = scraper::Html::parse_document(html);
    Some(doc.select(&elements).map(|e| e.children().count()).collect())
}

/// What `scraper` gives for an HTML document, a selector `outer`, a position `index` and a
/// selector `inner`: take the element at position `index` among those that `outer` selects
/// in the document; the text of every element that `inner` selects within it (in the order in
/// which scraper's `select` walks its tree of nodes). `None` when a selector is refused or `outer` selects no element at `index`.
pub uninterp spec fn nested_texts_of(html: Seq<char>, outer: Seq<char>, index: usize, inner: Seq<char>) -> Option<Seq<Seq<char>>>;

/// Parses `html` with `scraper::Html::parse_document`, takes the element at position
/// `index` of `Html::select` with `outer`, and collects the text (`ElementRef::text`) of
/// every element that `inner` selects within it (`ElementRef::select`). The contract claims
/// only that the result is the one that scraper computes from these arguments
/// (`nested_texts_of`).
#[verifier::external_body]
pub(crate) fn nested_texts(html: &str, outer: &str, index: usize, inner: &str) -> (r: Option<Vec<String>>)
    ensures
        match r {
            None => nested_texts_of(html@, outer@, index, inner@) is None,
            Some(v) => nested_texts_of(html@, outer@, index, inner@) == Some(strings_view(v@)),
        },
{
    let outer = scraper::Selector::parse(outer).ok()?;
    let inner = scraper::Selector::parse(inner).ok()?;
    let doc = scraper::Html::parse_document(html);
    let scope = doc.select(&outer).nth(index)?;
    Some(scope.select(&inner).map(|e| e.text().collect()).collect())
}

/// The plain form of the lines of a section: each line's text and the texts of its cells.
pub open spec fn lines_view(v: Seq<(String, Vec<String>)>) -> Seq<(Seq<char>, Seq<Seq<char>>)> {
    v.map_values(|l: (String, Vec<String>)| (l.0@, strings_view(l.1@)))
}

/// The plain form of a list of sections.
pub open spec fn sections_view(v: Seq<Vec<(String, Vec<String>)>>) -> Seq<Seq<(Seq<char>, Seq<Seq<char>>)>> {
    v.map_values(|t: Vec<(String, Vec<String>)>| lines_view(t@))
}

/// What `scraper` gives for the element that follows a row: in an HTML document, take the
/// element at position `index` among those that `outer` selects, within it the element at
/// position `row` among those that `inner` selects, and the next element among that one's
/// siblings. For every element that `sections` selects within that element, and for every
/// element that `lines` selects within the section, the line's text and the text of every
/// element that `cells` selects within the line (all in the order in which scraper's `select` walks its tree of nodes). `None` when a
/// selector is refused or one of these elements is missing.
pub uninterp spec fn following_sections_of(
    html: Seq<char>,
    outer: Seq<char>,
    index: usize,
    inner: Seq<char>,
    row: usize,
    sections: Seq<char>,
    lines: Seq<char>,
    cells: Seq<char>,
) -> Option<Seq<Seq<(Seq<char>, Seq<Seq<char>>)>>>;

/// Parses `html` with `scraper::Html::parse_document`, walks to the element after the
/// `row`-th row (`Element::next_sibling_element`) and collects the texts of its sections'
/// lines and cells (`ElementRef::select`, `ElementRef::text`). The contract claims only that
/// the result is the one that scraper computes from these arguments
/// (`following_sections_of`).
#[verifier::external_body]
pub(crate) fn following_sections(
    html: &str,
    outer: &str,
    index: usize,
    inner: &str,
    row: usize,
    sections: &str,
    lines: &str,
    cells: &str,
) -> (r: Option<Vec<Vec<(String, Vec<String>)>>>)
    ensures
        match r {
            None => following_sections_of(html@, outer@, index, inner@, row, sections@, lines@, cells@) is None,
            Some(v) => following_sections_of(html@, outer@, index, inner@, row, sections@, lines@, cells@)
                == Some(sections_view(v@)),
        },
{
    let p = |s: &str| scraper::Selector::parse(s).ok();
    let (o, i, s, l, c) = (p(outer)?, p(inner)?, p(sections)?, p(lines)?, p(cells)?);
    let doc = scraper::Html::parse_document(html);
    let next = scraper::Element::next_sibling_element(&doc.select(&o).nth(index)?.select(&i).nth(row)?)?;
    Some(next.select(&s).map(|t| t.select(&l).map(|tr| (tr.text().collect(), tr.select(&c).map(|td| td.text().collect()).collect())).collect()).collect())
}

/// What `serde_json` makes of a text, as far as the configuration files read it: `None`
/// when the text is not JSON; `Some(None)` when its value is not an object; otherwise the
/// members of the object in the order in which `serde_json::Map` iterates them, each with
/// its key, its value as `Value::as_u64` reads it, and, when the value is an object, that
/// object's members with their values as `Value::as_str` reads them.
pub uninterp spec fn json_members_of(text: Seq<char>) -> Option<Option<Seq<MemberView>>>;

/// Parses `text` with `serde_json::from_str` and reads the members of the top-level object
/// (`Value::as_object`, `Value::as_u64`, `Value::as_str`). The contract claims only that the
/// result is the one that serde_json computes from the text (`json_members_of`).
#[verifier::external_body]
pub(crate) fn json_members(text: &str) -> (r: Option<Option<Vec<JsonMember>>>)
    ensures
        match r {
            None => json_members_of(text@) is None,
            Some(None) => json_members_of(text@) == Some(None::<Seq<MemberView>>),
            Some(Some(v)) => json_members_of(text@) == Some(Some(members_view(v@))),
        },
{
    let doc: serde_json::Value = serde_json::from_str(text).ok()?;
    Some(doc.as_object().map(|top| top.iter().map(|(k, v)| JsonMember {
        key: k.clone(),
        count: v.as_u64(),
        members: v.as_object().map(|m| m.iter().map(|(s, u)| (s.clone(), u.as_str().map(String::from))).collect()),
    }).collect()))
}

/// The text of every element that a selector picks in an HTML document (in the order
/// in which scraper's `select` walks its tree of nodes), as `scraper` gives it; `None` when the selector is refused.
pub uninterp spec fn selected_texts_of(html: Seq<char>, elements: Seq<char>) -> Option<Seq<Seq<char>>>;

/// Parses `html` with `scraper::Html::parse_document` and collects the text
/// (`ElementRef::text`) of every element that `elements` selects (`Html::select`). The
/// contract claims only that the result is the one that scraper computes from these two
/// strings (`selected_texts_of`).
#[verifier::external_body]
pub(crate) fn selected_texts(html: &str, elements: &str) -> (r: Option<Vec<String>>)
    ensures
        match r {
            None => selected_texts_of(html@, elements@) is None,
            Some(v) => selected_texts_of(html@, elements@) == Some(strings_view(v@)),
        },
{
    let elements = scraper::Selector::parse(elements).ok()?;
    let doc = scraper::Html::parse_document(html);
    Some(doc.select(&elements).map(|e| e.text().collect()).collect())
}

/// The value of an attribute of every element that a selector picks in an HTML document
/// (in the order in which scraper's `select` walks its tree of nodes; `None` for an element without the attribute), as `scraper` gives
/// it; `None` when the selector is refused.
pub uninterp spec fn selected_attributes_of(html: Seq<char>, elements: Seq<char>, attribute: Seq<char>) -> Option<Seq<Option<Seq<char>>>>;

/// Parses `html` with `scraper::Html::parse_document` and collects the value of
/// `attribute` (`ElementRef::attr`) of every element that `elements` selects
/// (`Html::select`). The contract claims only that the result is the one that scraper
/// computes from these three strings (`selected_attributes_of`).
#[verifier::external_body]
pub(crate) fn selected_attributes(html: &str, elements: &str, attribute: &str) -> (r: Option<Vec<Option<String>>>)
    ensures
        match r {
            None => selected_attributes_of(html@, elements@, attribute@) is None,
            Some(v) => selected_attributes_of(html@, elements@, attribute@) == Some(
                v@.map_values(|a: Option<String>| crate::config::optional_view(a)),
            ),
        },
{
    let elements = scraper::Selector::parse(elements).ok()?;
    let doc = scraper::Html::parse_document(html);
    Some(doc.select(&elements).map(|e| e.attr(attribute).map(String::from)).collect())
}

} // verus!
