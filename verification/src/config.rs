//! The two configuration files: the category requirements of a specialty, and the pages
//! of FMI's elective archive by year and semester. Both are JSON objects; the files are
//! read elsewhere and their text is handed in here.

use vstd::prelude::*;
use crate::category::{all_categories, category_of_code, lemma_categories_deep_view, ElectiveCategory};
use crate::error::Error;
use crate::fmi_elective::{categories_from_pieces, categories_of, first_unrecognized, unrecognized_from};
use crate::outside::{json_members, json_members_of, strings_view};
use crate::seq_facts::{lemma_push_deep_view, lemma_update_deep_view};
use crate::susi_course::{semester_named, Semester};
use crate::text::{
    chars_eq, chars_of, is_white_space, lemma_split_append_plain, lemma_split_push_separator,
    parse_unsigned, parse_u16, split_chars, split_seq, string_of, trim_end_seq, trim_seq,
    trim_start_seq,
};

verus! {

broadcast use lemma_categories_deep_view;

/// Plain form of a member of a JSON object: its key, its value as an unsigned integer
/// (when it is one), and the value's own members with their string values (when the value
/// is an object).
pub type MemberView = (Seq<char>, Option<u64>, Option<Seq<(Seq<char>, Option<Seq<char>>)>>);

/// One member of the top-level object of a JSON configuration file, as far as the
/// configurations read it.
#[derive(Debug)]
pub struct JsonMember {
    pub key: String,
    /// The value, when it is a non-negative integer that fits in 64 bits.
    pub count: Option<u64>,
    /// The value's own members, when it is an object: each key, with its value when that
    /// is a string.
    pub members: Option<Vec<(String, Option<String>)>>,
}

/// Plain form of an optional string.
pub open spec fn optional_view(s: Option<String>) -> Option<Seq<char>> {
    match s {
        Some(t) => Some(t@),
        None => None,
    }
}

impl View for JsonMember {
    type V = MemberView;

    open spec fn view(&self) -> MemberView {
        (
            self.key@,
            self.count,
            match self.members {
                Some(v) => Some(
                    v@.map_values(|p: (String, Option<String>)| (p.0@, optional_view(p.1))),
                ),
                None => None,
            },
        )
    }
}

/// Plain form of the members of an object.
pub open spec fn members_view(v: Seq<JsonMember>) -> Seq<MemberView> {
    v.map_values(|m: JsonMember| m@)
}

/// The categories that a requirement key names: `_` names every category; otherwise the
/// key lists category codes separated by `'|'`, and every one must be known.
pub open spec fn key_categories(key: Seq<char>) -> Option<Seq<ElectiveCategory>> {
    if key == seq!['_'] {
        Some(all_categories())
    } else {
        let pieces = split_seq(key, seq!['|']);
        if first_unrecognized(pieces) is None {
            Some(categories_of(pieces))
        } else {
            None
        }
    }
}

/// The categories that a requirement key names, when it names categories.
pub fn parse_categories(key: &str) -> (r: Option<Vec<ElectiveCategory>>)
    ensures
        match key_categories(key@) {
            Some(cats) => r matches Some(v) && v@ == cats,
            None => r is None,
        },
{
    broadcast use crate::text::lemma_chars_deep_view;

    let chars = chars_of(key);
    let any: &[char] = &['_'];
    assert(any@ == seq!['_']);
    if chars_eq(&chars, any) {
        return Some(ElectiveCategory::iterator());
    }
    let bar: &[char] = &['|'];
    assert(bar@ == seq!['|']);
    let pieces = split_chars(&chars, bar);
    let ghost ps = pieces.deep_view();
    let mut texts: Vec<String> = Vec::new();
    let mut i: usize = 0;
    while i < pieces.len()
        invariant
            ps == pieces.deep_view(),
            i <= pieces.len(),
            texts@.len() == i,
            forall|k: int| 0 <= k < i ==> #[trigger] texts@[k]@ == ps[k],
        decreases pieces.len() - i,
    {
        assert(ps[i as int] == pieces@[i as int]@);
        texts.push(string_of(&pieces[i]));
        i += 1;
    }
    assert(strings_view(texts@) =~= split_seq(key@, seq!['|']));
    match categories_from_pieces(&texts) {
        Ok(c) => Some(c),
        Err(_) => None,
    }
}

/// The first position at which `entries` has the key `key`, or the number of entries.
pub open spec fn key_position<K, V>(entries: Seq<(K, V)>, key: K, i: int) -> int
    decreases entries.len() - i,
{
    if i < 0 || i >= entries.len() || entries[i].0 == key {
        i
    } else {
        key_position(entries, key, i + 1)
    }
}

/// `entries` with `key` mapped to `value`: the entry of `key` replaced in its place, or a new
/// entry at the end, as inserting into a map does.
pub open spec fn with_entry<K, V>(entries: Seq<(K, V)>, key: K, value: V) -> Seq<(K, V)> {
    let p = key_position(entries, key, 0);
    if p < entries.len() {
        entries.update(p, (key, value))
    } else {
        entries.push((key, value))
    }
}

/// What the first `n` members of a requirements object give: each key's categories mapped
/// to its count taken modulo 256, a later key naming the same list replacing the count of
/// an earlier one. A key that names no categories is an error; a count that is not an
/// unsigned integer is an error when `strict`, and is passed over otherwise.
pub open spec fn requirement_entries(members: Seq<MemberView>, n: int, strict: bool) -> Result<
    Seq<(Seq<ElectiveCategory>, u8)>,
    Error,
>
    decreases n,
{
    if n <= 0 || n > members.len() {
        Ok(Seq::empty())
    } else {
        match requirement_entries(members, n - 1, strict) {
            Err(e) => Err(e),
            Ok(entries) => match key_categories(members[n - 1].0) {
                None => Err(Error::WrongCategoryConfigFormat),
                Some(cats) => match members[n - 1].1 {
                    Some(count) => Ok(with_entry(entries, cats, (count % 256) as u8)),
                    None => if strict {
                        Err(Error::ExpectedNumber)
                    } else {
                        Ok(entries)
                    },
                },
            },
        }
    }
}

proof fn lemma_requirement_error_stays(members: Seq<MemberView>, k: int, n: int, strict: bool)
    requires
        0 <= k <= n <= members.len(),
        requirement_entries(members, k, strict) is Err,
    ensures
        requirement_entries(members, n, strict) == requirement_entries(members, k, strict),
    decreases n - k,
{
    if n > k {
        lemma_requirement_error_stays(members, k, n - 1, strict);
    }
}

proof fn lemma_key_position_bounds<K, V>(entries: Seq<(K, V)>, key: K, i: int)
    requires
        0 <= i <= entries.len(),
    ensures
        i <= key_position(entries, key, i) <= entries.len(),
        key_position(entries, key, i) < entries.len() ==> entries[key_position(entries, key, i)].0 == key,
    decreases entries.len() - i,
{
    if i < entries.len() && entries[i].0 != key {
        lemma_key_position_bounds(entries, key, i + 1);
    }
}

proof fn lemma_with_entry_keeps<K, V>(entries: Seq<(K, V)>, key: K, value: V, x: (K, V))
    ensures
        with_entry(entries, key, value).contains((key, value)),
        entries.contains(x) && x.0 != key ==> with_entry(entries, key, value).contains(x),
{
    let p = key_position(entries, key, 0);
    lemma_key_position_bounds(entries, key, 0);
    let w = with_entry(entries, key, value);
    if p < entries.len() {
        assert(w[p] == (key, value));
        if entries.contains(x) && x.0 != key {
            let m = choose|m: int| 0 <= m < entries.len() && entries[m] == x;
            assert(m != p);
            assert(w[m] == x);
        }
    } else {
        assert(w[entries.len() as int] == (key, value));
        if entries.contains(x) && x.0 != key {
            let m = choose|m: int| 0 <= m < entries.len() && entries[m] == x;
            assert(w[m] == x);
        }
    }
}

proof fn lemma_entry_stays(members: Seq<MemberView>, strict: bool, j: int, n: int)
    requires
        0 <= j < n <= members.len(),
        requirement_entries(members, n, strict) is Ok,
        key_categories(members[j].0) is Some,
        members[j].1 is Some,
        forall|t: int|
            j < t < members.len() && members[t].1 is Some ==> key_categories(#[trigger] members[t].0)
                != key_categories(members[j].0),
    ensures
        requirement_entries(members, n, strict)->Ok_0.contains(
            (key_categories(members[j].0)->Some_0, (members[j].1->Some_0 % 256) as u8),
        ),
    decreases n,
{
    let x = (key_categories(members[j].0)->Some_0, (members[j].1->Some_0 % 256) as u8);
    let before = requirement_entries(members, n - 1, strict);
    if n - 1 == j {
        lemma_with_entry_keeps(before->Ok_0, x.0, x.1, x);
    } else {
        lemma_entry_stays(members, strict, j, n - 1);
        if let Some(count) = members[n - 1].1 {
            let cats = key_categories(members[n - 1].0)->Some_0;
            assert(key_categories(members[n - 1].0) != key_categories(members[j].0));
            lemma_with_entry_keeps(before->Ok_0, cats, (count % 256) as u8, x);
        }
    }
}

/// A requirements file that can be read keeps, for every key that names categories and has
/// a count, the count of the last such key naming the same categories, taken modulo 256.
pub proof fn law_last_count_of_each_key_kept(members: Seq<MemberView>, strict: bool, j: int)
    requires
        requirement_entries(members, members.len() as int, strict) is Ok,
        0 <= j < members.len(),
        key_categories(members[j].0) is Some,
        members[j].1 is Some,
        forall|t: int|
            j < t < members.len() && members[t].1 is Some ==> key_categories(#[trigger] members[t].0)
                != key_categories(members[j].0),
    ensures
        requirement_entries(members, members.len() as int, strict)->Ok_0.contains(
            (key_categories(members[j].0)->Some_0, (members[j].1->Some_0 % 256) as u8),
        ),
{
    lemma_entry_stays(members, strict, j, members.len() as int);
}

/// What a requirements file gives: its text must be JSON, its top level an object.
pub open spec fn requirements_config_of(text: Seq<char>, strict: bool) -> Result<
    Seq<(Seq<ElectiveCategory>, u8)>,
    Error,
> {
    match json_members_of(text) {
        None => Err(Error::InvalidJson),
        Some(None) => Err(Error::CategoriesConfigNotObject),
        Some(Some(members)) => requirement_entries(members, members.len() as int, strict),
    }
}

/// Maps `key` to `value` in `entries`, in the manner of `with_entry`.
fn put_entry(entries: &mut Vec<(Vec<ElectiveCategory>, u8)>, key: Vec<ElectiveCategory>, value: u8)
    ensures
        final(entries).deep_view() == with_entry(old(entries).deep_view(), key@, value),
{
    let ghost e = entries.deep_view();
    let mut p: usize = 0;
    while p < entries.len() && !crate::course_arranger::categories_equal(&entries[p].0, &key)
        invariant
            e == entries.deep_view(),
            p <= entries.len(),
            key_position(e, key@, 0) == key_position(e, key@, p as int),
        decreases entries.len() - p,
    {
        assert(e[p as int].0 == entries@[p as int].0@);
        p += 1;
    }
    assert(p < entries.len() ==> e[p as int].0 == entries@[p as int].0@);
    let ghost before = *entries;
    if p < entries.len() {
        entries.set(p, (key, value));
        proof {
            lemma_update_deep_view(before, *entries, p as int, entries@[p as int]);
        }
    } else {
        entries.push((key, value));
        proof {
            lemma_push_deep_view(before, *entries, entries@[p as int]);
        }
    }
}

/// The requirements in a requirements file, as category lists with counts.
pub fn requirements_config(text: &str, strict: bool) -> (r: Result<Vec<(Vec<ElectiveCategory>, u8)>, Error>)
    ensures
        match requirements_config_of(text@, strict) {
            Ok(entries) => r matches Ok(v) && v.deep_view() == entries,
            Err(e) => r == Err::<Vec<(Vec<ElectiveCategory>, u8)>, Error>(e),
        },
{
    let members = match json_members(text) {
        None => {
            return Err(Error::InvalidJson);
        },
        Some(None) => {
            return Err(Error::CategoriesConfigNotObject);
        },
        Some(Some(m)) => m,
    };
    let ghost ms = members_view(members@);
    let mut entries: Vec<(Vec<ElectiveCategory>, u8)> = Vec::new();
    assert(entries.deep_view() =~= Seq::<(Seq<ElectiveCategory>, u8)>::empty());
    let mut i: usize = 0;
    while i < members.len()
        invariant
            ms == members_view(members@),
            json_members_of(text@) == Some(Some(ms)),
            i <= members.len(),
            requirement_entries(ms, i as int, strict) == Ok::<
                Seq<(Seq<ElectiveCategory>, u8)>,
                Error,
            >(entries.deep_view()),
        decreases members.len() - i,
    {
        let m = &members[i];
        assert(ms[i as int] == m@);
        let cats = match parse_categories(m.key.as_str()) {
            Some(c) => c,
            None => {
                proof {
                    lemma_requirement_error_stays(ms, i + 1, ms.len() as int, strict);
                }
                return Err(Error::WrongCategoryConfigFormat);
            },
        };
        match m.count {
            Some(count) => {
                put_entry(&mut entries, cats, (count % 256) as u8);
            },
            None => {
                if strict {
                    proof {
                        lemma_requirement_error_stays(ms, i + 1, ms.len() as int, strict);
                    }
                    return Err(Error::ExpectedNumber);
                }
            },
        }
        i += 1;
    }
    Ok(entries)
}

/// The requirements of a specialty, from the text of its requirements file: the top level
/// is an object that maps keys naming categories to counts. Every key must name
/// categories, and every count must be an unsigned integer.
pub fn read_categories_config(text: &str) -> (r: Result<Vec<(Vec<ElectiveCategory>, u8)>, Error>)
    ensures
        match requirements_config_of(text@, true) {
            Ok(entries) => r matches Ok(v) && v.deep_view() == entries,
            Err(e) => r == Err::<Vec<(Vec<ElectiveCategory>, u8)>, Error>(e),
        },
{
    requirements_config(text, true)
}

/// Plain form of the archive entries.
pub open spec fn archive_view(v: Seq<((u16, Semester), String)>) -> Seq<((u16, Semester), Seq<char>)> {
    v.map_values(|e: ((u16, Semester), String)| (e.0, e.1@))
}

/// What the first `n` semesters of a year in the archive file add to `entries`: each
/// semester's page for that year, a later one replacing an earlier one of the same year and
/// semester. A semester other than `Summer` or `Winter` is an error, and so is a page that
/// is not a string.
pub open spec fn semester_entries(
    entries: Seq<((u16, Semester), Seq<char>)>,
    year: u16,
    semesters: Seq<(Seq<char>, Option<Seq<char>>)>,
    n: int,
) -> Result<Seq<((u16, Semester), Seq<char>)>, Error>
    decreases n,
{
    if n <= 0 || n > semesters.len() {
        Ok(entries)
    } else {
        match semester_entries(entries, year, semesters, n - 1) {
            Err(e) => Err(e),
            Ok(es) => match semester_named(semesters[n - 1].0) {
                None => Err(Error::UnknownSemester),
                Some(semester) => match semesters[n - 1].1 {
                    None => Err(Error::UrlStringExpected),
                    Some(url) => Ok(with_entry(es, (year, semester), url)),
                },
            },
        }
    }
}

/// What the first `n` years of the archive file give. A year that is not a number below
/// 65536 is an error, and so is a year whose value is not an object.
pub open spec fn archive_entries(members: Seq<MemberView>, n: int) -> Result<
    Seq<((u16, Semester), Seq<char>)>,
    Error,
>
    decreases n,
{
    if n <= 0 || n > members.len() {
        Ok(Seq::empty())
    } else {
        match archive_entries(members, n - 1) {
            Err(e) => Err(e),
            Ok(entries) => match parse_unsigned(members[n - 1].0, 65535) {
                None => Err(Error::WrongYearKey),
                Some(year) => match members[n - 1].2 {
                    None => Err(Error::SemesterObjectExpected),
                    Some(semesters) => semester_entries(
                        entries,
                        year as u16,
                        semesters,
                        semesters.len() as int,
                    ),
                },
            },
        }
    }
}

proof fn lemma_archive_error_stays(members: Seq<MemberView>, k: int, n: int)
    requires
        0 <= k <= n <= members.len(),
        archive_entries(members, k) is Err,
    ensures
        archive_entries(members, n) == archive_entries(members, k),
    decreases n - k,
{
    if n > k {
        lemma_archive_error_stays(members, k, n - 1);
    }
}

proof fn lemma_semester_error_stays(
    entries: Seq<((u16, Semester), Seq<char>)>,
    year: u16,
    semesters: Seq<(Seq<char>, Option<Seq<char>>)>,
    k: int,
    n: int,
)
    requires
        0 <= k <= n <= semesters.len(),
        semester_entries(entries, year, semesters, k) is Err,
    ensures
        semester_entries(entries, year, semesters, n) == semester_entries(entries, year, semesters, k),
    decreases n - k,
{
    if n > k {
        lemma_semester_error_stays(entries, year, semesters, k, n - 1);
    }
}

/// Whether some entry has the key `key`.
pub open spec fn names_key<K, V>(entries: Seq<(K, V)>, key: K) -> bool {
    exists|m: int| 0 <= m < entries.len() && #[trigger] entries[m].0 == key
}

proof fn lemma_with_entry_names<K, V>(entries: Seq<(K, V)>, key: K, value: V, k: K)
    requires
        k == key || names_key(entries, k),
    ensures
        names_key(with_entry(entries, key, value), k),
{
    let p = key_position(entries, key, 0);
    lemma_key_position_bounds(entries, key, 0);
    let w = with_entry(entries, key, value);
    if k == key {
        if p < entries.len() {
            assert(w[p].0 == k);
        } else {
            assert(w[entries.len() as int].0 == k);
        }
    } else {
        let m = choose|m: int| 0 <= m < entries.len() && #[trigger] entries[m].0 == k;
        if p < entries.len() && m == p {
            assert(w[m].0 == k);
        } else {
            assert(w[m].0 == k);
        }
    }
}

proof fn lemma_semester_names(
    entries: Seq<((u16, Semester), Seq<char>)>,
    year: u16,
    semesters: Seq<(Seq<char>, Option<Seq<char>>)>,
    n: int,
    k: (u16, Semester),
)
    requires
        0 <= n <= semesters.len(),
        semester_entries(entries, year, semesters, n) is Ok,
        names_key(entries, k) || exists|t: int|
            0 <= t < n && #[trigger] semester_named(semesters[t].0) == Some(k.1) && k.0 == year,
    ensures
        names_key(semester_entries(entries, year, semesters, n)->Ok_0, k),
    decreases n,
{
    if n > 0 {
        let es = semester_entries(entries, year, semesters, n - 1)->Ok_0;
        let semester = semester_named(semesters[n - 1].0)->Some_0;
        let url = semesters[n - 1].1->Some_0;
        if k == (year, semester) {
            lemma_with_entry_names(es, (year, semester), url, k);
        } else {
            if !names_key(entries, k) {
                let t = choose|t: int|
                    0 <= t < n && #[trigger] semester_named(semesters[t].0) == Some(k.1) && k.0 == year;
                assert(t != n - 1);
            }
            lemma_semester_names(entries, year, semesters, n - 1, k);
            lemma_with_entry_names(es, (year, semester), url, k);
        }
    }
}

proof fn lemma_archive_names(members: Seq<MemberView>, n: int, j: int, t: int)
    requires
        0 <= j < n <= members.len(),
        archive_entries(members, n) is Ok,
        parse_unsigned(members[j].0, 65535) is Some,
        members[j].2 is Some,
        0 <= t < members[j].2->Some_0.len(),
        semester_named(members[j].2->Some_0[t].0) is Some,
    ensures
        names_key(
            archive_entries(members, n)->Ok_0,
            (
                parse_unsigned(members[j].0, 65535)->Some_0 as u16,
                semester_named(members[j].2->Some_0[t].0)->Some_0,
            ),
        ),
    decreases n,
{
    let k = (
        parse_unsigned(members[j].0, 65535)->Some_0 as u16,
        semester_named(members[j].2->Some_0[t].0)->Some_0,
    );
    let entries = archive_entries(members, n - 1)->Ok_0;
    let year = parse_unsigned(members[n - 1].0, 65535)->Some_0 as u16;
    let semesters = members[n - 1].2->Some_0;
    if n - 1 == j {
        assert(semester_named(semesters[t].0) == Some(k.1));
        lemma_semester_names(entries, year, semesters, semesters.len() as int, k);
    } else {
        lemma_archive_names(members, n - 1, j, t);
        lemma_semester_names(entries, year, semesters, semesters.len() as int, k);
    }
}

proof fn lemma_semester_valid(
    entries: Seq<((u16, Semester), Seq<char>)>,
    year: u16,
    semesters: Seq<(Seq<char>, Option<Seq<char>>)>,
    n: int,
    t: int,
)
    requires
        0 <= t < n <= semesters.len(),
        semester_entries(entries, year, semesters, n) is Ok,
    ensures
        semester_named(semesters[t].0) is Some,
    decreases n,
{
    if t < n - 1 {
        lemma_semester_valid(entries, year, semesters, n - 1, t);
    }
}

proof fn lemma_archive_valid(members: Seq<MemberView>, n: int, j: int, t: int)
    requires
        0 <= j < n <= members.len(),
        archive_entries(members, n) is Ok,
        members[j].2 is Some,
        0 <= t < members[j].2->Some_0.len(),
    ensures
        parse_unsigned(members[j].0, 65535) is Some,
        semester_named(members[j].2->Some_0[t].0) is Some,
    decreases n,
{
    if j < n - 1 {
        lemma_archive_valid(members, n - 1, j, t);
    } else {
        let entries = archive_entries(members, n - 1)->Ok_0;
        let year = parse_unsigned(members[j].0, 65535)->Some_0 as u16;
        let semesters = members[j].2->Some_0;
        lemma_semester_valid(entries, year, semesters, semesters.len() as int, t);
    }
}

/// An archive file that can be read has a page for every year and semester that it names.
pub proof fn law_archive_names_every_semester(members: Seq<MemberView>, j: int, t: int)
    requires
        archive_entries(members, members.len() as int) is Ok,
        0 <= j < members.len(),
        members[j].2 is Some,
        0 <= t < members[j].2->Some_0.len(),
    ensures
        parse_unsigned(members[j].0, 65535) is Some,
        semester_named(members[j].2->Some_0[t].0) is Some,
        names_key(
            archive_entries(members, members.len() as int)->Ok_0,
            (
                parse_unsigned(members[j].0, 65535)->Some_0 as u16,
                semester_named(members[j].2->Some_0[t].0)->Some_0,
            ),
        ),
{
    lemma_archive_valid(members, members.len() as int, j, t);
    lemma_archive_names(members, members.len() as int, j, t);
}

/// What the archive file gives: its text must be JSON, its top level an object.
pub open spec fn archive_config_of(text: Seq<char>) -> Result<Seq<((u16, Semester), Seq<char>)>, Error> {
    match json_members_of(text) {
        None => Err(Error::InvalidJson),
        Some(None) => Err(Error::ConfigObjectExpected),
        Some(Some(members)) => archive_entries(members, members.len() as int),
    }
}

/// Maps the year and semester `key` to the page `url` in `entries`, in the manner of
/// `with_entry`.
fn put_page(entries: &mut Vec<((u16, Semester), String)>, key: (u16, Semester), url: String)
    ensures
        archive_view(final(entries)@) == with_entry(archive_view(old(entries)@), key, url@),
{
    let ghost e = archive_view(entries@);
    let mut p: usize = 0;
    while p < entries.len() && !(entries[p].0.0 == key.0 && entries[p].0.1 == key.1)
        invariant
            e == archive_view(entries@),
            p <= entries.len(),
            key_position(e, key, 0) == key_position(e, key, p as int),
        decreases entries.len() - p,
    {
        p += 1;
    }
    let ghost before = entries@;
    if p < entries.len() {
        entries.set(p, (key, url));
        assert(archive_view(entries@) =~= e.update(p as int, (key, url@)));
    } else {
        entries.push((key, url));
        assert(archive_view(entries@) =~= e.push((key, url@)));
    }
}

/// The pages of FMI's elective archive, from the text of the archive file: the top level
/// is an object that maps years to objects, which map `Summer` and `Winter` to the address
/// of that semester's page.
pub fn parse_elective_archive_urls_config(text: &str) -> (r: Result<Vec<((u16, Semester), String)>, Error>)
    ensures
        match archive_config_of(text@) {
            Ok(entries) => r matches Ok(v) && archive_view(v@) == entries,
            Err(e) => r == Err::<Vec<((u16, Semester), String)>, Error>(e),
        },
{
    let members = match json_members(text) {
        None => {
            return Err(Error::InvalidJson);
        },
        Some(None) => {
            return Err(Error::ConfigObjectExpected);
        },
        Some(Some(m)) => m,
    };
    let ghost ms = members_view(members@);
    let mut entries: Vec<((u16, Semester), String)> = Vec::new();
    assert(archive_view(entries@) =~= Seq::<((u16, Semester), Seq<char>)>::empty());
    let mut i: usize = 0;
    while i < members.len()
        invariant
            ms == members_view(members@),
            json_members_of(text@) == Some(Some(ms)),
            i <= members.len(),
            archive_entries(ms, i as int) == Ok::<Seq<((u16, Semester), Seq<char>)>, Error>(
                archive_view(entries@),
            ),
        decreases members.len() - i,
    {
        let m = &members[i];
        assert(ms[i as int] == m@);
        let year = match parse_u16(m.key.as_str()) {
            Some(y) => y,
            None => {
                proof {
                    lemma_archive_error_stays(ms, i + 1, ms.len() as int);
                }
                return Err(Error::WrongYearKey);
            },
        };
        let semesters = match &m.members {
            Some(s) => s,
            None => {
                proof {
                    lemma_archive_error_stays(ms, i + 1, ms.len() as int);
                }
                return Err(Error::SemesterObjectExpected);
            },
        };
        let ghost sv = ms[i as int].2->Some_0;
        assert(sv.len() == semesters@.len());
        let mut k: usize = 0;
        while k < semesters.len()
            invariant
                i < members.len(),
                ms.len() == members@.len(),
                json_members_of(text@) == Some(Some(ms)),
                sv.len() == semesters@.len(),
                forall|t: int| 0 <= t < sv.len() ==> #[trigger] sv[t] == (
                    semesters@[t].0@,
                    optional_view(semesters@[t].1),
                ),
                k <= semesters.len(),
                archive_entries(ms, i + 1) == semester_entries(
                    archive_entries(ms, i as int)->Ok_0,
                    year,
                    sv,
                    sv.len() as int,
                ),
                archive_entries(ms, i as int) is Ok,
                semester_entries(archive_entries(ms, i as int)->Ok_0, year, sv, k as int) == Ok::<
                    Seq<((u16, Semester), Seq<char>)>,
                    Error,
                >(archive_view(entries@)),
            decreases semesters.len() - k,
        {
            let (name, url) = &semesters[k];
            assert(sv[k as int] == (name@, optional_view(*url)));
            let ghost base = archive_entries(ms, i as int)->Ok_0;
            let semester = match Semester::from_str(name.as_str()) {
                Ok(s) => s,
                Err(e) => {
                    proof {
                        lemma_semester_error_stays(base, year, sv, k + 1, sv.len() as int);
                        lemma_archive_error_stays(ms, i + 1, ms.len() as int);
                    }
                    return Err(e);
                },
            };
            match url {
                Some(u) => {
                    put_page(&mut entries, (year, semester), u.clone());
                },
                None => {
                    proof {
                        lemma_semester_error_stays(base, year, sv, k + 1, sv.len() as int);
                        lemma_archive_error_stays(ms, i + 1, ms.len() as int);
                    }
                    return Err(Error::UrlStringExpected);
                },
            }
            k += 1;
        }
        i += 1;
    }
    Ok(entries)
}

/// The pages of the archive whose year and semester are among `wanted`, in the archive's
/// order.
pub open spec fn wanted_pages(
    pages: Seq<((u16, Semester), Seq<char>)>,
    wanted: Seq<(u16, Semester)>,
) -> Seq<((u16, Semester), Seq<char>)> {
    pages.filter(|e: ((u16, Semester), Seq<char>)| wanted.contains(e.0))
}

/// The pages of the archive whose year and semester are among `wanted`.
pub fn pages_to_fetch(pages: &Vec<((u16, Semester), String)>, wanted: &Vec<(u16, Semester)>) -> (r: Vec<((u16, Semester), String)>)
    ensures
        archive_view(r@) == wanted_pages(archive_view(pages@), wanted@),
{
    let ghost all = archive_view(pages@);
    let ghost keep = |e: ((u16, Semester), Seq<char>)| wanted@.contains(e.0);
    let mut r: Vec<((u16, Semester), String)> = Vec::new();
    let mut i: usize = 0;
    assert(all.take(0) =~= Seq::<((u16, Semester), Seq<char>)>::empty());
    assert(archive_view(r@) =~= Seq::<((u16, Semester), Seq<char>)>::empty());
    while i < pages.len()
        invariant
            all == archive_view(pages@),
            keep == (|e: ((u16, Semester), Seq<char>)| wanted@.contains(e.0)),
            i <= pages.len(),
            archive_view(r@) == all.take(i as int).filter(keep),
        decreases pages.len() - i,
    {
        proof {
            crate::seq_facts::lemma_filter_take_step(all, keep, i as int);
        }
        let key = pages[i].0;
        let mut found = false;
        let mut k: usize = 0;
        while k < wanted.len()
            invariant
                k <= wanted.len(),
                found == exists|t: int| 0 <= t < k && wanted@[t] == key,
            decreases wanted.len() - k,
        {
            if wanted[k].0 == key.0 && wanted[k].1 == key.1 {
                found = true;
            }
            k += 1;
        }
        assert(all[i as int].0 == key);
        assert(found == wanted@.contains(key));
        if found {
            let ghost before = r@;
            r.push((key, pages[i].1.clone()));
            assert(archive_view(r@) =~= archive_view(before).push((key, pages@[i as int].1@)));
        }
        i += 1;
    }
    assert(all.take(pages.len() as int) =~= all);
    r
}

/// No key occurs twice among the entries.
pub open spec fn keys_distinct<K, V>(entries: Seq<(K, V)>) -> bool {
    forall|i: int, j: int| 0 <= i < j < entries.len() ==> (#[trigger] entries[i]).0 != (#[trigger] entries[j]).0
}

proof fn lemma_key_position<K, V>(entries: Seq<(K, V)>, key: K, i: int)
    requires
        0 <= i <= entries.len(),
    ensures
        i <= key_position(entries, key, i) <= entries.len(),
        key_position(entries, key, i) < entries.len() ==> entries[key_position(entries, key, i)].0
            == key,
        forall|t: int| i <= t < key_position(entries, key, i) ==> (#[trigger] entries[t]).0 != key,
    decreases entries.len() - i,
{
    if i < entries.len() && entries[i].0 != key {
        lemma_key_position(entries, key, i + 1);
    }
}

proof fn lemma_with_entry_distinct<K, V>(entries: Seq<(K, V)>, key: K, value: V)
    requires
        keys_distinct(entries),
    ensures
        keys_distinct(with_entry(entries, key, value)),
{
    lemma_key_position(entries, key, 0);
    let p = key_position(entries, key, 0);
    let r = with_entry(entries, key, value);
    assert forall|i: int, j: int| 0 <= i < j < r.len() implies (#[trigger] r[i]).0 != (#[trigger] r[j]).0 by {
        if p < entries.len() {
            if i != p && j != p {
                assert(r[i] == entries[i] && r[j] == entries[j]);
            } else if i == p {
                assert(r[j] == entries[j]);
            } else {
                assert(r[i] == entries[i]);
            }
        } else {
            if j < entries.len() {
                assert(r[i] == entries[i] && r[j] == entries[j]);
            } else {
                assert(r[i] == entries[i]);
            }
        }
    }
}

/// The requirements read from a requirements file name every list of categories once, as
/// the keys of a map do.
pub proof fn law_requirement_lists_distinct(members: Seq<MemberView>, n: int, strict: bool)
    ensures
        requirement_entries(members, n, strict) matches Ok(entries) ==> keys_distinct(entries),
    decreases n,
{
    if 0 < n <= members.len() {
        law_requirement_lists_distinct(members, n - 1, strict);
        if let Ok(entries) = requirement_entries(members, n - 1, strict) {
            if let Some(cats) = key_categories(members[n - 1].0) {
                if let Some(count) = members[n - 1].1 {
                    lemma_with_entry_distinct(entries, cats, (count % 256) as u8);
                }
            }
        }
    }
}

proof fn lemma_semester_entries_distinct(
    entries: Seq<((u16, Semester), Seq<char>)>,
    year: u16,
    semesters: Seq<(Seq<char>, Option<Seq<char>>)>,
    n: int,
)
    requires
        keys_distinct(entries),
    ensures
        semester_entries(entries, year, semesters, n) matches Ok(es) ==> keys_distinct(es),
    decreases n,
{
    if 0 < n <= semesters.len() {
        lemma_semester_entries_distinct(entries, year, semesters, n - 1);
        if let Ok(es) = semester_entries(entries, year, semesters, n - 1) {
            if let Some(semester) = semester_named(semesters[n - 1].0) {
                if let Some(url) = semesters[n - 1].1 {
                    lemma_with_entry_distinct(es, (year, semester), url);
                }
            }
        }
    }
}

/// The pages read from the archive file name every year and semester once, as the keys of
/// a map do.
pub proof fn law_archive_pages_distinct(members: Seq<MemberView>, n: int)
    ensures
        archive_entries(members, n) matches Ok(entries) ==> keys_distinct(entries),
    decreases n,
{
    if 0 < n <= members.len() {
        law_archive_pages_distinct(members, n - 1);
        if let Ok(entries) = archive_entries(members, n - 1) {
            if let Some(year) = parse_unsigned(members[n - 1].0, 65535) {
                if let Some(semesters) = members[n - 1].2 {
                    lemma_semester_entries_distinct(entries, year as u16, semesters, semesters.len() as int);
                }
            }
        }
    }
}

/// The key of a category in a requirements file, as the README's table lists it first.
pub open spec fn category_key(c: ElectiveCategory) -> Seq<char> {
    match c {
        ElectiveCategory::Other => seq!['Д'],
        ElectiveCategory::Informatics => seq!['И'],
        ElectiveCategory::Practicum => seq!['К', 'П'],
        ElectiveCategory::Maths => seq!['М'],
        ElectiveCategory::AppliedMaths => seq!['П', 'М'],
        ElectiveCategory::CompSciFundamentals => seq!['О', 'К', 'Н'],
        ElectiveCategory::CompSciCore => seq!['Я', 'К', 'Н'],
        ElectiveCategory::Statistics => seq!['С', 'т'],
        ElectiveCategory::Seminar => seq!['С'],
        ElectiveCategory::Humanitarian => seq!['Х'],
    }
}

/// The keys of the categories joined with `" | "`, as a requirement key lists them.
pub open spec fn joined_keys(cats: Seq<ElectiveCategory>) -> Seq<char>
    decreases cats.len(),
{
    if cats.len() <= 1 {
        if cats.len() == 1 {
            category_key(cats[0])
        } else {
            Seq::empty()
        }
    } else {
        joined_keys(cats.drop_last()) + seq![' ', '|', ' '] + category_key(cats.last())
    }
}

proof fn lemma_key_facts(c: ElectiveCategory)
    ensures
        category_key(c).len() > 0,
        !is_white_space(category_key(c)[0]),
        !is_white_space(category_key(c).last()),
        forall|k: int| 0 <= k < category_key(c).len() ==> #[trigger] category_key(c)[k] != '|',
        category_of_code(category_key(c)) == Some(c),
{
    match c {
        ElectiveCategory::Other => {
            assert(category_of_code(category_key(c)) == Some(c));
        },
        ElectiveCategory::Informatics => {
            assert(category_key(c)[0] != seq!['Д'][0]);
            assert(category_of_code(category_key(c)) == Some(c));
        },
        ElectiveCategory::Practicum => {
            assert(category_of_code(category_key(c)) == Some(c));
        },
        ElectiveCategory::Maths => {
            assert(category_key(c)[0] != seq!['Д'][0]);
            assert(category_key(c)[0] != seq!['И'][0]);
            assert(category_of_code(category_key(c)) == Some(c));
        },
        ElectiveCategory::AppliedMaths => {
            assert(category_of_code(category_key(c)) == Some(c));
        },
        ElectiveCategory::CompSciFundamentals => {
            assert(category_of_code(category_key(c)) == Some(c));
        },
        ElectiveCategory::CompSciCore => {
            assert(category_of_code(category_key(c)) == Some(c));
        },
        ElectiveCategory::Statistics => {
            assert(category_of_code(category_key(c)) == Some(c));
        },
        ElectiveCategory::Seminar => {
            let k = category_key(c);
            assert(k[0] != seq!['Д'][0] && k[0] != seq!['И'][0] && k[0] != seq!['М'][0]);
            assert(k[0] != seq!['M'][0]);
            assert(k != seq!['Д'] && k != seq!['И'] && k != seq!['М'] && k != seq!['M']);
            assert(k.len() == 1);
            assert(k != seq!['Д', 'р', '.'] && k != seq!['Д', 'р', 'у', 'г', 'и'] && k != seq!['К', 'П']);
            assert(k != seq!['П', 'М'] && k != seq!['О', 'К', 'Н'] && k != seq!['O', 'K', 'Н']);
            assert(k != seq!['Я', 'К', 'Н'] && k != seq!['С', 'т'] && k != seq!['С', 'т', 'а', 'т']);
            assert(k == seq!['С']);
            assert(category_of_code(category_key(c)) == Some(c));
        },
        ElectiveCategory::Humanitarian => {
            assert(category_key(c)[0] != seq!['Д'][0]);
            assert(category_key(c)[0] != seq!['И'][0]);
            assert(category_key(c)[0] != seq!['М'][0]);
            assert(category_key(c)[0] != seq!['M'][0]);
            assert(category_key(c)[0] != seq!['С'][0]);
            assert(category_of_code(category_key(c)) == Some(c));
        },
    }
}

/// The piece of a joined key that holds the key of the `i`-th category: a space before it
/// but for the first, and a space after it but for the last.
pub open spec fn key_piece(cats: Seq<ElectiveCategory>, i: int) -> Seq<char> {
    (if i > 0 { seq![' '] } else { Seq::empty() }) + category_key(cats[i]) + (if i < cats.len() - 1 {
        seq![' ']
    } else {
        Seq::empty()
    })
}

proof fn lemma_joined_pieces(cats: Seq<ElectiveCategory>)
    requires
        cats.len() > 0,
    ensures
        split_seq(joined_keys(cats), seq!['|']).len() == cats.len(),
        forall|i: int|
            0 <= i < cats.len() ==> #[trigger] split_seq(joined_keys(cats), seq!['|'])[i] == key_piece(
                cats,
                i,
            ),
    decreases cats.len(),
{
    let bar = seq!['|'];
    let n = cats.len();
    if n == 1 {
        lemma_key_facts(cats[0]);
        let code = category_key(cats[0]);
        assert forall|k: int| 0 <= k < code.len() implies !bar.contains(#[trigger] code[k]) by {
            if bar.contains(code[k]) {
                assert(bar[0] == code[k]);
            }
        }
        lemma_split_append_plain(Seq::empty(), code, bar);
        assert(Seq::<char>::empty() + code =~= joined_keys(cats));
        assert(split_seq(Seq::<char>::empty(), bar) == seq![Seq::<char>::empty()]);
        assert(key_piece(cats, 0) =~= code);
    } else {
        let init = cats.drop_last();
        let last = cats.last();
        lemma_joined_pieces(init);
        lemma_key_facts(last);
        let code = category_key(last);
        let j0 = joined_keys(init);
        let space = seq![' '];
        let tail = seq![' '] + code;
        assert(!bar.contains(' ')) by {
            if bar.contains(' ') {
                assert(bar[0] == ' ');
            }
        }
        assert forall|k: int| 0 <= k < space.len() implies !bar.contains(#[trigger] space[k]) by {
            assert(space[k] == ' ');
        }
        assert forall|k: int| 0 <= k < tail.len() implies !bar.contains(#[trigger] tail[k]) by {
            if k > 0 {
                assert(tail[k] == code[k - 1]);
                if bar.contains(code[k - 1]) {
                    assert(bar[0] == code[k - 1]);
                }
            }
        }
        let p0 = split_seq(j0, bar);
        lemma_split_append_plain(j0, space, bar);
        let p1 = split_seq(j0 + space, bar);
        assert(bar.contains('|')) by {
            assert(bar[0] == '|');
        }
        lemma_split_push_separator(j0 + space, '|', bar);
        let p2 = split_seq((j0 + space).push('|'), bar);
        lemma_split_append_plain((j0 + space).push('|'), tail, bar);
        assert((j0 + space).push('|') + tail =~= joined_keys(cats));
        let p3 = split_seq(joined_keys(cats), bar);
        assert(p3.len() == n);
        assert forall|i: int| 0 <= i < n implies #[trigger] p3[i] == key_piece(cats, i) by {
            if i < n - 2 {
                assert(p3[i] == p0[i]);
                assert(init[i] == cats[i]);
                assert(key_piece(init, i) =~= key_piece(cats, i));
            } else if i == n - 2 {
                assert(p3[i] == p0[i] + space);
                assert(init[i] == cats[i]);
                assert(key_piece(init, i) + space =~= key_piece(cats, i));
            } else {
                assert(p3[i] == Seq::<char>::empty() + tail);
                assert(Seq::<char>::empty() + tail =~= key_piece(cats, i));
            }
        }
    }
}

proof fn lemma_trim_piece(cats: Seq<ElectiveCategory>, i: int)
    requires
        0 <= i < cats.len(),
    ensures
        trim_seq(key_piece(cats, i)) == category_key(cats[i]),
{
    lemma_key_facts(cats[i]);
    let code = category_key(cats[i]);
    let post: Seq<char> = if i < cats.len() - 1 { seq![' '] } else { Seq::empty() };
    let after_start = code + post;
    if i > 0 {
        let s = key_piece(cats, i);
        assert(s[0] == ' ');
        assert(s.drop_first() =~= after_start);
        assert(after_start[0] == code[0]);
        assert(trim_start_seq(after_start) == after_start);
        assert(trim_start_seq(s) == after_start);
    } else {
        assert(key_piece(cats, i) =~= after_start);
        assert(after_start[0] == code[0]);
    }
    if i < cats.len() - 1 {
        assert(after_start.last() == ' ');
        assert(after_start.drop_last() =~= code);
        assert(trim_end_seq(code) == code);
    } else {
        assert(after_start =~= code);
    }
}

proof fn lemma_all_recognized(pieces: Seq<Seq<char>>, i: int)
    requires
        0 <= i,
        forall|j: int| i <= j < pieces.len() ==> category_of_code(trim_seq(#[trigger] pieces[j])) is Some,
    ensures
        unrecognized_from(pieces, i) is None,
    decreases pieces.len() - i,
{
    if i < pieces.len() {
        lemma_all_recognized(pieces, i + 1);
    }
}

/// A requirement key that lists categories by their keys, joined with `" | "`, names
/// exactly those categories, in their order and with their repeats.
pub proof fn law_joined_keys_name_their_categories(cats: Seq<ElectiveCategory>)
    requires
        cats.len() > 0,
    ensures
        key_categories(joined_keys(cats)) == Some(cats),
{
    let bar = seq!['|'];
    let pieces = split_seq(joined_keys(cats), bar);
    lemma_joined_pieces(cats);
    assert forall|j: int| 0 <= j < pieces.len() implies category_of_code(trim_seq(#[trigger] pieces[j]))
        == Some(cats[j]) by {
        lemma_trim_piece(cats, j);
        lemma_key_facts(cats[j]);
    }
    lemma_all_recognized(pieces, 0);
    assert(categories_of(pieces) =~= cats);
    if joined_keys(cats) == seq!['_'] {
        assert(pieces[0] == key_piece(cats, 0));
        assert(category_of_code(trim_seq(pieces[0])) == Some(cats[0]));
        assert(split_seq(seq!['_'], bar) =~= seq![seq!['_']]) by {
            lemma_split_append_plain(Seq::empty(), seq!['_'], bar);
            assert(Seq::<char>::empty() + seq!['_'] =~= seq!['_']);
            assert(!bar.contains('_')) by {
                if bar.contains('_') {
                    assert(bar[0] == '_');
                }
            }
        }
        assert(trim_seq(seq!['_']) == seq!['_']);
        assert(category_of_code(seq!['_']) is None);
    }
}

} // verus!
