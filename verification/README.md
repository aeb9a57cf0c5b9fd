# susi

An assistant for students of the Faculty of Mathematics and Informatics (FMI) at Sofia
University: it reads the student's grade report from SUSI, finds the categories of the
passed electives in FMI's archive of elective campaigns, and distributes the passed
electives over the elective requirements of the student's specialty so that as few
courses as possible are left over.

The library is written in Verus: every function in `src/` carries a contract that Verus
proves, and the calls into `regex`, `scraper` and `serde_json` go through the few trusted
functions in `src/outside.rs`.

## Layout

- `src/text.rs`: whitespace, trimming, splitting and number syntax, as `str` and the
  `FromStr` impls of std define them.
- `src/category.rs`: the elective categories and their codes.
- `src/fmi_elective.rs`: rows and pages of FMI's electives tables.
- `src/susi_course.rs`: rows and pages of SUSI's grade report.
- `src/susi_fetch.rs`: the steps of logging in to SUSI and asking for the report.
- `src/config.rs`, `src/common.rs`: the two configuration files.
- `src/pairing.rs`: the order in which passed electives are handed to the arranger.
- `src/course_arranger.rs`: the search for distributions of courses over requirements.
- `src/report.rs`: the text of the report printed about the chosen distribution.
- `src/arrangement_laws.rs`: what every distribution found satisfies, and that the best
  one found is optimal.
- `app/main.rs`: the program: network requests, files, fuzzy matching of course names and
  printing the report. `app/main.rs kategorii` lists the archive's electives.
- `tests/`: tests of the library on concrete values.

## Configuration

`elective_categories_requirements.json` maps category keys to the number of courses that
the specialty requires in them:

```json
{
  "КП": 2,
  "М | ПМ": 2,
  "ОКН | ЯКН": 3,
  "_": 1
}
```

A key lists category codes separated by `|`; `_` stands for every category.
`elective_archive_urls.json` maps years and semesters (`Winter`, `Summer`) to the pages of
FMI's elective campaigns. The user name and password for SUSI are read from `.env`
(`SUSI_USERNAME`, `SUSI_PASSWORD`).
