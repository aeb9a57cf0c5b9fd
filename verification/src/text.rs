//! Character-level text handling: whitespace, trimming, splitting and decimal numbers.

use vstd::prelude::*;
use crate::seq_facts::lemma_push_deep_view;

verus! {

/// `String::push`, which std documents as appending the character to the end of the
/// string: the contract claims that the characters afterwards are those before, followed
/// by `ch`.
pub assume_specification[ String::push ](string: &mut String, ch: char)
    ensures
        final(string)@ == old(string)@.push(ch),
;

/// The Unicode `White_Space` property, the set of characters that `char::is_whitespace`
/// and `str::trim` treat as whitespace.
pub open spec fn is_white_space(c: char) -> bool {
    let n = c as u32;
    ||| 0x09 <= n <= 0x0d
    ||| n == 0x20
    ||| n == 0x85
    ||| n == 0xa0
    ||| n == 0x1680
    ||| 0x2000 <= n <= 0x200a
    ||| n == 0x2028
    ||| n == 0x2029
    ||| n == 0x202f
    ||| n == 0x205f
    ||| n == 0x3000
}

/// Whether `c` is a whitespace character.
pub fn is_whitespace(c: char) -> (b: bool)
    ensures
        b == is_white_space(c),
{
    let n = c as u32;
    (0x09 <= n && n <= 0x0d) || n == 0x20 || n == 0x85 || n == 0xa0 || n == 0x1680 || (0x2000
        <= n && n <= 0x200a) || n == 0x2028 || n == 0x2029 || n == 0x202f || n == 0x205f || n
        == 0x3000
}

/// A vector of characters looks the same deeply and shallowly.
pub broadcast proof fn lemma_chars_deep_view(v: Vec<char>)
    ensures
        #[trigger] v.deep_view() == v@,
{
    assert(v.deep_view() =~= v@);
}

/// The characters of a string slice, in order.
pub fn chars_of(s: &str) -> (v: Vec<char>)
    ensures
        v@ == s@,
{
    let mut v: Vec<char> = Vec::new();
    for c in it: s.chars()
        invariant
            v@ == it.seq().take(it.index() as int),
    {
        v.push(c);
    }
    v
}

/// The string made of the given characters.
pub fn string_of(v: &Vec<char>) -> (s: String)
    ensures
        s@ == v@,
{
    let mut s = String::new();
    let mut i: usize = 0;
    while i < v.len()
        invariant
            i <= v.len(),
            s@ == v@.take(i as int),
        decreases v.len() - i,
    {
        s.push(v[i]);
        i += 1;
        assert(v@.take(i as int) == v@.take(i - 1).push(v@[i - 1]));
    }
    assert(v@.take(v.len() as int) == v@);
    s
}

/// `s` without its leading whitespace.
pub open spec fn trim_start_seq(s: Seq<char>) -> Seq<char>
    decreases s.len(),
{
    if s.len() > 0 && is_white_space(s[0]) {
        trim_start_seq(s.drop_first())
    } else {
        s
    }
}

/// `s` without its trailing whitespace.
pub open spec fn trim_end_seq(s: Seq<char>) -> Seq<char>
    decreases s.len(),
{
    if s.len() > 0 && is_white_space(s.last()) {
        trim_end_seq(s.drop_last())
    } else {
        s
    }
}

/// `s` without leading and trailing whitespace, as `str::trim` gives it.
pub open spec fn trim_seq(s: Seq<char>) -> Seq<char> {
    trim_end_seq(trim_start_seq(s))
}

proof fn lemma_trim_start_shape(s: Seq<char>)
    ensures
        trim_start_seq(s).len() > 0 ==> !is_white_space(trim_start_seq(s)[0]),
        (forall|k: int| 0 <= k < s.len() ==> is_white_space(#[trigger] s[k])) ==> trim_start_seq(s).len()
            == 0,
    decreases s.len(),
{
    if s.len() > 0 && is_white_space(s[0]) {
        let t = s.drop_first();
        lemma_trim_start_shape(t);
        if forall|k: int| 0 <= k < s.len() ==> is_white_space(#[trigger] s[k]) {
            assert forall|k: int| 0 <= k < t.len() implies is_white_space(#[trigger] t[k]) by {
                assert(t[k] == s[k + 1]);
            }
        }
    } else if s.len() > 0 {
        assert(!is_white_space(s[0]));
    }
}

proof fn lemma_trim_end_shape(s: Seq<char>)
    ensures
        trim_end_seq(s).len() <= s.len(),
        trim_end_seq(s) == s.take(trim_end_seq(s).len() as int),
        trim_end_seq(s).len() > 0 ==> !is_white_space(trim_end_seq(s).last()),
    decreases s.len(),
{
    if s.len() > 0 && is_white_space(s.last()) {
        let t = s.drop_last();
        lemma_trim_end_shape(t);
        let n = trim_end_seq(t).len() as int;
        assert(t.take(n) =~= s.take(n));
    } else {
        assert(s.take(s.len() as int) =~= s);
    }
}

proof fn lemma_trim_start_keeps(s: Seq<char>)
    requires
        s.len() == 0 || !is_white_space(s[0]),
    ensures
        trim_start_seq(s) == s,
{
}

proof fn lemma_trim_end_keeps(s: Seq<char>)
    requires
        s.len() == 0 || !is_white_space(s.last()),
    ensures
        trim_end_seq(s) == s,
{
}

/// Trimming twice trims no more than trimming once, and text made only of whitespace trims
/// to nothing.
pub proof fn lemma_trim_idempotent(s: Seq<char>)
    ensures
        trim_seq(trim_seq(s)) == trim_seq(s),
        (forall|k: int| 0 <= k < s.len() ==> is_white_space(#[trigger] s[k])) ==> trim_seq(s).len() == 0,
{
    let a = trim_start_seq(s);
    lemma_trim_start_shape(s);
    lemma_trim_end_shape(a);
    let t = trim_end_seq(a);
    if t.len() > 0 {
        assert(t[0] == a[0]);
    }
    lemma_trim_start_keeps(t);
    lemma_trim_end_keeps(t);
}

proof fn lemma_trim_start_skip(s: Seq<char>, i: int)
    requires
        0 <= i <= s.len(),
        forall|k: int| 0 <= k < i ==> is_white_space(#[trigger] s[k]),
        i == s.len() || !is_white_space(s[i]),
    ensures
        trim_start_seq(s) == s.skip(i),
    decreases i,
{
    if i == 0 {
        assert(s.skip(0) == s);
    } else {
        let t = s.drop_first();
        assert forall|k: int| 0 <= k < i - 1 implies is_white_space(#[trigger] t[k]) by {
            assert(t[k] == s[k + 1]);
        }
        if i - 1 < t.len() {
            assert(t[i - 1] == s[i]);
        }
        lemma_trim_start_skip(t, i - 1);
        assert(t.skip(i - 1) == s.skip(i));
    }
}

proof fn lemma_trim_end_take(s: Seq<char>, j: int)
    requires
        0 <= j <= s.len(),
        forall|k: int| j <= k < s.len() ==> is_white_space(#[trigger] s[k]),
        j == 0 || !is_white_space(s[j - 1]),
    ensures
        trim_end_seq(s) == s.take(j),
    decreases s.len() - j,
{
    if j == s.len() {
        assert(s.take(j) == s);
    } else {
        let t = s.drop_last();
        assert forall|k: int| j <= k < t.len() implies is_white_space(#[trigger] t[k]) by {
            assert(t[k] == s[k]);
        }
        if j > 0 {
            assert(t[j - 1] == s[j - 1]);
        }
        lemma_trim_end_take(t, j);
        assert(t.take(j) == s.take(j));
    }
}

/// The characters of `v` without leading and trailing whitespace.
pub fn trim_chars(v: &Vec<char>) -> (r: Vec<char>)
    ensures
        r@ == trim_seq(v@),
{
    let mut i: usize = 0;
    while i < v.len() && is_whitespace(v[i])
        invariant
            i <= v.len(),
            forall|k: int| 0 <= k < i ==> is_white_space(#[trigger] v@[k]),
        decreases v.len() - i,
    {
        i += 1;
    }
    proof {
        lemma_trim_start_skip(v@, i as int);
    }
    let ghost t = v@.skip(i as int);
    let mut j: usize = v.len();
    while j > i && is_whitespace(v[j - 1])
        invariant
            i <= j <= v.len(),
            forall|k: int| j <= k < v.len() ==> is_white_space(#[trigger] v@[k]),
        decreases j,
    {
        j -= 1;
    }
    proof {
        assert forall|k: int| j - i <= k < t.len() implies is_white_space(#[trigger] t[k]) by {
            assert(t[k] == v@[k + i]);
        }
        if j > i {
            assert(t[j - i - 1] == v@[j - 1]);
        }
        lemma_trim_end_take(t, j - i);
    }
    let mut r: Vec<char> = Vec::new();
    let mut k: usize = i;
    while k < j
        invariant
            i <= k <= j <= v.len(),
            r@ == v@.subrange(i as int, k as int),
        decreases j - k,
    {
        r.push(v[k]);
        k += 1;
    }
    assert(r@ == t.take(j - i));
    r
}

/// `s` without leading and trailing whitespace, as a new string.
pub fn trim(s: &str) -> (r: String)
    ensures
        r@ == trim_seq(s@),
{
    let v = chars_of(s);
    let t = trim_chars(&v);
    string_of(&t)
}

/// Whether the characters of `a` are exactly those of `b`.
pub fn chars_eq(a: &Vec<char>, b: &[char]) -> (r: bool)
    ensures
        r == (a@ == b@),
{
    if a.len() != b.len() {
        return false;
    }
    let mut i: usize = 0;
    while i < a.len()
        invariant
            a.len() == b@.len(),
            i <= a.len(),
            forall|k: int| 0 <= k < i ==> a@[k] == b@[k],
        decreases a.len() - i,
    {
        if a[i] != b[i] {
            return false;
        }
        i += 1;
    }
    assert(a@ == b@);
    true
}

/// The pieces of `s` between the separators (the characters in `seps`), as `str::split`
/// gives them: one more piece than there are separators, empty pieces included.
pub open spec fn split_seq(s: Seq<char>, seps: Seq<char>) -> Seq<Seq<char>>
    decreases s.len(),
{
    if s.len() == 0 {
        seq![Seq::empty()]
    } else {
        let init = split_seq(s.drop_last(), seps);
        if seps.contains(s.last()) {
            init.push(Seq::empty())
        } else {
            init.update(init.len() - 1, init.last().push(s.last()))
        }
    }
}

/// Splitting always gives at least one piece.
pub proof fn lemma_split_nonempty(s: Seq<char>, seps: Seq<char>)
    ensures
        split_seq(s, seps).len() >= 1,
    decreases s.len(),
{
    if s.len() > 0 {
        lemma_split_nonempty(s.drop_last(), seps);
    }
}

/// Text without separators, appended to `a`, extends the last piece of `a`.
pub proof fn lemma_split_append_plain(a: Seq<char>, b: Seq<char>, seps: Seq<char>)
    requires
        forall|k: int| 0 <= k < b.len() ==> !seps.contains(#[trigger] b[k]),
    ensures
        split_seq(a + b, seps) == split_seq(a, seps).update(
            split_seq(a, seps).len() - 1,
            split_seq(a, seps).last() + b,
        ),
    decreases b.len(),
{
    lemma_split_nonempty(a, seps);
    let p = split_seq(a, seps);
    if b.len() == 0 {
        assert(a + b =~= a);
        assert(p.update(p.len() - 1, p.last() + b) =~= p);
    } else {
        let init = b.drop_last();
        lemma_split_append_plain(a, init, seps);
        assert((a + b).drop_last() =~= a + init);
        assert((a + b).last() == b.last());
        assert(!seps.contains(b[b.len() - 1]));
        assert((p.last() + init).push(b.last()) =~= p.last() + b);
        assert(split_seq(a + b, seps) =~= p.update(p.len() - 1, p.last() + b));
    }
}

/// A separator appended to `a` opens a new, empty piece.
pub proof fn lemma_split_push_separator(a: Seq<char>, c: char, seps: Seq<char>)
    requires
        seps.contains(c),
    ensures
        split_seq(a.push(c), seps) == split_seq(a, seps).push(Seq::empty()),
{
    assert(a.push(c).drop_last() =~= a);
}

/// Whether `c` is one of `seps`.
fn is_separator(c: char, seps: &[char]) -> (b: bool)
    ensures
        b == seps@.contains(c),
{
    let mut i: usize = 0;
    while i < seps.len()
        invariant
            i <= seps@.len(),
            forall|k: int| 0 <= k < i ==> seps@[k] != c,
        decreases seps.len() - i,
    {
        if seps[i] == c {
            return true;
        }
        i += 1;
    }
    false
}

/// The pieces of `v` between the separators `seps`.
pub fn split_chars(v: &Vec<char>, seps: &[char]) -> (r: Vec<Vec<char>>)
    ensures
        r.deep_view() == split_seq(v@, seps@),
{
    broadcast use lemma_chars_deep_view;

    let mut done: Vec<Vec<char>> = Vec::new();
    let mut cur: Vec<char> = Vec::new();
    let mut i: usize = 0;
    assert(v@.take(0) =~= Seq::<char>::empty());
    assert(done.deep_view().push(cur@) =~= split_seq(v@.take(0), seps@));
    while i < v.len()
        invariant
            i <= v.len(),
            split_seq(v@.take(i as int), seps@) == done.deep_view().push(cur@),
        decreases v.len() - i,
    {
        let c = v[i];
        assert(v@.take(i + 1).drop_last() =~= v@.take(i as int));
        assert(v@.take(i + 1).last() == c);
        if is_separator(c, seps) {
            let ghost piece = cur@;
            let ghost before = done;
            done.push(cur);
            cur = Vec::new();
            proof {
                lemma_push_deep_view(before, done, done@.last());
                assert(done@.last().deep_view() == piece);
                assert(cur@ =~= Seq::<char>::empty());
            }
        } else {
            let ghost before = cur;
            cur.push(c);
            assert(done.deep_view().push(cur@) =~= done.deep_view().push(before@).update(
                done.deep_view().len() as int,
                before@.push(c),
            ));
        }
        i += 1;
    }
    let ghost before = done;
    done.push(cur);
    proof {
        lemma_push_deep_view(before, done, done@.last());
    }
    assert(v@.take(v.len() as int) =~= v@);
    done
}

/// Whether `c` is an ASCII decimal digit.
pub open spec fn is_digit(c: char) -> bool {
    '0' <= c && c <= '9'
}

/// Whether every character of `s` is an ASCII decimal digit.
pub open spec fn all_digits(s: Seq<char>) -> bool {
    forall|i: int| 0 <= i < s.len() ==> is_digit(#[trigger] s[i])
}

/// The number that the decimal digits `s` spell.
pub open spec fn decimal_value(s: Seq<char>) -> nat
    decreases s.len(),
{
    if s.len() == 0 {
        0
    } else {
        decimal_value(s.drop_last()) * 10 + (s.last() as nat - '0' as nat) as nat
    }
}

/// `s` without one leading `'+'`.
pub open spec fn without_plus(s: Seq<char>) -> Seq<char> {
    if s.len() > 0 && s[0] == '+' {
        s.drop_first()
    } else {
        s
    }
}

/// What parsing `s` as an unsigned integer no larger than `max` gives, as the `FromStr`
/// of Rust's unsigned integer types does it: an optional `'+'`, then at least one decimal
/// digit and nothing else, and a value that fits.
pub open spec fn parse_unsigned(s: Seq<char>, max: nat) -> Option<nat> {
    let d = without_plus(s);
    if d.len() > 0 && all_digits(d) && decimal_value(d) <= max {
        Some(decimal_value(d))
    } else {
        None
    }
}

proof fn lemma_decimal_prefix(d: Seq<char>, k: int)
    requires
        all_digits(d),
        0 <= k <= d.len(),
    ensures
        decimal_value(d.take(k)) <= decimal_value(d),
    decreases d.len(),
{
    if k < d.len() {
        let init = d.drop_last();
        assert(init.take(k) =~= d.take(k));
        assert(all_digits(init)) by {
            assert forall|i: int| 0 <= i < init.len() implies is_digit(#[trigger] init[i]) by {
                assert(init[i] == d[i]);
            }
        }
        lemma_decimal_prefix(init, k);
    } else {
        assert(d.take(k) =~= d);
    }
}

/// The unsigned integer that `v` spells, if it spells one no larger than `max`.
pub fn parse_unsigned_chars(v: &Vec<char>, max: u64) -> (r: Option<u64>)
    requires
        max <= u32::MAX,
    ensures
        match parse_unsigned(v@, max as nat) {
            Some(n) => r == Some(n as u64),
            None => r is None,
        },
{
    let start: usize = if v.len() > 0 && v[0] == '+' { 1 } else { 0 };
    let ghost d = without_plus(v@);
    assert(d =~= v@.skip(start as int));
    if start == v.len() {
        return None;
    }
    let mut value: u64 = 0;
    let mut i: usize = start;
    assert(d.take(0) =~= Seq::<char>::empty());
    while i < v.len()
        invariant
            start <= i <= v.len(),
            start < v.len(),
            d == v@.skip(start as int),
            d == without_plus(v@),
            max <= u32::MAX,
            value <= max,
            value == decimal_value(d.take(i - start)),
            all_digits(d.take(i - start)),
        decreases v.len() - i,
    {
        let c = v[i];
        assert(d[i - start] == c);
        if !('0' <= c && c <= '9') {
            assert(!is_digit(c));
            assert(!all_digits(d)) by {
                assert(!is_digit(d[i - start]));
            }
            return None;
        }
        let digit = (c as u32 - '0' as u32) as u64;
        assert(d.take(i - start + 1).drop_last() =~= d.take(i - start));
        assert(d.take(i - start + 1).last() == c);
        assert(all_digits(d.take(i - start + 1)));
        let next = value * 10 + digit;
        assert(decimal_value(d.take(i - start + 1)) == next);
        i += 1;
        if next > max {
            proof {
                if all_digits(d) {
                    lemma_decimal_prefix(d, i - start);
                }
            }
            return None;
        }
        value = next;
    }
    assert(d.take(v.len() - start) =~= d);
    Some(value)
}

/// The unsigned integer below 256 that `s` spells, as `u8::from_str` parses it.
pub fn parse_u8(s: &str) -> (r: Option<u8>)
    ensures
        match parse_unsigned(s@, 255) {
            Some(n) => r == Some(n as u8),
            None => r is None,
        },
{
    let v = chars_of(s);
    match parse_unsigned_chars(&v, 255) {
        Some(n) => Some(n as u8),
        None => None,
    }
}

/// The unsigned integer below 65536 that `s` spells, as `u16::from_str` parses it.
pub fn parse_u16(s: &str) -> (r: Option<u16>)
    ensures
        match parse_unsigned(s@, 65535) {
            Some(n) => r == Some(n as u16),
            None => r is None,
        },
{
    let v = chars_of(s);
    match parse_unsigned_chars(&v, 65535) {
        Some(n) => Some(n as u16),
        None => None,
    }
}

/// Whether `c` is the lower-case ASCII letter `lower`, in either case.
pub open spec fn same_letter(c: char, lower: char) -> bool {
    c == lower || c as u32 + 32 == lower as u32
}

/// Whether `s` is the lower-case word `w` in any mix of cases.
pub open spec fn matches_word(s: Seq<char>, w: Seq<char>) -> bool {
    s.len() == w.len() && forall|i: int| 0 <= i < s.len() ==> same_letter(#[trigger] s[i], w[i])
}

/// `s` without one leading sign.
pub open spec fn without_sign(s: Seq<char>) -> Seq<char> {
    if s.len() > 0 && (s[0] == '+' || s[0] == '-') {
        s.drop_first()
    } else {
        s
    }
}

/// Whether `c` marks an exponent.
pub open spec fn is_exponent_mark(c: char) -> bool {
    c == 'e' || c == 'E'
}

/// Digits with at most one decimal point, and at least one digit.
pub open spec fn mantissa_ok(m: Seq<char>) -> bool {
    &&& forall|i: int| 0 <= i < m.len() ==> is_digit(#[trigger] m[i]) || m[i] == '.'
    &&& forall|i: int, j: int| 0 <= i < j < m.len() ==> !(#[trigger] m[i] == '.' && #[trigger] m[j] == '.')
    &&& exists|i: int| 0 <= i < m.len() && is_digit(#[trigger] m[i])
}

/// An optional sign followed by at least one digit.
pub open spec fn exponent_ok(x: Seq<char>) -> bool {
    let d = without_sign(x);
    d.len() > 0 && all_digits(d)
}

/// A decimal number with an optional exponent.
pub open spec fn number_ok(s: Seq<char>) -> bool {
    ||| (forall|i: int| 0 <= i < s.len() ==> !is_exponent_mark(#[trigger] s[i])) && mantissa_ok(s)
    ||| exists|k: int|
        0 <= k < s.len() && is_exponent_mark(#[trigger] s[k]) && (forall|j: int|
            0 <= j < k ==> !is_exponent_mark(#[trigger] s[j])) && mantissa_ok(s.take(k))
            && exponent_ok(s.skip(k + 1))
}

/// Whether `s` is text that `f32::from_str` accepts, by the grammar of its documentation:
/// an optional sign, then `inf`, `infinity`, `nan` (in any case) or a decimal number made of
/// digits with at most one decimal point and at least one digit, optionally followed by
/// `e` or `E`, an optional sign and at least one digit.
pub open spec fn float_text_ok(s: Seq<char>) -> bool {
    let b = without_sign(s);
    ||| matches_word(b, seq!['i', 'n', 'f'])
    ||| matches_word(b, seq!['i', 'n', 'f', 'i', 'n', 'i', 't', 'y'])
    ||| matches_word(b, seq!['n', 'a', 'n'])
    ||| number_ok(b)
}

/// Whether the characters of `v` from `a` on are the lower-case word `w` in any case.
fn word_at(v: &Vec<char>, a: usize, w: &[char]) -> (r: bool)
    requires
        a <= v.len(),
    ensures
        r == matches_word(v@.skip(a as int), w@),
{
    if v.len() - a != w.len() {
        return false;
    }
    let mut i: usize = 0;
    while i < w.len()
        invariant
            a <= v.len(),
            v.len() - a == w@.len(),
            i <= w.len(),
            forall|k: int| 0 <= k < i ==> same_letter(#[trigger] v@.skip(a as int)[k], w@[k]),
        decreases w.len() - i,
    {
        let c = v[a + i];
        assert(v@.skip(a as int)[i as int] == c);
        if !(c == w[i] || (w[i] as u32 >= 32 && c as u32 == w[i] as u32 - 32)) {
            return false;
        }
        i += 1;
    }
    true
}

/// Whether the characters of `v` in `[a, b)` are a mantissa.
fn mantissa_in(v: &Vec<char>, a: usize, b: usize) -> (r: bool)
    requires
        a <= b <= v.len(),
    ensures
        r == mantissa_ok(v@.subrange(a as int, b as int)),
{
    let ghost m = v@.subrange(a as int, b as int);
    let mut seen_dot = false;
    let mut seen_digit = false;
    let mut i: usize = a;
    while i < b
        invariant
            a <= i <= b <= v.len(),
            m == v@.subrange(a as int, b as int),
            forall|k: int| 0 <= k < i - a ==> is_digit(#[trigger] m[k]) || m[k] == '.',
            forall|k: int, l: int| 0 <= k < l < i - a ==> !(#[trigger] m[k] == '.' && #[trigger] m[l] == '.'),
            seen_dot == exists|k: int| 0 <= k < i - a && #[trigger] m[k] == '.',
            seen_digit == exists|k: int| 0 <= k < i - a && is_digit(#[trigger] m[k]),
        decreases b - i,
    {
        let c = v[i];
        assert(m[i - a] == c);
        if c == '.' {
            if seen_dot {
                let ghost k = choose|k: int| 0 <= k < i - a && #[trigger] m[k] == '.';
                assert(m[k] == '.' && m[i - a] == '.');
                return false;
            }
            seen_dot = true;
        } else if '0' <= c && c <= '9' {
            seen_digit = true;
        } else {
            assert(!(is_digit(m[i - a]) || m[i - a] == '.'));
            return false;
        }
        i += 1;
    }
    seen_digit
}

/// Whether the characters of `v` in `[a, b)` are an exponent.
fn exponent_in(v: &Vec<char>, a: usize, b: usize) -> (r: bool)
    requires
        a <= b <= v.len(),
    ensures
        r == exponent_ok(v@.subrange(a as int, b as int)),
{
    let ghost x = v@.subrange(a as int, b as int);
    let start = if a < b && (v[a] == '+' || v[a] == '-') { a + 1 } else { a };
    assert(without_sign(x) =~= v@.subrange(start as int, b as int));
    if start == b {
        return false;
    }
    let mut i: usize = start;
    while i < b
        invariant
            start <= i <= b <= v.len(),
            x == v@.subrange(a as int, b as int),
            without_sign(x) == v@.subrange(start as int, b as int),
            forall|k: int| start <= k < i ==> is_digit(#[trigger] v@[k]),
        decreases b - i,
    {
        if !('0' <= v[i] && v[i] <= '9') {
            assert(!is_digit(v@.subrange(start as int, b as int)[i - start]));
            return false;
        }
        i += 1;
    }
    assert(all_digits(v@.subrange(start as int, b as int))) by {
        assert forall|k: int| 0 <= k < b - start implies is_digit(
            #[trigger] v@.subrange(start as int, b as int)[k],
        ) by {
            assert(v@.subrange(start as int, b as int)[k] == v@[start + k]);
        }
    }
    true
}

/// Whether `s` is text that `f32::from_str` accepts.
pub fn is_float_text(s: &str) -> (r: bool)
    ensures
        r == float_text_ok(s@),
{
    let v = chars_of(s);
    let start: usize = if v.len() > 0 && (v[0] == '+' || v[0] == '-') { 1 } else { 0 };
    let ghost b = without_sign(v@);
    assert(b =~= v@.skip(start as int));
    let inf: &[char] = &['i', 'n', 'f'];
    let infinity: &[char] = &['i', 'n', 'f', 'i', 'n', 'i', 't', 'y'];
    let nan: &[char] = &['n', 'a', 'n'];
    assert(inf@ == seq!['i', 'n', 'f']);
    assert(infinity@ == seq!['i', 'n', 'f', 'i', 'n', 'i', 't', 'y']);
    assert(nan@ == seq!['n', 'a', 'n']);
    if word_at(&v, start, inf) || word_at(&v, start, infinity) || word_at(&v, start, nan) {
        return true;
    }
    let mut k: usize = start;
    while k < v.len() && !(v[k] == 'e' || v[k] == 'E')
        invariant
            start <= k <= v.len(),
            forall|j: int| start <= j < k ==> !is_exponent_mark(#[trigger] v@[j]),
        decreases v.len() - k,
    {
        k += 1;
    }
    let n = v.len();
    if k == n {
        let r = mantissa_in(&v, start, n);
        assert(v@.subrange(start as int, n as int) =~= b);
        assert forall|i: int| 0 <= i < b.len() implies !is_exponent_mark(#[trigger] b[i]) by {
            assert(b[i] == v@[start + i]);
        }
        r
    } else {
        let r = mantissa_in(&v, start, k) && exponent_in(&v, k + 1, n);
        let ghost kk = k - start;
        assert(v@.subrange(start as int, k as int) =~= b.take(kk));
        assert(v@.subrange(k + 1, n as int) =~= b.skip(kk + 1));
        assert(b[kk] == v@[k as int]);
        assert forall|j: int| 0 <= j < kk implies !is_exponent_mark(#[trigger] b[j]) by {
            assert(b[j] == v@[start + j]);
        }
        if r {
            assert(is_exponent_mark(b[kk]));
        } else {
            assert forall|k2: int|
                0 <= k2 < b.len() && is_exponent_mark(#[trigger] b[k2]) && (forall|j: int|
                    0 <= j < k2 ==> !is_exponent_mark(#[trigger] b[j])) implies !(mantissa_ok(
                b.take(k2),
            ) && exponent_ok(b.skip(k2 + 1))) by {
                if k2 < kk {
                    assert(b[k2] == v@[start + k2]);
                } else if k2 > kk {
                    assert(!is_exponent_mark(b[kk]));
                }
            }
        }
        r
    }
}

/// `v` with every `from` replaced by `to`.
pub fn replace_char(v: &Vec<char>, from: char, to: char) -> (r: Vec<char>)
    ensures
        r@.len() == v@.len(),
        forall|i: int| 0 <= i < v@.len() ==> #[trigger] r@[i] == (if v@[i] == from {
            to
        } else {
            v@[i]
        }),
{
    let mut r: Vec<char> = Vec::new();
    let mut i: usize = 0;
    while i < v.len()
        invariant
            i <= v.len(),
            r@.len() == i,
            forall|k: int| 0 <= k < i ==> #[trigger] r@[k] == (if v@[k] == from {
                to
            } else {
                v@[k]
            }),
        decreases v.len() - i,
    {
        if v[i] == from {
            r.push(to);
        } else {
            r.push(v[i]);
        }
        i += 1;
    }
    r
}

} // verus!
