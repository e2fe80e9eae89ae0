//! Characters and character sequences.
//!
//! Every text in the library is modelled by the sequence of its characters
//! (`Seq<char>`, the view of `str` and `String`). The spec functions below are
//! the vocabulary in which the other modules state what they do to texts.

use vstd::prelude::*;
use vstd::string::*;
use vstd::utf8::*;

verus! {

/// `String::push` appends the given character to the end of the string.
pub assume_specification[ String::push ](s: &mut String, c: char)
    ensures
        final(s)@ == old(s)@.push(c),
;

/// An ASCII capital letter.
pub open spec fn is_upper(c: char) -> bool {
    'A' <= c <= 'Z'
}

/// An ASCII small letter.
pub open spec fn is_lower(c: char) -> bool {
    'a' <= c <= 'z'
}

/// An ASCII decimal digit.
pub open spec fn is_digit(c: char) -> bool {
    '0' <= c <= '9'
}

/// An ASCII letter or digit.
pub open spec fn is_alnum(c: char) -> bool {
    is_upper(c) || is_lower(c) || is_digit(c)
}

/// The small letter of an ASCII capital letter; any other character itself.
pub open spec fn lower_char(c: char) -> char {
    if is_upper(c) {
        (c as u8 + 32) as u8 as char
    } else {
        c
    }
}

/// The text with each ASCII capital letter made small.
pub open spec fn lower(s: Seq<char>) -> Seq<char> {
    s.map_values(|c: char| lower_char(c))
}

/// The characters with the Unicode property White_Space.
pub open spec fn is_space(c: char) -> bool {
    ||| '\u{9}' <= c <= '\u{d}'
    ||| c == ' '
    ||| c == '\u{85}'
    ||| c == '\u{a0}'
    ||| c == '\u{1680}'
    ||| '\u{2000}' <= c <= '\u{200a}'
    ||| c == '\u{2028}'
    ||| c == '\u{2029}'
    ||| c == '\u{202f}'
    ||| c == '\u{205f}'
    ||| c == '\u{3000}'
}

/// Whether `pat` stands in `s` at position `i`.
pub open spec fn occurs_at(s: Seq<char>, pat: Seq<char>, i: int) -> bool {
    0 <= i && i + pat.len() <= s.len() && s.subrange(i, i + pat.len()) == pat
}

/// The first position at or after `from` at which `pat` stands in `s`.
pub open spec fn find_from(s: Seq<char>, pat: Seq<char>, from: int) -> Option<int>
    decreases s.len() + 1 - from,
{
    if from < 0 || from + pat.len() > s.len() {
        None
    } else if occurs_at(s, pat, from) {
        Some(from)
    } else {
        find_from(s, pat, from + 1)
    }
}

/// The first position at which `pat` stands in `s`.
pub open spec fn find(s: Seq<char>, pat: Seq<char>) -> Option<int> {
    find_from(s, pat, 0)
}

/// Whether `pat` stands anywhere in `s`.
pub open spec fn has_text(s: Seq<char>, pat: Seq<char>) -> bool {
    exists|i: int| occurs_at(s, pat, i)
}

/// The text without leading white space.
pub open spec fn trim_start(s: Seq<char>) -> Seq<char>
    decreases s.len(),
{
    if s.len() > 0 && is_space(s[0]) {
        trim_start(s.drop_first())
    } else {
        s
    }
}

/// The text without trailing white space.
pub open spec fn trim_end(s: Seq<char>) -> Seq<char>
    decreases s.len(),
{
    if s.len() > 0 && is_space(s.last()) {
        trim_end(s.drop_last())
    } else {
        s
    }
}

/// The text without leading and trailing white space.
pub open spec fn trim(s: Seq<char>) -> Seq<char> {
    trim_end(trim_start(s))
}

/// The pieces of `s` between the occurrences of the character `sep`: always
/// one more than there are occurrences.
pub open spec fn split_char(s: Seq<char>, sep: char) -> Seq<Seq<char>>
    decreases s.len(),
{
    if s.len() == 0 {
        seq![Seq::empty()]
    } else {
        let rest = split_char(s.drop_last(), sep);
        if s.last() == sep {
            rest.push(Seq::empty())
        } else {
            rest.drop_last().push(rest.last().push(s.last()))
        }
    }
}

/// The parts one after the other with `sep` between each two.
pub open spec fn join(parts: Seq<Seq<char>>, sep: Seq<char>) -> Seq<char>
    decreases parts.len(),
{
    if parts.len() == 0 {
        Seq::empty()
    } else if parts.len() == 1 {
        parts[0]
    } else {
        join(parts.drop_last(), sep) + sep + parts.last()
    }
}

/// The views of a sequence of strings.
pub open spec fn views(v: Seq<String>) -> Seq<Seq<char>> {
    v.map_values(|s: String| s@)
}

/// The decimal digit for a number below ten.
pub open spec fn digit_char(d: nat) -> char {
    (('0' as u8) + d) as u8 as char
}

/// The decimal notation of `n`.
pub open spec fn decimal(n: nat) -> Seq<char>
    decreases n,
{
    if n < 10 {
        seq![digit_char(n)]
    } else {
        decimal(n / 10).push(digit_char(n % 10))
    }
}

/// The lexicographic order of texts by character value.
pub open spec fn text_less(a: Seq<char>, b: Seq<char>) -> bool
    decreases a.len(),
{
    if b.len() == 0 {
        false
    } else if a.len() == 0 {
        true
    } else if a[0] != b[0] {
        a[0] < b[0]
    } else {
        text_less(a.drop_first(), b.drop_first())
    }
}

/// Two texts with the same UTF-8 encoding are the same text.
pub proof fn lemma_same_bytes(a: Seq<char>, b: Seq<char>)
    requires
        encode_utf8(a) == encode_utf8(b),
    ensures
        a == b,
{
    encode_utf8_decode_utf8(a);
    encode_utf8_decode_utf8(b);
}

/// Whether two texts are the same.
pub fn same(a: &str, b: &str) -> (r: bool)
    ensures
        r == (a@ == b@),
{
    let x = a.as_bytes();
    let y = b.as_bytes();
    if x.len() != y.len() {
        return false;
    }
    let mut i: usize = 0;
    while i < x.len()
        invariant
            i <= x.len(),
            x.len() == y.len(),
            x@ == encode_utf8(a@),
            y@ == encode_utf8(b@),
            forall|k: int| 0 <= k < i ==> x@[k] == y@[k],
        decreases x.len() - i,
    {
        if x[i] != y[i] {
            return false;
        }
        i += 1;
    }
    proof {
        assert(x@ =~= y@);
        lemma_same_bytes(a@, b@);
    }
    true
}

/// The characters of a text.
pub fn chars_of(s: &str) -> (v: Vec<char>)
    ensures
        v@ == s@,
{
    let mut v: Vec<char> = Vec::new();
    for c in it: s.chars()
        invariant
            it.seq() == s@,
            v@ == s@.take(it.index()),
    {
        v.push(c);
    }
    v
}

/// The text made of the given characters.
pub fn string_of(v: &[char]) -> (s: String)
    ensures
        s@ == v@,
{
    let mut s = String::new();
    let mut i: usize = 0;
    while i < v.len()
        invariant
            i <= v.len(),
            s@ == v@.take(i as int),
        decreases v.len() - i,
    {
        s.push(v[i]);
        i += 1;
    }
    s
}

/// The part of a text from character `from` up to character `to`.
pub fn slice(v: &[char], from: usize, to: usize) -> (s: String)
    requires
        from <= to <= v.len(),
    ensures
        s@ == v@.subrange(from as int, to as int),
{
    let mut s = String::new();
    let mut i: usize = from;
    while i < to
        invariant
            from <= i <= to <= v.len(),
            s@ == v@.subrange(from as int, i as int),
        decreases to - i,
    {
        s.push(v[i]);
        i += 1;
    }
    s
}

/// See [`is_alnum`].
pub fn alnum_char_test(c: char) -> (r: bool)
    ensures
        r == is_alnum(c),
{
    ('A' <= c && c <= 'Z') || ('a' <= c && c <= 'z') || ('0' <= c && c <= '9')
}

/// See [`lower_char`].
pub fn to_lower_char(c: char) -> (r: char)
    ensures
        r == lower_char(c),
{
    if 'A' <= c && c <= 'Z' {
        (c as u8 + 32) as char
    } else {
        c
    }
}

/// See [`lower`].
pub fn to_lower(s: &str) -> (r: String)
    ensures
        r@ == lower(s@),
{
    let mut r = String::new();
    for c in it: s.chars()
        invariant
            it.seq() == s@,
            r@ == lower(s@).take(it.index()),
    {
        r.push(to_lower_char(c));
        assert(lower(s@).take(it.index() + 1) =~= lower(s@).take(it.index()).push(lower_char(c)));
    }
    assert(lower(s@).take(s@.len() as int) =~= lower(s@));
    r
}

/// See [`is_space`].
pub fn space_char_test(c: char) -> (r: bool)
    ensures
        r == is_space(c),
{
    ('\u{9}' <= c && c <= '\u{d}') || c == ' ' || c == '\u{85}' || c == '\u{a0}' || c == '\u{1680}'
        || ('\u{2000}' <= c && c <= '\u{200a}') || c == '\u{2028}' || c == '\u{2029}'
        || c == '\u{202f}' || c == '\u{205f}' || c == '\u{3000}'
}


/// Whether `pat` stands in `s` at position `i`.
pub fn matches_at(s: &[char], pat: &[char], i: usize) -> (r: bool)
    ensures
        r == occurs_at(s@, pat@, i as int),
{
    if i > s.len() || pat.len() > s.len() - i {
        return false;
    }
    let mut k: usize = 0;
    while k < pat.len()
        invariant
            i + pat.len() <= s.len(),
            k <= pat.len(),
            forall|j: int| 0 <= j < k ==> s@[i + j] == pat@[j],
        decreases pat.len() - k,
    {
        if s[i + k] != pat[k] {
            assert(s@.subrange(i as int, i + pat@.len())[k as int] != pat@[k as int]);
            return false;
        }
        k += 1;
    }
    assert(s@.subrange(i as int, i + pat@.len()) =~= pat@);
    true
}

/// What a successful or failed search says about every position.
pub proof fn lemma_find_from(s: Seq<char>, pat: Seq<char>, from: int)
    requires
        0 <= from,
    ensures
        match find_from(s, pat, from) {
            Some(p) => from <= p && occurs_at(s, pat, p) && forall|i: int|
                from <= i < p ==> !occurs_at(s, pat, i),
            None => forall|i: int| from <= i ==> !occurs_at(s, pat, i),
        },
    decreases s.len() + 1 - from,
{
    if from + pat.len() <= s.len() && !occurs_at(s, pat, from) {
        lemma_find_from(s, pat, from + 1);
    }
}

/// The first position at or after `from` at which `pat` stands in `s`.
pub fn find_chars(s: &[char], pat: &[char], from: usize) -> (r: Option<usize>)
    ensures
        match r {
            Some(p) => find_from(s@, pat@, from as int) == Some(p as int),
            None => find_from(s@, pat@, from as int) is None,
        },
{
    let mut i: usize = from;
    while i <= s.len() && pat.len() <= s.len() - i
        invariant
            from <= i,
            find_from(s@, pat@, from as int) == find_from(s@, pat@, i as int),
        decreases s.len() + 1 - i,
    {
        if matches_at(s, pat, i) {
            return Some(i);
        }
        if i == s.len() {
            assert(find_from(s@, pat@, i + 1) is None);
            return None;
        }
        i += 1;
    }
    None
}

/// Whether `pat` stands anywhere in `s`.
pub fn contains_chars(s: &[char], pat: &[char]) -> (r: bool)
    ensures
        r == has_text(s@, pat@),
{
    let p = find_chars(s, pat, 0);
    proof {
        lemma_find_from(s@, pat@, 0);
    }
    p.is_some()
}

/// Whether `pat` stands anywhere in `s`.
pub fn contains_text(s: &str, pat: &str) -> (r: bool)
    ensures
        r == has_text(s@, pat@),
{
    contains_chars(&chars_of(s), &chars_of(pat))
}

/// Whether `s` begins with `pat`.
pub fn begins_with(s: &str, pat: &str) -> (r: bool)
    ensures
        r == pat@.is_prefix_of(s@),
{
    let sv = chars_of(s);
    let pv = chars_of(pat);
    let r = matches_at(&sv, &pv, 0);
    r
}

/// Whether `s` ends with `pat`.
pub fn finishes_with(s: &str, pat: &str) -> (r: bool)
    ensures
        r == pat@.is_suffix_of(s@),
{
    let sv = chars_of(s);
    let pv = chars_of(pat);
    if pv.len() > sv.len() {
        return false;
    }
    let r = matches_at(&sv, &pv, sv.len() - pv.len());
    r
}

/// How many characters [`trim_start`] and [`trim_end`] leave where.
pub proof fn lemma_trim_bounds(s: Seq<char>, lo: int, hi: int)
    requires
        0 <= lo <= hi <= s.len(),
        forall|i: int| 0 <= i < lo ==> is_space(s[i]),
        forall|i: int| hi <= i < s.len() ==> is_space(s[i]),
        lo < hi ==> !is_space(s[lo]) && !is_space(s[hi - 1]),
        lo == hi ==> hi == s.len(),
    ensures
        trim(s) == s.subrange(lo, hi),
{
    lemma_trim_start(s, lo);
    let t = s.subrange(lo, s.len() as int);
    lemma_trim_end(t, hi - lo);
    assert(t.subrange(0, hi - lo) =~= s.subrange(lo, hi));
}

pub proof fn lemma_trim_start(s: Seq<char>, lo: int)
    requires
        0 <= lo <= s.len(),
        forall|i: int| 0 <= i < lo ==> is_space(s[i]),
        lo < s.len() ==> !is_space(s[lo]),
    ensures
        trim_start(s) == s.subrange(lo, s.len() as int),
    decreases lo,
{
    if lo > 0 {
        let t = s.drop_first();
        assert forall|i: int| 0 <= i < lo - 1 implies is_space(t[i]) by {
            assert(t[i] == s[i + 1]);
        }
        lemma_trim_start(t, lo - 1);
        assert(t.subrange(lo - 1, t.len() as int) =~= s.subrange(lo, s.len() as int));
    } else {
        assert(s.subrange(0, s.len() as int) =~= s);
    }
}

pub proof fn lemma_trim_end(s: Seq<char>, hi: int)
    requires
        0 <= hi <= s.len(),
        forall|i: int| hi <= i < s.len() ==> is_space(s[i]),
        hi > 0 ==> !is_space(s[hi - 1]),
    ensures
        trim_end(s) == s.subrange(0, hi),
    decreases s.len() - hi,
{
    if hi < s.len() {
        let t = s.drop_last();
        assert forall|i: int| hi <= i < t.len() implies is_space(t[i]) by {
            assert(t[i] == s[i]);
        }
        lemma_trim_end(t, hi);
        assert(t.subrange(0, hi) =~= s.subrange(0, hi));
    } else {
        assert(s.subrange(0, hi) =~= s);
    }
}

proof fn lemma_trim_front(before: Seq<char>, s: Seq<char>)
    requires
        forall|i: int| 0 <= i < before.len() ==> is_space(#[trigger] before[i]),
    ensures
        trim_start(before + s) == trim_start(s),
    decreases before.len(),
{
    if before.len() == 0 {
        assert(before + s =~= s);
    } else {
        assert(is_space(before[0]));
        assert((before + s).drop_first() =~= before.drop_first() + s);
        lemma_trim_front(before.drop_first(), s);
    }
}

proof fn lemma_trim_back(s: Seq<char>, after: Seq<char>)
    requires
        forall|i: int| 0 <= i < after.len() ==> is_space(#[trigger] after[i]),
    ensures
        trim_end(s + after) == trim_end(s),
    decreases after.len(),
{
    if after.len() == 0 {
        assert(s + after =~= s);
    } else {
        assert(is_space(after[after.len() - 1]));
        assert((s + after).drop_last() =~= s + after.drop_last());
        lemma_trim_back(s, after.drop_last());
    }
}

proof fn lemma_trim_start_sum(s: Seq<char>, after: Seq<char>)
    requires
        forall|i: int| 0 <= i < after.len() ==> is_space(#[trigger] after[i]),
    ensures
        trim_end(trim_start(s + after)) == trim_end(trim_start(s)),
    decreases s.len(),
{
    if s.len() == 0 {
        assert(s + after =~= after);
        lemma_trim_front(after, Seq::empty());
        assert(after + Seq::<char>::empty() =~= after);
    } else if is_space(s[0]) {
        assert((s + after).drop_first() =~= s.drop_first() + after);
        lemma_trim_start_sum(s.drop_first(), after);
    } else {
        lemma_trim_back(s, after);
    }
}

/// White space around a text is left out with that in it.
pub proof fn lemma_trim_within(s: Seq<char>, before: Seq<char>, after: Seq<char>)
    requires
        forall|i: int| 0 <= i < before.len() ==> is_space(#[trigger] before[i]),
        forall|i: int| 0 <= i < after.len() ==> is_space(#[trigger] after[i]),
    ensures
        trim(before + s + after) == trim(s),
{
    assert(before + s + after =~= before + (s + after));
    lemma_trim_front(before, s + after);
    lemma_trim_start_sum(s, after);
}

/// The bounds of what [`trim`] leaves of `v`.
pub fn trim_range(v: &[char]) -> (r: (usize, usize))
    ensures
        r.0 <= r.1 <= v.len(),
        trim(v@) == v@.subrange(r.0 as int, r.1 as int),
{
    let mut lo: usize = 0;
    while lo < v.len() && space_char_test(v[lo])
        invariant
            lo <= v.len(),
            forall|i: int| 0 <= i < lo ==> is_space(v@[i]),
        decreases v.len() - lo,
    {
        lo += 1;
    }
    let mut hi: usize = v.len();
    while lo < hi && space_char_test(v[hi - 1])
        invariant
            lo <= hi <= v.len(),
            forall|i: int| hi <= i < v.len() ==> is_space(v@[i]),
            lo < v.len() ==> !is_space(v@[lo as int]),
            lo == hi ==> hi == v.len(),
        decreases hi - lo,
    {
        hi -= 1;
    }
    proof {
        lemma_trim_bounds(v@, lo as int, hi as int);
    }
    (lo, hi)
}

/// See [`trim`].
pub fn trimmed(s: &str) -> (r: String)
    ensures
        r@ == trim(s@),
{
    let v = chars_of(s);
    let (lo, hi) = trim_range(&v);
    slice(&v, lo, hi)
}

/// See [`split_char`].
pub fn split_on(s: &str, sep: char) -> (r: Vec<String>)
    ensures
        views(r@) == split_char(s@, sep),
{
    let mut r: Vec<String> = Vec::new();
    let mut cur = String::new();
    let ghost mut done: Seq<char> = Seq::empty();
    for c in it: s.chars()
        invariant
            it.seq() == s@,
            done == s@.take(it.index()),
            views(r@).push(cur@) == split_char(done, sep),
    {
        let ghost before = views(r@).push(cur@);
        proof {
            let next = done.push(c);
            assert(next.drop_last() =~= done);
            assert(before.drop_last() =~= views(r@));
            done = next;
        }
        if c == sep {
            let ghost old_r = r@;
            r.push(cur);
            cur = String::new();
            assert(views(r@) =~= before);
        } else {
            cur.push(c);
        }
    }
    assert(s@.take(s@.len() as int) =~= s@);
    let ghost before = views(r@).push(cur@);
    r.push(cur);
    assert(views(r@) =~= before);
    r
}

/// See [`join`].
pub fn joined(parts: &Vec<String>, sep: &str) -> (r: String)
    ensures
        r@ == join(views(parts@), sep@),
{
    let mut r = String::new();
    let mut i: usize = 0;
    while i < parts.len()
        invariant
            i <= parts.len(),
            r@ == join(views(parts@).take(i as int), sep@),
        decreases parts.len() - i,
    {
        proof {
            let all = views(parts@);
            assert(all.take(i + 1).drop_last() =~= all.take(i as int));
            assert(all.take(i + 1).last() == parts@[i as int]@);
        }
        if i > 0 {
            r.append(sep);
        }
        r.append(parts[i].as_str());
        i += 1;
    }
    assert(views(parts@).take(parts@.len() as int) =~= views(parts@));
    r
}

/// See [`decimal`].
pub fn to_decimal(n: u64) -> (r: String)
    ensures
        r@ == decimal(n as nat),
    decreases n,
{
    if n < 10 {
        let mut r = String::new();
        r.push((('0' as u8) + n as u8) as char);
        assert(r@ =~= seq![digit_char(n as nat)]);
        r
    } else {
        let mut r = to_decimal(n / 10);
        r.push((('0' as u8) + (n % 10) as u8) as char);
        r
    }
}

/// See [`text_less`].
pub fn less(a: &str, b: &str) -> (r: bool)
    ensures
        r == text_less(a@, b@),
{
    let x = chars_of(a);
    let y = chars_of(b);
    let mut i: usize = 0;
    assert(x@.subrange(0, x@.len() as int) =~= a@);
    assert(y@.subrange(0, y@.len() as int) =~= b@);
    while i < x.len() && i < y.len() && x[i] == y[i]
        invariant
            i <= x.len(),
            i <= y.len(),
            x@ == a@,
            y@ == b@,
            text_less(a@, b@) == text_less(
                x@.subrange(i as int, x@.len() as int),
                y@.subrange(i as int, y@.len() as int),
            ),
        decreases x.len() - i,
    {
        proof {
            let p = x@.subrange(i as int, x@.len() as int);
            let q = y@.subrange(i as int, y@.len() as int);
            assert(p.drop_first() =~= x@.subrange(i + 1, x@.len() as int));
            assert(q.drop_first() =~= y@.subrange(i + 1, y@.len() as int));
        }
        i += 1;
    }
    if i == y.len() {
        false
    } else if i == x.len() {
        true
    } else {
        x[i] < y[i]
    }
}


/// The text before and the text after the first place where `word` stands in
/// `s`, capital letters of `s` counting as small ones.
pub open spec fn cut(s: Seq<char>, word: Seq<char>) -> Option<(Seq<char>, Seq<char>)> {
    match find(lower(s), word) {
        Some(p) => Some((s.take(p), s.skip(p + word.len()))),
        None => None,
    }
}

/// The text without the leading run of the character `c`.
pub open spec fn strip_lead(s: Seq<char>, c: char) -> Seq<char>
    decreases s.len(),
{
    if s.len() > 0 && s[0] == c {
        strip_lead(s.drop_first(), c)
    } else {
        s
    }
}

/// The text without the trailing run of the character `c`.
pub open spec fn strip_trail(s: Seq<char>, c: char) -> Seq<char>
    decreases s.len(),
{
    if s.len() > 0 && s.last() == c {
        strip_trail(s.drop_last(), c)
    } else {
        s
    }
}

/// The text without the leading and the trailing run of the character `c`.
pub open spec fn strip_both(s: Seq<char>, c: char) -> Seq<char> {
    strip_trail(strip_lead(s, c), c)
}

/// How often the character `c` stands in `s`.
pub open spec fn count_char(s: Seq<char>, c: char) -> nat
    decreases s.len(),
{
    if s.len() == 0 {
        0
    } else {
        count_char(s.drop_last(), c) + if s.last() == c {
            1nat
        } else {
            0nat
        }
    }
}

/// The view of a result whose value and error are texts.
pub open spec fn text_result(r: Result<String, String>) -> Result<Seq<char>, Seq<char>> {
    match r {
        Ok(s) => Ok(s@),
        Err(e) => Err(e@),
    }
}

/// The characters of `v` with ASCII capital letters made small.
pub fn lower_chars(v: &[char]) -> (r: Vec<char>)
    ensures
        r@ == lower(v@),
{
    let mut r: Vec<char> = Vec::new();
    let mut i: usize = 0;
    while i < v.len()
        invariant
            i <= v.len(),
            r@ == lower(v@).take(i as int),
        decreases v.len() - i,
    {
        r.push(to_lower_char(v[i]));
        i += 1;
    }
    assert(lower(v@).take(v@.len() as int) =~= lower(v@));
    r
}

/// See [`cut`].
pub fn cut_text(s: &str, word: &str) -> (r: Option<(String, String)>)
    ensures
        match r {
            Some(p) => cut(s@, word@) == Some((p.0@, p.1@)),
            None => cut(s@, word@) is None,
        },
{
    let v = chars_of(s);
    let w = chars_of(word);
    match find_chars(&lower_chars(&v), &w, 0) {
        Some(p) => {
            proof {
                lemma_find_from(lower(v@), w@, 0);
                assert(lower(v@).len() == v@.len());
                assert(occurs_at(lower(v@), w@, p as int));
            }
            let n: usize = v.len();
            let before = slice(&v, 0, p);
            let after = slice(&v, p + w.len(), n);
            assert(before@ =~= s@.take(p as int));
            assert(after@ =~= s@.skip(p + w@.len()));
            Some((before, after))
        },
        None => None,
    }
}

proof fn lemma_strip_lead(s: Seq<char>, c: char, lo: int)
    requires
        0 <= lo <= s.len(),
        forall|i: int| 0 <= i < lo ==> s[i] == c,
        lo < s.len() ==> s[lo] != c,
    ensures
        strip_lead(s, c) == s.subrange(lo, s.len() as int),
    decreases lo,
{
    if lo > 0 {
        let t = s.drop_first();
        assert forall|i: int| 0 <= i < lo - 1 implies t[i] == c by {
            assert(t[i] == s[i + 1]);
        }
        lemma_strip_lead(t, c, lo - 1);
        assert(t.subrange(lo - 1, t.len() as int) =~= s.subrange(lo, s.len() as int));
    } else {
        assert(s.subrange(0, s.len() as int) =~= s);
    }
}

proof fn lemma_strip_trail(s: Seq<char>, c: char, hi: int)
    requires
        0 <= hi <= s.len(),
        forall|i: int| hi <= i < s.len() ==> s[i] == c,
        hi > 0 ==> s[hi - 1] != c,
    ensures
        strip_trail(s, c) == s.subrange(0, hi),
    decreases s.len() - hi,
{
    if hi < s.len() {
        let t = s.drop_last();
        assert forall|i: int| hi <= i < t.len() implies t[i] == c by {
            assert(t[i] == s[i]);
        }
        lemma_strip_trail(t, c, hi);
        assert(t.subrange(0, hi) =~= s.subrange(0, hi));
    } else {
        assert(s.subrange(0, hi) =~= s);
    }
}

/// See [`strip_lead`].
pub fn without_lead(s: &str, c: char) -> (r: String)
    ensures
        r@ == strip_lead(s@, c),
{
    let v = chars_of(s);
    let mut lo: usize = 0;
    while lo < v.len() && v[lo] == c
        invariant
            lo <= v.len(),
            forall|i: int| 0 <= i < lo ==> v@[i] == c,
        decreases v.len() - lo,
    {
        lo += 1;
    }
    proof {
        lemma_strip_lead(v@, c, lo as int);
    }
    slice(&v, lo, v.len())
}

/// See [`strip_trail`].
pub fn without_trail(s: &str, c: char) -> (r: String)
    ensures
        r@ == strip_trail(s@, c),
{
    let v = chars_of(s);
    let mut hi: usize = v.len();
    while hi > 0 && v[hi - 1] == c
        invariant
            hi <= v.len(),
            forall|i: int| hi <= i < v.len() ==> v@[i] == c,
        decreases hi,
    {
        hi -= 1;
    }
    proof {
        lemma_strip_trail(v@, c, hi as int);
    }
    slice(&v, 0, hi)
}

/// See [`strip_both`].
pub fn without_both(s: &str, c: char) -> (r: String)
    ensures
        r@ == strip_both(s@, c),
{
    without_trail(without_lead(s, c).as_str(), c)
}

/// The text without one leading `+`.
pub open spec fn strip_plus(s: Seq<char>) -> Seq<char> {
    if s.len() > 0 && s[0] == '+' {
        s.drop_first()
    } else {
        s
    }
}

/// Whether every character is a decimal digit.
pub open spec fn all_digits(d: Seq<char>) -> bool {
    forall|i: int| 0 <= i < d.len() ==> is_digit(#[trigger] d[i])
}

/// The value of a text of decimal digits, one at least, with a leading `+`
/// allowed.
pub open spec fn parse_nat(s: Seq<char>) -> Option<nat> {
    let d = strip_plus(s);
    if d.len() > 0 && all_digits(d) {
        Some(digits_value(d))
    } else {
        None
    }
}

/// The number that a sequence of decimal digits stands for.
pub open spec fn digits_value(d: Seq<char>) -> nat
    decreases d.len(),
{
    if d.len() == 0 {
        0
    } else {
        digits_value(d.drop_last()) * 10 + (d.last() as nat - '0' as nat) as nat
    }
}

proof fn lemma_digits_grow(d: Seq<char>, k: int)
    requires
        0 <= k <= d.len(),
    ensures
        digits_value(d.take(k)) <= digits_value(d),
    decreases d.len(),
{
    if k == d.len() {
        assert(d.take(k) =~= d);
    } else {
        lemma_digits_grow(d.drop_last(), k);
        assert(d.drop_last().take(k) =~= d.take(k));
    }
}

/// The value of a text of decimal digits, where it is at most `max`.
pub fn parse_number(s: &str, max: u64) -> (r: Option<u64>)
    ensures
        match r {
            Some(n) => parse_nat(s@) == Some(n as nat) && n <= max,
            None => parse_nat(s@) matches Some(n) ==> n > max,
        },
{
    let v = chars_of(s);
    let start: usize = if v.len() > 0 && v[0] == '+' {
        1
    } else {
        0
    };
    let ghost d = strip_plus(s@);
    assert(d =~= v@.subrange(start as int, v@.len() as int));
    if start == v.len() {
        return None;
    }
    let mut n: u64 = 0;
    let mut over: bool = false;
    let mut i: usize = start;
    while i < v.len()
        invariant
            start <= i <= v.len(),
            start < v.len(),
            d == v@.subrange(start as int, v@.len() as int),
            forall|k: int| 0 <= k < i - start ==> is_digit(#[trigger] d[k]),
            !over ==> n == digits_value(d.take(i - start)) && n <= max,
            over ==> digits_value(d.take(i - start)) > max,
            d == strip_plus(s@),
        decreases v.len() - i,
    {
        let c = v[i];
        assert(d[i - start] == c);
        if !('0' <= c && c <= '9') {
            assert(!is_digit(d[i - start]));
            return None;
        }
        proof {
            assert(d.take(i - start + 1).drop_last() =~= d.take(i - start));
            lemma_digits_grow(d.take(i - start + 1), i - start);
            assert(d.take(i - start + 1).take(i - start) =~= d.take(i - start));
        }
        if !over {
            let w: u128 = (n as u128) * 10 + ((c as u8) - ('0' as u8)) as u128;
            if w > max as u128 {
                over = true;
            } else {
                n = w as u64;
            }
        }
        i += 1;
    }
    assert(d.take(d.len() as int) =~= d);
    if over {
        None
    } else {
        Some(n)
    }
}

/// Whether a character may stand before the number of a text in a query: white
/// space within ASCII.
pub open spec fn is_ascii_space(c: char) -> bool {
    c == ' ' || c == '\t' || c == '\n' || c == '\u{b}' || c == '\u{c}' || c == '\r'
}

/// Where the white space that begins at `from` comes to its end.
pub open spec fn after_spaces(s: Seq<char>, from: int) -> int
    decreases s.len() - from,
{
    if 0 <= from < s.len() && is_ascii_space(s[from]) {
        after_spaces(s, from + 1)
    } else {
        from
    }
}

/// Where the digits that begin at `from` come to their end.
pub open spec fn after_digits(s: Seq<char>, from: int) -> int
    decreases s.len() - from,
{
    if 0 <= from < s.len() && is_digit(s[from]) {
        after_digits(s, from + 1)
    } else {
        from
    }
}

/// Where the digits of the number stand with which a text begins: behind white
/// space and a sign.
pub open spec fn number_start(s: Seq<char>) -> int {
    let a = after_spaces(s, 0);
    if 0 <= a < s.len() && (s[a] == '-' || s[a] == '+') {
        a + 1
    } else {
        a
    }
}

/// The whole number with which a text begins, as a query casts it: behind white
/// space and a sign, what follows the digits is left out. It is zero where there
/// is none, and the nearest number of 64 bits where it is beyond them.
pub open spec fn cast_integer(s: Seq<char>) -> int {
    let a = after_spaces(s, 0);
    let b = number_start(s);
    let n = digits_value(s.subrange(b, after_digits(s, b)));
    if 0 <= a < s.len() && s[a] == '-' {
        if n > 0x8000_0000_0000_0000 {
            i64::MIN as int
        } else {
            -(n as int)
        }
    } else if n > i64::MAX {
        i64::MAX as int
    } else {
        n as int
    }
}

proof fn lemma_after_spaces(s: Seq<char>, from: int, to: int)
    requires
        0 <= from <= to <= s.len(),
        forall|i: int| from <= i < to ==> is_ascii_space(#[trigger] s[i]),
        to < s.len() ==> !is_ascii_space(s[to]),
    ensures
        after_spaces(s, from) == to,
    decreases to - from,
{
    if from < to {
        assert(is_ascii_space(s[from]));
        lemma_after_spaces(s, from + 1, to);
    }
}

pub proof fn lemma_after_digits(s: Seq<char>, from: int, to: int)
    requires
        0 <= from <= to <= s.len(),
        forall|i: int| from <= i < to ==> is_digit(#[trigger] s[i]),
        to < s.len() ==> !is_digit(s[to]),
    ensures
        after_digits(s, from) == to,
    decreases to - from,
{
    if from < to {
        assert(is_digit(s[from]));
        lemma_after_digits(s, from + 1, to);
    }
}

/// The digits from `from` on as a number, or `max` where that is smaller.
fn leading_digits(v: &Vec<char>, from: usize, max: u64) -> (r: u64)
    requires
        from <= v@.len(),
    ensures
        ({
            let n = digits_value(v@.subrange(from as int, after_digits(v@, from as int)));
            r == (if n > max {
                max as nat
            } else {
                n
            })
        }),
{
    let mut n: u64 = 0;
    let mut over: bool = false;
    let mut i: usize = from;
    assert(v@.subrange(from as int, from as int) =~= Seq::<char>::empty());
    while i < v.len() && '0' <= v[i] && v[i] <= '9'
        invariant
            from <= i <= v.len(),
            forall|k: int| from <= k < i ==> is_digit(#[trigger] v@[k]),
            !over ==> n == digits_value(v@.subrange(from as int, i as int)) && n <= max,
            over ==> digits_value(v@.subrange(from as int, i as int)) > max,
        decreases v.len() - i,
    {
        let c = v[i];
        proof {
            let more = v@.subrange(from as int, i + 1);
            assert(more.drop_last() =~= v@.subrange(from as int, i as int));
            assert(more.last() == c);
            lemma_digits_grow(more, i - from);
            assert(more.take(i - from) =~= v@.subrange(from as int, i as int));
        }
        if !over {
            let w: u128 = (n as u128) * 10 + ((c as u8) - ('0' as u8)) as u128;
            if w > max as u128 {
                over = true;
            } else {
                n = w as u64;
            }
        }
        i += 1;
    }
    proof {
        lemma_after_digits(v@, from as int, i as int);
    }
    if over {
        max
    } else {
        n
    }
}

/// See [`cast_integer`].
pub fn to_integer(s: &str) -> (r: i64)
    ensures
        r == cast_integer(s@),
{
    let v = chars_of(s);
    let mut a: usize = 0;
    while a < v.len() && (v[a] == ' ' || v[a] == '\t' || v[a] == '\n' || v[a] == '\u{b}' || v[a]
        == '\u{c}' || v[a] == '\r')
        invariant
            a <= v.len(),
            v@ == s@,
            forall|i: int| 0 <= i < a ==> is_ascii_space(#[trigger] v@[i]),
        decreases v.len() - a,
    {
        a += 1;
    }
    proof {
        lemma_after_spaces(v@, 0, a as int);
    }
    if a < v.len() && v[a] == '-' {
        let n: u64 = leading_digits(&v, a + 1, 0x8000_0000_0000_0000);
        (-(n as i128)) as i64
    } else if a < v.len() && v[a] == '+' {
        leading_digits(&v, a + 1, 0x7fff_ffff_ffff_ffff) as i64
    } else {
        leading_digits(&v, a, 0x7fff_ffff_ffff_ffff) as i64
    }
}

/// The decimal digits of a whole number, behind a minus where it is below zero.
pub open spec fn signed_decimal(n: int) -> Seq<char> {
    if n < 0 {
        "-"@ + decimal((-n) as nat)
    } else {
        decimal(n as nat)
    }
}

/// See [`signed_decimal`].
pub fn to_signed_decimal(n: i64) -> (r: String)
    ensures
        r@ == signed_decimal(n as int),
{
    if n < 0 {
        let size: u64 = (-(n as i128)) as u64;
        "-".to_owned().concat(to_decimal(size).as_str())
    } else {
        to_decimal(n as u64)
    }
}

/// A line without its carriage return.
pub open spec fn without_return(line: Seq<char>) -> Seq<char> {
    if line.len() > 0 && line.last() == '\r' {
        line.drop_last()
    } else {
        line
    }
}

/// The lines of a text: each ends with a line feed, before which a carriage
/// return may stand, but for the last one where it is not empty.
pub open spec fn lines(s: Seq<char>) -> Seq<Seq<char>> {
    let p = split_char(s, '\n');
    Seq::new(
        if p.last().len() == 0 {
            (p.len() - 1) as nat
        } else {
            p.len()
        },
        |i: int|
            if i < p.len() - 1 {
                without_return(p[i])
            } else {
                p[i]
            },
    )
}

/// There is always a last piece.
pub proof fn lemma_split_char(s: Seq<char>, sep: char)
    ensures
        split_char(s, sep).len() > 0,
    decreases s.len(),
{
    if s.len() > 0 {
        lemma_split_char(s.drop_last(), sep);
    }
}

/// See [`lines`].
pub fn lines_of(s: &str) -> (r: Vec<String>)
    ensures
        views(r@) == lines(s@),
{
    let parts = split_on(s, '\n');
    let ghost all = views(parts@);
    proof {
        lemma_split_char(s@, '\n');
        assert(all.len() == parts@.len());
        assert(all.last() == parts@[parts@.len() - 1]@);
    }
    let last: usize = parts.len() - 1;
    let mut out: Vec<String> = Vec::new();
    let mut i: usize = 0;
    while i < last
        invariant
            i <= last,
            last == parts@.len() - 1,
            all == split_char(s@, '\n'),
            all == views(parts@),
            all.len() == parts@.len(),
            views(out@) == lines(s@).take(i as int),
        decreases last - i,
    {
        let ghost was = views(out@);
        let v = chars_of(parts[i].as_str());
        let n: usize = if v.len() > 0 && v[v.len() - 1] == '\r' {
            v.len() - 1
        } else {
            v.len()
        };
        let line = slice(v.as_slice(), 0, n);
        assert(all[i as int] == v@);
        assert(line@ =~= without_return(v@));
        out.push(line);
        assert(views(out@) =~= was.push(line@));
        assert(lines(s@).take(i + 1) =~= was.push(line@));
        i += 1;
    }
    if !parts[last].as_str().is_empty() {
        let ghost was = views(out@);
        let line = parts[last].clone();
        out.push(line);
        assert(views(out@) =~= was.push(line@));
    }
    assert(views(out@) =~= lines(s@));
    out
}

/// How many bytes a text takes.
pub fn byte_len(s: &str) -> (r: usize)
    ensures
        r == vstd::utf8::encode_utf8(s@).len(),
{
    s.as_bytes().len()
}

/// Whether a text is one of a list.
pub fn is_listed(names: &Vec<String>, name: &str) -> (r: bool)
    ensures
        r == views(names@).contains(name@),
{
    let mut i: usize = 0;
    while i < names.len()
        invariant
            i <= names.len(),
            forall|j: int| 0 <= j < i ==> views(names@)[j] != name@,
        decreases names.len() - i,
    {
        assert(views(names@)[i as int] == names@[i as int]@);
        if same(names[i].as_str(), name) {
            return true;
        }
        i += 1;
    }
    false
}

/// The upper-case letter for an ASCII letter; any other character is kept.
pub open spec fn upper_char(c: char) -> char {
    if is_lower(c) {
        (c as u8 - 32) as u8 as char
    } else {
        c
    }
}

/// The text with its ASCII letters in upper case.
pub open spec fn upper(s: Seq<char>) -> Seq<char> {
    s.map_values(|c: char| upper_char(c))
}

/// See [`upper`].
pub fn to_upper(s: &str) -> (r: String)
    ensures
        r@ == upper(s@),
{
    let mut r = String::new();
    assert(r@ =~= Seq::empty());
    for c in it: s.chars()
        invariant
            it.seq() == s@,
            r@ == upper(s@).take(it.index()),
    {
        let u = if 'a' <= c && c <= 'z' {
            ((c as u8) - 32) as char
        } else {
            c
        };
        r.push(u);
        assert(upper(s@).take(it.index() + 1) =~= upper(s@).take(it.index()).push(
            upper(s@)[it.index()],
        ));
    }
    assert(upper(s@).take(s@.len() as int) =~= upper(s@));
    r
}

/// What a list with one text more holds.
pub proof fn lemma_push_contains(s: Seq<Seq<char>>, t: Seq<char>)
    ensures
        forall|x: Seq<char>| #[trigger] s.push(t).contains(x) <==> s.contains(x) || x == t,
{
    let b = s.push(t);
    assert forall|x: Seq<char>| #[trigger] b.contains(x) <==> s.contains(x) || x == t by {
        if s.contains(x) {
            let i = choose|i: int| 0 <= i < s.len() && s[i] == x;
            assert(b[i] == x);
        }
        if b.contains(x) {
            let i = choose|i: int| 0 <= i < b.len() && b[i] == x;
            if i < s.len() {
                assert(s[i] == x);
            }
        }
        assert(b[s.len() as int] == t);
    }
}

} // verus!
