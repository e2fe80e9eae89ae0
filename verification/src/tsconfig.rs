//! The `paths` aliases of TypeScript projects: JSON with comments, chains of
//! configurations, and the modules that import specifiers stand for.

use vstd::prelude::*;
use vstd::string::*;
use vstd::utf8::*;

use crate::digest;
use crate::order;
use crate::rows;
use crate::search;
use crate::text;
use crate::types;
use crate::value;
use crate::value::{Datum, DatumModel, Entries};

verus! {

/// The place of the end of the line that a text begins with.
pub open spec fn line_end(s: Seq<char>) -> int
    decreases s.len(),
{
    if s.len() == 0 || s[0] == '\n' {
        0
    } else {
        1 + line_end(s.drop_first())
    }
}

/// The place behind the block comment that a text begins with: its end where
/// the comment is not closed.
pub open spec fn comment_end(s: Seq<char>) -> int {
    match text::find_from(s, "*/"@, 2) {
        Some(k) => k + 2,
        None => s.len() as int,
    }
}

/// The end of a line lies in the text.
pub proof fn lemma_line_end(s: Seq<char>)
    ensures
        0 <= line_end(s) <= s.len(),
    decreases s.len(),
{
    if s.len() > 0 && s[0] != '\n' {
        lemma_line_end(s.drop_first());
    }
}

/// The end of a comment lies in the text.
pub proof fn lemma_comment_end(s: Seq<char>)
    requires
        s.len() >= 2,
    ensures
        2 <= comment_end(s) <= s.len(),
{
    reveal_strlit("*/");
    text::lemma_find_from(s, "*/"@, 2);
}

/// Whether the first character that is no white space and stands in no comment
/// closes a scope.
pub open spec fn closes_next(s: Seq<char>) -> bool
    decreases s.len(),
{
    if s.len() == 0 {
        false
    } else if text::is_space(s[0]) {
        closes_next(s.drop_first())
    } else if s[0] == '/' && s.len() > 1 && s[1] == '/' {
        proof {
            lemma_line_end(s);
            lemma_line_end(s.drop_first());
        }
        closes_next(s.skip(line_end(s)))
    } else if s[0] == '/' && s.len() > 1 && s[1] == '*' {
        proof {
            lemma_comment_end(s);
        }
        closes_next(s.skip(comment_end(s)))
    } else {
        s[0] == '}' || s[0] == ']'
    }
}

/// A text of JSON with comments without its comments and trailing commas, as
/// it stands inside a string or outside of one. Strings are kept as they are.
pub open spec fn plain_json(s: Seq<char>, in_string: bool) -> Seq<char>
    decreases s.len(),
{
    if s.len() == 0 {
        s
    } else {
        let rest = s.drop_first();
        if in_string {
            if s[0] == '\\' && s.len() > 1 {
                seq![s[0], s[1]] + plain_json(s.skip(2), true)
            } else {
                seq![s[0]] + plain_json(rest, s[0] != '"')
            }
        } else if s[0] == '"' {
            seq![s[0]] + plain_json(rest, true)
        } else if s[0] == '/' && s.len() > 1 && s[1] == '/' {
            proof {
                lemma_line_end(s);
                lemma_line_end(rest);
            }
            plain_json(s.skip(line_end(s)), false)
        } else if s[0] == '/' && s.len() > 1 && s[1] == '*' {
            proof {
                lemma_comment_end(s);
            }
            plain_json(s.skip(comment_end(s)), false)
        } else if s[0] == ',' && closes_next(rest) {
            plain_json(rest, false)
        } else {
            seq![s[0]] + plain_json(rest, false)
        }
    }
}

/// The place of the end of the line at `i`.
fn find_line_end(v: &Vec<char>, i: usize) -> (k: usize)
    requires
        i <= v.len(),
    ensures
        i <= k <= v.len(),
        k == i + line_end(v@.skip(i as int)),
{
    let mut k: usize = i;
    assert(v@.skip(i as int).skip(0) =~= v@.skip(i as int));
    while k < v.len() && v[k] != '\n'
        invariant
            i <= k <= v.len(),
            i + line_end(v@.skip(i as int)) == k + line_end(v@.skip(k as int)),
        decreases v.len() - k,
    {
        assert(v@.skip(k as int).drop_first() =~= v@.skip(k + 1));
        k += 1;
    }
    k
}

proof fn lemma_find_shift(s: Seq<char>, pat: Seq<char>, i: int, from: int)
    requires
        0 <= i <= s.len(),
        0 <= from,
    ensures
        text::find_from(s.skip(i), pat, from) == (match text::find_from(s, pat, i + from) {
            Some(k) => Some(k - i),
            None => None,
        }),
    decreases s.len() + 1 - i - from,
{
    let t = s.skip(i);
    if from + pat.len() <= t.len() {
        assert(t.subrange(from, from + pat.len()) =~= s.subrange(
            i + from,
            i + from + pat.len(),
        ));
        if !text::occurs_at(t, pat, from) {
            lemma_find_shift(s, pat, i, from + 1);
        }
    }
}

/// The place behind the block comment at `i`.
fn find_comment_end(v: &Vec<char>, i: usize) -> (k: usize)
    requires
        i + 2 <= v.len(),
    ensures
        i + 2 <= k <= v.len(),
        k == i + comment_end(v@.skip(i as int)),
{
    let close = text::chars_of("*/");
    proof {
        reveal_strlit("*/");
        lemma_comment_end(v@.skip(i as int));
        lemma_find_shift(v@, "*/"@, i as int, 2);
        text::lemma_find_from(v@, "*/"@, i + 2);
    }
    match text::find_chars(v.as_slice(), close.as_slice(), i + 2) {
        Some(k) => k + 2,
        None => v.len(),
    }
}

/// Whether the first character from `i` on that is no white space and stands in
/// no comment closes a scope.
fn closes_at(v: &Vec<char>, i: usize) -> (r: bool)
    requires
        i <= v.len(),
    ensures
        r == closes_next(v@.skip(i as int)),
{
    let mut k: usize = i;
    while k < v.len()
        invariant
            i <= k <= v.len(),
            closes_next(v@.skip(i as int)) == closes_next(v@.skip(k as int)),
        decreases v.len() - k,
    {
        let c = v[k];
        let ghost s = v@.skip(k as int);
        proof {
            assert(s[0] == c);
            assert(s.drop_first() =~= v@.skip(k + 1));
            if k + 1 < v@.len() {
                assert(s[1] == v@[k + 1]);
            }
        }
        if text::space_char_test(c) {
            k += 1;
        } else if c == '/' && k + 1 < v.len() && v[k + 1] == '/' {
            let e: usize = find_line_end(v, k);
            proof {
                lemma_line_end(s.drop_first());
                assert(s.skip(line_end(s)) =~= v@.skip(e as int));
            }
            k = e;
        } else if c == '/' && k + 1 < v.len() && v[k + 1] == '*' {
            let e: usize = find_comment_end(v, k);
            assert(s.skip(comment_end(s)) =~= v@.skip(e as int));
            k = e;
        } else {
            return c == '}' || c == ']';
        }
    }
    false
}

/// A text of JSON with comments without its comments and trailing commas; see
/// [`plain_json`].
pub fn strip_jsonc(src: &str) -> (r: String)
    ensures
        r@ == plain_json(src@, false),
{
    let v = text::chars_of(src);
    let mut out = String::new();
    let mut in_string = false;
    let mut i: usize = 0;
    assert(v@.skip(0) =~= v@);
    while i < v.len()
        invariant
            i <= v.len(),
            v@ == src@,
            out@ + plain_json(v@.skip(i as int), in_string) == plain_json(src@, false),
        decreases v.len() - i,
    {
        let c = v[i];
        let ghost s = v@.skip(i as int);
        let ghost was = out@;
        let ghost whole = plain_json(src@, false);
        proof {
            assert(s[0] == c);
            assert(s.drop_first() =~= v@.skip(i + 1));
            if i + 1 < v@.len() {
                assert(s[1] == v@[i + 1]);
                assert(s.skip(2) =~= v@.skip(i + 2));
            }
        }
        if in_string {
            out.push(c);
            if c == '\\' && i + 1 < v.len() {
                out.push(v[i + 1]);
                i += 1;
                assert(out@ =~= was + seq![s[0], s[1]]);
                assert(was + (seq![s[0], s[1]] + plain_json(s.skip(2), true)) =~= (was + seq![
                    s[0],
                    s[1],
                ]) + plain_json(s.skip(2), true));
            } else {
                if c == '"' {
                    in_string = false;
                }
                assert(out@ =~= was + seq![c]);
                assert(was + (seq![c] + plain_json(s.drop_first(), in_string)) =~= (was + seq![c])
                    + plain_json(s.drop_first(), in_string));
            }
            i += 1;
        } else if c == '"' {
            in_string = true;
            out.push(c);
            i += 1;
            assert(out@ =~= was + seq![c]);
            assert(was + (seq![c] + plain_json(s.drop_first(), true)) =~= (was + seq![c])
                + plain_json(s.drop_first(), true));
        } else if c == '/' && i + 1 < v.len() && v[i + 1] == '/' {
            let k: usize = find_line_end(&v, i);
            proof {
                lemma_line_end(s);
                lemma_line_end(s.drop_first());
                assert(s.skip(line_end(s)) =~= v@.skip(k as int));
            }
            i = k;
        } else if c == '/' && i + 1 < v.len() && v[i + 1] == '*' {
            let k: usize = find_comment_end(&v, i);
            assert(s.skip(comment_end(s)) =~= v@.skip(k as int));
            i = k;
        } else if c == ',' && closes_at(&v, i + 1) {
            i += 1;
        } else {
            out.push(c);
            i += 1;
            assert(out@ =~= was + seq![c]);
            assert(was + (seq![c] + plain_json(s.drop_first(), false)) =~= (was + seq![c])
                + plain_json(s.drop_first(), false));
        }
    }
    assert(v@.skip(v@.len() as int) =~= Seq::empty());
    assert(plain_json(v@.skip(v@.len() as int), in_string) =~= Seq::empty());
    assert(out@ + Seq::<char>::empty() =~= out@);
    out
}

/// Whether a text can stand between the quotes of a string.
pub open spec fn is_string_body(b: Seq<char>) -> bool
    decreases b.len(),
{
    if b.len() == 0 {
        true
    } else if b[0] == '\\' {
        b.len() > 1 && is_string_body(b.skip(2))
    } else {
        b[0] != '"' && is_string_body(b.drop_first())
    }
}

/// A string is kept as it is, whatever looks like a comment or a trailing comma
/// in it, and what follows is read as outside of it.
pub proof fn law_strings_are_kept(b: Seq<char>, rest: Seq<char>)
    requires
        is_string_body(b),
    ensures
        plain_json(seq!['"'] + b + seq!['"'] + rest, false) == seq!['"'] + b + seq!['"']
            + plain_json(rest, false),
{
    let s = seq!['"'] + b + seq!['"'] + rest;
    assert(s[0] == '"');
    assert(s.drop_first() =~= b + seq!['"'] + rest);
    lemma_string_is_kept(b, rest);
    assert(plain_json(s, false) =~= seq!['"'] + b + seq!['"'] + plain_json(rest, false));
}

proof fn lemma_string_is_kept(b: Seq<char>, rest: Seq<char>)
    requires
        is_string_body(b),
    ensures
        plain_json(b + seq!['"'] + rest, true) == b + seq!['"'] + plain_json(rest, false),
    decreases b.len(),
{
    let s = b + seq!['"'] + rest;
    if b.len() == 0 {
        assert(s[0] == '"');
        assert(s.drop_first() =~= rest);
        assert(plain_json(s, true) =~= b + seq!['"'] + plain_json(rest, false));
    } else if b[0] == '\\' {
        lemma_string_is_kept(b.skip(2), rest);
        assert(s[0] == b[0] && s[1] == b[1]);
        assert(s.skip(2) =~= b.skip(2) + seq!['"'] + rest);
        assert(plain_json(s, true) =~= b + seq!['"'] + plain_json(rest, false));
    } else {
        lemma_string_is_kept(b.drop_first(), rest);
        assert(s[0] == b[0]);
        assert(s.drop_first() =~= b.drop_first() + seq!['"'] + rest);
        assert(plain_json(s, true) =~= b + seq!['"'] + plain_json(rest, false));
    }
}

/// A text without slashes and commas stays as it is.
pub proof fn law_plain_json_is_kept(s: Seq<char>, in_string: bool)
    requires
        !s.contains('/'),
        !s.contains(','),
    ensures
        plain_json(s, in_string) == s,
    decreases s.len(),
{
    if s.len() > 0 {
        assert(s.contains(s[0]));
        let rest = s.drop_first();
        assert forall|c: char| rest.contains(c) implies s.contains(c) by {
            let i = choose|i: int| 0 <= i < rest.len() && rest[i] == c;
            assert(s[i + 1] == c);
        }
        law_plain_json_is_kept(rest, in_string);
        law_plain_json_is_kept(rest, !in_string);
        assert(s =~= seq![s[0]] + rest);
        if in_string && s[0] == '\\' && s.len() > 1 {
            let tail = s.skip(2);
            assert forall|c: char| tail.contains(c) implies s.contains(c) by {
                let i = choose|i: int| 0 <= i < tail.len() && tail[i] == c;
                assert(s[i + 2] == c);
            }
            law_plain_json_is_kept(tail, true);
            assert(s =~= seq![s[0], s[1]] + tail);
        }
    }
}

/// The segments of a path with `.` and empty ones left out and `..` taking
/// back the one before it.
pub open spec fn resolved_segments(segs: Seq<Seq<char>>) -> Seq<Seq<char>>
    decreases segs.len(),
{
    if segs.len() == 0 {
        segs
    } else {
        let rest = resolved_segments(segs.drop_last());
        let s = segs.last();
        if s.len() == 0 || s == "."@ {
            rest
        } else if s == ".."@ {
            if rest.len() > 0 {
                rest.drop_last()
            } else {
                rest
            }
        } else {
            rest.push(s)
        }
    }
}

/// A path below another one, without `.` and `..`.
pub open spec fn joined_path(base: Seq<char>, target: Seq<char>) -> Seq<char> {
    text::join(
        resolved_segments(text::split_char(base, '/') + text::split_char(target, '/')),
        "/"@,
    )
}

/// Takes one more segment in.
fn take_segment(parts: &mut Vec<String>, seg: &str)
    ensures
        forall|s: Seq<Seq<char>>|
            #![trigger resolved_segments(s.push(seg@))]
            text::views(old(parts)@) == resolved_segments(s) ==> text::views(final(parts)@)
                == resolved_segments(s.push(seg@)),
{
    let ghost was = text::views(parts@);
    if seg.is_empty() || text::same(seg, ".") {
    } else if text::same(seg, "..") {
        if parts.len() > 0 {
            parts.pop();
            assert(text::views(parts@) =~= was.drop_last());
        }
    } else {
        parts.push(seg.to_owned());
        assert(text::views(parts@) =~= was.push(seg@));
    }
    assert forall|s: Seq<Seq<char>>|
        #![trigger resolved_segments(s.push(seg@))]
        was == resolved_segments(s) implies text::views(parts@) == resolved_segments(
        s.push(seg@),
    ) by {
        assert(s.push(seg@).drop_last() =~= s);
        assert(was.len() == old(parts)@.len());
    }
}

/// See [`joined_path`].
pub fn join_rel(base: &str, target: &str) -> (r: String)
    ensures
        r@ == joined_path(base@, target@),
{
    let a = text::split_on(base, '/');
    let b = text::split_on(target, '/');
    let ghost x = text::views(a@);
    let ghost y = text::views(b@);
    let mut parts: Vec<String> = Vec::new();
    let mut i: usize = 0;
    assert(text::views(parts@) =~= resolved_segments(x.take(0)));
    while i < a.len()
        invariant
            i <= a.len(),
            x == text::views(a@),
            text::views(parts@) == resolved_segments(x.take(i as int)),
        decreases a.len() - i,
    {
        assert(x.take(i + 1) =~= x.take(i as int).push(a@[i as int]@));
        take_segment(&mut parts, a[i].as_str());
        i += 1;
    }
    let mut j: usize = 0;
    assert(x + y.take(0) =~= x.take(a@.len() as int));
    while j < b.len()
        invariant
            j <= b.len(),
            y == text::views(b@),
            text::views(parts@) == resolved_segments(x + y.take(j as int)),
        decreases b.len() - j,
    {
        assert(x + y.take(j + 1) =~= (x + y.take(j as int)).push(b@[j as int]@));
        take_segment(&mut parts, b[j].as_str());
        j += 1;
    }
    assert(y.take(b@.len() as int) =~= y);
    text::joined(&parts, "/")
}

/// A joined path has no empty segments, no `.` and no `..`.
pub proof fn law_segments_are_resolved(segs: Seq<Seq<char>>)
    ensures
        forall|i: int|
            0 <= i < resolved_segments(segs).len() ==> (#[trigger] resolved_segments(segs)[i]).len()
                > 0 && resolved_segments(segs)[i] != "."@ && resolved_segments(segs)[i] != ".."@,
    decreases segs.len(),
{
    if segs.len() > 0 {
        law_segments_are_resolved(segs.drop_last());
        let rest = resolved_segments(segs.drop_last());
        let all = resolved_segments(segs);
        assert forall|i: int| 0 <= i < all.len() implies (#[trigger] all[i]).len() > 0 && all[i]
            != "."@ && all[i] != ".."@ by {
            if i < rest.len() {
                assert(all[i] == rest[i]);
            }
        }
    }
}

/// A rule: a pattern with at most one `*` that counts, and its targets.
pub type Rule = (Seq<char>, Seq<Seq<char>>);

/// The scope of one configuration: its directory, what targets are relative to,
/// and its rules.
pub struct TsConfigScope {
    pub dir: String,
    pub base_url: String,
    pub rules: Vec<(String, Vec<String>)>,
}

/// The model of a [`TsConfigScope`].
pub struct ScopeModel {
    pub dir: Seq<char>,
    pub base_url: Seq<char>,
    pub rules: Seq<Rule>,
}

/// What rules hold.
pub open spec fn rule_views(v: Seq<(String, Vec<String>)>) -> Seq<Rule> {
    v.map_values(|r: (String, Vec<String>)| (r.0@, text::views(r.1@)))
}

impl View for TsConfigScope {
    type V = ScopeModel;

    open spec fn view(&self) -> ScopeModel {
        ScopeModel { dir: self.dir@, base_url: self.base_url@, rules: rule_views(self.rules@) }
    }
}

/// The aliases of a repository: its scopes, the deepest first.
pub struct AliasMap {
    pub scopes: Vec<TsConfigScope>,
}

impl View for AliasMap {
    type V = Seq<ScopeModel>;

    open spec fn view(&self) -> Seq<ScopeModel> {
        self.scopes@.map_values(|s: TsConfigScope| s@)
    }
}

/// What a `*` in a pattern stands for in a specifier; nothing where the
/// specifier does not match. A pattern without `*` matches itself only.
pub open spec fn star_match(pattern: Seq<char>, spec: Seq<char>) -> Option<Seq<char>> {
    match text::find(pattern, "*"@) {
        Some(k) => {
            let pre = pattern.take(k);
            let suf = pattern.skip(k + 1);
            if spec.len() >= pre.len() + suf.len() && spec.take(pre.len() as int) == pre
                && spec.skip(spec.len() - suf.len()) == suf {
                Some(spec.subrange(pre.len() as int, spec.len() - suf.len()))
            } else {
                None
            }
        },
        None => if spec == pattern {
            Some(Seq::empty())
        } else {
            None
        },
    }
}

/// A target with its first `*` replaced.
pub open spec fn with_star(target: Seq<char>, star: Seq<char>) -> Seq<char> {
    match text::find(target, "*"@) {
        Some(k) => target.take(k) + star + target.skip(k + 1),
        None => target,
    }
}

/// The module that the first matching rule gives, from the repository's root.
pub open spec fn rule_module(rules: Seq<Rule>, base: Seq<char>, spec: Seq<char>) -> Option<
    Seq<char>,
>
    decreases rules.len(),
{
    if rules.len() == 0 {
        None
    } else {
        match star_match(rules[0].0, spec) {
            Some(star) => if rules[0].1.len() == 0 {
                None
            } else {
                let target = if text::find(rules[0].0, "*"@) is Some {
                    with_star(rules[0].1[0], star)
                } else {
                    rules[0].1[0]
                };
                Some("/"@ + joined_path(base, target))
            },
            None => rule_module(rules.drop_first(), base, spec),
        }
    }
}

/// Whether a scope covers a file.
pub open spec fn scope_covers(importer: Seq<char>) -> spec_fn(ScopeModel) -> bool {
    |s: ScopeModel|
        s.dir.len() == 0 || (s.dir.len() < importer.len() && importer.take(s.dir.len() as int)
            == s.dir && importer[s.dir.len() as int] == '/')
}

/// The module that a specifier stands for in a file; nothing where it names a
/// package outside the repository.
pub open spec fn alias(scopes: Seq<ScopeModel>, importer: Seq<char>, spec: Seq<char>) -> Option<
    Seq<char>,
> {
    match rows::first(scopes, scope_covers(importer)) {
        Some(s) => rule_module(s.rules, s.base_url, spec),
        None => None,
    }
}

/// See [`star_match`].
fn match_star(pattern: &Vec<char>, spec: &Vec<char>) -> (r: Option<String>)
    ensures
        types::opt_text(r) == star_match(pattern@, spec@),
{
    let mark = text::chars_of("*");
    proof {
        reveal_strlit("*");
        text::lemma_find_from(pattern@, "*"@, 0);
    }
    match text::find_chars(pattern.as_slice(), mark.as_slice(), 0) {
        Some(k) => {
            let pre: usize = k;
            let suf: usize = pattern.len() - k - 1;
            if spec.len() < suf || spec.len() - suf < pre {
                return None;
            }
            let a = text::slice(spec.as_slice(), 0, pre);
            let b = text::slice(pattern.as_slice(), 0, pre);
            let c = text::slice(spec.as_slice(), spec.len() - suf, spec.len());
            let d = text::slice(pattern.as_slice(), k + 1, pattern.len());
            assert(spec@.subrange(0, pre as int) =~= spec@.take(pre as int));
            assert(pattern@.subrange(0, pre as int) =~= pattern@.take(pre as int));
            assert(spec@.subrange(spec@.len() - suf, spec@.len() as int) =~= spec@.skip(
                spec@.len() - suf,
            ));
            assert(pattern@.subrange(k + 1, pattern@.len() as int) =~= pattern@.skip(k + 1));
            if text::same(a.as_str(), b.as_str()) && text::same(c.as_str(), d.as_str()) {
                Some(text::slice(spec.as_slice(), pre, spec.len() - suf))
            } else {
                None
            }
        },
        None => {
            let a = text::string_of(spec.as_slice());
            let b = text::string_of(pattern.as_slice());
            if text::same(a.as_str(), b.as_str()) {
                let none = String::new();
                assert(none@ =~= Seq::<char>::empty());
                Some(none)
            } else {
                None
            }
        },
    }
}

/// See [`with_star`].
fn put_star(target: &str, star: &str) -> (r: String)
    ensures
        r@ == with_star(target@, star@),
{
    let mark = text::chars_of("*");
    let v = text::chars_of(target);
    proof {
        reveal_strlit("*");
        text::lemma_find_from(v@, "*"@, 0);
    }
    let n: usize = v.len();
    match text::find_chars(v.as_slice(), mark.as_slice(), 0) {
        Some(k) => {
            assert(text::occurs_at(v@, "*"@, k as int) && "*"@.len() == 1);
            assert(v@.subrange(0, k as int) =~= v@.take(k as int));
            assert(v@.subrange(k + 1, v@.len() as int) =~= v@.skip(k + 1));
            text::slice(v.as_slice(), 0, k).concat(star).concat(
                text::slice(v.as_slice(), k + 1, n).as_str(),
            )
        },
        None => target.to_owned(),
    }
}

impl AliasMap {
    /// The module that a specifier stands for in a file; see [`alias`].
    pub fn resolve(&self, importer_rel: &str, spec: &str) -> (r: Option<String>)
        ensures
            types::opt_text(r) == alias(self@, importer_rel@, spec@),
    {
        let path = text::chars_of(importer_rel);
        let ghost scopes = self@;
        assert(scopes.len() == self.scopes@.len());
        let mut i: usize = 0;
        while i < self.scopes.len()
            invariant
                i <= self.scopes.len(),
                scopes == self@,
                scopes.len() == self.scopes@.len(),
                path@ == importer_rel@,
                forall|j: int| 0 <= j < i ==> !scope_covers(importer_rel@)(#[trigger] scopes[j]),
            decreases self.scopes.len() - i,
        {
            let s = &self.scopes[i];
            assert(scopes[i as int] == s@);
            let dir = text::chars_of(s.dir.as_str());
            let covers = dir.len() == 0 || (dir.len() < path.len() && text::matches_at(
                path.as_slice(),
                dir.as_slice(),
                0,
            ) && path[dir.len()] == '/');
            proof {
                assert(path@.subrange(0, dir@.len() as int) =~= path@.take(dir@.len() as int)
                    || dir@.len() > path@.len());
            }
            if covers {
                proof {
                    rows::lemma_first_is(scopes, scope_covers(importer_rel@), i as int);
                }
                return apply_rules(&s.rules, s.base_url.as_str(), spec);
            }
            i += 1;
        }
        proof {
            rows::lemma_first_is(scopes, scope_covers(importer_rel@), scopes.len() as int);
        }
        None
    }
}

/// See [`rule_module`].
fn apply_rules(rules: &Vec<(String, Vec<String>)>, base: &str, spec: &str) -> (r: Option<String>)
    ensures
        types::opt_text(r) == rule_module(rule_views(rules@), base@, spec@),
{
    let wanted = text::chars_of(spec);
    let ghost all = rule_views(rules@);
    assert(all.len() == rules@.len());
    assert(all.skip(0) =~= all);
    let mut i: usize = 0;
    while i < rules.len()
        invariant
            i <= rules.len(),
            all == rule_views(rules@),
            all.len() == rules@.len(),
            wanted@ == spec@,
            rule_module(all, base@, spec@) == rule_module(all.skip(i as int), base@, spec@),
        decreases rules.len() - i,
    {
        let rule = &rules[i];
        let ghost rest = all.skip(i as int);
        assert(rest[0] == (rule.0@, text::views(rule.1@)));
        assert(rest.drop_first() =~= all.skip(i + 1));
        assert(text::views(rule.1@).len() == rule.1@.len());
        let pattern = text::chars_of(rule.0.as_str());
        if let Some(star) = match_star(&pattern, &wanted) {
            if rule.1.len() == 0 {
                return None;
            }
            let mark = text::chars_of("*");
            let has_star = text::find_chars(pattern.as_slice(), mark.as_slice(), 0).is_some();
            let target = if has_star {
                put_star(rule.1[0].as_str(), star.as_str())
            } else {
                rule.1[0].clone()
            };
            return Some("/".to_owned().concat(join_rel(base, target.as_str()).as_str()));
        }
        i += 1;
    }
    None
}

/// A path with `/` for each backslash.
pub open spec fn slashed(s: Seq<char>) -> Seq<char> {
    s.map_values(
        |c: char|
            if c == '\\' {
                '/'
            } else {
                c
            },
    )
}

/// See [`slashed`].
pub fn with_slashes(s: &str) -> (r: String)
    ensures
        r@ == slashed(s@),
{
    let mut out = String::new();
    for c in it: s.chars()
        invariant
            it.seq() == s@,
            out@ == slashed(s@).take(it.index()),
    {
        if c == '\\' {
            out.push('/');
        } else {
            out.push(c);
        }
        assert(slashed(s@).take(it.index() + 1) =~= slashed(s@).take(it.index()).push(
            slashed(s@)[it.index()],
        ));
    }
    assert(slashed(s@).take(s@.len() as int) =~= slashed(s@));
    out
}

/// A path below a root as seen from it, with `/` between its parts; the path
/// itself where it does not lie below the root.
pub open spec fn relative(root: Seq<char>, path: Seq<char>) -> Seq<char> {
    slashed(
        if path == root {
            Seq::empty()
        } else if is_below(root, path) {
            path.skip(root.len() as int + 1)
        } else {
            path
        },
    )
}

/// Whether a path lies below a root.
pub open spec fn is_below(root: Seq<char>, path: Seq<char>) -> bool {
    root.len() < path.len() && path.take(root.len() as int) == root && path[root.len() as int]
        == '/'
}

/// See [`relative`].
pub fn rel_path(root: &str, path: &str) -> (r: String)
    ensures
        r@ == relative(root@, path@),
{
    if text::same(path, root) {
        let none = String::new();
        assert(slashed(Seq::<char>::empty()) =~= Seq::<char>::empty());
        assert(none@ =~= Seq::<char>::empty());
        return none;
    }
    match below(root, path) {
        Some(rest) => with_slashes(rest.as_str()),
        None => with_slashes(path),
    }
}

/// The part of a path below a root.
fn below(root: &str, path: &str) -> (r: Option<String>)
    ensures
        match r {
            Some(rest) => is_below(root@, path@) && rest@ == path@.skip(root@.len() as int + 1),
            None => !is_below(root@, path@),
        },
{
    let a = text::chars_of(root);
    let p = text::chars_of(path);
    if a.len() < p.len() && text::matches_at(p.as_slice(), a.as_slice(), 0) && p[a.len()] == '/' {
        assert(p@.subrange(0, a@.len() as int) =~= p@.take(a@.len() as int));
        let rest = text::slice(p.as_slice(), a.len() + 1, p.len());
        assert(p@.subrange(a@.len() as int + 1, p@.len() as int) =~= p@.skip(a@.len() as int + 1));
        Some(rest)
    } else {
        assert(a@.len() < p@.len() ==> p@.subrange(0, a@.len() as int) =~= p@.take(
            a@.len() as int,
        ));
        None
    }
}

/// The directory of a path.
pub open spec fn dir_of(path: Seq<char>) -> Seq<char> {
    if path.contains('/') {
        search::before_last(path, '/')
    } else {
        Seq::empty()
    }
}

/// See [`dir_of`].
fn directory(path: &str) -> (r: String)
    ensures
        r@ == dir_of(path@),
{
    let v = text::chars_of(path);
    let mark = text::chars_of("/");
    proof {
        reveal_strlit("/");
    }
    if text::contains_chars(v.as_slice(), mark.as_slice()) {
        proof {
            let i = choose|i: int| text::occurs_at(path@, "/"@, i);
            assert(path@.subrange(i, i + 1)[0] == path@[i]);
            assert(path@.contains('/'));
        }
        search::text_before_last(path, '/')
    } else {
        let none = String::new();
        proof {
            if path@.contains('/') {
                let i = choose|i: int| 0 <= i < path@.len() && path@[i] == '/';
                assert(path@.subrange(i, i + 1) =~= "/"@);
                assert(text::occurs_at(path@, "/"@, i));
            }
            assert(none@ =~= Seq::<char>::empty());
        }
        none
    }
}

/// A path below a directory; a path from the top stays as it is.
pub open spec fn below_dir(dir: Seq<char>, path: Seq<char>) -> Seq<char> {
    if (path.len() > 0 && path[0] == '/') || dir.len() == 0 {
        path
    } else {
        dir + "/"@ + path
    }
}

/// See [`below_dir`].
fn put_below(dir: &str, path: &str) -> (r: String)
    ensures
        r@ == below_dir(dir@, path@),
{
    if dir.is_empty() {
        return path.to_owned();
    }
    let v = text::chars_of(path);
    if v.len() > 0 && v[0] == '/' {
        path.to_owned()
    } else {
        dir.to_owned().concat("/").concat(path)
    }
}

/// Whether the last part of a path has an extension.
pub open spec fn has_extension(path: Seq<char>) -> bool {
    let name = search::after_last(path, '/');
    name != ".."@ && name.len() > 0 && name.skip(1).contains('.')
}

/// See [`has_extension`].
fn extension_test(path: &str) -> (r: bool)
    ensures
        r == has_extension(path@),
{
    let name = search::text_after_last(path, '/');
    if text::same(name.as_str(), "..") {
        return false;
    }
    let v = text::chars_of(name.as_str());
    let mut i: usize = 1;
    while i < v.len()
        invariant
            1 <= i,
            v@ == name@,
            name@ == search::after_last(path@, '/'),
            name@ != ".."@,
            v@.len() > 0 ==> i <= v@.len(),
            forall|k: int| 1 <= k < i && k < v@.len() ==> v@[k] != '.',
        decreases v.len() - i,
    {
        if v[i] == '.' {
            assert(name@.skip(1)[i - 1] == '.');
            return true;
        }
        i += 1;
    }
    false
}

/// Where the configuration that another one extends lies. A name that does not
/// begin with a dot is that of a package; `is_file` says whether there is a
/// file under just that name.
pub open spec fn extended_path(
    root: Seq<char>,
    dir: Seq<char>,
    ext: Seq<char>,
    is_file: bool,
) -> Seq<char> {
    let p = if ext.len() > 0 && ext[0] == '.' {
        below_dir(dir, ext)
    } else {
        let q = package_path(root, ext);
        if has_extension(q) || is_file {
            q
        } else {
            q + "/tsconfig.json"@
        }
    };
    let name = search::after_last(p, '/');
    if has_extension(p) || name.len() == 0 || name == ".."@ {
        p
    } else {
        p + ".json"@
    }
}

/// Where a package lies.
pub open spec fn package_path(root: Seq<char>, name: Seq<char>) -> Seq<char> {
    below_dir(root + "/node_modules"@, name)
}

/// See [`extended_path`].
fn find_extended(root: &str, dir: &str, ext: &str, is_file: bool) -> (r: String)
    ensures
        r@ == extended_path(root@, dir@, ext@, is_file),
{
    let v = text::chars_of(ext);
    let p = if v.len() > 0 && v[0] == '.' {
        put_below(dir, ext)
    } else {
        let q = find_package(root, ext);
        if extension_test(q.as_str()) || is_file {
            q
        } else {
            q.concat("/tsconfig.json")
        }
    };
    let name = search::text_after_last(p.as_str(), '/');
    if extension_test(p.as_str()) || name.as_str().is_empty() || text::same(name.as_str(), "..") {
        p
    } else {
        p.concat(".json")
    }
}

/// See [`package_path`].
fn find_package(root: &str, name: &str) -> (r: String)
    ensures
        r@ == package_path(root@, name@),
{
    put_below(root.to_owned().concat("/node_modules").as_str(), name)
}

/// What a configuration says of paths, after those that it extends: what its
/// targets are relative to, and its rules.
pub struct ConfigParts {
    pub base_url: Option<String>,
    pub rules: Option<Vec<(String, Vec<String>)>>,
}

/// The model of [`ConfigParts`].
pub struct PartsModel {
    pub base_url: Option<Seq<char>>,
    pub rules: Option<Seq<Rule>>,
}

impl View for ConfigParts {
    type V = PartsModel;

    open spec fn view(&self) -> PartsModel {
        PartsModel {
            base_url: types::opt_text(self.base_url),
            rules: match self.rules {
                Some(r) => Some(rule_views(r@)),
                None => None,
            },
        }
    }
}

/// The texts in a list.
pub open spec fn texts_in(l: Seq<DatumModel>) -> Seq<Seq<char>>
    decreases l.len(),
{
    if l.len() == 0 {
        Seq::empty()
    } else {
        match l.last() {
            DatumModel::Text(t) => texts_in(l.drop_last()).push(t),
            _ => texts_in(l.drop_last()),
        }
    }
}

/// The rule of an entry.
pub open spec fn rule_of() -> spec_fn((Seq<char>, DatumModel)) -> Rule {
    |e: (Seq<char>, DatumModel)|
        (
            e.0,
            match e.1 {
                DatumModel::List(l) => texts_in(l),
                _ => Seq::empty(),
            },
        )
}

/// The rules that the entries of `paths` give, in the order in which they are
/// declared.
pub open spec fn rules_of(t: Entries) -> Seq<Rule> {
    t.map_values(rule_of())
}

/// The text under a key of a value.
pub open spec fn text_field(v: DatumModel, key: Seq<char>) -> Option<Seq<char>> {
    match value::field(v, key) {
        Some(DatumModel::Text(t)) => Some(t),
        _ => None,
    }
}

/// The compiler options of a configuration.
pub open spec fn options(json: DatumModel) -> DatumModel {
    match value::field(json, "compilerOptions"@) {
        Some(v) => v,
        None => DatumModel::Null,
    }
}

/// What a configuration in a directory says over what it extends.
pub open spec fn over_parts(
    json: DatumModel,
    root: Seq<char>,
    dir: Seq<char>,
    parent: PartsModel,
) -> PartsModel {
    PartsModel {
        base_url: match text_field(options(json), "baseUrl"@) {
            Some(b) => Some(joined_path(relative_dir(root, dir), b)),
            None => parent.base_url,
        },
        rules: match value::field(options(json), "paths"@) {
            Some(DatumModel::Table(t)) => Some(rules_of(t)),
            _ => parent.rules,
        },
    }
}

/// A directory as seen from the root; the root itself where it lies elsewhere.
pub open spec fn relative_dir(root: Seq<char>, dir: Seq<char>) -> Seq<char> {
    if is_below(root, dir) {
        slashed(dir.skip(root.len() as int + 1))
    } else {
        Seq::empty()
    }
}

/// See [`relative_dir`].
fn dir_from(root: &str, dir: &str) -> (r: String)
    ensures
        r@ == relative_dir(root@, dir@),
{
    match below(root, dir) {
        Some(rest) => with_slashes(rest.as_str()),
        None => {
            let none = String::new();
            assert(none@ =~= Seq::<char>::empty());
            none
        },
    }
}

/// See [`texts_in`].
fn collect_texts(l: &Vec<Datum>) -> (r: Vec<String>)
    ensures
        text::views(r@) == texts_in(value::items(l@)),
{
    let ghost all = value::items(l@);
    let mut out: Vec<String> = Vec::new();
    let mut i: usize = 0;
    assert(text::views(out@) =~= texts_in(all.take(0)));
    while i < l.len()
        invariant
            i <= l.len(),
            all == value::items(l@),
            text::views(out@) == texts_in(all.take(i as int)),
        decreases l.len() - i,
    {
        let ghost was = text::views(out@);
        assert(all.take(i + 1).drop_last() =~= all.take(i as int));
        assert(all.take(i + 1).last() == l@[i as int]@);
        if let Some(t) = l[i].as_text() {
            out.push(t.clone());
            assert(text::views(out@) =~= was.push(t@));
        }
        i += 1;
    }
    assert(all.take(l@.len() as int) =~= all);
    out
}

/// See [`rules_of`].
fn read_rules(t: &Vec<(String, Datum)>) -> (r: Vec<(String, Vec<String>)>)
    ensures
        rule_views(r@) == rules_of(value::entries(t@)),
{
    let ghost all = value::entries(t@).map_values(rule_of());
    let mut out: Vec<(String, Vec<String>)> = Vec::new();
    let mut i: usize = 0;
    while i < t.len()
        invariant
            i <= t.len(),
            all == value::entries(t@).map_values(rule_of()),
            rule_views(out@) == all.take(i as int),
        decreases t.len() - i,
    {
        proof {
            value::lemma_value_model(t@[i as int].1);
        }
        let targets = match &t[i].1 {
            Datum::List(l) => collect_texts(l),
            _ => Vec::new(),
        };
        let ghost was = out@;
        out.push((t[i].0.clone(), targets));
        proof {
            assert(value::entries(t@)[i as int] == (t@[i as int].0@, t@[i as int].1@));
            assert(text::views(targets@) =~= all[i as int].1);
            assert(rule_views(out@) =~= rule_views(was).push(all[i as int]));
        }
        i += 1;
    }
    assert(all.take(t@.len() as int) =~= all);
    out
}

/// See [`over_parts`].
pub fn lay_over(json: &Datum, root: &str, dir: &str, parent: ConfigParts) -> (r: ConfigParts)
    ensures
        r@ == over_parts(json@, root@, dir@, parent@),
{
    broadcast use value::lemma_value_model;

    let null = Datum::Null;
    let co: &Datum = match json.get("compilerOptions") {
        Some(v) => v,
        None => &null,
    };
    let declared = match co.get("baseUrl") {
        Some(v) => match v.as_text() {
            Some(b) => Some(
                join_rel(dir_from(root, dir).as_str(), b.as_str()),
            ),
            None => None,
        },
        None => None,
    };
    let base_url = match declared {
        Some(b) => Some(b),
        None => parent.base_url,
    };
    let rules = match co.get("paths") {
        Some(Datum::Table(t)) => Some(read_rules(t)),
        _ => parent.rules,
    };
    ConfigParts { base_url, rules }
}

/// How many configurations a chain has at most.
pub const MAX_CHAIN: usize = 5;

/// What a text says as JSON with comments; nothing where it does not parse.
pub open spec fn parsed_config(s: Seq<char>) -> Option<DatumModel> {
    match value::json_parsed(plain_json(s, false)) {
        Ok(v) => Some(v),
        Err(_) => None,
    }
}

/// Whether reading a file can give the text.
pub open spec fn reads<R: Fn(&str) -> Option<String>>(
    read: R,
    path: Seq<char>,
    answer: Option<String>,
) -> bool {
    exists|p: &str| p@ == path && #[trigger] read.ensures((p,), answer)
}

/// Whether the question for a file can be answered so.
pub open spec fn tells<I: Fn(&str) -> bool>(is_file: I, path: Seq<char>, answer: bool) -> bool {
    exists|p: &str| p@ == path && #[trigger] is_file.ensures((p,), answer)
}

/// Whether a configuration and those that it extends, at most `left` of them,
/// can say this of paths; `None` where the file cannot be read or parsed.
pub open spec fn chain_says<R: Fn(&str) -> Option<String>, I: Fn(&str) -> bool>(
    read: R,
    is_file: I,
    root: Seq<char>,
    path: Seq<char>,
    left: nat,
    says: Option<PartsModel>,
) -> bool
    decreases left, 0int,
{
    if left == 0 {
        says is None
    } else {
        exists|answer: Option<String>| #[trigger]
            reads(read, path, answer) && match answer {
                None => says is None,
                Some(t) => match parsed_config(t@) {
                    None => says is None,
                    Some(json) => match text_field(json, "extends"@) {
                        None => says == Some(
                            over_parts(json, root, dir_of(path), no_parts()),
                        ),
                        Some(ext) => extended_says(
                            read,
                            is_file,
                            root,
                            path,
                            json,
                            ext,
                            (left - 1) as nat,
                            says,
                        ),
                    },
                },
            }
    }
}

/// Whether a configuration that extends another one can say this of paths.
pub open spec fn extended_says<R: Fn(&str) -> Option<String>, I: Fn(&str) -> bool>(
    read: R,
    is_file: I,
    root: Seq<char>,
    path: Seq<char>,
    json: DatumModel,
    ext: Seq<char>,
    left: nat,
    says: Option<PartsModel>,
) -> bool
    decreases left, 1int,
{
    exists|file: bool, up: Option<PartsModel>|
        #![trigger asked_package(is_file, root, ext, file), some_parts(up)]
        asked_package(is_file, root, ext, file) && chain_says(
            read,
            is_file,
            root,
            extended_path(root, dir_of(path), ext, file),
            left,
            up,
        ) && says == Some(over_parts(json, root, dir_of(path), some_parts(up)))
}

/// What a configuration says, if it could be read.
pub open spec fn parts_view(o: Option<ConfigParts>) -> Option<PartsModel> {
    match o {
        Some(p) => Some(p@),
        None => None,
    }
}

/// What nothing says of paths.
pub open spec fn no_parts() -> PartsModel {
    PartsModel { base_url: None, rules: None }
}

/// What an extended configuration says, if it could be read.
pub open spec fn some_parts(up: Option<PartsModel>) -> PartsModel {
    match up {
        Some(p) => p,
        None => no_parts(),
    }
}

/// Whether the question for the file of a package can be answered so; it is
/// asked for names that do not begin with a dot.
pub open spec fn asked_package<I: Fn(&str) -> bool>(
    is_file: I,
    root: Seq<char>,
    ext: Seq<char>,
    file: bool,
) -> bool {
    if ext.len() > 0 && ext[0] == '.' {
        !file
    } else {
        tells(is_file, package_path(root, ext), file)
    }
}

/// What a configuration and those that it extends say of paths; see
/// [`chain_says`].
pub fn read_config<R: Fn(&str) -> Option<String>, I: Fn(&str) -> bool>(
    path: &str,
    root: &str,
    left: usize,
    read: &R,
    is_file: &I,
) -> (r: Option<ConfigParts>)
    requires
        forall|p: &str| #[trigger] read.requires((p,)),
        forall|p: &str| #[trigger] is_file.requires((p,)),
    ensures
        chain_says(
            *read,
            *is_file,
            root@,
            path@,
            left as nat,
            parts_view(r),
        ),
    decreases left,
{
    if left == 0 {
        return None;
    }
    let answer = read(path);
    assert(reads(*read, path@, answer));
    let text_of = match answer {
        Some(t) => t,
        None => return None,
    };
    let json = match value::parse_json(strip_jsonc(text_of.as_str()).as_str()) {
        Ok(v) => v,
        Err(_) => return None,
    };
    let dir = directory(path);
    let none = ConfigParts { base_url: None, rules: None };
    let ext = match json.get("extends") {
        Some(v) => match v.as_text() {
            Some(t) => Some(t),
            None => None,
        },
        None => None,
    };
    assert(parsed_config(text_of@) == Some(json@));
    match ext {
        None => {
            assert(text_field(json@, "extends"@) is None);
            let r = Some(lay_over(&json, root, dir.as_str(), none));
            assert(none@ == no_parts());
            assert(chain_says(*read, *is_file, root@, path@, left as nat, parts_view(r)));
            r
        },
        Some(ext) => {
            assert(text_field(json@, "extends"@) == Some(ext@));
            let v = text::chars_of(ext.as_str());
            let relative = v.len() > 0 && v[0] == '.';
            let file = if relative {
                false
            } else {
                let package = find_package(root, ext.as_str());
                is_file(package.as_str())
            };
            assert(asked_package(*is_file, root@, ext@, file));
            let parent = find_extended(root, dir.as_str(), ext.as_str(), file);
            let up = read_config(parent.as_str(), root, left - 1, read, is_file);
            let ghost said = parts_view(up);
            let base = match up {
                Some(p) => p,
                None => none,
            };
            assert(base@ == some_parts(said));
            let r = Some(lay_over(&json, root, dir.as_str(), base));
            assert(parts_view(r) == Some(
                over_parts(json@, root@, dir_of(path@), some_parts(said)),
            ));
            assert(chain_says(
                *read,
                *is_file,
                root@,
                extended_path(root@, dir_of(path@), ext@, file),
                (left - 1) as nat,
                said,
            ));
            proof {
                reveal_with_fuel(extended_says, 2);
                reveal_with_fuel(chain_says, 2);
            }
            assert(asked_package(*is_file, root@, ext@, file) && some_parts(said) == base@);
            assert(extended_says(
                *read,
                *is_file,
                root@,
                path@,
                json@,
                ext@,
                (left - 1) as nat,
                parts_view(r),
            ));
            r
        },
    }
}

/// A configuration file of a repository: its path from the root, and its text.
pub struct ConfigFile {
    pub rel: String,
    pub content: String,
}

/// What configuration files hold.
pub open spec fn file_views(v: Seq<ConfigFile>) -> Seq<(Seq<char>, Seq<char>)> {
    v.map_values(|f: ConfigFile| (f.rel@, f.content@))
}

/// The order of configuration files by path.
pub open spec fn file_order() -> spec_fn((Seq<char>, Seq<char>), (Seq<char>, Seq<char>)) -> bool {
    |a: (Seq<char>, Seq<char>), b: (Seq<char>, Seq<char>)| text::text_less(a.0, b.0)
}

/// The bytes that stand for configuration files: for each its path and the
/// hash of its text.
pub open spec fn stamp_bytes(files: Seq<(Seq<char>, Seq<char>)>) -> Seq<u8>
    decreases files.len(),
{
    if files.len() == 0 {
        Seq::empty()
    } else {
        stamp_bytes(files.drop_last()) + encode_utf8(files.last().0) + digest::sha256_hash(
            encode_utf8(files.last().1),
        )
    }
}

/// A configuration with rules: its directory, its file name, and what it says.
pub struct Candidate {
    pub dir: String,
    pub name: String,
    pub base_url: Option<String>,
    pub rules: Vec<(String, Vec<String>)>,
}

/// The model of a [`Candidate`].
pub struct CandidateModel {
    pub dir: Seq<char>,
    pub name: Seq<char>,
    pub base_url: Option<Seq<char>>,
    pub rules: Seq<Rule>,
}

impl View for Candidate {
    type V = CandidateModel;

    open spec fn view(&self) -> CandidateModel {
        CandidateModel {
            dir: self.dir@,
            name: self.name@,
            base_url: types::opt_text(self.base_url),
            rules: rule_views(self.rules@),
        }
    }
}

impl rows::Row for Candidate {
    fn copy(&self) -> (r: Candidate) {
        Candidate {
            dir: self.dir.clone(),
            name: self.name.clone(),
            base_url: match &self.base_url {
                Some(b) => Some(b.clone()),
                None => None,
            },
            rules: copy_rules(&self.rules),
        }
    }
}

impl rows::Row for TsConfigScope {
    fn copy(&self) -> (r: TsConfigScope) {
        TsConfigScope {
            dir: self.dir.clone(),
            base_url: self.base_url.clone(),
            rules: copy_rules(&self.rules),
        }
    }
}

/// A copy of rules.
fn copy_rules(v: &Vec<(String, Vec<String>)>) -> (r: Vec<(String, Vec<String>)>)
    ensures
        rule_views(r@) == rule_views(v@),
{
    let mut out: Vec<(String, Vec<String>)> = Vec::new();
    let mut i: usize = 0;
    while i < v.len()
        invariant
            i <= v.len(),
            rule_views(out@) == rule_views(v@).take(i as int),
        decreases v.len() - i,
    {
        let mut targets: Vec<String> = Vec::new();
        let from = &v[i].1;
        let mut j: usize = 0;
        while j < from.len()
            invariant
                j <= from.len(),
                text::views(targets@) == text::views(from@).take(j as int),
            decreases from.len() - j,
        {
            let ghost now = targets@;
            targets.push(from[j].clone());
            assert(text::views(targets@) =~= text::views(now).push(from@[j as int]@));
            j += 1;
        }
        assert(text::views(from@).take(from@.len() as int) =~= text::views(from@));
        let ghost was = out@;
        out.push((v[i].0.clone(), targets));
        assert(rule_views(out@) =~= rule_views(was).push(rule_views(v@)[i as int]));
        i += 1;
    }
    assert(rule_views(v@).take(v@.len() as int) =~= rule_views(v@));
    out
}

/// The candidate that a configuration gives: none where it has no rules.
pub open spec fn candidate_of(rel: Seq<char>, says: Option<PartsModel>) -> Option<CandidateModel> {
    match says {
        Some(p) => match p.rules {
            Some(rules) => if rules.len() == 0 {
                None
            } else {
                Some(
                    CandidateModel {
                        dir: dir_of(rel),
                        name: search::after_last(rel, '/'),
                        base_url: p.base_url,
                        rules,
                    },
                )
            },
            None => None,
        },
        None => None,
    }
}

/// The candidates of configurations, in their order.
pub open spec fn candidates(rels: Seq<Seq<char>>, says: Seq<Option<PartsModel>>) -> Seq<
    CandidateModel,
>
    decreases rels.len(),
{
    if rels.len() == 0 {
        Seq::empty()
    } else {
        let rest = candidates(rels.drop_last(), says.drop_last());
        match candidate_of(rels.last(), says.last()) {
            Some(c) => rest.push(c),
            None => rest,
        }
    }
}

/// The candidates of a directory.
pub open spec fn in_dir(dir: Seq<char>) -> spec_fn(CandidateModel) -> bool {
    |c: CandidateModel| c.dir == dir
}

/// The plain candidate of a directory.
pub open spec fn plain_in(dir: Seq<char>) -> spec_fn(CandidateModel) -> bool {
    |c: CandidateModel| c.dir == dir && c.name == "tsconfig.json"@
}

/// The candidate that a directory goes by: the plain one, or else the first.
pub open spec fn anchor(c: Seq<CandidateModel>, dir: Seq<char>) -> Option<CandidateModel> {
    match rows::first(c, plain_in(dir)) {
        Some(p) => Some(p),
        None => rows::first(c, in_dir(dir)),
    }
}

/// The scope of a directory.
pub open spec fn scope_of(c: Seq<CandidateModel>) -> spec_fn(Seq<char>) -> ScopeModel {
    |dir: Seq<char>|
        match anchor(c, dir) {
            Some(a) => ScopeModel {
                dir,
                base_url: match a.base_url {
                    Some(b) => b,
                    None => dir,
                },
                rules: a.rules,
            },
            None => ScopeModel { dir, base_url: dir, rules: Seq::empty() },
        }
}

/// Whether a scope comes before another: the deeper one first, then by name.
pub open spec fn scope_less(a: ScopeModel, b: ScopeModel) -> bool {
    if a.dir.len() != b.dir.len() {
        a.dir.len() > b.dir.len()
    } else {
        text::text_less(a.dir, b.dir)
    }
}

/// See [`scope_less`].
pub open spec fn scope_order() -> spec_fn(ScopeModel, ScopeModel) -> bool {
    |a: ScopeModel, b: ScopeModel| scope_less(a, b)
}

/// The scopes of candidates: one for each directory, the deepest first.
pub open spec fn scopes_of(c: Seq<CandidateModel>) -> Seq<ScopeModel> {
    order::arranged(
        rows::distinct(c.map_values(|x: CandidateModel| x.dir)).map_values(scope_of(c)),
        scope_order(),
    )
}

/// See [`scopes_of`].
pub fn build_scopes(cands: &Vec<Candidate>) -> (r: AliasMap)
    ensures
        r@ == scopes_of(rows::seen(cands@)),
{
    let ghost c = rows::seen(cands@);
    let ghost f = |x: CandidateModel| x.dir;
    let get = |x: &Candidate| -> (r: String)
        ensures
            r@ == x@.dir,
    { x.dir.clone() };
    let dirs = rows::distinct_texts(cands, Ghost(f), get);
    let ghost names = text::views(dirs@);
    let ghost all = names.map_values(scope_of(c));
    let mut out: Vec<TsConfigScope> = Vec::new();
    let mut i: usize = 0;
    while i < dirs.len()
        invariant
            i <= dirs.len(),
            c == rows::seen(cands@),
            names == text::views(dirs@),
            names == rows::distinct(c.map_values(|x: CandidateModel| x.dir)),
            all == names.map_values(scope_of(c)),
            rows::seen(out@) == all.take(i as int),
        decreases dirs.len() - i,
    {
        let dir = &dirs[i];
        let test = |x: &Candidate| -> (t: bool)
            ensures
                t == plain_in(dir@)(x@),
        {
            text::same(x.dir.as_str(), dir.as_str()) && text::same(
                x.name.as_str(),
                "tsconfig.json",
            )
        };
        let mut k: usize = rows::find(cands, Ghost(plain_in(dir@)), test);
        if k == cands.len() {
            let test = |x: &Candidate| -> (t: bool)
                ensures
                    t == in_dir(dir@)(x@),
            { text::same(x.dir.as_str(), dir.as_str()) };
            k = rows::find(cands, Ghost(in_dir(dir@)), test);
        }
        let scope = if k < cands.len() {
            let a = rows::Row::copy(&cands[k]);
            assert(anchor(c, dir@) == Some(a@));
            TsConfigScope {
                dir: dir.clone(),
                base_url: match a.base_url {
                    Some(b) => b,
                    None => dir.clone(),
                },
                rules: a.rules,
            }
        } else {
            TsConfigScope { dir: dir.clone(), base_url: dir.clone(), rules: Vec::new() }
        };
        proof {
            assert(names[i as int] == dir@);
            assert(scope@.rules =~= all[i as int].rules);
            assert(scope@ == all[i as int]);
        }
        let ghost was = out@;
        out.push(scope);
        assert(rows::seen(out@) =~= rows::seen(was).push(all[i as int]));
        i += 1;
    }
    assert(all.take(dirs@.len() as int) =~= all);
    let ghost s = out@;
    let ghost view = |x: TsConfigScope| x@;
    let ghost before = |a: TsConfigScope, b: TsConfigScope| scope_less(a@, b@);
    let less = |a: &TsConfigScope, b: &TsConfigScope| -> (t: bool)
        ensures
            t == scope_less(a@, b@),
    {
        let x: usize = text::chars_of(a.dir.as_str()).len();
        let y: usize = text::chars_of(b.dir.as_str()).len();
        if x != y {
            x > y
        } else {
            text::less(a.dir.as_str(), b.dir.as_str())
        }
    };
    let scopes = order::arrange(out, Ghost(before), less);
    proof {
        order::lemma_arranged_map(s, before, view, scope_order());
        assert(rows::seen(s) =~= s.map_values(view));
    }
    let r = AliasMap { scopes };
    assert(r@ =~= scopes@.map_values(view));
    r
}

/// See [`stamp_bytes`]; the hash of these bytes.
pub fn configs_hash(files: &Vec<ConfigFile>) -> (r: String)
    ensures
        r@ == digest::hash_text(stamp_bytes(file_views(files@))),
{
    let ghost all = file_views(files@);
    let mut bytes: Vec<u8> = Vec::new();
    let mut i: usize = 0;
    assert(bytes@ =~= stamp_bytes(all.take(0)));
    while i < files.len()
        invariant
            i <= files.len(),
            all == file_views(files@),
            bytes@ == stamp_bytes(all.take(i as int)),
        decreases files.len() - i,
    {
        let f = &files[i];
        assert(all.take(i + 1).drop_last() =~= all.take(i as int));
        assert(all.take(i + 1).last() == (f.rel@, f.content@));
        digest::add_bytes(&mut bytes, f.rel.as_str());
        let mut content: Vec<u8> = Vec::new();
        digest::add_bytes(&mut content, f.content.as_str());
        assert(content@ =~= encode_utf8(f.content@));
        let mut h = digest::hash_bytes(&content);
        bytes.append(&mut h);
        i += 1;
    }
    assert(all.take(files@.len() as int) =~= all);
    digest::hash_of(&bytes)
}

/// Whether each configuration can say this of paths.
pub open spec fn each_says<R: Fn(&str) -> Option<String>, I: Fn(&str) -> bool>(
    read: R,
    is_file: I,
    root: Seq<char>,
    files: Seq<(Seq<char>, Seq<char>)>,
    says: Seq<Option<PartsModel>>,
) -> bool {
    says.len() == files.len() && forall|i: int|
        0 <= i < files.len() ==> chain_says(
            read,
            is_file,
            root,
            root + "/"@ + files[i].0,
            MAX_CHAIN as nat,
            #[trigger] says[i],
        )
}

/// The paths of configuration files.
pub open spec fn rels(files: Seq<(Seq<char>, Seq<char>)>) -> Seq<Seq<char>> {
    files.map_values(|f: (Seq<char>, Seq<char>)| f.0)
}

/// The aliases that the configuration files of a repository declare, and a
/// hash of the files.
pub fn load_alias_maps<R: Fn(&str) -> Option<String>, I: Fn(&str) -> bool>(
    root: &str,
    configs: Vec<ConfigFile>,
    read: &R,
    is_file: &I,
) -> (r: (AliasMap, String))
    requires
        forall|p: &str| #[trigger] read.requires((p,)),
        forall|p: &str| #[trigger] is_file.requires((p,)),
    ensures
        ({
            let files = order::arranged(file_views(configs@), file_order());
            &&& r.1@ == digest::hash_text(stamp_bytes(files))
            &&& exists|says: Seq<Option<PartsModel>>| #[trigger]
                each_says(*read, *is_file, root@, files, says) && r.0@ == scopes_of(
                    candidates(rels(files), says),
                )
        }),
{
    let ghost all = configs@;
    let ghost f = |x: ConfigFile| (x.rel@, x.content@);
    let ghost before = |a: ConfigFile, b: ConfigFile| text::text_less(a.rel@, b.rel@);
    let less = |a: &ConfigFile, b: &ConfigFile| -> (t: bool)
        ensures
            t == text::text_less(a.rel@, b.rel@),
    { text::less(a.rel.as_str(), b.rel.as_str()) };
    let sorted = order::arrange(configs, Ghost(before), less);
    proof {
        order::lemma_arranged_map(all, before, f, file_order());
        assert(file_views(sorted@) =~= sorted@.map_values(f));
        assert(file_views(all) =~= all.map_values(f));
    }
    let ghost files = file_views(sorted@);
    let hash = configs_hash(&sorted);
    let ghost mut says: Seq<Option<PartsModel>> = Seq::empty();
    let mut cands: Vec<Candidate> = Vec::new();
    let mut i: usize = 0;
    proof {
        assert(rows::seen(cands@) =~= candidates(rels(files.take(0)), says));
    }
    while i < sorted.len()
        invariant
            i <= sorted.len(),
            files == file_views(sorted@),
            says.len() == i,
            forall|p: &str| #[trigger] read.requires((p,)),
            forall|p: &str| #[trigger] is_file.requires((p,)),
            forall|k: int|
                0 <= k < i ==> chain_says(
                    *read,
                    *is_file,
                    root@,
                    root@ + "/"@ + files[k].0,
                    MAX_CHAIN as nat,
                    #[trigger] says[k],
                ),
            rows::seen(cands@) == candidates(rels(files.take(i as int)), says),
        decreases sorted.len() - i,
    {
        let rel = &sorted[i].rel;
        let path = root.to_owned().concat("/").concat(rel.as_str());
        let parts = read_config(path.as_str(), root, MAX_CHAIN, read, is_file);
        let ghost was = says;
        proof {
            assert(files[i as int].0 == rel@);
            says = says.push(parts_view(parts));
            assert(says.drop_last() =~= was);
            assert(rels(files.take(i + 1)).drop_last() =~= rels(files.take(i as int)));
            assert(rels(files.take(i + 1)).last() == rel@);
        }
        let ghost so_far = cands@;
        if let Some(p) = parts {
            if let Some(rules) = p.rules {
                assert(rule_views(rules@).len() == rules@.len());
                if rules.len() > 0 {
                    let cand = Candidate {
                        dir: directory(rel.as_str()),
                        name: search::text_after_last(rel.as_str(), '/'),
                        base_url: p.base_url,
                        rules,
                    };
                    assert(candidate_of(rel@, says.last()) == Some(cand@));
                    cands.push(cand);
                    assert(rows::seen(cands@) =~= rows::seen(so_far).push(cand@));
                }
            }
        }
        i += 1;
    }
    proof {
        assert(files.take(sorted@.len() as int) =~= files);
        assert(each_says(*read, *is_file, root@, files, says));
    }
    (build_scopes(&cands), hash)
}

proof fn lemma_scope_order()
    ensures
        order::is_order(scope_order()),
{
    let before = scope_order();
    assert forall|a: ScopeModel, b: ScopeModel| #[trigger] before(a, b) implies !before(b, a) by {
        order::lemma_text_asymmetric(a.dir, b.dir);
    }
    assert forall|a: ScopeModel, b: ScopeModel, c: ScopeModel|
        #![trigger before(a, b), before(a, c)]
        #![trigger before(a, b), before(c, b)]
        before(a, b) implies before(a, c) || before(c, b) by {
        if a.dir.len() == b.dir.len() && b.dir.len() == c.dir.len() {
            order::lemma_text_between(a.dir, b.dir, c.dir);
        }
    }
}

/// The nearest configuration wins: of the scopes that cover a file, the one
/// that its imports go by is the deepest.
pub proof fn law_nearest_scope_wins(c: Seq<CandidateModel>, importer: Seq<char>, other: int)
    requires
        0 <= other < scopes_of(c).len(),
        scope_covers(importer)(scopes_of(c)[other]),
    ensures
        rows::first(scopes_of(c), scope_covers(importer)) matches Some(s) && s.dir.len()
            >= scopes_of(c)[other].dir.len(),
{
    let all = scopes_of(c);
    let unsorted = rows::distinct(c.map_values(|x: CandidateModel| x.dir)).map_values(scope_of(c));
    lemma_scope_order();
    order::law_arranged(unsorted, scope_order());
    rows::lemma_first_at(all, scope_covers(importer));
    let k = rows::first_at(all, scope_covers(importer)).unwrap();
    if k < other {
        assert(!scope_order()(all[other], all[k]));
    }
}

} // verus!
