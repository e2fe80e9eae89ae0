//! The rules of a repository's own ignore file.

use ignore::gitignore::{Gitignore, GitignoreBuilder};
use vstd::prelude::*;
use vstd::string::*;

use crate::rows;
use crate::text;

verus! {

/// `ignore::gitignore::GitignoreBuilder`, which collects rules.
#[verifier::external_type_specification]
#[verifier::external_body]
pub struct ExGitignoreBuilder(GitignoreBuilder);

/// `ignore::gitignore::Gitignore`, which matches paths against rules.
#[verifier::external_type_specification]
#[verifier::external_body]
pub struct ExGitignore(Gitignore);

/// The rules that a builder has collected.
pub uninterp spec fn collected_rules(b: GitignoreBuilder) -> Seq<Seq<char>>;

/// The rules of a matcher.
pub uninterp spec fn matcher_rules(g: Gitignore) -> Seq<Seq<char>>;

/// Whether a line is a rule, a comment or empty.
pub uninterp spec fn is_rule(line: Seq<char>) -> bool;

/// Whether a matcher can be made of rules.
pub uninterp spec fn has_matcher(rules: Seq<Seq<char>>) -> bool;

/// Whether rules leave a file out, by its path or by that of a directory that it
/// is in.
pub uninterp spec fn is_left_out(rules: Seq<Seq<char>>, path: Seq<char>) -> bool;

/// Whether a path leads downwards from the directory of the rules.
pub open spec fn leads_down(path: Seq<char>) -> bool {
    !("/"@.is_prefix_of(path)) && !("./"@.is_prefix_of(path))
}

/// `GitignoreBuilder::new` at the directory of the rules.
#[verifier::external_body]
fn no_rules() -> (b: GitignoreBuilder)
    ensures
        collected_rules(b) == Seq::<Seq<char>>::empty(),
{
    GitignoreBuilder::new(".")
}

/// `GitignoreBuilder::add_line`: adds a line, or says that its pattern cannot be
/// read, which depends on the line alone.
#[verifier::external_body]
fn add_rule(b: &mut GitignoreBuilder, line: &str) -> (r: bool)
    ensures
        r == is_rule(line@),
        collected_rules(*final(b)) == (if r {
            collected_rules(*old(b)).push(line@)
        } else {
            collected_rules(*old(b))
        }),
{
    b.add_line(None, line).is_ok()
}

/// `GitignoreBuilder::build`: the matcher of the rules, where one can be made of
/// them.
#[verifier::external_body]
fn make_matcher(b: &GitignoreBuilder) -> (r: Option<Gitignore>)
    ensures
        match r {
            Some(g) => matcher_rules(g) == collected_rules(*b) && has_matcher(
                matcher_rules(g),
            ),
            None => !has_matcher(collected_rules(*b)),
        },
{
    b.build().ok()
}

/// `Gitignore::matched_path_or_any_parents` for a file, which depends on the
/// rules and the path alone. It panics on a path from the root of the file
/// system.
#[verifier::external_body]
fn matches_path(g: &Gitignore, path: &str) -> (r: bool)
    requires
        leads_down(path@),
    ensures
        r == is_left_out(matcher_rules(*g), path@),
{
    g.matched_path_or_any_parents(path, false).is_ignore()
}

/// A text without the byte order marks before it.
pub open spec fn without_marks(s: Seq<char>) -> Seq<char>
    decreases s.len(),
{
    if s.len() > 0 && s[0] == '\u{feff}' {
        without_marks(s.drop_first())
    } else {
        s
    }
}

/// The lines of an ignore file.
pub open spec fn rule_lines(file: Seq<char>) -> Seq<Seq<char>> {
    let l = text::lines(file);
    if l.len() == 0 {
        l
    } else {
        l.update(0, without_marks(l[0]))
    }
}

/// Whether an ignore file can be used.
pub open spec fn is_usable(file: Seq<char>) -> bool {
    &&& forall|i: int| 0 <= i < rule_lines(file).len() ==> is_rule(#[trigger] rule_lines(file)[i])
    &&& has_matcher(rule_lines(file))
}

/// Whether rules keep a path.
pub open spec fn keeps(rules: Seq<Seq<char>>) -> spec_fn(Seq<char>) -> bool {
    |p: Seq<char>| !is_left_out(rules, p)
}

/// See [`without_marks`].
fn skip_marks(s: &str) -> (r: String)
    ensures
        r@ == without_marks(s@),
{
    let v = text::chars_of(s);
    let mut i: usize = 0;
    assert(v@.skip(0) =~= v@);
    while i < v.len() && v[i] == '\u{feff}'
        invariant
            i <= v.len(),
            v@ == s@,
            without_marks(v@.skip(i as int)) == without_marks(s@),
        decreases v.len() - i,
    {
        assert(v@.skip(i as int).drop_first() =~= v@.skip(i + 1));
        i += 1;
    }
    let r = text::slice(v.as_slice(), i, v.len());
    assert(r@ =~= v@.skip(i as int));
    r
}

/// The rules of an ignore file.
pub struct IgnoreRules {
    matcher: Gitignore,
}

impl IgnoreRules {
    /// The lines of the file.
    pub closed spec fn rules(&self) -> Seq<Seq<char>> {
        matcher_rules(self.matcher)
    }

    /// The rules of an ignore file; nothing where one of its lines is no rule.
    pub fn read(file: &str) -> (r: Option<IgnoreRules>)
        ensures
            match r {
                Some(x) => is_usable(file@) && x.rules() == rule_lines(file@),
                None => !is_usable(file@),
            },
    {
        let lines = text::lines_of(file);
        let ghost all = rule_lines(file@);
        let mut b = no_rules();
        let mut i: usize = 0;
        assert(all.take(0) =~= Seq::empty());
        while i < lines.len()
            invariant
                i <= lines.len(),
                text::views(lines@) == text::lines(file@),
                all == rule_lines(file@),
                collected_rules(b) == all.take(i as int),
                forall|k: int| 0 <= k < i ==> is_rule(#[trigger] all[k]),
            decreases lines.len() - i,
        {
            assert(text::views(lines@)[i as int] == lines@[i as int]@);
            let line = if i == 0 {
                skip_marks(lines[i].as_str())
            } else {
                lines[i].clone()
            };
            assert(all[i as int] == line@);
            if !add_rule(&mut b, line.as_str()) {
                return None;
            }
            assert(all.take(i + 1) =~= all.take(i as int).push(line@));
            i += 1;
        }
        assert(all.take(all.len() as int) =~= all);
        match make_matcher(&b) {
            Some(matcher) => Some(IgnoreRules { matcher }),
            None => None,
        }
    }

    /// Which of the paths the rules leave out.
    fn left_out(&self, paths: &Vec<String>) -> (r: Vec<bool>)
        requires
            forall|i: int| 0 <= i < paths@.len() ==> leads_down((#[trigger] paths@[i])@),
        ensures
            r@.len() == paths@.len(),
            forall|i: int|
                0 <= i < r@.len() ==> #[trigger] r@[i] == is_left_out(self.rules(), paths@[i]@),
    {
        let mut r: Vec<bool> = Vec::new();
        let mut i: usize = 0;
        while i < paths.len()
            invariant
                i <= paths.len(),
                r@.len() == i,
                forall|i: int| 0 <= i < paths@.len() ==> leads_down((#[trigger] paths@[i])@),
                forall|k: int|
                    0 <= k < i ==> #[trigger] r@[k] == is_left_out(self.rules(), paths@[k]@),
            decreases paths.len() - i,
        {
            r.push(matches_path(&self.matcher, paths[i].as_str()));
            i += 1;
        }
        r
    }

    /// The paths that the rules keep.
    pub fn keep(&self, paths: Vec<String>) -> (r: Vec<String>)
        requires
            forall|i: int| 0 <= i < paths@.len() ==> leads_down((#[trigger] paths@[i])@),
        ensures
            text::views(r@) == rows::kept(text::views(paths@), keeps(self.rules())),
    {
        let out = self.left_out(&paths);
        let r = unmarked(&paths, &out);
        proof {
            lemma_marks(text::views(paths@), out@, keeps(self.rules()));
        }
        r
    }
}

/// The items without a mark.
pub open spec fn without_marked(s: Seq<Seq<char>>, marks: Seq<bool>) -> Seq<Seq<char>>
    decreases s.len(),
{
    if s.len() == 0 {
        s
    } else {
        let rest = without_marked(s.drop_last(), marks);
        if marks[s.len() - 1] {
            rest
        } else {
            rest.push(s.last())
        }
    }
}

/// See [`without_marked`].
pub fn unmarked(paths: &Vec<String>, marks: &Vec<bool>) -> (r: Vec<String>)
    requires
        marks@.len() == paths@.len(),
    ensures
        text::views(r@) == without_marked(text::views(paths@), marks@),
{
    let ghost all = text::views(paths@);
    let mut r: Vec<String> = Vec::new();
    let mut i: usize = 0;
    assert(text::views(r@) =~= all.take(0));
    while i < paths.len()
        invariant
            i <= paths.len(),
            marks@.len() == paths@.len(),
            all == text::views(paths@),
            text::views(r@) == without_marked(all.take(i as int), marks@),
        decreases paths.len() - i,
    {
        let ghost was = text::views(r@);
        assert(all.take(i + 1).drop_last() =~= all.take(i as int));
        assert(all.take(i + 1).last() == paths@[i as int]@);
        if !marks[i] {
            r.push(paths[i].clone());
            assert(text::views(r@) =~= was.push(paths@[i as int]@));
        }
        i += 1;
    }
    assert(all.take(paths@.len() as int) =~= all);
    r
}

/// Without what a test refuses, the items that it keeps are left.
proof fn lemma_marks(s: Seq<Seq<char>>, marks: Seq<bool>, test: spec_fn(Seq<char>) -> bool)
    requires
        marks.len() >= s.len(),
        forall|i: int| 0 <= i < s.len() ==> marks[i] == !test(#[trigger] s[i]),
    ensures
        without_marked(s, marks) == rows::kept(s, test),
    decreases s.len(),
{
    if s.len() > 0 {
        assert forall|i: int| 0 <= i < s.len() - 1 implies marks[i] == !test(
            #[trigger] s.drop_last()[i],
        ) by {
            assert(s.drop_last()[i] == s[i]);
        }
        lemma_marks(s.drop_last(), marks, test);
        assert(s.last() == s[s.len() - 1]);
    }
}

/// See [`leads_down`].
pub fn is_downward(path: &str) -> (r: bool)
    ensures
        r == leads_down(path@),
{
    !text::begins_with(path, "/") && !text::begins_with(path, "./")
}

} // verus!
