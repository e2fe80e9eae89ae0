//! What the history of a repository says about files that change together.

use vstd::prelude::*;

use crate::order;
use crate::pairs::PairMap;
use crate::rows;
use crate::store_lists;
use crate::tables::{CoChange, CoChangeModel};
use crate::text;

verus! {

/// Commits with more files than this say nothing.
pub const MAX_FILES_PER_COMMIT: usize = 30;

/// Pairs that occur less often than this are left out.
pub const MIN_PAIR_COUNT: usize = 2;

/// At most this many pairs are kept.
pub const MAX_PAIRS: usize = 20_000;

/// A pair of file names.
pub type Pair = (Seq<char>, Seq<char>);

/// Two files as a pair, the lesser name first.
pub open spec fn ordered(a: Seq<char>, b: Seq<char>) -> Pair {
    if text::text_less(a, b) {
        (a, b)
    } else {
        (b, a)
    }
}

/// The pairs of files of a commit.
pub open spec fn pairs_of(files: Seq<Seq<char>>) -> Seq<Pair>
    decreases files.len(),
{
    if files.len() == 0 {
        Seq::empty()
    } else {
        pairs_of(files.drop_last()) + files.drop_last().map_values(
            |f: Seq<char>| ordered(f, files.last()),
        )
    }
}

/// The files of a commit: the lines that are not blank.
pub open spec fn files_of(lines: Seq<Seq<char>>) -> Seq<Seq<char>>
    decreases lines.len(),
{
    if lines.len() == 0 {
        lines
    } else {
        let rest = files_of(lines.drop_last());
        let line = text::trim(lines.last());
        if line.len() > 0 {
            rest.push(line)
        } else {
            rest
        }
    }
}

/// The pairs of files of commits.
pub open spec fn all_pairs(commits: Seq<Seq<char>>) -> Seq<Pair>
    decreases commits.len(),
{
    if commits.len() == 0 {
        Seq::empty()
    } else {
        let rest = all_pairs(commits.drop_last());
        let files = files_of(text::split_char(commits.last(), '\n'));
        if 2 <= files.len() <= MAX_FILES_PER_COMMIT {
            rest + pairs_of(files)
        } else {
            rest
        }
    }
}

/// The test for a pair.
pub open spec fn is_pair(p: Pair) -> spec_fn(Pair) -> bool {
    |q: Pair| q == p
}

/// How often a pair occurs.
pub open spec fn occurrences(s: Seq<Pair>, p: Pair) -> nat {
    rows::kept(s, is_pair(p)).len()
}

/// The row of a pair.
pub open spec fn pair_row(s: Seq<Pair>) -> spec_fn(Pair) -> CoChangeModel {
    |p: Pair|
        CoChangeModel {
            file_a: p.0,
            file_b: p.1,
            n: if occurrences(s, p) > u32::MAX {
                u32::MAX
            } else {
                occurrences(s, p) as u32
            },
        }
}

/// The files that changed together, the most frequent pairs first: of a log in
/// which a zero character begins each commit and its files follow line by line.
pub open spec fn cochanges_in(log: Seq<char>) -> Seq<CoChangeModel> {
    let s = all_pairs(text::split_char(log, '\0'));
    rows::limited(
        order::arranged(
            rows::kept(
                rows::distinct(s),
                |p: Pair| occurrences(s, p) >= MIN_PAIR_COUNT,
            ).map_values(pair_row(s)),
            store_lists::cochange_order(),
        ),
        MAX_PAIRS as nat,
    )
}

/// Pairs with the number of times that each occurs.
struct Counter {
    order: Vec<(String, String)>,
    counts: PairMap,
}

/// What pairs hold.
spec fn pair_views(v: Seq<(String, String)>) -> Seq<Pair> {
    v.map_values(|p: (String, String)| (p.0@, p.1@))
}

/// The number of occurrences as it is kept.
spec fn capped(n: nat) -> usize {
    if n > usize::MAX {
        usize::MAX
    } else {
        n as usize
    }
}

impl Counter {
    /// Whether the counter holds what was counted.
    spec fn holds(self, s: Seq<Pair>) -> bool {
        &&& self.counts.wf()
        &&& pair_views(self.order@) == rows::distinct(s)
        &&& forall|p: Pair| #[trigger] self.counts@.contains_key(p) <==> s.contains(p)
        &&& forall|p: Pair| #[trigger]
            self.counts@.contains_key(p) ==> self.counts@[p] == capped(occurrences(s, p))
    }

    /// Counts a pair.
    fn count(&mut self, a: &str, b: &str, Ghost(s): Ghost<Seq<Pair>>)
        requires
            old(self).holds(s),
        ensures
            final(self).holds(s.push((a@, b@))),
    {
        let ghost p = (a@, b@);
        let ghost t = s.push(p);
        let ghost before = self.counts@;
        let ghost was = pair_views(self.order@);
        proof {
            assert(t.drop_last() =~= s);
            rows::lemma_distinct(s);
            assert forall|q: Pair| occurrences(t, q) == occurrences(s, q) + if q == p {
                1nat
            } else {
                0nat
            } by {
                rows::lemma_kept_push(s, p, is_pair(q));
            }
            assert forall|q: Pair| #[trigger] t.contains(q) <==> s.contains(q) || q == p by {
                if s.contains(q) {
                    let i = choose|i: int| 0 <= i < s.len() && s[i] == q;
                    assert(t[i] == q);
                }
                if t.contains(q) {
                    let i = choose|i: int| 0 <= i < t.len() && t[i] == q;
                    if i < s.len() {
                        assert(s[i] == q);
                    }
                }
                assert(t[s.len() as int] == p);
            }
        }
        match self.counts.get(a, b) {
            Some(n) => {
                let m: usize = if n == usize::MAX {
                    n
                } else {
                    n + 1
                };
                self.counts.insert(a, b, m);
                assert(s.contains(p));
                assert(rows::distinct(t) == rows::distinct(s));
            },
            None => {
                assert(!s.contains(p));
                proof {
                    lemma_none(s, p);
                }
                self.counts.insert(a, b, 1);
                self.order.push((a.to_owned(), b.to_owned()));
                assert(pair_views(self.order@) =~= was.push(p));
            },
        }
        assert(self.counts@.dom() =~= before.dom().insert(p));
    }
}

proof fn lemma_none(s: Seq<Pair>, p: Pair)
    requires
        !s.contains(p),
    ensures
        occurrences(s, p) == 0,
{
    let test = is_pair(p);
    rows::lemma_kept(s, test);
    let k = rows::kept(s, test);
    if k.len() > 0 {
        assert(s.contains(k[0]));
        assert(test(k[0]));
    }
}

/// See [`files_of`].
fn commit_files(block: &str) -> (r: Vec<String>)
    ensures
        text::views(r@) == files_of(text::split_char(block@, '\n')),
{
    let lines = text::split_on(block, '\n');
    let ghost all = text::views(lines@);
    let mut out: Vec<String> = Vec::new();
    let mut i: usize = 0;
    assert(text::views(out@) =~= files_of(all.take(0)));
    while i < lines.len()
        invariant
            i <= lines.len(),
            all == text::views(lines@),
            text::views(out@) == files_of(all.take(i as int)),
        decreases lines.len() - i,
    {
        let ghost was = text::views(out@);
        let line = text::trimmed(lines[i].as_str());
        assert(all.take(i + 1).drop_last() =~= all.take(i as int));
        assert(all.take(i + 1).last() == lines@[i as int]@);
        if !line.as_str().is_empty() {
            out.push(line);
            assert(text::views(out@) =~= was.push(line@));
        }
        i += 1;
    }
    assert(all.take(lines@.len() as int) =~= all);
    out
}

/// Counts the pairs of a commit.
fn count_pairs(c: &mut Counter, files: &Vec<String>, Ghost(s): Ghost<Seq<Pair>>)
    requires
        old(c).holds(s),
    ensures
        final(c).holds(s + pairs_of(text::views(files@))),
{
    let ghost all = text::views(files@);
    let mut j: usize = 0;
    assert(all.len() == files@.len());
    assert(s + pairs_of(all.take(0)) =~= s);
    while j < files.len()
        invariant
            j <= files.len(),
            all == text::views(files@),
            all.len() == files@.len(),
            c.holds(s + pairs_of(all.take(j as int))),
        decreases files.len() - j,
    {
        let ghost so_far = s + pairs_of(all.take(j as int));
        let ghost row = all.take(j as int).map_values(|f: Seq<char>| ordered(f, all[j as int]));
        let mut i: usize = 0;
        assert(so_far + row.take(0) =~= so_far);
        while i < j
            invariant
                i <= j < files.len(),
                all == text::views(files@),
                all.len() == files@.len(),
                row == all.take(j as int).map_values(|f: Seq<char>| ordered(f, all[j as int])),
                c.holds(so_far + row.take(i as int)),
            decreases j - i,
        {
            let a = files[i].as_str();
            let b = files[j].as_str();
            proof {
                assert(all[i as int] == a@);
                assert(all[j as int] == b@);
                assert(row[i as int] == ordered(a@, b@));
                assert((so_far + row.take(i as int)).push(row[i as int]) =~= so_far + row.take(
                    i + 1,
                ));
            }
            if text::less(a, b) {
                c.count(a, b, Ghost(so_far + row.take(i as int)));
            } else {
                c.count(b, a, Ghost(so_far + row.take(i as int)));
            }
            i += 1;
        }
        proof {
            let t = all.take(j + 1);
            assert(t.drop_last() =~= all.take(j as int));
            assert(t.last() == all[j as int]);
            assert(row.take(j as int) =~= row);
            assert(t.drop_last().map_values(|f: Seq<char>| ordered(f, t.last())) =~= row);
            assert(so_far + row =~= s + pairs_of(t));
        }
        j += 1;
    }
    assert(all.take(files@.len() as int) =~= all);
}

/// The files that changed together; see [`cochanges_in`].
pub fn compute_cochanges(log: &str) -> (r: Vec<CoChange>)
    ensures
        rows::seen(r@) == cochanges_in(log@),
{
    let blocks = text::split_on(log, '\0');
    let ghost all = text::views(blocks@);
    let mut c = Counter { order: Vec::new(), counts: PairMap::new() };
    let mut i: usize = 0;
    proof {
        assert(all_pairs(all.take(0)) =~= Seq::empty());
        assert(pair_views(c.order@) =~= rows::distinct(Seq::empty()));
    }
    while i < blocks.len()
        invariant
            i <= blocks.len(),
            all == text::views(blocks@),
            c.holds(all_pairs(all.take(i as int))),
        decreases blocks.len() - i,
    {
        let files = commit_files(blocks[i].as_str());
        assert(all.take(i + 1).drop_last() =~= all.take(i as int));
        assert(all.take(i + 1).last() == blocks@[i as int]@);
        assert(text::views(files@).len() == files@.len());
        if files.len() >= 2 && files.len() <= MAX_FILES_PER_COMMIT {
            count_pairs(&mut c, &files, Ghost(all_pairs(all.take(i as int))));
        }
        i += 1;
    }
    assert(all.take(blocks@.len() as int) =~= all);
    let ghost s = all_pairs(all);
    let ghost keep = |p: Pair| occurrences(s, p) >= MIN_PAIR_COUNT;
    let ghost pairs = pair_views(c.order@);
    let mut out: Vec<CoChange> = Vec::new();
    let mut k: usize = 0;
    assert(pairs.len() == c.order@.len());
    assert(rows::seen(out@) =~= rows::kept(pairs.take(0), keep).map_values(pair_row(s)));
    while k < c.order.len()
        invariant
            k <= c.order.len(),
            c.holds(s),
            keep == |p: Pair| occurrences(s, p) >= MIN_PAIR_COUNT,
            pairs == pair_views(c.order@),
            pairs.len() == c.order@.len(),
            rows::seen(out@) == rows::kept(pairs.take(k as int), keep).map_values(pair_row(s)),
        decreases c.order.len() - k,
    {
        let a = c.order[k].0.as_str();
        let b = c.order[k].1.as_str();
        let ghost p = (a@, b@);
        proof {
            rows::lemma_distinct(s);
            assert(pairs[k as int] == p);
            assert(pairs.contains(p));
            rows::lemma_kept_next(pairs, k as int, keep);
        }
        let ghost done = rows::kept(pairs.take(k as int), keep);
        let n: usize = match c.counts.get(a, b) {
            Some(n) => n,
            None => 0,
        };
        assert(c.counts@.contains_key(p));
        assert(n == capped(occurrences(s, p)));
        if n >= MIN_PAIR_COUNT {
            let count: u32 = if n > 0xffff_ffff {
                0xffff_ffff
            } else {
                n as u32
            };
            let ghost was = out@;
            let row = CoChange { file_a: a.to_owned(), file_b: b.to_owned(), n: count };
            out.push(row);
            proof {
                assert(row@ == pair_row(s)(p));
                assert(rows::seen(out@) =~= rows::seen(was).push(pair_row(s)(p)));
                assert(done.push(p).map_values(pair_row(s)) =~= done.map_values(pair_row(s)).push(
                    pair_row(s)(p),
                ));
            }
        }
        k += 1;
    }
    assert(pairs.take(c.order@.len() as int) =~= pairs);
    rows::limit(store_lists::arrange_cochanges(out), MAX_PAIRS)
}

} // verus!
