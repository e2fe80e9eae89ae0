//! Words in identifiers and paths.

use vstd::prelude::*;

use crate::text;

verus! {

/// Whether a character is alphabetic or numeric in Unicode.
pub uninterp spec fn unicode_alphanumeric(c: char) -> bool;

/// Whether a character has the Unicode property Uppercase.
pub uninterp spec fn unicode_uppercase(c: char) -> bool;

/// Whether a character has the Unicode property Lowercase.
pub uninterp spec fn unicode_lowercase(c: char) -> bool;

/// The Unicode lowercase equivalent of a text.
pub uninterp spec fn lowercase(s: Seq<char>) -> Seq<char>;

/// `char::is_alphanumeric` depends on the character alone.
pub assume_specification[ char::is_alphanumeric ](c: char) -> (r: bool)
    ensures
        r == unicode_alphanumeric(c),
;

/// `char::is_uppercase` depends on the character alone.
pub assume_specification[ char::is_uppercase ](c: char) -> (r: bool)
    ensures
        r == unicode_uppercase(c),
;

/// `char::is_lowercase` depends on the character alone.
pub assume_specification[ char::is_lowercase ](c: char) -> (r: bool)
    ensures
        r == unicode_lowercase(c),
;

/// Whether every character of a text is an ASCII character.
pub open spec fn is_ascii_text(s: Seq<char>) -> bool {
    forall|i: int| 0 <= i < s.len() ==> #[trigger] s[i] < '\u{80}'
}

/// `str::to_lowercase` depends on the text alone; an ASCII text is lowered
/// letter by letter.
pub assume_specification[ str::to_lowercase ](s: &str) -> (r: String)
    ensures
        r@ == lowercase(s@),
        is_ascii_text(s@) ==> r@ == text::lower(s@),
;

/// A text in lower case.
pub open spec fn small(s: Seq<char>) -> Seq<char> {
    if is_ascii_text(s) {
        text::lower(s)
    } else {
        lowercase(s)
    }
}

/// A character with what Unicode says of it.
#[derive(Debug, Clone, Copy, PartialEq, Eq, Structural)]
pub struct Letter {
    pub c: char,
    pub alphanumeric: bool,
    pub uppercase: bool,
    pub lowercase: bool,
}

/// A character with what Unicode says of it.
pub open spec fn letter(c: char) -> Letter {
    Letter {
        c,
        alphanumeric: unicode_alphanumeric(c),
        uppercase: unicode_uppercase(c),
        lowercase: unicode_lowercase(c),
    }
}

/// The characters of a text with what Unicode says of them.
pub open spec fn letters(s: Seq<char>) -> Seq<Letter> {
    Seq::new(s.len(), |i: int| letter(s[i]))
}

/// See [`letters`].
pub fn letters_of(s: &str) -> (r: Vec<Letter>)
    ensures
        r@ == letters(s@),
{
    let mut v: Vec<Letter> = Vec::new();
    for c in it: s.chars()
        invariant
            it.seq() == s@,
            v@ == letters(s@).take(it.index()),
    {
        v.push(
            Letter {
                c,
                alphanumeric: c.is_alphanumeric(),
                uppercase: c.is_uppercase(),
                lowercase: c.is_lowercase(),
            },
        );
        assert(letters(s@).take(it.index() + 1) =~= letters(s@).take(it.index()).push(
            letters(s@)[it.index()],
        ));
    }
    assert(letters(s@).take(s@.len() as int) =~= letters(s@));
    v
}

/// The words that mark a test file.
pub open spec fn is_test_word(w: Seq<char>) -> bool {
    w == "test"@ || w == "tests"@ || w == "spec"@ || w == "specs"@ || w == "testing"@
}

/// The tokens that end before the end of a path, the one that is still open
/// there, and whether its last character is a small letter. A token ends at a
/// character that is no letter or digit, and where a capital follows a small
/// letter.
pub open spec fn path_tokens(l: Seq<Letter>) -> (Seq<Seq<char>>, Seq<char>, bool)
    decreases l.len(),
{
    if l.len() == 0 {
        (Seq::empty(), Seq::empty(), false)
    } else {
        let (done, open, small) = path_tokens(l.drop_last());
        let x = l.last();
        if !x.alphanumeric {
            (
                if open.len() > 0 {
                    done.push(open)
                } else {
                    done
                },
                Seq::empty(),
                false,
            )
        } else if x.uppercase && small && open.len() > 0 {
            (done.push(open), seq![text::lower_char(x.c)], x.lowercase)
        } else {
            (done, open.push(text::lower_char(x.c)), x.lowercase)
        }
    }
}

/// Whether a token of the path marks a test file.
pub open spec fn has_test_token(l: Seq<Letter>) -> bool {
    let (done, open, small) = path_tokens(l);
    is_test_word(open) || exists|i: int| 0 <= i < done.len() && is_test_word(#[trigger] done[i])
}

/// Whether the path is that of a test file: one of its tokens, taken whole,
/// marks it as one.
pub open spec fn test_path(path: Seq<char>) -> bool {
    has_test_token(letters(path))
}

/// See [`is_test_word`].
fn test_word(w: &str) -> (r: bool)
    ensures
        r == is_test_word(w@),
{
    text::same(w, "test") || text::same(w, "tests") || text::same(w, "spec") || text::same(
        w,
        "specs",
    ) || text::same(w, "testing")
}

proof fn lemma_tokens_grow(l: Seq<Letter>, k: int)
    requires
        0 <= k <= l.len(),
    ensures
        path_tokens(l).0.len() >= path_tokens(l.take(k)).0.len(),
        forall|i: int|
            0 <= i < path_tokens(l.take(k)).0.len() ==> path_tokens(l).0[i] == (
            #[trigger] path_tokens(l.take(k)).0[i]),
    decreases l.len(),
{
    if k < l.len() {
        lemma_tokens_grow(l.drop_last(), k);
        assert(l.drop_last().take(k) =~= l.take(k));
        let old = path_tokens(l.take(k)).0;
        let mid = path_tokens(l.drop_last()).0;
        let all = path_tokens(l).0;
        assert forall|i: int| 0 <= i < old.len() implies all[i] == (#[trigger] old[i]) by {
            assert(mid[i] == old[i]);
        }
    } else {
        assert(l.take(k) =~= l);
    }
}

/// See [`has_test_token`].
pub fn find_test_token(l: &Vec<Letter>) -> (r: bool)
    ensures
        r == has_test_token(l@),
{
    let mut open = String::new();
    let mut small = false;
    let mut i: usize = 0;
    while i < l.len()
        invariant
            i <= l.len(),
            path_tokens(l@.take(i as int)).1 == open@,
            path_tokens(l@.take(i as int)).2 == small,
            forall|k: int|
                0 <= k < path_tokens(l@.take(i as int)).0.len() ==> !is_test_word(
                    #[trigger] path_tokens(l@.take(i as int)).0[k],
                ),
        decreases l.len() - i,
    {
        let x = l[i];
        let ghost was = path_tokens(l@.take(i as int));
        let ghost now = path_tokens(l@.take(i + 1));
        proof {
            assert(l@.take(i + 1).drop_last() =~= l@.take(i as int));
            lemma_tokens_grow(l@, i + 1);
        }
        let ends = !x.alphanumeric || (x.uppercase && small);
        if ends && !open.as_str().is_empty() {
            if test_word(open.as_str()) {
                proof {
                    assert(now.0 =~= was.0.push(open@));
                    assert(now.0[was.0.len() as int] == open@);
                    assert(path_tokens(l@).0[was.0.len() as int] == open@);
                }
                return true;
            }
            open = String::new();
        }
        if x.alphanumeric {
            small = x.lowercase;
            open.push(text::to_lower_char(x.c));
        } else {
            small = false;
        }
        proof {
            assert forall|k: int| 0 <= k < now.0.len() implies !is_test_word(
                #[trigger] now.0[k],
            ) by {
                if k < was.0.len() {
                    assert(now.0[k] == was.0[k]);
                }
            }
            assert(open@ =~= now.1);
        }
        i += 1;
    }
    assert(l@.take(l@.len() as int) =~= l@);
    test_word(open.as_str())
}

/// See [`test_path`].
pub fn is_test_path(path: &str) -> (r: bool)
    ensures
        r == test_path(path@),
{
    find_test_token(&letters_of(path))
}

/// Whether a new word begins at letter `i` of an identifier, right behind a
/// letter of another word: at a capital behind a small letter, at the last of
/// several capitals before a small letter, and between letters and digits.
pub open spec fn word_boundary(l: Seq<Letter>, i: int) -> bool {
    ||| l[i].uppercase && l[i - 1].lowercase
    ||| l[i].uppercase && l[i - 1].uppercase && i + 1 < l.len() && l[i + 1].lowercase
    ||| text::is_digit(l[i].c) != text::is_digit(l[i - 1].c) && l[i - 1].alphanumeric
}

/// The words of an identifier that end before letter `n`, and the one that is
/// open there, as they are written.
pub open spec fn words_before(l: Seq<Letter>, n: nat) -> (Seq<Seq<char>>, Seq<char>)
    decreases n,
{
    if n == 0 {
        (Seq::empty(), Seq::empty())
    } else {
        let (done, open) = words_before(l, (n - 1) as nat);
        let x = l[n - 1];
        if !x.alphanumeric {
            (
                if open.len() > 0 {
                    done.push(open)
                } else {
                    done
                },
                Seq::empty(),
            )
        } else if open.len() > 0 && word_boundary(l, n - 1) {
            (done.push(open), seq![x.c])
        } else {
            (done, open.push(x.c))
        }
    }
}

/// The words of an identifier as they are written.
pub open spec fn written_words(l: Seq<Letter>) -> Seq<Seq<char>> {
    let (done, open) = words_before(l, l.len());
    if open.len() > 0 {
        done.push(open)
    } else {
        done
    }
}

/// The words of an identifier in lower case.
pub open spec fn identifier_words(l: Seq<Letter>) -> Seq<Seq<char>> {
    written_words(l).map_values(|w: Seq<char>| small(w))
}

/// Words with spaces between them; nothing where there is one word, which would
/// add nothing to the name.
pub open spec fn spaced(words: Seq<Seq<char>>) -> Seq<char> {
    if words.len() <= 1 {
        Seq::empty()
    } else {
        text::join(words, " "@)
    }
}

/// The words of an identifier in lower case with spaces between them; see
/// [`spaced`].
pub open spec fn spaced_words(l: Seq<Letter>) -> Seq<char> {
    spaced(identifier_words(l))
}

/// See [`spaced`].
pub fn with_spaces(words: &Vec<String>) -> (r: String)
    ensures
        r@ == spaced(text::views(words@)),
{
    if words.len() <= 1 {
        let none = String::new();
        assert(none@ =~= Seq::<char>::empty());
        none
    } else {
        text::joined(words, " ")
    }
}

/// See [`identifier_words`].
pub fn split_words(l: &Vec<Letter>) -> (r: Vec<String>)
    ensures
        text::views(r@) == identifier_words(l@),
{
    let written = split_written(l);
    let ghost all = written_words(l@);
    let mut out: Vec<String> = Vec::new();
    let mut i: usize = 0;
    while i < written.len()
        invariant
            i <= written.len(),
            text::views(written@) == all,
            all == written_words(l@),
            text::views(out@) == identifier_words(l@).take(i as int),
        decreases written.len() - i,
    {
        let ghost was = text::views(out@);
        assert(all[i as int] == written@[i as int]@);
        let low = written[i].as_str().to_lowercase();
        out.push(low);
        assert(text::views(out@) =~= was.push(low@));
        assert(identifier_words(l@).take(i + 1) =~= identifier_words(l@).take(i as int).push(low@));
        i += 1;
    }
    assert(identifier_words(l@).take(written@.len() as int) =~= identifier_words(l@));
    out
}

/// See [`written_words`].
pub fn split_written(l: &Vec<Letter>) -> (r: Vec<String>)
    ensures
        text::views(r@) == written_words(l@),
{
    let mut done: Vec<String> = Vec::new();
    let mut open = String::new();
    let mut i: usize = 0;
    while i < l.len()
        invariant
            i <= l.len(),
            words_before(l@, i as nat) == (text::views(done@), open@),
            open@.len() > 0 ==> i > 0,
        decreases l.len() - i,
    {
        let x = l[i];
        let ghost was = text::views(done@);
        let ghost start = open@;
        let starts = !open.as_str().is_empty() && {
            let p = l[i - 1];
            (x.uppercase && p.lowercase) || (x.uppercase && p.uppercase && i + 1 < l.len() && l[i
                + 1].lowercase) || (digit_test(x.c) != digit_test(p.c) && p.alphanumeric)
        };
        if !open.as_str().is_empty() && (!x.alphanumeric || starts) {
            done.push(open);
            open = String::new();
            assert(text::views(done@) =~= was.push(start));
        }
        if x.alphanumeric {
            open.push(x.c);
        }
        i += 1;
        proof {
            let (d, o) = words_before(l@, i as nat);
            assert(text::views(done@) =~= d);
            assert(open@ =~= o);
        }
    }
    if !open.as_str().is_empty() {
        let ghost was = text::views(done@);
        let ghost last = open@;
        done.push(open);
        assert(text::views(done@) =~= was.push(last));
    }
    done
}

/// See [`text::is_digit`].
fn digit_test(c: char) -> (r: bool)
    ensures
        r == text::is_digit(c),
{
    '0' <= c && c <= '9'
}

/// The words of a name, small and with spaces between them; see
/// [`spaced_words`].
pub fn subwords(name: &str) -> (r: String)
    ensures
        r@ == spaced_words(letters(name@)),
{
    with_spaces(&split_words(&letters_of(name)))
}

} // verus!
