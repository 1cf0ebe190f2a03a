use vstd::prelude::*;
use crate::text::chars_to_string;
use crate::text::str_to_chars;
use crate::unicode::char_is_alphabetic;
use crate::unicode::char_to_lowercase;
use crate::unicode::is_alpha;
use crate::unicode::lower_chars;

verus! {

/// Whether a character extends the word token being accumulated: alphabetic
/// characters always do, and an apostrophe does when a word is already open.
pub open spec fn is_word_char(c: char, in_word: bool) -> bool {
    is_alpha(c) || (c == '\'' && in_word)
}

/// The word tokens of `s` when `acc` is the (already lowercased) token under
/// accumulation: each maximal run of word characters is lowercased and
/// emitted, and a trailing accumulator is flushed at end of input.
pub open spec fn tokens_from(s: Seq<char>, acc: Seq<char>) -> Seq<Seq<char>>
    decreases s.len(),
{
    if s.len() == 0 {
        if acc.len() == 0 {
            Seq::empty()
        } else {
            seq![acc]
        }
    } else if is_word_char(s[0], acc.len() != 0) {
        tokens_from(s.drop_first(), acc + lower_chars(s[0]))
    } else if acc.len() == 0 {
        tokens_from(s.drop_first(), acc)
    } else {
        seq![acc] + tokens_from(s.drop_first(), Seq::empty())
    }
}

/// The lowercased word tokens of a character sequence, in order.
pub open spec fn tokens_of(s: Seq<char>) -> Seq<Seq<char>> {
    tokens_from(s, Seq::empty())
}

/// The characters of `s` that do not belong to any word token, when `acc` is
/// the token under accumulation.
pub open spec fn ignored_from(s: Seq<char>, acc: Seq<char>) -> nat
    decreases s.len(),
{
    if s.len() == 0 {
        0
    } else if is_word_char(s[0], acc.len() != 0) {
        ignored_from(s.drop_first(), acc + lower_chars(s[0]))
    } else {
        1 + ignored_from(s.drop_first(), Seq::empty())
    }
}

/// Count of characters that are neither alphabetic nor an apostrophe inside
/// a word.
pub open spec fn ignored_of(s: Seq<char>) -> nat {
    ignored_from(s, Seq::empty())
}

/// How many newline characters `s` holds.
pub open spec fn newline_count(s: Seq<char>) -> nat
    decreases s.len(),
{
    if s.len() == 0 {
        0
    } else {
        (if s[0] == '\n' {
            1nat
        } else {
            0nat
        }) + newline_count(s.drop_first())
    }
}

/// The character sequences of a vector of strings.
pub open spec fn views_of(ts: Seq<String>) -> Seq<Seq<char>> {
    ts.map_values(|t: String| t@)
}

/// A well-formed emitted token: it is nonempty, each of its characters lies
/// in the lowercase image of an alphabetic character or of an apostrophe,
/// and its first character lies in the lowercase image of an alphabetic
/// character (a token never opens with an apostrophe).
pub open spec fn token_ok(t: Seq<char>) -> bool {
    &&& t.len() > 0
    &&& forall|k: int|
        0 <= k < t.len() ==> exists|c: char|
            (is_alpha(c) || c == '\'') && lower_chars(c).contains(#[trigger] t[k])
    &&& exists|c: char| is_alpha(c) && lower_chars(c).contains(t[0])
}

proof fn lemma_tokens_from_shape(s: Seq<char>, acc: Seq<char>)
    requires
        acc.len() > 0 ==> token_ok(acc),
    ensures
        forall|i: int|
            0 <= i < tokens_from(s, acc).len() ==> token_ok(#[trigger] tokens_from(s, acc)[i]),
    decreases s.len(),
{
    if s.len() == 0 {
    } else if is_word_char(s[0], acc.len() != 0) {
        let acc2 = acc + lower_chars(s[0]);
        if acc.len() > 0 {
            assert forall|k: int| 0 <= k < acc2.len() implies exists|c: char|
                (is_alpha(c) || c == '\'') && lower_chars(c).contains(#[trigger] acc2[k]) by {
                if k < acc.len() {
                    assert(acc2[k] == acc[k]);
                    assert(exists|c: char|
                        (is_alpha(c) || c == '\'') && lower_chars(c).contains(#[trigger] acc[k]));
                    let c = choose|c: char|
                        (is_alpha(c) || c == '\'') && lower_chars(c).contains(acc[k]);
                    assert(lower_chars(c).contains(acc2[k]));
                } else {
                    assert(acc2[k] == lower_chars(s[0])[k - acc.len()]);
                    assert(lower_chars(s[0]).contains(acc2[k]));
                }
            }
            assert(acc2[0] == acc[0]);
            let c0 = choose|c: char| is_alpha(c) && lower_chars(c).contains(acc[0]);
            assert(is_alpha(c0) && lower_chars(c0).contains(acc2[0]));
            assert(token_ok(acc2));
        } else {
            assert(is_alpha(s[0]));
            assert(acc2 =~= lower_chars(s[0]));
            assert forall|k: int| 0 <= k < acc2.len() implies exists|c: char|
                (is_alpha(c) || c == '\'') && lower_chars(c).contains(#[trigger] acc2[k]) by {
                assert(acc2[k] == lower_chars(s[0])[k]);
                assert(lower_chars(s[0]).contains(acc2[k]));
            }
            if acc2.len() > 0 {
                assert(acc2[0] == lower_chars(s[0])[0]);
                assert(lower_chars(s[0]).contains(acc2[0]));
                assert(token_ok(acc2));
            }
        }
        lemma_tokens_from_shape(s.drop_first(), acc2);
        assert forall|i: int| 0 <= i < tokens_from(s, acc).len() implies token_ok(
            #[trigger] tokens_from(s, acc)[i],
        ) by {
            assert(tokens_from(s, acc) == tokens_from(s.drop_first(), acc2));
            assert(token_ok(tokens_from(s.drop_first(), acc2)[i]));
        }
    } else if acc.len() == 0 {
        lemma_tokens_from_shape(s.drop_first(), acc);
        assert forall|i: int| 0 <= i < tokens_from(s, acc).len() implies token_ok(
            #[trigger] tokens_from(s, acc)[i],
        ) by {
            assert(token_ok(tokens_from(s.drop_first(), acc)[i]));
        }
    } else {
        lemma_tokens_from_shape(s.drop_first(), Seq::empty());
        let r = tokens_from(s, acc);
        let rest = tokens_from(s.drop_first(), Seq::empty());
        assert forall|i: int| 0 <= i < r.len() implies token_ok(#[trigger] r[i]) by {
            if i == 0 {
                assert(r[0] == acc);
            } else {
                assert(r[i] == rest[i - 1]);
                assert(token_ok(rest[i - 1]));
            }
        }
    }
}

/// Every token the tokeniser emits is well-formed: nonempty, made of
/// lowercase images of alphabetic characters and of word-internal
/// apostrophes, and never opening with an apostrophe.
pub proof fn lemma_token_shape(s: Seq<char>)
    ensures
        forall|i: int| 0 <= i < tokens_of(s).len() ==> token_ok(#[trigger] tokens_of(s)[i]),
{
    lemma_tokens_from_shape(s, Seq::empty());
}

/// Counters the tokeniser accumulates over one document.
#[derive(PartialEq, Eq, Structural, Clone, Copy, Debug)]
pub struct LexerStats {
    pub characters_read: usize,
    pub characters_ignored: usize,
    pub lines: usize,
}

impl LexerStats {
    /// Adds the counters of another document to these, component-wise.
    pub fn merge(&mut self, other: LexerStats)
        requires
            old(self).characters_read + other.characters_read <= usize::MAX,
            old(self).characters_ignored + other.characters_ignored <= usize::MAX,
            old(self).lines + other.lines <= usize::MAX,
        ensures
            final(self).characters_read == old(self).characters_read + other.characters_read,
            final(self).characters_ignored == old(self).characters_ignored
                + other.characters_ignored,
            final(self).lines == old(self).lines + other.lines,
    {
        self.characters_read = self.characters_read + other.characters_read;
        self.characters_ignored = self.characters_ignored + other.characters_ignored;
        self.lines = self.lines + other.lines;
    }
}

impl Default for LexerStats {
    fn default() -> (r: LexerStats)
        ensures
            r.characters_read == 0,
            r.characters_ignored == 0,
            r.lines == 0,
    {
        LexerStats { characters_read: 0, characters_ignored: 0, lines: 0 }
    }
}

proof fn lemma_views_push(ts: Seq<String>, t: String)
    ensures
        views_of(ts.push(t)) == views_of(ts) + seq![t@],
{
    assert(views_of(ts.push(t)) =~= views_of(ts) + seq![t@]);
}

/// Splits a text into its lowercased word tokens and reports the statistics
/// of the pass: every character read, the ignored (non-word) characters, and
/// the line count, one more than the number of newline characters.
pub fn tokenize(text: &str) -> (r: (Vec<String>, LexerStats))
    requires
        text@.len() < usize::MAX,
    ensures
        views_of(r.0@) == tokens_of(text@),
        r.1.characters_read == text@.len(),
        r.1.characters_ignored == ignored_of(text@),
        r.1.lines == 1 + newline_count(text@),
{
    let ghost s = text@;
    let cs = str_to_chars(text);
    let n = cs.len();
    let mut out: Vec<String> = Vec::new();
    let mut word: Vec<char> = Vec::new();
    let mut stats = LexerStats { characters_read: 0, characters_ignored: 0, lines: 1 };
    let mut i: usize = 0;
    assert(s.skip(0) =~= s);
    while i < n
        invariant
            cs@ == s,
            n == s.len(),
            s.len() < usize::MAX,
            i <= n,
            stats.characters_read == i,
            stats.characters_ignored <= i,
            1 <= stats.lines <= i + 1,
            tokens_of(s) == views_of(out@) + tokens_from(s.skip(i as int), word@),
            ignored_of(s) == stats.characters_ignored + ignored_from(s.skip(i as int), word@),
            newline_count(s) == (stats.lines - 1) + newline_count(s.skip(i as int)),
        decreases n - i,
    {
        let c = cs[i];
        let ghost w0 = word@;
        assert(s.skip(i as int)[0] == c);
        assert(s.skip(i as int).drop_first() =~= s.skip(i + 1));
        stats.characters_read = stats.characters_read + 1;
        let alpha = char_is_alphabetic(c);
        if alpha || (c == '\'' && word.len() > 0) {
            assert(is_word_char(c, word@.len() != 0));
            let mut lo = char_to_lowercase(c);
            word.append(&mut lo);
            proof {
                assert(word@ == w0 + lower_chars(c));
                assert(ignored_from(s.skip(i as int), w0) == ignored_from(
                    s.skip(i as int + 1),
                    word@,
                ));
            }
        } else {
            assert(!is_word_char(c, word@.len() != 0));
            proof {
                assert(ignored_from(s.skip(i as int), w0) == 1 + ignored_from(
                    s.skip(i as int + 1),
                    Seq::<char>::empty(),
                ));
            }
            stats.characters_ignored = stats.characters_ignored + 1;
            if c == '\n' {
                stats.lines = stats.lines + 1;
            }
            if word.len() > 0 {
                let t = chars_to_string(&word);
                proof {
                    lemma_views_push(out@, t);
                }
                out.push(t);
                word.clear();
            }
        }
        i += 1;
    }
    assert(s.skip(n as int) =~= Seq::<char>::empty());
    if word.len() > 0 {
        let t = chars_to_string(&word);
        proof {
            lemma_views_push(out@, t);
        }
        out.push(t);
    }
    assert(views_of(out@) =~= tokens_of(s));
    (out, stats)
}

} // verus!
