use vstd::prelude::*;
use crate::lexer::LexerStats;
use crate::lexer::ignored_of;
use crate::lexer::newline_count;
use crate::lexer::tokens_of;
use crate::lexer::views_of;
use crate::lexer::tokenize;

verus! {

/// How many occurrences `m` records under `k`; zero when `k` is absent.
pub open spec fn count_in(m: Map<Seq<char>, nat>, k: Seq<char>) -> nat {
    if m.contains_key(k) {
        m[k]
    } else {
        0
    }
}

/// `m` with `c` more occurrences recorded under `k`.
pub open spec fn bump(m: Map<Seq<char>, nat>, k: Seq<char>, c: nat) -> Map<Seq<char>, nat> {
    m.insert(k, count_in(m, k) + c)
}

/// The pointwise sum of two word-count maps.
pub open spec fn dict_sum(a: Map<Seq<char>, nat>, b: Map<Seq<char>, nat>) -> Map<
    Seq<char>,
    nat,
> {
    Map::new(
        |k: Seq<char>| a.contains_key(k) || b.contains_key(k),
        |k: Seq<char>| count_in(a, k) + count_in(b, k),
    )
}

/// The word-count map of a token sequence: each token counted once.
pub open spec fn counts_of_tokens(ts: Seq<Seq<char>>) -> Map<Seq<char>, nat>
    decreases ts.len(),
{
    if ts.len() == 0 {
        Map::empty()
    } else {
        bump(counts_of_tokens(ts.drop_last()), ts.last(), 1)
    }
}

/// No two entries share a key.
pub open spec fn keys_unique(ws: Seq<(String, usize)>) -> bool {
    forall|i: int, j: int| 0 <= i < j < ws.len() ==> ws[i].0@ != ws[j].0@
}

/// The map an entry list denotes; later entries win, though entry lists used
/// here always have unique keys.
pub open spec fn entries_map(ws: Seq<(String, usize)>) -> Map<Seq<char>, nat>
    decreases ws.len(),
{
    if ws.len() == 0 {
        Map::empty()
    } else {
        entries_map(ws.drop_last()).insert(ws.last().0@, ws.last().1 as nat)
    }
}

/// The sum of the counts of an entry list.
pub open spec fn sum_counts(ws: Seq<(String, usize)>) -> nat
    decreases ws.len(),
{
    if ws.len() == 0 {
        0
    } else {
        (sum_counts(ws.drop_last()) + ws.last().1) as nat
    }
}

pub proof fn lemma_entries_push(ws: Seq<(String, usize)>, e: (String, usize))
    ensures
        entries_map(ws.push(e)) == entries_map(ws).insert(e.0@, e.1 as nat),
        sum_counts(ws.push(e)) == sum_counts(ws) + e.1,
{
    assert(ws.push(e).drop_last() =~= ws);
    assert(ws.push(e).last() == e);
}

pub proof fn lemma_entries_absent(ws: Seq<(String, usize)>, key: Seq<char>)
    requires
        forall|i: int| 0 <= i < ws.len() ==> ws[i].0@ != key,
    ensures
        !entries_map(ws).contains_key(key),
    decreases ws.len(),
{
    if ws.len() > 0 {
        lemma_entries_absent(ws.drop_last(), key);
    }
}

pub proof fn lemma_entries_index(ws: Seq<(String, usize)>, j: int)
    requires
        keys_unique(ws),
        0 <= j < ws.len(),
    ensures
        entries_map(ws).contains_key(ws[j].0@),
        entries_map(ws)[ws[j].0@] == ws[j].1 as nat,
    decreases ws.len(),
{
    if j == ws.len() - 1 {
    } else {
        assert(ws.drop_last()[j] == ws[j]);
        lemma_entries_index(ws.drop_last(), j);
    }
}

pub proof fn lemma_entries_update(ws: Seq<(String, usize)>, k: int, e: (String, usize))
    requires
        keys_unique(ws),
        0 <= k < ws.len(),
        e.0@ == ws[k].0@,
    ensures
        entries_map(ws.update(k, e)) == entries_map(ws).insert(e.0@, e.1 as nat),
        keys_unique(ws.update(k, e)),
        sum_counts(ws.update(k, e)) + ws[k].1 == sum_counts(ws) + e.1,
    decreases ws.len(),
{
    if k == ws.len() - 1 {
        assert(ws.update(k, e).drop_last() =~= ws.drop_last());
        assert(entries_map(ws.update(k, e)) =~= entries_map(ws).insert(e.0@, e.1 as nat));
    } else {
        assert(ws.update(k, e).drop_last() =~= ws.drop_last().update(k, e));
        assert(ws.drop_last()[k] == ws[k]);
        lemma_entries_update(ws.drop_last(), k, e);
        assert(ws.last().0@ != e.0@);
        assert(entries_map(ws.update(k, e)) =~= entries_map(ws).insert(e.0@, e.1 as nat));
    }
}

pub proof fn lemma_entries_card(ws: Seq<(String, usize)>)
    requires
        keys_unique(ws),
    ensures
        entries_map(ws).dom().finite(),
        entries_map(ws).dom().len() == ws.len(),
    decreases ws.len(),
{
    if ws.len() > 0 {
        lemma_entries_card(ws.drop_last());
        lemma_entries_absent(ws.drop_last(), ws.last().0@);
    }
}

pub proof fn lemma_sum_le(ws: Seq<(String, usize)>, j: int)
    requires
        0 <= j < ws.len(),
    ensures
        ws[j].1 <= sum_counts(ws),
    decreases ws.len(),
{
    if j < ws.len() - 1 {
        assert(ws.drop_last()[j] == ws[j]);
        lemma_sum_le(ws.drop_last(), j);
    }
}

pub proof fn lemma_take_step(ws: Seq<(String, usize)>, j: int)
    requires
        0 <= j < ws.len(),
    ensures
        entries_map(ws.take(j + 1)) == entries_map(ws.take(j)).insert(
            ws[j].0@,
            ws[j].1 as nat,
        ),
        sum_counts(ws.take(j + 1)) == sum_counts(ws.take(j)) + ws[j].1,
{
    assert(ws.take(j + 1).drop_last() =~= ws.take(j));
    assert(ws.take(j + 1).last() == ws[j]);
}

pub proof fn lemma_sum_take_le(ws: Seq<(String, usize)>, j: int)
    requires
        0 <= j <= ws.len(),
    ensures
        sum_counts(ws.take(j)) <= sum_counts(ws),
    decreases ws.len() - j,
{
    if j == ws.len() {
        assert(ws.take(j) =~= ws);
    } else {
        lemma_take_step(ws, j);
        lemma_sum_take_le(ws, j + 1);
    }
}

/// Summing word-count maps is commutative.
pub proof fn lemma_dict_sum_comm(a: Map<Seq<char>, nat>, b: Map<Seq<char>, nat>)
    ensures
        dict_sum(a, b) == dict_sum(b, a),
{
    assert(dict_sum(a, b) =~= dict_sum(b, a));
}

/// Summing word-count maps is associative.
pub proof fn lemma_dict_sum_assoc(
    a: Map<Seq<char>, nat>,
    b: Map<Seq<char>, nat>,
    c: Map<Seq<char>, nat>,
)
    ensures
        dict_sum(dict_sum(a, b), c) == dict_sum(a, dict_sum(b, c)),
{
    assert(dict_sum(dict_sum(a, b), c) =~= dict_sum(a, dict_sum(b, c)));
}

pub proof fn lemma_dict_sum_empty(a: Map<Seq<char>, nat>)
    ensures
        dict_sum(a, Map::empty()) == a,
{
    assert(dict_sum(a, Map::empty()) =~= a);
}

pub proof fn lemma_dict_sum_bump(
    a: Map<Seq<char>, nat>,
    b: Map<Seq<char>, nat>,
    k: Seq<char>,
    c: nat,
)
    ensures
        dict_sum(a, bump(b, k, c)) == bump(dict_sum(a, b), k, c),
{
    assert(dict_sum(a, bump(b, k, c)) =~= bump(dict_sum(a, b), k, c));
}

/// A running count of how many times each distinct word was added.
#[derive(Debug)]
pub struct Dictionary {
    words: Vec<(String, usize)>,
}

impl Dictionary {
    /// The word-count map this dictionary holds.
    pub closed spec fn view(&self) -> Map<Seq<char>, nat> {
        entries_map(self.words@)
    }

    pub closed spec fn wf(&self) -> bool {
        keys_unique(self.words@)
    }

    /// The total number of word occurrences recorded.
    pub closed spec fn total(&self) -> nat {
        sum_counts(self.words@)
    }

    pub fn new() -> (r: Dictionary)
        ensures
            r@ == Map::<Seq<char>, nat>::empty(),
            r.wf(),
            r.total() == 0,
    {
        Dictionary { words: Vec::new() }
    }

    /// The entries of the dictionary, each word once with its count.
    pub fn word_counts(&self) -> (r: &Vec<(String, usize)>)
        requires
            self.wf(),
        ensures
            entries_map(r@) == self@,
            keys_unique(r@),
            sum_counts(r@) == self.total(),
    {
        &self.words
    }

    /// How many distinct words were added.
    pub fn unique_word_count(&self) -> (r: usize)
        requires
            self.wf(),
        ensures
            r == self@.dom().len(),
    {
        proof {
            lemma_entries_card(self.words@);
        }
        self.words.len()
    }

    /// How many word occurrences were added in all.
    pub fn total_word_count(&self) -> (r: usize)
        requires
            self.total() <= usize::MAX,
    ensures
            r == self.total(),
    {
        let mut acc: usize = 0;
        let mut j: usize = 0;
        assert(self.words@.take(0) =~= Seq::<(String, usize)>::empty());
        while j < self.words.len()
            invariant
                j <= self.words@.len(),
                acc == sum_counts(self.words@.take(j as int)),
                sum_counts(self.words@) == self.total(),
                self.total() <= usize::MAX,
            decreases self.words@.len() - j,
        {
            proof {
                lemma_take_step(self.words@, j as int);
                lemma_sum_take_le(self.words@, j + 1);
            }
            acc = acc + self.words[j].1;
            j += 1;
        }
        assert(self.words@.take(self.words@.len() as int) =~= self.words@);
        acc
    }

    /// Records one occurrence of `word`.
    pub fn add_word(&mut self, word: String)
        requires
            old(self).wf(),
            old(self).total() + 1 <= usize::MAX,
        ensures
            final(self).wf(),
            final(self)@ == bump(old(self)@, word@, 1),
            final(self).total() == old(self).total() + 1,
    {
        self.add_word_with_count(word, 1)
    }

    /// Records `count` occurrences of `word`.
    pub fn add_word_with_count(&mut self, word: String, count: usize)
        requires
            old(self).wf(),
            old(self).total() + count <= usize::MAX,
        ensures
            final(self).wf(),
            final(self)@ == bump(old(self)@, word@, count as nat),
            final(self).total() == old(self).total() + count,
    {
        let ghost ws0 = self.words@;
        let n = self.words.len();
        let mut j: usize = 0;
        while j < n
            invariant
                self.words@ == ws0,
                ws0 == old(self).words@,
                keys_unique(ws0),
                n == ws0.len(),
                j <= n,
                old(self).total() + count <= usize::MAX,
                forall|t: int| 0 <= t < j ==> ws0[t].0@ != word@,
            decreases n - j,
        {
            if self.words[j].0 == word {
                proof {
                    lemma_sum_le(ws0, j as int);
                    lemma_entries_index(ws0, j as int);
                }
                let c = self.words[j].1;
                self.words[j] = (word, c + count);
                proof {
                    lemma_entries_update(ws0, j as int, self.words@[j as int]);
                    assert(self.words@[j as int].0@ == ws0[j as int].0@);
                    assert(self@ =~= bump(old(self)@, ws0[j as int].0@, count as nat));
                }
                return ;
            }
            j += 1;
        }
        proof {
            lemma_entries_absent(ws0, word@);
            lemma_entries_push(ws0, (word, count));
        }
        self.words.push((word, count));
        proof {
            assert(self.words@ == ws0.push((self.words@.last().0, count)));
            assert(self.words@.last().0@ == word@);
            assert(self@ =~= bump(old(self)@, word@, count as nat));
            assert(forall|i: int| 0 <= i < ws0.len() ==> self.words@[i] == ws0[i]);
            assert(keys_unique(self.words@));
        }
    }

    /// Folds another dictionary into this one, summing counts pointwise.
    pub fn merge(&mut self, other: Dictionary)
        requires
            old(self).wf(),
            other.wf(),
            old(self).total() + other.total() <= usize::MAX,
        ensures
            final(self).wf(),
            final(self)@ == dict_sum(old(self)@, other@),
            final(self).total() == old(self).total() + other.total(),
    {
        let ghost a = old(self)@;
        let ghost ows = other.words@;
        let n = other.words.len();
        let mut j: usize = 0;
        assert(ows.take(0) =~= Seq::<(String, usize)>::empty());
        proof {
            lemma_dict_sum_empty(a);
        }
        while j < n
            invariant
                self.wf(),
                n == other.words@.len(),
                other.words@ == ows,
                other.wf(),
                j <= n,
                self@ == dict_sum(a, entries_map(ows.take(j as int))),
                self.total() == old(self).total() + sum_counts(ows.take(j as int)),
                old(self).total() + other.total() <= usize::MAX,
                sum_counts(ows) == other.total(),
            decreases n - j,
        {
            proof {
                lemma_take_step(ows, j as int);
                lemma_sum_take_le(ows, j + 1);
                lemma_entries_absent(ows.take(j as int), ows[j as int].0@);
                assert(entries_map(ows.take(j + 1)) == bump(
                    entries_map(ows.take(j as int)),
                    ows[j as int].0@,
                    ows[j as int].1 as nat,
                )) by {
                    assert(entries_map(ows.take(j + 1)) =~= bump(
                        entries_map(ows.take(j as int)),
                        ows[j as int].0@,
                        ows[j as int].1 as nat,
                    ));
                }
                lemma_dict_sum_bump(
                    a,
                    entries_map(ows.take(j as int)),
                    ows[j as int].0@,
                    ows[j as int].1 as nat,
                );
            }
            let w = other.words[j].0.clone();
            let c = other.words[j].1;
            self.add_word_with_count(w, c);
            j += 1;
        }
        assert(ows.take(n as int) =~= ows);
    }
}

/// Why a stored dictionary line could not be parsed.
#[derive(PartialEq, Eq, Structural, Clone, Copy, Debug)]
pub enum LineError {
    /// No separator between word and count.
    MissingSeparator,
    /// More than one separator on the line.
    ExtraSeparator,
    /// The count is empty, not decimal, or too large.
    BadCount,
}

/// How many separator characters `s` holds.
pub open spec fn sep_count(s: Seq<char>) -> nat
    decreases s.len(),
{
    if s.len() == 0 {
        0
    } else {
        (if s[0] == '=' {
            1nat
        } else {
            0nat
        }) + sep_count(s.drop_first())
    }
}

/// The parse of a stored `word=count` line: the word before the single
/// separator and the decimal count after it. A line with no separator or
/// more than one is rejected, as is a count that is empty, not all decimal
/// digits, or too large to represent.
pub open spec fn parse_line_spec(s: Seq<char>) -> Result<(Seq<char>, nat), LineError> {
    if sep_count(s) == 0 {
        Err(LineError::MissingSeparator)
    } else if sep_count(s) > 1 {
        Err(LineError::ExtraSeparator)
    } else {
        let k = choose|k: int| 0 <= k < s.len() && s[k] == '=';
        let digits = s.skip(k + 1);
        if digits.len() == 0 || exists|t: int|
            0 <= t < digits.len() && !crate::text::is_digit_char(#[trigger] digits[t]) {
            Err(LineError::BadCount)
        } else if crate::query::digits_value(digits) > usize::MAX {
            Err(LineError::BadCount)
        } else {
            Ok((s.take(k), crate::query::digits_value(digits)))
        }
    }
}

/// Reads and writes dictionaries in the `word=count` line format; the file
/// handling around it stands outside the library.
pub struct KeyValDictionaryStorage {
}

impl KeyValDictionaryStorage {
    /// Parses one stored line into its word and count.
    pub fn parse_line(line: &str) -> (r: Result<(String, usize), LineError>)
        ensures
            r matches Ok(p) ==> parse_line_spec(line@) == Ok::<(Seq<char>, nat), LineError>(
                (p.0@, p.1 as nat),
            ),
            r matches Err(e) ==> parse_line_spec(line@) == Err::<(Seq<char>, nat), LineError>(e),
    {
        let ghost s = line@;
        let cs = crate::text::str_to_chars(line);
        let n = cs.len();
        let mut k: usize = 0;
        let mut found = false;
        let mut extra = false;
        let mut j: usize = 0;
        proof {
            assert(s.take(0) =~= Seq::<char>::empty());
        }
        while j < n
            invariant
                cs@ == s,
                n == s.len(),
                j <= n,
                found <==> exists|t: int| 0 <= t < j && s[t] == '=',
                found ==> k < j && s[k as int] == '=' && (forall|t: int|
                    0 <= t < k ==> s[t] != '='),
                !found ==> forall|t: int| 0 <= t < j ==> s[t] != '=',
                extra ==> sep_count(s) > 1,
                !extra && found ==> count_upto(s, j as int) == 1,
                !extra && !found ==> count_upto(s, j as int) == 0,
            decreases n - j,
        {
            proof {
                lemma_count_upto_step(s, j as int);
            }
            if cs[j] == '=' {
                if found {
                    if !extra {
                        proof {
                            lemma_count_upto_le(s, j + 1);
                        }
                        extra = true;
                    }
                } else {
                    found = true;
                    k = j;
                }
            }
            j += 1;
        }
        proof {
            assert(count_upto(s, n as int) == sep_count(s)) by {
                lemma_count_upto_all(s);
            }
        }
        if !found {
            proof {
                if sep_count(s) != 0 {
                    lemma_sep_witness(s);
                }
            }
            return Err(LineError::MissingSeparator);
        }
        if extra {
            return Err(LineError::ExtraSeparator);
        }
        proof {
            assert(sep_count(s) == 1);
            let kk = choose|kk: int| 0 <= kk < s.len() && s[kk] == '=';
            assert(kk == k as int) by {
                if kk < k {
                    assert(s[kk] != '=');
                } else if kk > k {
                    lemma_unique_sep(s, k as int, kk);
                }
            }
        }
        let mut word: Vec<char> = Vec::new();
        let mut t: usize = 0;
        while t < k
            invariant
                cs@ == s,
                k < n,
                n == s.len(),
                t <= k,
                word@ == s.take(k as int).take(t as int),
            decreases k - t,
        {
            word.push(cs[t]);
            proof {
                assert(word@ =~= s.take(k as int).take(t + 1));
            }
            t += 1;
        }
        proof {
            assert(s.take(k as int).take(k as int) =~= s.take(k as int));
        }
        let word_s = crate::text::chars_to_string(&word);
        let ghost digits = s.skip(k as int + 1);
        let mut acc: u128 = 0;
        let mut any = false;
        let mut u: usize = k + 1;
        proof {
            assert(s.subrange(k as int + 1, k as int + 1) =~= Seq::<char>::empty());
        }
        while u < n
            invariant
                cs@ == s,
                k < n,
                n == s.len(),
                k + 1 <= u <= n,
                s == line@,
                sep_count(s) == 1,
                s[k as int] == '=',
                (choose|kk: int| 0 <= kk < s.len() && s[kk] == '=') == k as int,
                word_s@ == s.take(k as int),
                digits == s.skip(k as int + 1),
                any <==> u > k + 1,
                forall|t: int| k + 1 <= t < u ==> crate::text::is_digit_char(#[trigger] s[t]),
                acc == crate::query::digits_value(s.subrange(k as int + 1, u as int)),
                acc <= usize::MAX,
            decreases n - u,
        {
            let c = cs[u];
            if !crate::text::char_is_ascii_digit(c) {
                proof {
                    assert(digits[u - (k + 1)] == s[u as int]);
                    assert(!crate::text::is_digit_char(digits[u - (k + 1) as int]));
                }
                return Err(LineError::BadCount);
            }
            let d = (c as u32 - 48) as u128;
            let acc2 = acc * 10 + d;
            proof {
                assert(s.subrange(k as int + 1, u as int + 1).drop_last() =~= s.subrange(
                    k as int + 1,
                    u as int,
                ));
                assert(s.subrange(k as int + 1, u as int + 1).last() == s[u as int]);
            }
            if acc2 > usize::MAX as u128 {
                proof {
                    assert(digits.take(u as int + 1 - (k + 1)) =~= s.subrange(
                        k as int + 1,
                        u as int + 1,
                    ));
                    assert(forall|t: int|
                        k + 1 <= t < u + 1 ==> crate::text::is_digit_char(#[trigger] s[t]));
                    if forall|t: int|
                        0 <= t < digits.len() ==> crate::text::is_digit_char(#[trigger] digits[t]) {
                        crate::query::lemma_digits_value_prefix(digits, u as int + 1 - (k + 1));
                        assert(crate::query::digits_value(digits) > usize::MAX);
                    } else {
                        let t = choose|t: int|
                            0 <= t < digits.len() && !crate::text::is_digit_char(
                                #[trigger] digits[t],
                            );
                    }
                }
                return Err(LineError::BadCount);
            }
            acc = acc2;
            any = true;
            u += 1;
        }
        if !any {
            proof {
                assert(digits.len() == 0);
            }
            return Err(LineError::BadCount);
        }
        proof {
            assert(s.subrange(k as int + 1, n as int) =~= digits);
            assert(forall|t: int|
                0 <= t < digits.len() ==> crate::text::is_digit_char(#[trigger] digits[t])) by {
                assert(forall|t: int|
                    0 <= t < digits.len() ==> digits[t] == s[k + 1 + t]);
            }
        }
        Ok((word_s, acc as usize))
    }
}

/// How many separators stand before index `j`.
pub open spec fn count_upto(s: Seq<char>, j: int) -> nat {
    sep_count(s.take(j))
}

proof fn lemma_count_upto_step(s: Seq<char>, j: int)
    requires
        0 <= j < s.len(),
    ensures
        count_upto(s, j + 1) == count_upto(s, j) + (if s[j] == '=' {
            1nat
        } else {
            0nat
        }),
{
    lemma_sep_count_snoc(s.take(j + 1));
    assert(s.take(j + 1).drop_last() =~= s.take(j));
}

proof fn lemma_sep_count_snoc(s: Seq<char>)
    requires
        s.len() > 0,
    ensures
        sep_count(s) == sep_count(s.drop_last()) + (if s.last() == '=' {
            1nat
        } else {
            0nat
        }),
    decreases s.len(),
{
    if s.len() == 1 {
        assert(s.drop_last() =~= Seq::<char>::empty());
        assert(s.drop_first() =~= Seq::<char>::empty());
    } else {
        lemma_sep_count_snoc(s.drop_first());
        assert(s.drop_last().drop_first() =~= s.drop_first().drop_last());
        assert(s.drop_first().last() == s.last());
        assert(s.drop_last()[0] == s[0]);
    }
}

proof fn lemma_count_upto_all(s: Seq<char>)
    ensures
        count_upto(s, s.len() as int) == sep_count(s),
{
    assert(s.take(s.len() as int) =~= s);
}

proof fn lemma_count_upto_le(s: Seq<char>, j: int)
    requires
        0 <= j <= s.len(),
    ensures
        sep_count(s) >= count_upto(s, j),
    decreases s.len() - j,
{
    if j == s.len() {
        lemma_count_upto_all(s);
    } else {
        lemma_count_upto_step(s, j);
        lemma_count_upto_le(s, j + 1);
    }
}

proof fn lemma_sep_witness(s: Seq<char>)
    requires
        sep_count(s) > 0,
    ensures
        exists|t: int| 0 <= t < s.len() && s[t] == '=',
    decreases s.len(),
{
    if s.len() > 0 {
        if s[0] == '=' {
        } else {
            lemma_sep_witness(s.drop_first());
            let t = choose|t: int| 0 <= t < s.drop_first().len() && s.drop_first()[t] == '=';
            assert(s[t + 1] == '=');
        }
    }
}

proof fn lemma_unique_sep(s: Seq<char>, a: int, b: int)
    requires
        sep_count(s) == 1,
        0 <= a < s.len(),
        0 <= b < s.len(),
        s[a] == '=',
        s[b] == '=',
    ensures
        a == b,
    decreases s.len(),
{
    if a != b {
        lemma_count_two(s, if a < b {
            a
        } else {
            b
        }, if a < b {
            b
        } else {
            a
        });
    }
}

proof fn lemma_count_two(s: Seq<char>, a: int, b: int)
    requires
        0 <= a < b < s.len(),
        s[a] == '=',
        s[b] == '=',
    ensures
        sep_count(s) >= 2,
    decreases s.len(),
{
    if a == 0 {
        lemma_count_one(s.drop_first(), b - 1);
    } else {
        lemma_count_two(s.drop_first(), a - 1, b - 1);
    }
}

proof fn lemma_count_one(s: Seq<char>, a: int)
    requires
        0 <= a < s.len(),
        s[a] == '=',
    ensures
        sep_count(s) >= 1,
    decreases s.len(),
{
    if a > 0 {
        lemma_count_one(s.drop_first(), a - 1);
    }
}

/// Builds the word-count dictionary of one document's text, with the pass's
/// statistics. An empty document is skipped: the result is `None` exactly
/// when the text is empty, mirroring how zero-byte files are skipped.
pub fn add_file_to_dict(contents: &str) -> (r: Option<(Dictionary, LexerStats)>)
    requires
        contents@.len() < usize::MAX,
    ensures
        r is None <==> contents@.len() == 0,
        r is Some ==> {
            let (dict, stats) = r->Some_0;
            &&& dict.wf()
            &&& dict@ == counts_of_tokens(tokens_of(contents@))
            &&& dict.total() == tokens_of(contents@).len()
            &&& stats.characters_read == contents@.len()
            &&& stats.characters_ignored == ignored_of(contents@)
            &&& stats.lines == 1 + newline_count(contents@)
        },
{
    if contents.is_empty() {
        return None;
    }
    let (tokens, stats) = tokenize(contents);
    let ghost ts = views_of(tokens@);
    let mut dict = Dictionary::new();
    let n = tokens.len();
    let mut j: usize = 0;
    assert(ts.take(0) =~= Seq::<Seq<char>>::empty());
    while j < n
        invariant
            dict.wf(),
            n == tokens@.len(),
            ts == views_of(tokens@),
            ts.len() == n,
            j <= n,
            dict@ == counts_of_tokens(ts.take(j as int)),
            dict.total() == j,
        decreases n - j,
    {
        proof {
            assert(ts.take(j + 1).drop_last() =~= ts.take(j as int));
            assert(ts.take(j + 1).last() == ts[j as int]);
            assert(ts[j as int] == tokens@[j as int]@);
        }
        let w = tokens[j].clone();
        dict.add_word(w);
        j += 1;
    }
    assert(ts.take(n as int) =~= ts);
    Some((dict, stats))
}

} // verus!
