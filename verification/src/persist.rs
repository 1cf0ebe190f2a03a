use vstd::prelude::*;
use vstd::utf8::encode_utf8;
use vstd::utf8::decode_utf8;
use vstd::utf8::valid_utf8;

verus! {

/// The ASCII decimal digits of `n`, most significant first; empty for zero.
pub open spec fn dec_groups(n: nat) -> Seq<u8>
    decreases n,
{
    if n == 0 {
        Seq::empty()
    } else {
        dec_groups(n / 10).push((48 + n % 10) as u8)
    }
}

/// The ASCII decimal rendering of `n`; zero renders as `0`.
pub open spec fn dec_digits(n: nat) -> Seq<u8> {
    if n == 0 {
        seq![48u8]
    } else {
        dec_groups(n)
    }
}

/// Whether a byte is an ASCII decimal digit.
pub open spec fn is_digit_byte(b: u8) -> bool {
    48 <= b <= 57
}

/// Every decimal digit byte is an ASCII digit.
pub proof fn lemma_dec_digit_bytes(n: nat)
    ensures
        forall|i: int| 0 <= i < dec_digits(n).len() ==> is_digit_byte(#[trigger] dec_digits(n)[i]),
        dec_digits(n).len() >= 1,
    decreases n,
{
    if n == 0 {
    } else {
        if n / 10 == 0 {
            assert(dec_groups(0nat) =~= Seq::<u8>::empty());
        } else {
            lemma_dec_digit_bytes(n / 10);
            assert(dec_digits(n / 10) == dec_groups(n / 10));
            assert(forall|i: int|
                0 <= i < dec_groups(n).len() - 1 ==> dec_groups(n)[i] == dec_groups(n / 10)[i]);
        }
    }
}

/// The index just past the digit run starting at `i`.
pub open spec fn digit_run_end(data: Seq<u8>, i: int) -> int
    decreases data.len() - i,
{
    if i < 0 || i >= data.len() {
        i
    } else if is_digit_byte(data[i]) {
        digit_run_end(data, i + 1)
    } else {
        i
    }
}

pub proof fn lemma_digit_run_end(data: Seq<u8>, i: int)
    requires
        0 <= i <= data.len(),
    ensures
        i <= digit_run_end(data, i) <= data.len(),
        forall|t: int| i <= t < digit_run_end(data, i) ==> is_digit_byte(#[trigger] data[t]),
        digit_run_end(data, i) < data.len() ==> !is_digit_byte(data[digit_run_end(data, i)]),
        i < data.len() && is_digit_byte(data[i]) ==> digit_run_end(data, i) >= i + 1,
    decreases data.len() - i,
{
    if i < data.len() && is_digit_byte(data[i]) {
        lemma_digit_run_end(data, i + 1);
    }
}

/// The value of a run of ASCII decimal digit bytes.
pub open spec fn dec_value(ds: Seq<u8>) -> nat
    decreases ds.len(),
{
    if ds.len() == 0 {
        0
    } else {
        (dec_value(ds.drop_last()) * 10 + (ds.last() - 48)) as nat
    }
}

/// The decimal rendering of `n` evaluates back to `n`.
pub proof fn lemma_dec_round_trip(n: nat)
    ensures
        dec_value(dec_digits(n)) == n,
    decreases n,
{
    if n == 0 {
        assert(seq![48u8].drop_last() =~= Seq::<u8>::empty());
        assert(dec_value(Seq::<u8>::empty()) == 0);
        assert(dec_value(seq![48u8]) == 0);
    } else {
        lemma_dec_groups_value(n);
    }
}

proof fn lemma_dec_groups_value(n: nat)
    ensures
        dec_value(dec_groups(n)) == n,
    decreases n,
{
    if n == 0 {
    } else {
        lemma_dec_groups_value(n / 10);
        assert(dec_groups(n).drop_last() =~= dec_groups(n / 10));
    }
}

/// Appends the decimal rendering of `n`.
pub fn write_decimal(n: usize, out: &mut Vec<u8>)
    ensures
        final(out)@ == old(out)@ + dec_digits(n as nat),
{
    if n == 0 {
        out.push(48);
        proof {
            assert(final(out)@ =~= old(out)@ + dec_digits(0));
        }
        return ;
    }
    dec_groups_push(n, out);
}

fn dec_groups_push(n: usize, out: &mut Vec<u8>)
    ensures
        final(out)@ == old(out)@ + dec_groups(n as nat),
    decreases n,
{
    if n == 0 {
        proof {
            assert(old(out)@ + dec_groups(0) =~= old(out)@);
        }
        return ;
    }
    dec_groups_push(n / 10, out);
    let b = (48 + n % 10) as u8;
    out.push(b);
    proof {
        assert(old(out)@ + dec_groups(n as nat) =~= (old(out)@ + dec_groups(n as nat / 10)).push(
            (48 + n as nat % 10) as u8,
        ));
    }
}

/// Reads the decimal number whose digits start at `start`, returning the
/// value and the index just past the run. The run must be nonempty and the
/// value fit the machine word.
pub fn read_decimal(data: &Vec<u8>, start: usize) -> (r: Result<(usize, usize), crate::codec::CodecError>)
    requires
        start <= data@.len(),
    ensures
        r matches Ok(p) ==> ({
            &&& start < p.1 <= data@.len()
            &&& p.1 == digit_run_end(data@, start as int)
            &&& dec_value(data@.subrange(start as int, p.1 as int)) == p.0
        }),
        r matches Err(e) ==> (digit_run_end(data@, start as int) == start || dec_value(
            data@.subrange(start as int, digit_run_end(data@, start as int)),
        ) > usize::MAX),
{
    let ghost s = data@;
    let ghost jend = digit_run_end(s, start as int);
    proof {
        lemma_digit_run_end(s, start as int);
    }
    let n = data.len();
    let mut i: usize = start;
    let mut acc: u128 = 0;
    let mut over = false;
    proof {
        assert(s.subrange(start as int, start as int) =~= Seq::<u8>::empty());
    }
    loop
        invariant
            s == data@,
            n == s.len(),
            0 <= start as int <= i <= n,
            digit_run_end(s, start as int) == digit_run_end(s, i as int),
            jend == digit_run_end(s, start as int),
            !over ==> acc == dec_value(s.subrange(start as int, i as int)),
            !over ==> acc <= usize::MAX,
            over ==> dec_value(s.subrange(start as int, jend)) > usize::MAX,
            forall|t: int| start as int <= t < i ==> is_digit_byte(#[trigger] s[t]),
        ensures
            jend == i as int,
            start as int <= i <= n,
            !over ==> acc == dec_value(s.subrange(start as int, i as int)),
            !over ==> acc <= usize::MAX,
            over ==> dec_value(s.subrange(start as int, jend)) > usize::MAX,
        decreases n - i,
    {
        if i >= n {
            assert(digit_run_end(s, i as int) == i as int);
            break ;
        }
        let b = data[i];
        if !(48 <= b && b <= 57) {
            assert(digit_run_end(s, i as int) == i as int);
            break ;
        }
        assert(is_digit_byte(s[i as int]));
        if !over {
            let d = (b - 48) as u128;
            let acc2 = acc * 10 + d;
            proof {
                assert(s.subrange(start as int, i as int + 1).drop_last() =~= s.subrange(
                    start as int,
                    i as int,
                ));
                assert(s.subrange(start as int, i as int + 1).last() == s[i as int]);
            }
            if acc2 > usize::MAX as u128 {
                over = true;
                proof {
                    assert(dec_value(s.subrange(start as int, i as int + 1)) > usize::MAX);
                    lemma_digit_run_end(s, i as int);
                    assert(jend >= i + 1);
                    assert(s.subrange(start as int, jend).take(i as int + 1 - start) =~= s.subrange(
                        start as int,
                        i as int + 1,
                    ));
                    assert(forall|t: int|
                        0 <= t < jend - start ==> is_digit_byte(
                            #[trigger] s.subrange(start as int, jend)[t],
                        ));
                    lemma_dec_value_prefix(s.subrange(start as int, jend), i as int + 1 - start);
                }
            } else {
                acc = acc2;
            }
        }
        i += 1;
    }
    if over {
        return Err(crate::codec::CodecError::Overflow);
    }
    if i == start {
        return Err(crate::codec::CodecError::Malformed);
    }
    Ok((acc as usize, i))
}

/// Longer digit runs denote values at least as large.
pub proof fn lemma_dec_value_prefix(ds: Seq<u8>, k: int)
    requires
        0 <= k <= ds.len(),
        forall|t: int| 0 <= t < ds.len() ==> is_digit_byte(#[trigger] ds[t]),
    ensures
        dec_value(ds.take(k)) <= dec_value(ds),
    decreases ds.len() - k,
{
    if k == ds.len() {
        assert(ds.take(k) =~= ds);
    } else {
        assert(ds.take(k + 1).drop_last() =~= ds.take(k));
        assert(ds.take(k + 1).last() == ds[k]);
        lemma_dec_value_prefix(ds, k + 1);
    }
}

/// Relies on `str::as_bytes`: a string's bytes are the UTF-8 encoding of its
/// characters.
#[verifier::external_body]
pub fn str_utf8_bytes(s: &str) -> (r: Vec<u8>)
    ensures
        r@ == encode_utf8(s@),
{
    s.as_bytes().to_vec()
}

/// Relies on `String::from_utf8`: it succeeds exactly on valid UTF-8, and
/// then decodes the bytes to their characters.
#[verifier::external_body]
pub fn bytes_to_string(v: &Vec<u8>) -> (r: Option<String>)
    ensures
        r is Some <==> valid_utf8(v@),
        r matches Some(s) ==> s@ == decode_utf8(v@),
{
    match String::from_utf8(v.clone()) {
        Ok(s) => Some(s),
        Err(_) => None,
    }
}

/// Byte-lexicographic strict order.
pub open spec fn bytes_lt(a: Seq<u8>, b: Seq<u8>) -> bool
    decreases a.len(),
{
    if b.len() == 0 {
        false
    } else if a.len() == 0 {
        true
    } else if a[0] < b[0] {
        true
    } else if a[0] > b[0] {
        false
    } else {
        bytes_lt(a.drop_first(), b.drop_first())
    }
}

/// Decides the byte-lexicographic order.
pub fn bytes_less(a: &Vec<u8>, b: &Vec<u8>) -> (r: bool)
    ensures
        r == bytes_lt(a@, b@),
{
    let n = a.len();
    let m = b.len();
    let mut i: usize = 0;
    proof {
        assert(a@.skip(0) =~= a@);
        assert(b@.skip(0) =~= b@);
    }
    loop
        invariant
            n == a@.len(),
            m == b@.len(),
            i <= n,
            i <= m,
            bytes_lt(a@, b@) == bytes_lt(a@.skip(i as int), b@.skip(i as int)),
        ensures
            bytes_lt(a@, b@) == bytes_lt(a@.skip(i as int), b@.skip(i as int)),
            i <= n && i <= m,
            (i >= n || i >= m) || a@[i as int] != b@[i as int],
        decreases n - i,
    {
        if i >= n || i >= m {
            break ;
        }
        proof {
            assert(a@.skip(i as int)[0] == a@[i as int]);
            assert(b@.skip(i as int)[0] == b@[i as int]);
            assert(a@.skip(i as int).drop_first() =~= a@.skip(i + 1));
            assert(b@.skip(i as int).drop_first() =~= b@.skip(i + 1));
        }
        if a[i] != b[i] {
            break ;
        }
        i += 1;
    }
    proof {
        assert(a@.skip(i as int).len() == n - i);
        assert(b@.skip(i as int).len() == m - i);
    }
    if i >= m {
        proof {
            assert(!bytes_lt(a@.skip(i as int), b@.skip(i as int)));
        }
        false
    } else if i >= n {
        proof {
            assert(bytes_lt(a@.skip(i as int), b@.skip(i as int)));
        }
        true
    } else {
        proof {
            assert(a@.skip(i as int)[0] == a@[i as int]);
            assert(b@.skip(i as int)[0] == b@[i as int]);
        }
        a[i] < b[i]
    }
}

/// The length of the longest common prefix of two byte strings.
pub open spec fn common_prefix(a: Seq<u8>, b: Seq<u8>) -> int
    decreases a.len(),
{
    if a.len() == 0 || b.len() == 0 {
        0
    } else if a[0] == b[0] {
        1 + common_prefix(a.drop_first(), b.drop_first())
    } else {
        0
    }
}

pub proof fn lemma_common_prefix(a: Seq<u8>, b: Seq<u8>)
    ensures
        0 <= common_prefix(a, b) <= a.len(),
        common_prefix(a, b) <= b.len(),
        forall|t: int| 0 <= t < common_prefix(a, b) ==> a[t] == b[t],
        common_prefix(a, b) < a.len() && common_prefix(a, b) < b.len() ==> a[common_prefix(a, b)]
            != b[common_prefix(a, b)],
    decreases a.len(),
{
    if a.len() > 0 && b.len() > 0 && a[0] == b[0] {
        lemma_common_prefix(a.drop_first(), b.drop_first());
        let c = common_prefix(a.drop_first(), b.drop_first());
        assert(forall|t: int| 0 <= t < c ==> a.drop_first()[t] == b.drop_first()[t]);
        assert(forall|t: int| 1 <= t < c + 1 ==> a[t] == a.drop_first()[t - 1]);
        assert(forall|t: int| 1 <= t < c + 1 ==> b[t] == b.drop_first()[t - 1]);
        assert(forall|t: int| 1 <= t < c + 1 ==> a[t] == b[t]);
    }
}

/// Computes the longest common prefix length of two byte strings.
pub fn common_prefix_len(a: &Vec<u8>, b: &Vec<u8>) -> (r: usize)
    ensures
        r == common_prefix(a@, b@),
{
    proof {
        lemma_common_prefix(a@, b@);
    }
    let n = a.len();
    let m = b.len();
    let mut i: usize = 0;
    proof {
        assert(a@.skip(0) =~= a@);
        assert(b@.skip(0) =~= b@);
    }
    loop
        invariant
            n == a@.len(),
            m == b@.len(),
            i <= n,
            i <= m,
            common_prefix(a@, b@) == i + common_prefix(a@.skip(i as int), b@.skip(i as int)),
        ensures
            i == common_prefix(a@, b@),
        decreases n - i,
    {
        if i >= n || i >= m {
            proof {
                assert(common_prefix(a@.skip(i as int), b@.skip(i as int)) == 0);
            }
            break ;
        }
        proof {
            assert(a@.skip(i as int)[0] == a@[i as int]);
            assert(b@.skip(i as int)[0] == b@[i as int]);
            assert(a@.skip(i as int).drop_first() =~= a@.skip(i + 1));
            assert(b@.skip(i as int).drop_first() =~= b@.skip(i + 1));
        }
        if a[i] != b[i] {
            proof {
                assert(common_prefix(a@.skip(i as int), b@.skip(i as int)) == 0);
            }
            break ;
        }
        i += 1;
    }
    i
}

/// The front-coded dictionary block for the keys from `i` on, `prev` being
/// the previously written key: for each key, the decimal length of its
/// common prefix with the previous key, then the remaining bytes.
pub open spec fn dict_block_from(keys: Seq<Seq<u8>>, i: int, prev: Seq<u8>) -> Seq<u8>
    decreases keys.len() - i,
{
    if i < 0 || i >= keys.len() {
        Seq::empty()
    } else {
        dec_digits(common_prefix(prev, keys[i]) as nat) + keys[i].skip(
            common_prefix(prev, keys[i]),
        ) + dict_block_from(keys, i + 1, keys[i])
    }
}

/// The gap coding of a sorted document list: each id as its delta from the
/// previous one, variable-byte encoded.
pub open spec fn gaps_bytes(ids: Seq<usize>, prev: nat) -> Seq<u8>
    decreases ids.len(),
{
    if ids.len() == 0 {
        Seq::empty()
    } else {
        crate::codec::vb_bytes((ids[0] - prev) as nat) + gaps_bytes(ids.drop_first(), ids[0] as nat)
    }
}

/// The postings blocks for the entries from `i` on: for each term, the
/// variable-byte document count, then the gap-coded sorted document ids.
pub open spec fn post_blocks(es: Seq<(Seq<u8>, Seq<usize>)>, i: int) -> Seq<u8>
    decreases es.len() - i,
{
    if i < 0 || i >= es.len() {
        Seq::empty()
    } else {
        crate::codec::vb_bytes(es[i].1.len() as nat) + gaps_bytes(es[i].1, 0) + post_blocks(
            es,
            i + 1,
        )
    }
}

/// The whole compressed stream of an entry list: the front-coded dictionary,
/// a terminating zero byte, then the postings blocks in the same order.
pub open spec fn compressed_of(es: Seq<(Seq<u8>, Seq<usize>)>) -> Seq<u8> {
    dict_block_from(es.map_values(|e: (Seq<u8>, Seq<usize>)| e.0), 0, Seq::empty()) + seq![0u8]
        + post_blocks(es, 0)
}

/// Whether `es` lists the doc-posting map `m` exactly: the keys are the
/// UTF-8 encodings of `m`'s terms in strictly increasing byte order (so each
/// term appears exactly once), every term of `m` is listed, and each entry
/// carries its term's document set, sorted increasingly.
/// Whether `es` lists the doc-posting map `m` exactly: as many entries as
/// `m` has terms, the keys valid UTF-8 encodings of terms of `m` in strictly
/// increasing byte order (so, the encoding injective, every term exactly
/// once), each entry carrying its term's document set sorted increasingly.
pub open spec fn lists_map(
    es: Seq<(Seq<u8>, Seq<usize>)>,
    m: Map<Seq<char>, Set<usize>>,
) -> bool {
    &&& es.len() == m.dom().len()
    &&& forall|i: int, j: int|
        0 <= i < j < es.len() ==> bytes_lt((#[trigger] es[i]).0, (#[trigger] es[j]).0)
    &&& forall|i: int|
        0 <= i < es.len() ==> m.contains_key(decode_utf8((#[trigger] es[i]).0)) && es[i].0
            == encode_utf8(decode_utf8(es[i].0)) && crate::uintset::strictly_sorted(es[i].1)
            && crate::uintset::seq_set(es[i].1) == m[decode_utf8(es[i].0)]
}

/// Whether `es` lists the doc-posting map `m` exactly, in some order: as
/// many entries as `m` has terms, pairwise distinct keys that are valid
/// UTF-8 encodings of terms of `m` (so every term exactly once), each with
/// its term's document set sorted increasingly.
pub open spec fn lists_map_full(
    es: Seq<(Seq<u8>, Seq<usize>)>,
    m: Map<Seq<char>, Set<usize>>,
) -> bool {
    &&& es.len() == m.dom().len()
    &&& forall|i: int, j: int|
        0 <= i < j < es.len() ==> (#[trigger] es[i]).0 != (#[trigger] es[j]).0
    &&& forall|i: int|
        0 <= i < es.len() ==> m.contains_key(decode_utf8((#[trigger] es[i]).0)) && es[i].0
            == encode_utf8(decode_utf8(es[i].0)) && crate::uintset::strictly_sorted(es[i].1)
            && crate::uintset::seq_set(es[i].1) == m[decode_utf8(es[i].0)]
}

/// Writes the index in the compressed binary form: the byte-sorted,
/// An empty listing represents the empty done-part.
proof fn lemma_rep_empty(
    s: Seq<(Vec<u8>, UintSetHolder)>,
    m: Map<Seq<char>, Set<usize>>,
    done: Map<Seq<char>, Set<usize>>,
)
    requires
        s.len() == 0,
        done == Map::<Seq<char>, Set<usize>>::empty(),
    ensures
        sorted_rep(s, m, done),
{
    assert(done.dom() =~= Set::<Seq<char>>::empty());
}

/// A sorted exact listing has strictly increasing keys.
proof fn lemma_rep_sorted(
    s: Seq<(Vec<u8>, UintSetHolder)>,
    m: Map<Seq<char>, Set<usize>>,
    done: Map<Seq<char>, Set<usize>>,
)
    requires
        sorted_rep(s, m, done),
    ensures
        forall|a: int, b: int|
            0 <= a < b < s.len() ==> bytes_lt((#[trigger] s[a]).0@, (#[trigger] s[b]).0@),
{
}

/// No built key is the encoding of a term outside the done-part.
proof fn lemma_rep_key_new(
    s0: Seq<(Vec<u8>, UintSetHolder)>,
    m: Map<Seq<char>, Set<usize>>,
    done: Map<Seq<char>, Set<usize>>,
    tkey: Seq<char>,
)
    requires
        sorted_rep(s0, m, done),
        !done.contains_key(tkey),
    ensures
        forall|i: int| 0 <= i < s0.len() ==> (#[trigger] s0[i]).0@ != encode_utf8(tkey),
{
    assert forall|i: int| 0 <= i < s0.len() implies (#[trigger] s0[i]).0@ != encode_utf8(
        tkey,
    ) by {
        if s0[i].0@ == encode_utf8(tkey) {
            vstd::utf8::encode_utf8_decode_utf8(tkey);
            assert(decode_utf8(s0[i].0@) == tkey);
            assert(done.contains_key(tkey));
        }
    }
}

/// Inserting one new term's entry extends a sorted exact listing by that
/// term.
proof fn lemma_rep_insert(
    s0: Seq<(Vec<u8>, UintSetHolder)>,
    s1: Seq<(Vec<u8>, UintSetHolder)>,
    m: Map<Seq<char>, Set<usize>>,
    done: Map<Seq<char>, Set<usize>>,
    tkey: Seq<char>,
    setv: Set<usize>,
    newpair: (Vec<u8>, UintSetHolder),
)
    requires
        sorted_rep(s0, m, done),
        m.contains_key(tkey),
        m[tkey] == setv,
        !done.contains_key(tkey),
        newpair.0@ == encode_utf8(tkey),
        newpair.1.ids@ == setv,
        newpair.1.ids.wf(),
        s1.len() == s0.len() + 1,
        forall|i: int| 0 <= i < s1.len() ==> (#[trigger] s1[i]) == newpair || s0.contains(s1[i]),
        forall|a: int, b: int|
            0 <= a < b < s1.len() ==> bytes_lt((#[trigger] s1[a]).0@, (#[trigger] s1[b]).0@),
    ensures
        sorted_rep(s1, m, done.insert(tkey, setv)),
{
    let done1 = done.insert(tkey, setv);
    assert(done1.dom() =~= done.dom().insert(tkey));
    assert(done1.dom().len() == done.dom().len() + 1);
    vstd::utf8::encode_utf8_decode_utf8(tkey);
    assert forall|i: int|
        0 <= i < s1.len() implies (#[trigger] s1[i]).1.ids.wf() && done1.contains_key(
        decode_utf8(s1[i].0@),
    ) && s1[i].0@ == encode_utf8(decode_utf8(s1[i].0@)) && s1[i].1.ids@ == done1[decode_utf8(
        s1[i].0@,
    )] by {
        if s1[i] == newpair {
            assert(decode_utf8(s1[i].0@) == tkey);
            assert(done1.contains_key(tkey) && done1[tkey] == setv);
        } else {
            assert(s0.contains(s1[i]));
            let oi = choose|oi: int| 0 <= oi < s0.len() && #[trigger] s0[oi] == s1[i];
            assert(done.contains_key(decode_utf8(s0[oi].0@)));
            assert(decode_utf8(s0[oi].0@) != tkey);
        }
    }
    assert forall|t: Seq<char>| #[trigger]
        done1.contains_key(t) implies m.contains_key(t) && done1[t] == m[t] by {
        if t != tkey {
            assert(done.contains_key(t));
        }
    }
}

fn collect_sorted(index: &crate::doc_index::InvertedIndex) -> (r: Vec<(Vec<u8>, UintSetHolder)>)
    requires
        index.wf(),
    ensures
        sorted_rep(r@, index.tmap(), index.tmap()),
{
    proof {
        index.lemma_index_list();
    }
    let tes = index.index_entries();
    let n = tes.len();
    let mut sorted: Vec<(Vec<u8>, UintSetHolder)> = Vec::new();
    let mut j: usize = 0;
    proof {
        assert(tes@.take(0) =~= Seq::<(Vec<char>, crate::uintset::UintSet)>::empty());
        lemma_rep_empty(
            sorted@,
            index.tmap(),
            crate::termmap::entries_tmap(tes@.take(0)),
        );
    }
    while j < n
        invariant
            n == tes@.len(),
            tes@ == index.index_list(),
            index.wf(),
            j <= n,
            sorted_rep(sorted@, index.tmap(), crate::termmap::entries_tmap(tes@.take(j as int))),
        decreases n - j,
    {
        let ghost done = crate::termmap::entries_tmap(tes@.take(j as int));
        proof {
            index.lemma_index_list();
            crate::termmap::lemma_tmap_index(tes@, j as int);
            crate::termmap::lemma_tmap_take_step(tes@, j as int);
        }
        let term = crate::text::chars_to_string(&tes[j].0);
        let key = str_utf8_bytes(term.as_str());
        let ghost setv = tes@[j as int].1@;
        proof {
            assert(tes@[j as int].1.wf()) by {
                assert(index.index_list()[j as int] == tes@[j as int]);
            }
            vstd::utf8::encode_utf8_valid_utf8(term@);
            vstd::utf8::encode_utf8_decode_utf8(term@);
        }
        let dup = tes[j].1.duplicate();
        let ghost s0 = sorted@;
        let ghost tkey = term@;
        let ghost keyb = key@;
        proof {
            assert(index.tmap().contains_key(tkey) && keyb == encode_utf8(tkey) && dup@
                == index.tmap()[tkey]) by {
                assert(tkey == tes@[j as int].0@);
            }
            assert(!done.contains_key(tkey)) by {
                assert(forall|t: int|
                    0 <= t < j ==> (#[trigger] tes@.take(j as int)[t]).0@ != tkey);
                crate::termmap::lemma_tmap_absent(tes@.take(j as int), tkey);
            }
            lemma_rep_key_new(s0, index.tmap(), done, tkey);
            lemma_rep_sorted(s0, index.tmap(), done);
        }
        let holder = UintSetHolder { ids: dup };
        let ghost newpair = (key, holder);
        insert_sorted_entry(&mut sorted, key, holder);
        proof {
            assert(crate::termmap::entries_tmap(tes@.take(j + 1)) == done.insert(tkey, setv));
            lemma_rep_insert(s0, sorted@, index.tmap(), done, tkey, setv, newpair);
        }
        j += 1;
    }
    proof {
        assert(tes@.take(n as int) =~= tes@);
        index.lemma_index_list();
    }
    sorted
}

/// A byte-sorted exact listing of the whole map views to `lists_map`.
proof fn lemma_sorted_rep_lists(s: Seq<(Vec<u8>, UintSetHolder)>, m: Map<Seq<char>, Set<usize>>)
    requires
        sorted_rep(s, m, m),
    ensures
        lists_map(entry_views(s), m),
{
    let es = entry_views(s);
    assert forall|a: int, b: int|
        0 <= a < b < es.len() implies bytes_lt((#[trigger] es[a]).0, (#[trigger] es[b]).0) by {
        assert(es[a].0 == s[a].0@ && es[b].0 == s[b].0@);
    }
    assert forall|i: int|
        0 <= i < es.len() implies m.contains_key(decode_utf8((#[trigger] es[i]).0)) && es[i].0
            == encode_utf8(decode_utf8(es[i].0)) && crate::uintset::strictly_sorted(es[i].1)
            && crate::uintset::seq_set(es[i].1) == m[decode_utf8(es[i].0)] by {
        assert(es[i].0 == s[i].0@ && es[i].1 == s[i].1.ids.ordered());
        s[i].1.ids.lemma_ordered();
    }
}

#[verifier::rlimit(60)]
pub fn save_compressed(index: &crate::doc_index::InvertedIndex) -> (r: Vec<u8>)
    requires
        index.wf(),
    ensures
        exists|es: Seq<(Seq<u8>, Seq<usize>)>|
            #[trigger] compressed_of(es) == r@ && lists_map(es, index.tmap()),
{
    let sorted = collect_sorted(index);
    let ghost es = entry_views(sorted@);
    proof {
        lemma_sorted_rep_lists(sorted@, index.tmap());
    }
    let mut out: Vec<u8> = Vec::new();
    let m = sorted.len();
    let mut prev: Vec<u8> = Vec::new();
    let mut i: usize = 0;
    let ghost keys = es.map_values(|e: (Seq<u8>, Seq<usize>)| e.0);
    proof {
        assert(out@ + dict_block_from(keys, 0, Seq::empty()) =~= dict_block_from(
            keys,
            0,
            Seq::empty(),
        ));
    }
    while i < m
        invariant
            m == sorted@.len(),
            es == entry_views(sorted@),
            keys == es.map_values(|e: (Seq<u8>, Seq<usize>)| e.0),
            i <= m,
            prev@ == (if i == 0 {
                Seq::<u8>::empty()
            } else {
                keys[i - 1]
            }),
            dict_block_from(keys, 0, Seq::empty()) == out@ + dict_block_from(
                keys,
                i as int,
                prev@,
            ),
        decreases m - i,
    {
        proof {
            assert(keys[i as int] == sorted@[i as int].0@);
        }
        let c = common_prefix_len(&prev, &sorted[i].0);
        let ghost out0 = out@;
        write_decimal(c, &mut out);
        let keyref = &sorted[i].0;
        let klen = keyref.len();
        let mut t: usize = c;
        proof {
            lemma_common_prefix(prev@, keyref@);
            assert(out@ + keyref@.subrange(c as int, c as int) =~= out@);
        }
        while t < klen
            invariant
                c <= t <= klen,
                klen == keyref@.len(),
                keyref@ == sorted@[i as int].0@,
                i < m,
                m == sorted@.len(),
                out@ == out0 + dec_digits(c as nat) + keyref@.subrange(c as int, t as int),
            decreases klen - t,
        {
            out.push(keyref[t]);
            proof {
                assert(out@ =~= out0 + dec_digits(c as nat) + keyref@.subrange(
                    c as int,
                    t as int + 1,
                ));
            }
            t += 1;
        }
        proof {
            assert(keyref@.subrange(c as int, klen as int) =~= keyref@.skip(c as int));
            assert(out@ =~= out0 + (dec_digits(c as nat) + keyref@.skip(c as int)));
            assert(dict_block_from(keys, i as int, prev@) == dec_digits(
                common_prefix(prev@, keys[i as int]) as nat,
            ) + keys[i as int].skip(common_prefix(prev@, keys[i as int])) + dict_block_from(
                keys,
                i + 1,
                keys[i as int],
            ));
            assert(out0 + (dec_digits(c as nat) + keyref@.skip(c as int)) + dict_block_from(
                keys,
                i + 1,
                keys[i as int],
            ) =~= out0 + dict_block_from(keys, i as int, prev@));
        }
        prev = crate::text::dup_bytes(&sorted[i].0);
        i += 1;
    }
    proof {
        assert(dict_block_from(keys, m as int, prev@) =~= Seq::<u8>::empty());
        assert(out@ =~= dict_block_from(keys, 0, Seq::empty()));
    }
    out.push(0);
    let ghost dict_done = out@;
    proof {
        assert(dict_done =~= dict_block_from(keys, 0, Seq::empty()) + seq![0u8]);
        assert(dict_done + post_blocks(es, 0) =~= dict_done + post_blocks(es, 0));
    }
    let mut i2: usize = 0;
    while i2 < m
        invariant
            m == sorted@.len(),
            es == entry_views(sorted@),
            i2 <= m,
            forall|t: int| 0 <= t < m ==> (#[trigger] sorted@[t]).1.ids.wf(),
            out@ + post_blocks(es, i2 as int) == dict_done + post_blocks(es, 0),
        decreases m - i2,
    {
        let ghost out0 = out@;
        let count = sorted[i2].1.ids.len();
        let cb = crate::codec::vb_encode(count);
        let mut cbm = cb;
        out.append(&mut cbm);
        proof {
            sorted@[i2 as int].1.ids.lemma_card();
            assert(es[i2 as int].1 == sorted@[i2 as int].1.ids.ordered());
            assert(count == es[i2 as int].1.len());
        }
        let idsref = sorted[i2].1.ids.elems();
        let idn = idsref.len();
        let mut prev_id: usize = 0;
        let mut t: usize = 0;
        let ghost after_count = out@;
        proof {
            assert(after_count =~= out0 + crate::codec::vb_bytes(es[i2 as int].1.len() as nat));
            assert(es[i2 as int].1.skip(0) =~= es[i2 as int].1);
            sorted@[i2 as int].1.ids.lemma_ordered();
            assert(crate::uintset::strictly_sorted(es[i2 as int].1));
        }
        while t < idn
            invariant
                idn == idsref@.len(),
                idsref@ == es[i2 as int].1,
                0 <= i2 < m,
                m == sorted@.len(),
                es == entry_views(sorted@),
                crate::uintset::strictly_sorted(idsref@),
                t <= idn,
                prev_id as nat == (if t == 0 {
                    0nat
                } else {
                    idsref@[t - 1] as nat
                }),
                after_count + gaps_bytes(idsref@, 0) == out@ + gaps_bytes(
                    idsref@.skip(t as int),
                    prev_id as nat,
                ),
            decreases idn - t,
        {
            let d = idsref[t];
            proof {
                assert(idsref@.skip(t as int)[0] == d);
                assert(d >= prev_id) by {
                    if t > 0 {
                        assert(idsref@[t - 1] < idsref@[t as int]);
                    }
                }
                assert(idsref@.skip(t as int).drop_first() =~= idsref@.skip(t + 1));
            }
            let delta = d - prev_id;
            let mut db = crate::codec::vb_encode(delta);
            let ghost before = out@;
            out.append(&mut db);
            proof {
                assert(gaps_bytes(idsref@.skip(t as int), prev_id as nat) == crate::codec::vb_bytes(
                    (d - prev_id) as nat,
                ) + gaps_bytes(idsref@.skip(t + 1), d as nat));
                assert(after_count + gaps_bytes(idsref@, 0) =~= out@ + gaps_bytes(
                    idsref@.skip(t + 1),
                    d as nat,
                ));
            }
            prev_id = d;
            t += 1;
        }
        proof {
            assert(idsref@.skip(idn as int) =~= Seq::<usize>::empty());
            assert(gaps_bytes(Seq::empty(), prev_id as nat) =~= Seq::<u8>::empty());
            assert(out@ =~= after_count + gaps_bytes(idsref@, 0));
            assert(out@ =~= out0 + (crate::codec::vb_bytes(es[i2 as int].1.len() as nat)
                + gaps_bytes(es[i2 as int].1, 0)));
            assert(post_blocks(es, i2 as int) == crate::codec::vb_bytes(
                es[i2 as int].1.len() as nat,
            ) + gaps_bytes(es[i2 as int].1, 0) + post_blocks(es, i2 + 1));
            assert(out0 + (crate::codec::vb_bytes(es[i2 as int].1.len() as nat) + gaps_bytes(
                es[i2 as int].1,
                0,
            )) + post_blocks(es, i2 + 1) =~= out0 + post_blocks(es, i2 as int));
            assert(out@ + post_blocks(es, i2 + 1) =~= dict_done + post_blocks(es, 0));
        }
        i2 += 1;
    }
    proof {
        assert(post_blocks(es, m as int) =~= Seq::<u8>::empty());
        assert(out@ + Seq::<u8>::empty() =~= out@);
        assert(out@ =~= dict_done + post_blocks(es, 0));
        assert(out@ =~= compressed_of(es));
    }
    out
}

/// A posting set under construction, wrapped so entry lists can hold it.
pub struct UintSetHolder {
    pub ids: crate::uintset::UintSet,
}

/// The views of a built entry list: key bytes and sorted document listings.
pub open spec fn entry_views(s: Seq<(Vec<u8>, UintSetHolder)>) -> Seq<(Seq<u8>, Seq<usize>)> {
    s.map_values(|e: (Vec<u8>, UintSetHolder)| (e.0@, e.1.ids.ordered()))
}

/// Whether the built list is a byte-sorted exact listing of the part `done`
/// of the map `m`: as many entries as `done` has terms, keys strictly
/// increasing, each a valid encoding of a term of `done` carried with that
/// term's document set.
pub open spec fn sorted_rep(
    s: Seq<(Vec<u8>, UintSetHolder)>,
    m: Map<Seq<char>, Set<usize>>,
    done: Map<Seq<char>, Set<usize>>,
) -> bool {
    &&& done.dom().finite()
    &&& s.len() == done.dom().len()
    &&& forall|i: int, j: int|
        0 <= i < j < s.len() ==> bytes_lt((#[trigger] s[i]).0@, (#[trigger] s[j]).0@)
    &&& forall|i: int|
        0 <= i < s.len() ==> (#[trigger] s[i]).1.ids.wf() && done.contains_key(
            decode_utf8(s[i].0@),
        ) && s[i].0@ == encode_utf8(decode_utf8(s[i].0@)) && s[i].1.ids@ == done[decode_utf8(
            s[i].0@,
        )]
    &&& forall|t: Seq<char>|
        #[trigger] done.contains_key(t) ==> m.contains_key(t) && done[t] == m[t]
}

/// Inserts one entry keeping the listing sorted by key bytes; the key must
/// be new to the listing.
fn insert_sorted_entry(
    s: &mut Vec<(Vec<u8>, UintSetHolder)>,
    key: Vec<u8>,
    ids: UintSetHolder,
)
    requires
        ids.ids.wf(),
        forall|i: int, j: int|
            0 <= i < j < old(s)@.len() ==> bytes_lt(
                (#[trigger] old(s)@[i]).0@,
                (#[trigger] old(s)@[j]).0@,
            ),
        forall|i: int| 0 <= i < old(s)@.len() ==> (#[trigger] old(s)@[i]).0@ != key@,
    ensures
        final(s)@.len() == old(s)@.len() + 1,
        forall|i: int|
            0 <= i < final(s)@.len() ==> ((#[trigger] final(s)@[i]) == (key, ids) || old(s)@.contains(final(s)@[i])),
        exists|i: int| 0 <= i < final(s)@.len() && (#[trigger] final(s)@[i]) == (key, ids),
        forall|i: int| 0 <= i < old(s)@.len() ==> final(s)@.contains(#[trigger] old(s)@[i]),
        forall|i: int, j: int|
            0 <= i < j < final(s)@.len() ==> bytes_lt(
                (#[trigger] final(s)@[i]).0@,
                (#[trigger] final(s)@[j]).0@,
            ),
{
    let n = s.len();
    let mut j: usize = 0;
    while j < n && bytes_less(&s[j].0, &key)
        invariant
            s@ == old(s)@,
            n == s@.len(),
            j <= n,
            forall|t: int| 0 <= t < j ==> bytes_lt((#[trigger] s@[t]).0@, key@),
        decreases n - j,
    {
        j += 1;
    }
    proof {
        if j < n {
            assert(!bytes_lt(s@[j as int].0@, key@));
            assert(s@[j as int].0@ != key@);
            lemma_bytes_lt_total(key@, s@[j as int].0@);
            assert(bytes_lt(key@, s@[j as int].0@));
        }
    }
    s.insert(j, (key, ids));
    proof {
        let s1 = s@;
        let s0 = old(s)@;
        assert(forall|t: int| 0 <= t < j ==> s1[t] == s0[t]);
        assert(s1[j as int] == (key, ids));
        assert(forall|t: int| j < t < s1.len() ==> s1[t] == s0[t - 1]);
        assert forall|i: int|
            0 <= i < s1.len() implies (s1[i] == (key, ids) || s0.contains(#[trigger] s1[i])) by {
            if i < j {
                assert(s0[i] == s1[i]);
            } else if i > j {
                assert(s0[i - 1] == s1[i]);
            }
        }
        assert forall|i: int| 0 <= i < s0.len() implies s1.contains(#[trigger] s0[i]) by {
            if i < j {
                assert(s1[i] == s0[i]);
            } else {
                assert(s1[i + 1] == s0[i]);
            }
        }
        assert forall|a: int, b: int|
            0 <= a < b < s1.len() implies bytes_lt(
            (#[trigger] s1[a]).0@,
            (#[trigger] s1[b]).0@,
        ) by {
            if b < j {
            } else if a < j && b == j {
                assert(s1[a].0@ == s0[a].0@);
            } else if a < j && b > j {
                assert(s1[a].0@ == s0[a].0@ && s1[b].0@ == s0[b - 1].0@);
            } else if a == j && b > j {
                assert(s1[b].0@ == s0[b - 1].0@);
                if b - 1 == j {
                    assert(bytes_lt(key@, s0[j as int].0@));
                } else {
                    assert(bytes_lt(key@, s0[j as int].0@));
                    assert(bytes_lt(s0[j as int].0@, s0[b - 1].0@));
                    lemma_bytes_lt_trans(key@, s0[j as int].0@, s0[b - 1].0@);
                }
            } else {
                assert(s1[a].0@ == s0[a - 1].0@ && s1[b].0@ == s0[b - 1].0@);
            }
        }
    }
}

/// A variable-byte number whose encoding stands at `i` parses back to its
/// value, consuming exactly its encoding.
pub proof fn lemma_vb_parse_at(data: Seq<u8>, i: int, x: nat)
    requires
        0 <= i,
        i + crate::codec::vb_bytes(x).len() <= data.len(),
        data.subrange(i, i + crate::codec::vb_bytes(x).len()) == crate::codec::vb_bytes(x),
    ensures
        crate::codec::vb_parse(data, i) == Some((x, i + crate::codec::vb_bytes(x).len())),
{
    let vb = crate::codec::vb_bytes(x);
    crate::codec::lemma_vb_round_trip(x, data.skip(i + vb.len() as int));
    let shifted = vb + data.skip(i + vb.len() as int);
    assert(shifted =~= data.skip(i));
    lemma_vb_parse_shift(data, i, 0);
    assert(crate::codec::vb_parse(data.skip(i), 0) == Some((x, vb.len() as int)));
}

/// Parsing from offset `i` is parsing the suffix from its start, with the
/// consumed end shifted by `i`.
pub proof fn lemma_vb_parse_shift(data: Seq<u8>, i: int, acc: nat)
    requires
        0 <= i <= data.len(),
    ensures
        crate::codec::vb_parse_from(data, i, acc) == (match crate::codec::vb_parse_from(
            data.skip(i),
            0,
            acc,
        ) {
            Some(p) => Some((p.0, p.1 + i)),
            None => None,
        }),
    decreases data.len() - i,
{
    if i < data.len() {
        assert(data.skip(i)[0] == data[i]);
        if data[i] >= 128 {
        } else {
            let acc2 = (acc * 128 + data[i]) as nat;
            lemma_vb_parse_shift(data, i + 1, acc2);
            lemma_vb_parse_shift(data.skip(i), 1, acc2);
            assert(data.skip(i).skip(1) =~= data.skip(i + 1));
        }
    }
}

/// The specification-level parse of `count` gap-coded ids after `prev`.
pub open spec fn parse_gaps(data: Seq<u8>, i: int, count: nat, prev: nat) -> Option<
    (Seq<usize>, int),
>
    decreases count,
{
    if count == 0 {
        Some((Seq::empty(), i))
    } else {
        match crate::codec::vb_parse(data, i) {
            Some(p) => {
                if prev + p.0 > usize::MAX {
                    None
                } else {
                    match parse_gaps(data, p.1, (count - 1) as nat, prev + p.0) {
                        Some(q) => Some((seq![(prev + p.0) as usize] + q.0, q.1)),
                        None => None,
                    }
                }
            },
            None => None,
        }
    }
}

/// Gap decoding inverts gap coding: the gap-coded bytes of a strictly
/// increasing document list, followed by anything, parse back to exactly
/// that list.
pub proof fn lemma_gaps_round_trip(ids: Seq<usize>, prev: nat, data: Seq<u8>, i: int)
    requires
        0 <= i,
        crate::uintset::strictly_sorted(ids),
        ids.len() > 0 ==> prev <= ids[0],
        i + gaps_bytes(ids, prev).len() <= data.len(),
        data.subrange(i, i + gaps_bytes(ids, prev).len()) == gaps_bytes(ids, prev),
    ensures
        parse_gaps(data, i, ids.len() as nat, prev) == Some(
            (ids, i + gaps_bytes(ids, prev).len()),
        ),
    decreases ids.len(),
{
    if ids.len() > 0 {
        let delta = (ids[0] - prev) as nat;
        let vb = crate::codec::vb_bytes(delta);
        let rest = gaps_bytes(ids.drop_first(), ids[0] as nat);
        assert(gaps_bytes(ids, prev) == vb + rest);
        assert(data.subrange(i, i + vb.len() as int) =~= vb) by {
            assert(forall|t: int|
                0 <= t < vb.len() ==> data.subrange(i, i + gaps_bytes(ids, prev).len())[t] == vb[t]);
        }
        lemma_vb_parse_at(data, i, delta);
        assert(prev + delta == ids[0]);
        assert(data.subrange(i + vb.len() as int, i + vb.len() + rest.len()) =~= rest) by {
            assert(forall|t: int|
                0 <= t < rest.len() ==> data.subrange(i, i + gaps_bytes(ids, prev).len())[vb.len()
                    + t] == rest[t]);
        }
        assert(forall|a: int, b: int|
            0 <= a < b < ids.drop_first().len() ==> ids.drop_first()[a] < ids.drop_first()[b]);
        if ids.len() > 1 {
            assert(ids.drop_first()[0] == ids[1]);
            assert(ids[0] < ids[1]);
        }
        lemma_gaps_round_trip(ids.drop_first(), ids[0] as nat, data, i + vb.len() as int);
        assert(seq![ids[0]] + ids.drop_first() =~= ids);
    }
}

/// The index just past the run of bytes that are neither digits nor zero,
/// starting at `i`: the shape of a front-coded term suffix.
pub open spec fn text_run_end(data: Seq<u8>, i: int) -> int
    decreases data.len() - i,
{
    if i < 0 || i >= data.len() {
        i
    } else if data[i] != 0 && !is_digit_byte(data[i]) {
        text_run_end(data, i + 1)
    } else {
        i
    }
}

proof fn lemma_digit_run_exact(data: Seq<u8>, i: int, j: int)
    requires
        0 <= i <= j <= data.len(),
        forall|t: int| i <= t < j ==> is_digit_byte(#[trigger] data[t]),
        j < data.len() ==> !is_digit_byte(data[j]),
    ensures
        digit_run_end(data, i) == j,
    decreases j - i,
{
    if i < j {
        lemma_digit_run_exact(data, i + 1, j);
    }
}

proof fn lemma_text_run_exact(data: Seq<u8>, i: int, j: int)
    requires
        0 <= i <= j <= data.len(),
        forall|t: int| i <= t < j ==> (#[trigger] data[t]) != 0 && !is_digit_byte(data[t]),
        j < data.len() ==> (data[j] == 0 || is_digit_byte(data[j])),
    ensures
        text_run_end(data, i) == j,
    decreases j - i,
{
    if i < j {
        lemma_text_run_exact(data, i + 1, j);
    }
}

/// A key fit for the front-coded dictionary: nonempty, and holding neither
/// digit bytes nor the zero byte, which the reader uses as delimiters.
pub open spec fn key_ok(k: Seq<u8>) -> bool {
    &&& k.len() > 0
    &&& forall|t: int| 0 <= t < k.len() ==> !is_digit_byte(#[trigger] k[t]) && k[t] != 0
}

/// A byte-lexicographically smaller string shares less than the whole of
/// the larger one.
pub proof fn lemma_lt_common_prefix(prev: Seq<u8>, k: Seq<u8>)
    requires
        bytes_lt(prev, k),
    ensures
        common_prefix(prev, k) < k.len(),
        common_prefix(prev, k) <= prev.len(),
    decreases prev.len(),
{
    lemma_common_prefix(prev, k);
    if prev.len() > 0 && k.len() > 0 && prev[0] == k[0] {
        lemma_lt_common_prefix(prev.drop_first(), k.drop_first());
    }
}

/// The specification-level parse of the front-coded dictionary block from
/// `i`, with `prev` the previously reconstructed key: runs of digits give
/// the shared prefix length, the following text run the new suffix, and a
/// zero byte ends the block.
pub open spec fn parse_dict(data: Seq<u8>, i: int, prev: Seq<u8>) -> Option<(Seq<Seq<u8>>, int)>
    decreases data.len() - i,
{
    if i < 0 || i >= data.len() {
        None
    } else if data[i] == 0 {
        Some((Seq::empty(), i + 1))
    } else if !is_digit_byte(data[i]) {
        None
    } else {
        let pe = digit_run_end(data, i);
        let plen = dec_value(data.subrange(i, pe));
        if plen > prev.len() {
            None
        } else {
            let te = text_run_end(data, pe);
            if te == pe {
                None
            } else {
                let key = prev.take(plen as int) + data.subrange(pe, te);
                proof {
                    lemma_digit_run_end(data, i);
                    lemma_text_run_bound(data, pe);
                }
                match parse_dict(data, te, key) {
                    Some(p) => Some((seq![key] + p.0, p.1)),
                    None => None,
                }
            }
        }
    }
}

pub proof fn lemma_text_run_bound(data: Seq<u8>, i: int)
    requires
        0 <= i <= data.len(),
    ensures
        i <= text_run_end(data, i) <= data.len(),
    decreases data.len() - i,
{
    if i < data.len() && data[i] != 0 && !is_digit_byte(data[i]) {
        lemma_text_run_bound(data, i + 1);
    }
}

/// Parsing the front-coded dictionary inverts writing it: the block written
/// for strictly increasing well-formed keys, followed by the zero byte and
/// anything further, parses back to exactly those keys.
pub proof fn lemma_dict_round_trip(keys: Seq<Seq<u8>>, prev: Seq<u8>, data: Seq<u8>, i: int)
    requires
        0 <= i,
        forall|a: int, b: int|
            0 <= a < b < keys.len() ==> bytes_lt(#[trigger] keys[a], #[trigger] keys[b]),
        forall|a: int| 0 <= a < keys.len() ==> key_ok(#[trigger] keys[a]),
        keys.len() > 0 ==> bytes_lt(prev, keys[0]),
        i + dict_block_from(keys, 0, prev).len() < data.len(),
        data.subrange(i, i + dict_block_from(keys, 0, prev).len()) == dict_block_from(
            keys,
            0,
            prev,
        ),
        data[i + dict_block_from(keys, 0, prev).len()] == 0,
    ensures
        parse_dict(data, i, prev) == Some((keys, i + dict_block_from(keys, 0, prev).len() + 1)),
    decreases keys.len(),
{
    let db = dict_block_from(keys, 0, prev);
    if keys.len() == 0 {
        assert(db =~= Seq::<u8>::empty());
        assert(data[i] == 0);
    } else {
        let k0 = keys[0];
        let c = common_prefix(prev, k0);
        lemma_lt_common_prefix(prev, k0);
        lemma_common_prefix(prev, k0);
        let dd = dec_digits(c as nat);
        let suffix = k0.skip(c);
        let rest_keys = keys.drop_first();
        let rest_db = dict_block_from(keys, 1, k0);
        assert(db == dd + suffix + rest_db);
        assert(dict_block_from(rest_keys, 0, k0) == rest_db) by {
            lemma_dict_block_shift(keys, 1, k0);
            assert(keys.skip(1) =~= rest_keys);
        }
        lemma_dec_digit_bytes(c as nat);
        assert(suffix.len() > 0);
        assert forall|t: int| i <= t < i + dd.len() implies is_digit_byte(#[trigger] data[t]) by {
            assert(data[t] == db[t - i]);
            assert(db[t - i] == dd[t - i]);
        }
        assert(data[i + dd.len()] == db[dd.len() as int]);
        assert(db[dd.len() as int] == suffix[0]);
        assert(key_ok(k0));
        assert(!is_digit_byte(suffix[0]) && suffix[0] != 0) by {
            assert(suffix[0] == k0[c]);
        }
        lemma_digit_run_exact(data, i, i + dd.len());
        let pe = i + dd.len() as int;
        assert(data.subrange(i, pe) =~= dd) by {
            assert(forall|t: int| 0 <= t < dd.len() ==> data[i + t] == db[t] && db[t] == dd[t]);
        }
        lemma_dec_round_trip(c as nat);
        assert(dec_value(data.subrange(i, pe)) == c as nat);
        assert forall|t: int| pe <= t < pe + suffix.len() implies (#[trigger] data[t]) != 0
            && !is_digit_byte(data[t]) by {
            assert(data[t] == db[t - i]);
            assert(db[t - i] == suffix[t - pe]);
            assert(suffix[t - pe] == k0[c + (t - pe)]);
        }
        let te = pe + suffix.len() as int;
        assert(te < data.len());
        assert(data[te] == 0 || is_digit_byte(data[te])) by {
            if rest_keys.len() == 0 {
                assert(rest_db =~= Seq::<u8>::empty());
                assert(te == i + db.len());
            } else {
                let c1 = common_prefix(k0, keys[1]);
                assert(rest_db == dec_digits(c1 as nat) + keys[1].skip(c1) + dict_block_from(
                    keys,
                    2,
                    keys[1],
                ));
                lemma_dec_digit_bytes(c1 as nat);
                assert(data[te] == db[te - i]);
                assert(db[te - i] == rest_db[0]);
                assert(rest_db[0] == dec_digits(c1 as nat)[0]);
            }
        }
        lemma_text_run_exact(data, pe, te);
        assert(prev.take(c) + data.subrange(pe, te) =~= k0) by {
            assert(data.subrange(pe, te) =~= suffix) by {
                assert(forall|t: int|
                    0 <= t < suffix.len() ==> data[pe + t] == db[dd.len() + t] && db[dd.len() + t]
                        == suffix[t]);
            }
            assert(forall|t: int| 0 <= t < c ==> prev[t] == k0[t]);
            assert(forall|t: int| 0 <= t < suffix.len() ==> suffix[t] == k0[c + t]);
        }
        assert forall|a: int, b: int|
            0 <= a < b < rest_keys.len() implies bytes_lt(
            #[trigger] rest_keys[a],
            #[trigger] rest_keys[b],
        ) by {
            assert(rest_keys[a] == keys[a + 1] && rest_keys[b] == keys[b + 1]);
        }
        assert forall|a: int| 0 <= a < rest_keys.len() implies key_ok(#[trigger] rest_keys[a]) by {
            assert(rest_keys[a] == keys[a + 1]);
        }
        if rest_keys.len() > 0 {
            assert(rest_keys[0] == keys[1]);
            assert(bytes_lt(k0, keys[1]));
        }
        assert(data.subrange(te, te + rest_db.len()) =~= rest_db) by {
            assert(forall|t: int|
                0 <= t < rest_db.len() ==> data[te + t] == db[dd.len() + suffix.len() + t] && db[
                    dd.len() + suffix.len() + t] == rest_db[t]);
        }
        assert(te + rest_db.len() == i + db.len());
        lemma_dict_round_trip(rest_keys, k0, data, te);
        assert(seq![k0] + rest_keys =~= keys);
    }
}

proof fn lemma_dict_block_shift(ks: Seq<Seq<u8>>, j: int, prev: Seq<u8>)
    requires
        0 <= j <= ks.len(),
    ensures
        dict_block_from(ks, j, prev) == dict_block_from(ks.skip(j), 0, prev),
    decreases ks.len() - j,
{
    if j < ks.len() {
        assert(ks.skip(j)[0] == ks[j]);
        lemma_dict_block_shift(ks, j + 1, ks[j]);
        lemma_dict_block_shift(ks.skip(j), 1, ks[j]);
        assert(ks.skip(j).skip(1) =~= ks.skip(j + 1));
    } else {
        assert(ks.skip(j) =~= Seq::<Seq<u8>>::empty());
    }
}

/// The specification-level parse of the postings blocks, one per key: the
/// variable-byte document count, then the gap-coded ids.
pub open spec fn parse_entries(data: Seq<u8>, i: int, keys: Seq<Seq<u8>>) -> Option<
    Seq<(Seq<u8>, Seq<usize>)>,
>
    decreases keys.len(),
{
    if keys.len() == 0 {
        Some(Seq::empty())
    } else {
        match crate::codec::vb_parse(data, i) {
            Some(c) => match parse_gaps(data, c.1, c.0, 0) {
                Some(g) => match parse_entries(data, g.1, keys.drop_first()) {
                    Some(rest) => Some(seq![(keys[0], g.0)] + rest),
                    None => None,
                },
                None => None,
            },
            None => None,
        }
    }
}

/// The specification-level parse of a whole compressed stream: the
/// front-coded dictionary up to its zero byte, then one postings block per
/// dictionary key.
pub open spec fn parse_compressed(data: Seq<u8>) -> Option<Seq<(Seq<u8>, Seq<usize>)>> {
    match parse_dict(data, 0, Seq::empty()) {
        Some(d) => parse_entries(data, d.1, d.0),
        None => None,
    }
}

proof fn lemma_post_blocks_shift(es: Seq<(Seq<u8>, Seq<usize>)>, j: int)
    requires
        0 <= j <= es.len(),
    ensures
        post_blocks(es, j) == post_blocks(es.skip(j), 0),
    decreases es.len() - j,
{
    if j < es.len() {
        assert(es.skip(j)[0] == es[j]);
        lemma_post_blocks_shift(es, j + 1);
        lemma_post_blocks_shift(es.skip(j), 1);
        assert(es.skip(j).skip(1) =~= es.skip(j + 1));
    } else {
        assert(es.skip(j) =~= Seq::<(Seq<u8>, Seq<usize>)>::empty());
    }
}

proof fn lemma_parse_entries_round_trip(es: Seq<(Seq<u8>, Seq<usize>)>, data: Seq<u8>, i: int)
    requires
        0 <= i,
        forall|a: int| 0 <= a < es.len() ==> crate::uintset::strictly_sorted((#[trigger] es[a]).1),
        i + post_blocks(es, 0).len() <= data.len(),
        data.subrange(i, i + post_blocks(es, 0).len()) == post_blocks(es, 0),
    ensures
        parse_entries(data, i, es.map_values(|e: (Seq<u8>, Seq<usize>)| e.0)) == Some(es),
    decreases es.len(),
{
    let keys = es.map_values(|e: (Seq<u8>, Seq<usize>)| e.0);
    if es.len() > 0 {
        let ids = es[0].1;
        let cb = crate::codec::vb_bytes(ids.len() as nat);
        let gb = gaps_bytes(ids, 0);
        let rest = post_blocks(es, 1);
        let pb = post_blocks(es, 0);
        assert(pb == cb + gb + rest);
        assert(data.subrange(i, i + cb.len() as int) =~= cb) by {
            assert(forall|t: int|
                0 <= t < cb.len() ==> data[i + t] == pb[t] && pb[t] == cb[t]);
        }
        lemma_vb_parse_at(data, i, ids.len() as nat);
        let j = i + cb.len() as int;
        assert(data.subrange(j, j + gb.len() as int) =~= gb) by {
            assert(forall|t: int|
                0 <= t < gb.len() ==> data[j + t] == pb[cb.len() + t] && pb[cb.len() + t]
                    == gb[t]);
        }
        lemma_gaps_round_trip(ids, 0, data, j);
        let j2 = j + gb.len() as int;
        assert(data.subrange(j2, j2 + rest.len() as int) =~= rest) by {
            assert(forall|t: int|
                0 <= t < rest.len() ==> data[j2 + t] == pb[cb.len() + gb.len() + t] && pb[cb.len()
                    + gb.len() + t] == rest[t]);
        }
        lemma_post_blocks_shift(es, 1);
        assert(es.skip(1) =~= es.drop_first());
        assert(forall|a: int|
            0 <= a < es.drop_first().len() ==> crate::uintset::strictly_sorted(
                (#[trigger] es.drop_first()[a]).1,
            ));
        lemma_parse_entries_round_trip(es.drop_first(), data, j2);
        assert(es.drop_first().map_values(|e: (Seq<u8>, Seq<usize>)| e.0) =~= keys.drop_first());
        assert(keys[0] == es[0].0);
        assert(seq![(keys[0], ids)] + es.drop_first() =~= es);
    } else {
        assert(keys =~= Seq::<Seq<u8>>::empty());
    }
}

/// The compressed round trip: the stream written for a strictly key-sorted
/// entry list whose keys fit the dictionary's delimiters and whose document
/// lists are strictly increasing parses back to exactly that list.
pub proof fn lemma_compressed_round_trip(es: Seq<(Seq<u8>, Seq<usize>)>)
    requires
        forall|a: int, b: int|
            0 <= a < b < es.len() ==> bytes_lt((#[trigger] es[a]).0, (#[trigger] es[b]).0),
        forall|a: int| 0 <= a < es.len() ==> key_ok((#[trigger] es[a]).0),
        forall|a: int| 0 <= a < es.len() ==> crate::uintset::strictly_sorted((#[trigger] es[a]).1),
    ensures
        parse_compressed(compressed_of(es)) == Some(es),
{
    let keys = es.map_values(|e: (Seq<u8>, Seq<usize>)| e.0);
    let db = dict_block_from(keys, 0, Seq::empty());
    let posts = post_blocks(es, 0);
    let data = compressed_of(es);
    assert(data == db + seq![0u8] + posts);
    assert forall|a: int, b: int|
        0 <= a < b < keys.len() implies bytes_lt(#[trigger] keys[a], #[trigger] keys[b]) by {
        assert(keys[a] == es[a].0 && keys[b] == es[b].0);
    }
    assert forall|a: int| 0 <= a < keys.len() implies key_ok(#[trigger] keys[a]) by {
        assert(keys[a] == es[a].0);
    }
    if keys.len() > 0 {
        assert(bytes_lt(Seq::empty(), keys[0])) by {
            assert(keys[0].len() > 0);
        }
    }
    assert(data.subrange(0, db.len() as int) =~= db) by {
        assert(forall|t: int| 0 <= t < db.len() ==> data[t] == db[t]);
    }
    assert(data[db.len() as int] == 0);
    lemma_dict_round_trip(keys, Seq::empty(), data, 0);
    let j = db.len() as int + 1;
    assert(data.subrange(j, j + posts.len() as int) =~= posts) by {
        assert(forall|t: int| 0 <= t < posts.len() ==> data[j + t] == posts[t]);
    }
    lemma_parse_entries_round_trip(es, data, j);
}

/// The textual rendering of a document list: decimal ids joined by commas.
pub open spec fn ids_bytes(ids: Seq<usize>) -> Seq<u8>
    decreases ids.len(),
{
    if ids.len() == 0 {
        Seq::empty()
    } else if ids.len() == 1 {
        dec_digits(ids[0] as nat)
    } else {
        ids_bytes(ids.drop_last()) + seq![44u8] + dec_digits(ids.last() as nat)
    }
}

/// One textual posting line: the term's UTF-8 bytes, a colon, the comma
/// separated document ids, and a newline.
pub open spec fn line_of(e: (Seq<u8>, Seq<usize>)) -> Seq<u8> {
    e.0 + seq![58u8] + ids_bytes(e.1) + seq![10u8]
}

/// The whole textual form: one line per term.
pub open spec fn lines_cat(es: Seq<(Seq<u8>, Seq<usize>)>) -> Seq<u8>
    decreases es.len(),
{
    if es.len() == 0 {
        Seq::empty()
    } else {
        lines_cat(es.drop_last()) + line_of(es.last())
    }
}

/// `ids_bytes` decomposed from the front: the first id's digits, then a
/// comma and the rest when more follow.
proof fn lemma_ids_bytes_front(ids: Seq<usize>)
    requires
        ids.len() > 0,
    ensures
        ids.len() == 1 ==> ids_bytes(ids) == dec_digits(ids[0] as nat),
        ids.len() > 1 ==> ids_bytes(ids) == dec_digits(ids[0] as nat) + seq![44u8] + ids_bytes(
            ids.drop_first(),
        ),
    decreases ids.len(),
{
    if ids.len() > 1 {
        lemma_ids_bytes_front(ids.drop_last());
        assert(ids.drop_last().drop_first() =~= ids.drop_first().drop_last());
        assert(ids.drop_last()[0] == ids[0]);
        if ids.len() == 2 {
            assert(ids.drop_first() =~= seq![ids[1]]);
            assert(ids_bytes(ids.drop_first()) == dec_digits(ids[1] as nat));
            assert(ids.drop_last() =~= seq![ids[0]]);
        } else {
            assert(ids.drop_first().last() == ids.last());
            assert(ids_bytes(ids.drop_first()) == ids_bytes(ids.drop_first().drop_last())
                + seq![44u8] + dec_digits(ids.last() as nat));
            assert(dec_digits(ids[0] as nat) + seq![44u8] + (ids_bytes(ids.drop_first().drop_last())
                + seq![44u8] + dec_digits(ids.last() as nat)) =~= (dec_digits(ids[0] as nat)
                + seq![44u8] + ids_bytes(ids.drop_last().drop_first())) + seq![44u8] + dec_digits(
                ids.last() as nat,
            ));
        }
    }
}

/// The specification-level parse of one comma-separated id list up to and
/// including its newline.
pub open spec fn parse_ids_line(data: Seq<u8>, i: int) -> Option<(Seq<usize>, int)>
    decreases data.len() - i,
{
    if i < 0 || i >= data.len() || !is_digit_byte(data[i]) {
        None
    } else {
        let je = digit_run_end(data, i);
        let v = dec_value(data.subrange(i, je));
        if v > usize::MAX || je >= data.len() {
            None
        } else if data[je] == 10 {
            Some((seq![v as usize], je + 1))
        } else if data[je] == 44 {
            proof {
                lemma_digit_run_end(data, i);
            }
            match parse_ids_line(data, je + 1) {
                Some(p) => Some((seq![v as usize] + p.0, p.1)),
                None => None,
            }
        } else {
            None
        }
    }
}

/// The index of the first colon at or after `i`; a newline or the end stops
/// the search.
pub open spec fn colon_end(data: Seq<u8>, i: int) -> int
    decreases data.len() - i,
{
    if i < 0 || i >= data.len() {
        i
    } else if data[i] == 58 || data[i] == 10 {
        i
    } else {
        colon_end(data, i + 1)
    }
}

pub proof fn lemma_colon_end(data: Seq<u8>, i: int)
    requires
        0 <= i <= data.len(),
    ensures
        i <= colon_end(data, i) <= data.len(),
        forall|t: int|
            i <= t < colon_end(data, i) ==> (#[trigger] data[t]) != 58 && data[t] != 10,
        colon_end(data, i) < data.len() ==> (data[colon_end(data, i)] == 58 || data[colon_end(
            data,
            i,
        )] == 10),
    decreases data.len() - i,
{
    if i < data.len() && data[i] != 58 && data[i] != 10 {
        lemma_colon_end(data, i + 1);
    }
}

/// The specification-level parse of the textual form from `i`: per line,
/// the term bytes up to a colon, then the id list up to the newline.
pub open spec fn parse_lines(data: Seq<u8>, i: int) -> Option<Seq<(Seq<u8>, Seq<usize>)>>
    decreases data.len() - i,
{
    if i < 0 || i > data.len() {
        None
    } else if i == data.len() {
        Some(Seq::empty())
    } else {
        let ce = colon_end(data, i);
        if ce >= data.len() || data[ce] != 58 {
            None
        } else {
            let term = data.subrange(i, ce);
            proof {
                lemma_colon_end(data, i);
            }
            match parse_ids_line(data, ce + 1) {
                Some(p) => {
                    proof {
                        lemma_parse_ids_line_bounds(data, ce + 1);
                    }
                    match parse_lines(data, p.1) {
                        Some(rest) => Some(seq![(term, p.0)] + rest),
                        None => None,
                    }
                },
                None => None,
            }
        }
    }
}

/// A parsed id line consumes at least one byte and stays inside the data.
pub proof fn lemma_parse_ids_line_bounds(data: Seq<u8>, i: int)
    requires
        0 <= i,
    ensures
        parse_ids_line(data, i) matches Some(p) ==> i < p.1 <= data.len(),
    decreases data.len() - i,
{
    if 0 <= i < data.len() && is_digit_byte(data[i]) {
        let je = digit_run_end(data, i);
        lemma_digit_run_end(data, i);
        if je < data.len() && data[je] == 44 {
            lemma_parse_ids_line_bounds(data, je + 1);
        }
    }
}

proof fn lemma_ids_line_round_trip(ids: Seq<usize>, data: Seq<u8>, i: int)
    requires
        0 <= i,
        ids.len() > 0,
        crate::uintset::strictly_sorted(ids),
        i + ids_bytes(ids).len() < data.len(),
        data.subrange(i, i + ids_bytes(ids).len()) == ids_bytes(ids),
        data[i + ids_bytes(ids).len()] == 10,
    ensures
        parse_ids_line(data, i) == Some((ids, i + ids_bytes(ids).len() + 1)),
    decreases ids.len(),
{
    lemma_ids_bytes_front(ids);
    let ib = ids_bytes(ids);
    let dd = dec_digits(ids[0] as nat);
    lemma_dec_digit_bytes(ids[0] as nat);
    assert forall|t: int| i <= t < i + dd.len() implies is_digit_byte(#[trigger] data[t]) by {
        assert(data[t] == ib[t - i]);
        if ids.len() == 1 {
        } else {
            assert(ib[t - i] == dd[t - i]);
        }
    }
    let je = i + dd.len() as int;
    assert(data[je] == 10 || data[je] == 44) by {
        if ids.len() == 1 {
            assert(je == i + ib.len());
        } else {
            assert(data[je] == ib[dd.len() as int]);
            assert(ib[dd.len() as int] == 44);
        }
    }
    lemma_digit_run_exact(data, i, je);
    assert(data.subrange(i, je) =~= dd) by {
        assert(forall|t: int|
            0 <= t < dd.len() ==> data[i + t] == ib[t] && (ids.len() == 1 || ib[t] == dd[t]));
        if ids.len() == 1 {
            assert(forall|t: int| 0 <= t < dd.len() ==> ib[t] == dd[t]);
        }
    }
    lemma_dec_round_trip(ids[0] as nat);
    if ids.len() == 1 {
        assert(data[je] == 10) by {
            assert(je == i + ib.len());
            assert(data[i + ib.len()] == 10);
        }
        assert(seq![ids[0]] =~= ids);
    } else {
        assert(data[je] == 44) by {
            assert(data[je] == ib[dd.len() as int]);
            assert(ib[dd.len() as int] == 44);
        }
        let rest = ids.drop_first();
        let rb = ids_bytes(rest);
        assert(data.subrange(je + 1, je + 1 + rb.len() as int) =~= rb) by {
            assert(forall|t: int|
                0 <= t < rb.len() ==> data[je + 1 + t] == ib[dd.len() + 1 + t] && ib[dd.len() + 1
                    + t] == rb[t]);
        }
        assert(forall|a: int, b: int| 0 <= a < b < rest.len() ==> rest[a] < rest[b]);
        assert(je + 1 + rb.len() == i + ib.len());
        lemma_ids_line_round_trip(rest, data, je + 1);
        assert(seq![ids[0]] + rest =~= ids);
    }
}

/// A term fit for the textual form: holding neither a colon nor a newline,
/// which the reader uses as delimiters.
pub open spec fn text_key_ok(k: Seq<u8>) -> bool {
    forall|t: int| 0 <= t < k.len() ==> (#[trigger] k[t]) != 58 && k[t] != 10
}

/// The textual round trip: the lines written for an entry list whose terms
/// fit the delimiters and whose document lists are strictly increasing and
/// nonempty parse back to exactly that list.
pub proof fn lemma_textual_round_trip(es: Seq<(Seq<u8>, Seq<usize>)>, data: Seq<u8>, i: int)
    requires
        0 <= i,
        forall|a: int| 0 <= a < es.len() ==> text_key_ok((#[trigger] es[a]).0),
        forall|a: int|
            0 <= a < es.len() ==> crate::uintset::strictly_sorted((#[trigger] es[a]).1) && es[a].1.len() > 0,
        i + lines_cat(es).len() == data.len(),
        data.subrange(i, i + lines_cat(es).len()) == lines_cat(es),
    ensures
        parse_lines(data, i) == Some(es),
    decreases es.len(),
{
    if es.len() == 0 {
        assert(lines_cat(es) =~= Seq::<u8>::empty());
    } else {
        let lc = lines_cat(es);
        let head = es[0];
        let hl = line_of(head);
        let rest = es.drop_first();
        let rl = lines_cat(rest);
        assert(lc == hl + rl) by {
            lemma_lines_cat_front(es);
        }
        assert forall|t: int| i <= t < i + head.0.len() implies (#[trigger] data[t]) != 58 && data[t]
            != 10 by {
            assert(data[t] == lc[t - i]);
            assert(lc[t - i] == hl[t - i]);
            assert(hl[t - i] == head.0[t - i]);
        }
        let ce = i + head.0.len() as int;
        assert(data[ce] == 58) by {
            assert(data[ce] == lc[ce - i]);
            assert(lc[ce - i] == hl[head.0.len() as int]);
        }
        lemma_colon_end(data, i);
        lemma_colon_end_exact(data, i, ce);
        assert(data.subrange(i, ce) =~= head.0) by {
            assert(forall|t: int|
                0 <= t < head.0.len() ==> data[i + t] == lc[t] && lc[t] == hl[t] && hl[t]
                    == head.0[t]);
        }
        let ib = ids_bytes(head.1);
        assert(data.subrange(ce + 1, ce + 1 + ib.len() as int) =~= ib) by {
            assert(forall|t: int|
                0 <= t < ib.len() ==> data[ce + 1 + t] == lc[head.0.len() + 1 + t] && lc[head.0.len()
                    + 1 + t] == hl[head.0.len() + 1 + t] && hl[head.0.len() + 1 + t] == ib[t]);
        }
        assert(data[ce + 1 + ib.len() as int] == 10) by {
            assert(data[ce + 1 + ib.len() as int] == lc[head.0.len() as int + 1 + ib.len() as int]);
            assert(lc[head.0.len() as int + 1 + ib.len() as int] == hl[head.0.len() as int + 1
                + ib.len() as int]);
        }
        lemma_ids_line_round_trip(head.1, data, ce + 1);
        let next = ce + 1 + ib.len() as int + 1;
        assert(next == i + hl.len());
        assert(data.subrange(next, next + rl.len() as int) =~= rl) by {
            assert(forall|t: int|
                0 <= t < rl.len() ==> data[next + t] == lc[hl.len() + t] && lc[hl.len() + t]
                    == rl[t]);
        }
        assert(forall|a: int| 0 <= a < rest.len() ==> text_key_ok((#[trigger] rest[a]).0));
        assert(forall|a: int|
            0 <= a < rest.len() ==> crate::uintset::strictly_sorted((#[trigger] rest[a]).1)
                && rest[a].1.len() > 0);
        lemma_textual_round_trip(rest, data, next);
        assert(seq![(head.0, head.1)] + rest =~= es);
        assert((data.subrange(i, ce), head.1) == (head.0, head.1));
    }
}

proof fn lemma_colon_end_exact(data: Seq<u8>, i: int, j: int)
    requires
        0 <= i <= j <= data.len(),
        forall|t: int| i <= t < j ==> (#[trigger] data[t]) != 58 && data[t] != 10,
        j < data.len() ==> (data[j] == 58 || data[j] == 10),
    ensures
        colon_end(data, i) == j,
    decreases j - i,
{
    if i < j {
        lemma_colon_end_exact(data, i + 1, j);
    }
}

proof fn lemma_lines_cat_front(es: Seq<(Seq<u8>, Seq<usize>)>)
    requires
        es.len() > 0,
    ensures
        lines_cat(es) == line_of(es[0]) + lines_cat(es.drop_first()),
    decreases es.len(),
{
    if es.len() == 1 {
        assert(es.drop_last() =~= Seq::<(Seq<u8>, Seq<usize>)>::empty());
        assert(es.drop_first() =~= Seq::<(Seq<u8>, Seq<usize>)>::empty());
        assert(line_of(es[0]) + lines_cat(es.drop_first()) =~= lines_cat(es));
    } else {
        lemma_lines_cat_front(es.drop_last());
        assert(es.drop_last()[0] == es[0]);
        assert(es.drop_last().drop_first() =~= es.drop_first().drop_last());
        assert(es.drop_first().last() == es.last());
        assert(line_of(es[0]) + (lines_cat(es.drop_first().drop_last()) + line_of(es.last())) =~= (
        line_of(es[0]) + lines_cat(es.drop_last().drop_first())) + line_of(es.last()));
    }
}

/// The doc-posting map a parsed entry list denotes: each key decoded to its
/// term with its set of ids, later entries overriding earlier ones.
pub open spec fn denoted_map(es: Seq<(Seq<u8>, Seq<usize>)>) -> crate::doc_index::DocMap
    decreases es.len(),
{
    if es.len() == 0 {
        Map::empty()
    } else {
        denoted_map(es.drop_last()).insert(
            decode_utf8(es.last().0),
            crate::uintset::seq_set(es.last().1),
        )
    }
}

/// Parts decoded one-for-one from parsed entries denote the same map.
proof fn lemma_parts_denote(
    parts: Seq<(Vec<char>, crate::uintset::UintSet)>,
    es: Seq<(Seq<u8>, Seq<usize>)>,
)
    requires
        parts.len() == es.len(),
        forall|k: int|
            0 <= k < parts.len() ==> (#[trigger] parts[k]).0@ == decode_utf8(es[k].0)
                && parts[k].1@ == crate::uintset::seq_set(es[k].1),
    ensures
        crate::termmap::entries_tmap(parts) == denoted_map(es),
    decreases parts.len(),
{
    if parts.len() > 0 {
        assert(forall|k: int|
            0 <= k < parts.len() - 1 ==> (#[trigger] parts.drop_last()[k]) == parts[k]
                && es.drop_last()[k] == es[k]);
        lemma_parts_denote(parts.drop_last(), es.drop_last());
        assert(parts.last().0@ == decode_utf8(es.last().0) && parts.last().1@
            == crate::uintset::seq_set(es.last().1)) by {
            assert(parts[parts.len() - 1].0@ == decode_utf8(es[es.len() - 1].0));
        }
        assert(crate::termmap::entries_tmap(parts) =~= denoted_map(es));
    } else {
        assert(crate::termmap::entries_tmap(parts) =~= denoted_map(es));
    }
}

/// Joins the entries already parsed with the rest of a textual parse.
pub open spec fn lines_glue(
    pre: Seq<(Seq<u8>, Seq<usize>)>,
    rest: Option<Seq<(Seq<u8>, Seq<usize>)>>,
) -> Option<Seq<(Seq<u8>, Seq<usize>)>> {
    match rest {
        Some(es) => Some(pre + es),
        None => None,
    }
}

/// Joins the ids already parsed with the rest of an id-line parse.
pub open spec fn ids_glue(pre: Seq<usize>, rest: Option<(Seq<usize>, int)>) -> Option<
    (Seq<usize>, int),
> {
    match rest {
        Some(p) => Some((pre + p.0, p.1)),
        None => None,
    }
}

/// Whether the textual form parses whole and every parsed term is valid
/// UTF-8 — exactly when the reader accepts the bytes.
pub open spec fn lines_ok(data: Seq<u8>) -> bool {
    match parse_lines(data, 0) {
        Some(es) => forall|k: int| 0 <= k < es.len() ==> valid_utf8((#[trigger] es[k]).0),
        None => false,
    }
}

/// A one-to-one listing of the index's entries, as UTF-8 keys with sorted
/// document listings, views to `lists_map_full`.
proof fn lemma_aligned_lists(
    tes: Seq<(Vec<char>, crate::uintset::UintSet)>,
    gs: Seq<(Seq<u8>, Seq<usize>)>,
    m: Map<Seq<char>, Set<usize>>,
)
    requires
        crate::termmap::tkeys_unique(tes),
        crate::termmap::entries_tmap(tes) == m,
        forall|k: int| 0 <= k < tes.len() ==> (#[trigger] tes[k]).1.wf(),
        gs.len() == tes.len(),
        forall|k: int|
            0 <= k < gs.len() ==> (#[trigger] gs[k]).0 == encode_utf8(tes[k].0@) && gs[k].1
                == tes[k].1.ordered(),
    ensures
        lists_map_full(gs, m),
{
    crate::termmap::lemma_tmap_card(tes);
    assert(gs.len() == m.dom().len());
    assert forall|a: int, b: int|
        0 <= a < b < gs.len() implies (#[trigger] gs[a]).0 != (#[trigger] gs[b]).0 by {
        if gs[a].0 == gs[b].0 {
            vstd::utf8::encode_utf8_decode_utf8(tes[a].0@);
            vstd::utf8::encode_utf8_decode_utf8(tes[b].0@);
            assert(decode_utf8(encode_utf8(tes[a].0@)) == decode_utf8(encode_utf8(tes[b].0@)));
            assert(tes[a].0@ == tes[b].0@);
        }
    }
    assert forall|i: int|
        0 <= i < gs.len() implies m.contains_key(decode_utf8((#[trigger] gs[i]).0)) && gs[i].0
            == encode_utf8(decode_utf8(gs[i].0)) && crate::uintset::strictly_sorted(gs[i].1)
            && crate::uintset::seq_set(gs[i].1) == m[decode_utf8(gs[i].0)] by {
        crate::termmap::lemma_tmap_index(tes, i);
        tes[i].1.lemma_ordered();
        vstd::utf8::encode_utf8_decode_utf8(tes[i].0@);
        assert(decode_utf8(gs[i].0) == tes[i].0@);
    }
}

impl crate::doc_index::InvertedIndex {
    /// Writes the index in the textual form: one line per term, the term
    /// followed by a colon and its comma-separated document ids.
    pub fn save(&self) -> (r: Vec<u8>)
        requires
            self.wf(),
        ensures
            exists|es: Seq<(Seq<u8>, Seq<usize>)>|
                #[trigger] lines_cat(es) == r@ && lists_map_full(es, self.tmap()),
    {
        proof {
            self.lemma_index_list();
        }
        let tes = self.index_entries();
        let n = tes.len();
        let mut out: Vec<u8> = Vec::new();
        let ghost mut gs: Seq<(Seq<u8>, Seq<usize>)> = Seq::empty();
        let mut j: usize = 0;
        proof {
            assert(out@ =~= lines_cat(gs));
        }
        while j < n
            invariant
                n == tes@.len(),
                tes@ == self.index_list(),
                self.wf(),
                j <= n,
                out@ == lines_cat(gs),
                gs.len() == j,
                forall|k: int|
                    0 <= k < j ==> (#[trigger] gs[k]).0 == encode_utf8(tes@[k].0@) && gs[k].1
                        == tes@[k].1.ordered(),
            decreases n - j,
        {
            proof {
                self.lemma_index_list();
                crate::termmap::lemma_tmap_index(tes@, j as int);
                assert(tes@[j as int].1.wf()) by {
                    assert(self.index_list()[j as int] == tes@[j as int]);
                }
            }
            let term = crate::text::chars_to_string(&tes[j].0);
            let mut key = str_utf8_bytes(term.as_str());
            let ghost keyb = key@;
            proof {
                vstd::utf8::encode_utf8_decode_utf8(term@);
            }
            let ghost out0 = out@;
            out.append(&mut key);
            out.push(58);
            let ghost after_colon = out@;
            proof {
                assert(after_colon =~= out0 + keyb + seq![58u8]);
            }
            let idsref = tes[j].1.elems();
            let ghost ids = idsref@;
            proof {
                tes@[j as int].1.lemma_ordered();
            }
            let m = idsref.len();
            let mut t: usize = 0;
            proof {
                assert(ids.take(0) =~= Seq::<usize>::empty());
                assert(ids_bytes(ids.take(0)) =~= Seq::<u8>::empty());
                assert(out@ =~= after_colon + ids_bytes(ids.take(0)));
            }
            while t < m
                invariant
                    m == ids.len(),
                    idsref@ == ids,
                    t <= m,
                    out@ == after_colon + ids_bytes(ids.take(t as int)),
                decreases m - t,
            {
                if t > 0 {
                    out.push(44);
                }
                write_decimal(idsref[t], &mut out);
                proof {
                    assert(ids.take(t + 1).drop_last() =~= ids.take(t as int));
                    assert(ids.take(t + 1).last() == ids[t as int]);
                    if t == 0 {
                        assert(ids_bytes(ids.take(1)) =~= dec_digits(ids[0] as nat));
                        assert(out@ =~= after_colon + ids_bytes(ids.take(1)));
                    } else {
                        assert(ids_bytes(ids.take(t + 1)) =~= ids_bytes(ids.take(t as int))
                            + seq![44u8] + dec_digits(ids[t as int] as nat));
                        assert(out@ =~= after_colon + ids_bytes(ids.take(t + 1)));
                    }
                }
                t += 1;
            }
            proof {
                assert(ids.take(m as int) =~= ids);
            }
            out.push(10);
            let ghost entry = (keyb, ids);
            proof {
                assert(out@ =~= out0 + line_of(entry));
                let gs0 = gs;
                gs = gs.push(entry);
                assert(gs.drop_last() =~= gs0);
                assert(out@ =~= lines_cat(gs));
                assert(entry.0 == encode_utf8(tes@[j as int].0@) && entry.1 == tes@[j as int]
                    .1.ordered());
                assert(forall|k: int| 0 <= k < j ==> gs[k] == gs0[k]);
            }
            j += 1;
        }
        proof {
            self.lemma_index_list();
            lemma_aligned_lists(tes@, gs, self.tmap());
        }
        out
    }

    /// Reads an index back from the textual form: per line, the term up to
    /// the first colon, then comma-separated decimal document ids up to the
    /// newline. The read succeeds exactly when the whole input parses as
    /// such lines with every term valid UTF-8, and then yields the index the
    /// parsed lines denote.
    #[verifier::rlimit(80)]
    pub fn load(data: &Vec<u8>) -> (r: Result<
        crate::doc_index::InvertedIndex,
        crate::codec::CodecError,
    >)
        ensures
            r is Ok <==> lines_ok(data@),
            r matches Ok(idx) ==> ({
                &&& idx.wf()
                &&& idx.tmap() == denoted_map(parse_lines(data@, 0)->Some_0)
                &&& idx.docs() == crate::doc_index::docs_in(idx.tmap())
            }),
    {
        let ghost d = data@;
        let n = data.len();
        let mut parts: Vec<(Vec<char>, crate::uintset::UintSet)> = Vec::new();
        let ghost mut gs: Seq<(Seq<u8>, Seq<usize>)> = Seq::empty();
        let mut i: usize = 0;
        proof {
            if parse_lines(d, 0) is Some {
                assert(gs + parse_lines(d, 0)->Some_0 =~= parse_lines(d, 0)->Some_0);
            }
        }
        while i < n
            invariant
                d == data@,
                n == d.len(),
                i <= n,
                parse_lines(d, 0) == lines_glue(gs, parse_lines(d, i as int)),
                gs.len() == parts@.len(),
                forall|k: int|
                    0 <= k < gs.len() ==> valid_utf8((#[trigger] gs[k]).0) && parts@[k].0@
                        == decode_utf8(gs[k].0) && parts@[k].1@ == crate::uintset::seq_set(
                        gs[k].1,
                    ) && parts@[k].1.wf(),
            decreases n - i,
        {
            let ghost i0 = i as int;
            let mut term: Vec<u8> = Vec::new();
            proof {
                assert(term@ =~= d.subrange(i0, i0));
            }
            loop
                invariant
                    d == data@,
                    n == d.len(),
                    0 <= i0 <= i <= n,
                    i0 < n,
                    term@ == d.subrange(i0, i as int),
                    forall|t: int| i0 <= t < i ==> (#[trigger] d[t]) != 58 && d[t] != 10,
                    parse_lines(d, 0) == lines_glue(gs, parse_lines(d, i0)),
                ensures
                    0 <= i0 <= i < n,
                    d[i as int] == 58,
                    term@ == d.subrange(i0, i as int),
                    colon_end(d, i0) == i as int,
                decreases n - i,
            {
                if i >= n {
                    proof {
                        lemma_colon_end_exact(d, i0, i as int);
                        assert(parse_lines(d, i0) is None);
                        assert(!lines_ok(d));
                    }
                    return Err(crate::codec::CodecError::Truncated);
                }
                let b = data[i];
                if b == 58 {
                    proof {
                        lemma_colon_end_exact(d, i0, i as int);
                    }
                    break ;
                }
                if b == 10 {
                    proof {
                        lemma_colon_end_exact(d, i0, i as int);
                        assert(parse_lines(d, i0) is None);
                        assert(!lines_ok(d));
                    }
                    return Err(crate::codec::CodecError::Malformed);
                }
                term.push(b);
                proof {
                    assert(term@ =~= d.subrange(i0, i as int + 1));
                }
                i += 1;
            }
            let ghost ce = i as int;
            i += 1;
            let ghost ids_start = i as int;
            let mut ids = crate::uintset::UintSet::new();
            let ghost mut consumed: Seq<usize> = Seq::empty();
            proof {
                if parse_ids_line(d, ids_start) is Some {
                    assert(consumed + parse_ids_line(d, ids_start)->Some_0.0 =~= parse_ids_line(
                        d,
                        ids_start,
                    )->Some_0.0);
                }
                assert(ids@ =~= crate::uintset::seq_set(consumed));
            }
            loop
                invariant_except_break
                    parse_ids_line(d, ids_start) == ids_glue(consumed, parse_ids_line(d, i as int)),
                invariant
                    d == data@,
                    n == d.len(),
                    0 <= i0 <= ce < n,
                    colon_end(d, i0) == ce,
                    d[ce] == 58,
                    ids_start == ce + 1,
                    ids_start <= i <= n,
                    ids.wf(),
                    ids@ == crate::uintset::seq_set(consumed),
                    parse_lines(d, 0) == lines_glue(gs, parse_lines(d, i0)),
                ensures
                    i0 < ids_start <= i <= n,
                    ids.wf(),
                    ids@ == crate::uintset::seq_set(consumed),
                    parse_ids_line(d, ids_start) == Some((consumed, i as int)),
                    parse_lines(d, 0) == lines_glue(gs, parse_lines(d, i0)),
                decreases n - i,
            {
                let (value, after) = match read_decimal(data, i) {
                    Ok(p) => p,
                    Err(e) => {
                        proof {
                            assert(parse_ids_line(d, i as int) is None) by {
                                if 0 <= i < d.len() && is_digit_byte(d[i as int]) {
                                    lemma_digit_run_end(d, i as int);
                                }
                            }
                            assert(parse_ids_line(d, ids_start) is None);
                            assert(parse_lines(d, i0) is None);
                            assert(!lines_ok(d));
                        }
                        return Err(e);
                    },
                };
                proof {
                    assert(is_digit_byte(d[i as int])) by {
                        lemma_digit_run_end(d, i as int);
                        if !(0 <= i < d.len() && is_digit_byte(d[i as int])) {
                            assert(digit_run_end(d, i as int) == i as int);
                        }
                    }
                }
                if after >= n {
                    proof {
                        assert(parse_ids_line(d, i as int) is None);
                        assert(parse_ids_line(d, ids_start) is None);
                        assert(parse_lines(d, i0) is None);
                        assert(!lines_ok(d));
                    }
                    return Err(crate::codec::CodecError::Truncated);
                }
                let b = data[after];
                if b == 10 {
                    ids.insert(value);
                    proof {
                        assert(parse_ids_line(d, i as int) == Some(
                            (seq![value], after as int + 1),
                        ));
                        let c0 = consumed;
                        consumed = consumed.push(value);
                        assert(c0 + seq![value] =~= consumed);
                        assert(crate::uintset::seq_set(consumed) =~= crate::uintset::seq_set(
                            c0,
                        ).insert(value)) by {
                            crate::uintset::lemma_take_set_step_pub(
                                consumed,
                                consumed.len() - 1,
                            );
                            assert(consumed.take(consumed.len() - 1) =~= c0);
                            assert(consumed.take(consumed.len() as int) =~= consumed);
                        }
                    }
                    i = after + 1;
                    break ;
                } else if b == 44 {
                    ids.insert(value);
                    proof {
                        let rest = parse_ids_line(d, after as int + 1);
                        assert(parse_ids_line(d, i as int) == (match rest {
                            Some(p) => Some((seq![value] + p.0, p.1)),
                            None => None,
                        }));
                        let c0 = consumed;
                        consumed = consumed.push(value);
                        assert(crate::uintset::seq_set(consumed) =~= crate::uintset::seq_set(
                            c0,
                        ).insert(value)) by {
                            crate::uintset::lemma_take_set_step_pub(
                                consumed,
                                consumed.len() - 1,
                            );
                            assert(consumed.take(consumed.len() - 1) =~= c0);
                            assert(consumed.take(consumed.len() as int) =~= consumed);
                        }
                        if rest is Some {
                            assert(c0 + (seq![value] + rest->Some_0.0) =~= consumed
                                + rest->Some_0.0);
                        }
                    }
                    i = after + 1;
                } else {
                    proof {
                        assert(parse_ids_line(d, i as int) is None);
                        assert(parse_ids_line(d, ids_start) is None);
                        assert(parse_lines(d, i0) is None);
                        assert(!lines_ok(d));
                    }
                    return Err(crate::codec::CodecError::Malformed);
                }
            }
            let ghost entry = (d.subrange(i0, ce), consumed);
            proof {
                assert(parse_lines(d, i0) == (match parse_lines(d, i as int) {
                    Some(rest) => Some(seq![entry] + rest),
                    None => None,
                }));
            }
            let st = match bytes_to_string(&term) {
                Some(st) => st,
                None => {
                    proof {
                        assert(!valid_utf8(entry.0));
                        if parse_lines(d, i as int) is Some {
                            let whole = (gs + (seq![entry] + parse_lines(d, i as int)->Some_0));
                            assert(parse_lines(d, 0) == Some(whole));
                            assert(whole[gs.len() as int] == entry);
                            assert(!valid_utf8(whole[gs.len() as int].0));
                            assert(!lines_ok(d)) by {
                                if lines_ok(d) {
                                    assert(parse_lines(d, 0)->Some_0 == whole);
                                    assert(forall|k: int|
                                        0 <= k < whole.len() ==> valid_utf8(
                                            (#[trigger] whole[k]).0,
                                        ));
                                    assert(0 <= gs.len() < whole.len());
                                    assert(valid_utf8(whole[gs.len() as int].0));
                                }
                            }
                        } else {
                            assert(parse_lines(d, i0) is None);
                            assert(!lines_ok(d));
                        }
                    }
                    return Err(crate::codec::CodecError::Malformed);
                },
            };
            let tv = crate::text::str_to_chars(st.as_str());
            let ghost gs0 = gs;
            proof {
                gs = gs.push(entry);
                if parse_lines(d, i as int) is Some {
                    assert(gs0 + (seq![entry] + parse_lines(d, i as int)->Some_0) =~= gs
                        + parse_lines(d, i as int)->Some_0);
                }
            }
            parts.push((tv, ids));
            proof {
                assert(forall|k: int|
                    0 <= k < gs0.len() ==> gs[k] == gs0[k] && parts@[k] == parts@[k]);
                assert(gs.last() == entry && parts@.last().0@ == decode_utf8(entry.0)
                    && parts@.last().1@ == crate::uintset::seq_set(entry.1));
            }
        }
        proof {
            assert(parse_lines(d, n as int) == Some(Seq::<(Seq<u8>, Seq<usize>)>::empty()));
            assert(gs + Seq::<(Seq<u8>, Seq<usize>)>::empty() =~= gs);
            assert(parse_lines(d, 0) == Some(gs));
            assert(lines_ok(d));
        }
        proof {
            assert forall|k: int|
                0 <= k < parts@.len() implies (#[trigger] parts@[k]).1.wf() by {
                assert(valid_utf8(gs[k].0));
            }
        }
        let idx = crate::doc_index::InvertedIndex::from_parts(parts);
        proof {
            lemma_parts_denote(parts@, gs);
        }
        Ok(idx)
    }
}

/// Whether the compressed form parses whole and every dictionary term is
/// valid UTF-8 — exactly when the reader accepts the bytes.
pub open spec fn compressed_ok(data: Seq<u8>) -> bool {
    match parse_compressed(data) {
        Some(es) => forall|k: int| 0 <= k < es.len() ==> valid_utf8((#[trigger] es[k]).0),
        None => false,
    }
}

/// The previously reconstructed dictionary key: the last one, or empty.
pub open spec fn prev_of(ts: Seq<Seq<u8>>) -> Seq<u8> {
    if ts.len() == 0 {
        Seq::empty()
    } else {
        ts.last()
    }
}

/// The byte views of reconstructed terms.
pub open spec fn term_views(ts: Seq<Vec<u8>>) -> Seq<Seq<u8>> {
    ts.map_values(|t: Vec<u8>| t@)
}

/// Joins the keys already parsed with the rest of a dictionary parse.
pub open spec fn dict_glue(pre: Seq<Seq<u8>>, rest: Option<(Seq<Seq<u8>>, int)>) -> Option<
    (Seq<Seq<u8>>, int),
> {
    match rest {
        Some(p) => Some((pre + p.0, p.1)),
        None => None,
    }
}

/// Joins the entries already parsed with the rest of a postings parse.
pub open spec fn pe_glue(
    pre: Seq<(Seq<u8>, Seq<usize>)>,
    rest: Option<Seq<(Seq<u8>, Seq<usize>)>>,
) -> Option<Seq<(Seq<u8>, Seq<usize>)>> {
    match rest {
        Some(es) => Some(pre + es),
        None => None,
    }
}

/// A parsed variable-byte number consumes at least one byte and stays
/// inside the data.
pub proof fn lemma_vb_parse_bounds(data: Seq<u8>, i: int, acc: nat)
    requires
        0 <= i,
    ensures
        crate::codec::vb_parse_from(data, i, acc) matches Some(p) ==> i < p.1 <= data.len(),
    decreases data.len() - i,
{
    if i < data.len() && data[i] < 128 {
        lemma_vb_parse_bounds(data, i + 1, (acc * 128 + data[i]) as nat);
    }
}

/// More gaps than bytes remain cannot parse.
proof fn lemma_parse_gaps_too_many(data: Seq<u8>, i: int, count: nat, prev: nat)
    requires
        0 <= i <= data.len(),
        count > data.len() - i,
    ensures
        parse_gaps(data, i, count, prev) is None,
    decreases count,
{
    if count > 0 {
        lemma_vb_parse_bounds(data, i, 0);
        match crate::codec::vb_parse(data, i) {
            Some(p) => {
                if prev + p.0 <= usize::MAX {
                    lemma_parse_gaps_too_many(data, p.1, (count - 1) as nat, prev + p.0);
                }
            },
            None => {},
        }
    }
}

/// Reads an index back from the compressed binary form: the front-coded
/// dictionary up to its zero byte, then per term the variable-byte document
/// count and gap-coded document ids. The read succeeds exactly when the
/// whole input parses as that format with every term valid UTF-8, and then
/// yields the index the parsed entries denote.
#[verifier::rlimit(80)]
pub fn read_compressed(data: &Vec<u8>) -> (r: Result<
    crate::doc_index::InvertedIndex,
    crate::codec::CodecError,
>)
    ensures
        r is Ok <==> compressed_ok(data@),
        r matches Ok(idx) ==> ({
            &&& idx.wf()
            &&& idx.tmap() == denoted_map(parse_compressed(data@)->Some_0)
            &&& idx.docs() == crate::doc_index::docs_in(idx.tmap())
        }),
{
    let ghost d = data@;
    let n = data.len();
    let mut terms: Vec<Vec<u8>> = Vec::new();
    let mut i: usize = 0;
    proof {
        if parse_dict(d, 0, Seq::empty()) is Some {
            assert(term_views(terms@) + parse_dict(d, 0, Seq::empty())->Some_0.0 =~= parse_dict(
                d,
                0,
                Seq::empty(),
            )->Some_0.0);
        }
        assert(prev_of(term_views(terms@)) =~= Seq::<u8>::empty());
    }
    loop
        invariant_except_break
            parse_dict(d, 0, Seq::empty()) == dict_glue(
                term_views(terms@),
                parse_dict(d, i as int, prev_of(term_views(terms@))),
            ),
        invariant
            d == data@,
            n == d.len(),
            i <= n,
        ensures
            d == data@,
            n == d.len(),
            i <= n,
            parse_dict(d, 0, Seq::empty()) == Some((term_views(terms@), i as int)),
        decreases n - i,
    {
        let ghost tv0 = term_views(terms@);
        let ghost prevb = prev_of(tv0);
        if i >= n {
            proof {
                assert(parse_dict(d, i as int, prevb) is None);
                assert(!compressed_ok(d));
            }
            return Err(crate::codec::CodecError::Truncated);
        }
        if data[i] == 0 {
            proof {
                assert(parse_dict(d, i as int, prevb) == Some(
                    (Seq::<Seq<u8>>::empty(), i as int + 1),
                ));
                assert(tv0 + Seq::<Seq<u8>>::empty() =~= tv0);
            }
            i += 1;
            break ;
        }
        let prev_len = if terms.len() == 0 {
            0
        } else {
            terms[terms.len() - 1].len()
        };
        proof {
            assert(prev_len == prevb.len()) by {
                if terms@.len() > 0 {
                    assert(prevb == terms@[terms@.len() - 1]@);
                }
            }
        }
        let (plen, after) = match read_decimal(data, i) {
            Ok(p) => p,
            Err(e) => {
                proof {
                    assert(parse_dict(d, i as int, prevb) is None) by {
                        if is_digit_byte(d[i as int]) {
                            lemma_digit_run_end(d, i as int);
                        }
                    }
                    assert(!compressed_ok(d));
                }
                return Err(e);
            },
        };
        proof {
            assert(is_digit_byte(d[i as int])) by {
                lemma_digit_run_end(d, i as int);
                if !is_digit_byte(d[i as int]) {
                    assert(digit_run_end(d, i as int) == i as int);
                }
            }
        }
        if plen > prev_len {
            proof {
                assert(parse_dict(d, i as int, prevb) is None);
                assert(!compressed_ok(d));
            }
            return Err(crate::codec::CodecError::Malformed);
        }
        let mut term: Vec<u8> = Vec::new();
        if terms.len() > 0 {
            let lastref = &terms[terms.len() - 1];
            let mut t: usize = 0;
            while t < plen
                invariant
                    t <= plen,
                    plen <= lastref@.len(),
                    term@ == lastref@.take(t as int),
                decreases plen - t,
            {
                term.push(lastref[t]);
                proof {
                    assert(term@ =~= lastref@.take(t + 1));
                }
                t += 1;
            }
            proof {
                assert(term@ =~= prevb.take(plen as int));
            }
        } else {
            proof {
                assert(term@ =~= prevb.take(plen as int));
            }
        }
        let mut u: usize = after;
        proof {
            assert(term@ + d.subrange(after as int, u as int) =~= term@);
        }
        while u < n && data[u] != 0 && !(48 <= data[u] && data[u] <= 57)
            invariant
                d == data@,
                n == d.len(),
                0 <= after as int <= u <= n,
                term@ == prevb.take(plen as int) + d.subrange(after as int, u as int),
                forall|t: int|
                    after as int <= t < u ==> (#[trigger] d[t]) != 0 && !is_digit_byte(d[t]),
            decreases n - u,
        {
            term.push(data[u]);
            proof {
                assert(term@ =~= prevb.take(plen as int) + d.subrange(after as int, u + 1));
            }
            u += 1;
        }
        proof {
            lemma_text_run_exact(d, after as int, u as int);
        }
        if u == after {
            proof {
                assert(parse_dict(d, i as int, prevb) is None);
                assert(!compressed_ok(d));
            }
            return Err(crate::codec::CodecError::Malformed);
        }
        proof {
            let rest = parse_dict(d, u as int, term@);
            assert(parse_dict(d, i as int, prevb) == (match rest {
                Some(p) => Some((seq![term@] + p.0, p.1)),
                None => None,
            }));
        }
        let ghost terms0 = terms@;
        terms.push(term);
        proof {
            assert(term_views(terms@) =~= term_views(terms0).push(terms@.last()@));
            assert(prev_of(term_views(terms@)) == terms@.last()@);
            if parse_dict(d, u as int, terms@.last()@) is Some {
                assert(tv0 + (seq![terms@.last()@] + parse_dict(
                    d,
                    u as int,
                    terms@.last()@,
                )->Some_0.0) =~= term_views(terms@) + parse_dict(
                    d,
                    u as int,
                    terms@.last()@,
                )->Some_0.0);
            }
        }
        i = u;
    }
    let ghost keys = term_views(terms@);
    let ghost dict_end = i as int;
    let m = terms.len();
    let mut parts: Vec<(Vec<char>, crate::uintset::UintSet)> = Vec::new();
    let ghost mut gs: Seq<(Seq<u8>, Seq<usize>)> = Seq::empty();
    let mut k: usize = 0;
    proof {
        assert(keys.skip(0) =~= keys);
        if parse_entries(d, dict_end, keys) is Some {
            assert(gs + parse_entries(d, dict_end, keys)->Some_0 =~= parse_entries(
                d,
                dict_end,
                keys,
            )->Some_0);
        }
    }
    while k < m
        invariant
            d == data@,
            n == d.len(),
            m == terms@.len(),
            keys == term_views(terms@),
            dict_end <= i <= n || i <= n,
            i <= n,
            0 <= dict_end,
            parse_dict(d, 0, Seq::empty()) == Some((keys, dict_end)),
            k <= m,
            parse_entries(d, dict_end, keys) == pe_glue(
                gs,
                parse_entries(d, i as int, keys.skip(k as int)),
            ),
            gs.len() == k,
            gs.len() == parts@.len(),
            forall|t: int| 0 <= t < k ==> (#[trigger] gs[t]).0 == keys[t],
            forall|t: int|
                0 <= t < gs.len() ==> valid_utf8((#[trigger] gs[t]).0) && parts@[t].0@
                    == decode_utf8(gs[t].0) && parts@[t].1@ == crate::uintset::seq_set(gs[t].1)
                    && parts@[t].1.wf(),
        decreases m - k,
    {
        let ghost entry_i = i as int;
        proof {
            assert(keys.skip(k as int)[0] == keys[k as int]);
            assert(keys.skip(k as int).drop_first() =~= keys.skip(k as int + 1));
        }
        let (count, after) = match crate::codec::vb_decode(data, i) {
            Ok(p) => p,
            Err(e) => {
                proof {
                    match crate::codec::vb_parse(d, i as int) {
                        Some(p) => {
                            assert(p.0 > usize::MAX);
                            lemma_vb_parse_bounds(d, i as int, 0);
                            lemma_parse_gaps_too_many(d, p.1, p.0, 0);
                            assert(parse_entries(d, i as int, keys.skip(k as int)) is None);
                        },
                        None => {
                            assert(parse_entries(d, i as int, keys.skip(k as int)) is None);
                        },
                    }
                    assert(!compressed_ok(d));
                }
                return Err(e);
            },
        };
        proof {
            lemma_vb_parse_bounds(d, i as int, 0);
        }
        i = after;
        let ghost gaps_start = i as int;
        proof {
            assert(parse_gaps(d, gaps_start, count as nat, 0) is None ==> parse_entries(
                d,
                dict_end,
                keys,
            ) is None) by {
                if parse_gaps(d, gaps_start, count as nat, 0) is None {
                    assert(parse_entries(d, entry_i, keys.skip(k as int)) is None);
                }
            }
        }
        let mut ids = crate::uintset::UintSet::new();
        let ghost mut consumed: Seq<usize> = Seq::empty();
        let mut prev: usize = 0;
        let mut c: usize = 0;
        proof {
            if parse_gaps(d, gaps_start, count as nat, 0) is Some {
                assert(consumed + parse_gaps(d, gaps_start, count as nat, 0)->Some_0.0
                    =~= parse_gaps(d, gaps_start, count as nat, 0)->Some_0.0);
            }
            assert(ids@ =~= crate::uintset::seq_set(consumed));
        }
        while c < count
            invariant
                d == data@,
                n == d.len(),
                gaps_start <= i <= n,
                c <= count,
                ids.wf(),
                ids@ == crate::uintset::seq_set(consumed),
                prev as nat == (if consumed.len() == 0 {
                    0nat
                } else {
                    consumed.last() as nat
                }),
                parse_gaps(d, gaps_start, count as nat, 0) == (match parse_gaps(
                    d,
                    i as int,
                    (count - c) as nat,
                    prev as nat,
                ) {
                    Some(p) => Some((consumed + p.0, p.1)),
                    None => None,
                }),
                parse_dict(d, 0, Seq::empty()) == Some((keys, dict_end)),
                (parse_gaps(d, gaps_start, count as nat, 0) is None ==> parse_entries(
                    d,
                    dict_end,
                    keys,
                ) is None),
            decreases count - c,
        {
            let (delta, a2) = match crate::codec::vb_decode(data, i) {
                Ok(p) => p,
                Err(e) => {
                    proof {
                        assert(parse_gaps(d, i as int, (count - c) as nat, prev as nat)
                            is None) by {
                            match crate::codec::vb_parse(d, i as int) {
                                Some(p) => {
                                    assert(p.0 > usize::MAX);
                                },
                                None => {},
                            }
                        }
                        assert(parse_gaps(d, gaps_start, count as nat, 0) is None);
                        assert(parse_entries(d, dict_end, keys) is None);
                        assert(!compressed_ok(d));
                    }
                    return Err(e);
                },
            };
            proof {
                lemma_vb_parse_bounds(d, i as int, 0);
            }
            if prev > usize::MAX - delta {
                proof {
                    assert(parse_gaps(d, i as int, (count - c) as nat, prev as nat) is None);
                    assert(parse_gaps(d, gaps_start, count as nat, 0) is None);
                    assert(parse_entries(d, dict_end, keys) is None);
                    assert(!compressed_ok(d));
                }
                return Err(crate::codec::CodecError::Overflow);
            }
            let v = prev + delta;
            ids.insert(v);
            proof {
                let c0 = consumed;
                consumed = consumed.push(v);
                assert(crate::uintset::seq_set(consumed) =~= crate::uintset::seq_set(c0).insert(
                    v,
                )) by {
                    crate::uintset::lemma_take_set_step_pub(consumed, consumed.len() - 1);
                    assert(consumed.take(consumed.len() - 1) =~= c0);
                    assert(consumed.take(consumed.len() as int) =~= consumed);
                }
                let rest = parse_gaps(d, a2 as int, (count - c - 1) as nat, v as nat);
                assert(parse_gaps(d, i as int, (count - c) as nat, prev as nat) == (match rest {
                    Some(q) => Some((seq![v] + q.0, q.1)),
                    None => None,
                }));
                if rest is Some {
                    assert(c0 + (seq![v] + rest->Some_0.0) =~= consumed + rest->Some_0.0);
                }
            }
            prev = v;
            i = a2;
            c += 1;
        }
        proof {
            assert(parse_gaps(d, i as int, 0, prev as nat) == Some(
                (Seq::<usize>::empty(), i as int),
            ));
            assert(consumed + Seq::<usize>::empty() =~= consumed);
            assert(parse_gaps(d, gaps_start, count as nat, 0) == Some((consumed, i as int)));
        }
        let ghost entry = (keys[k as int], consumed);
        proof {
            assert(parse_entries(d, entry_i, keys.skip(k as int)) == (match parse_entries(
                d,
                i as int,
                keys.skip(k as int + 1),
            ) {
                Some(rest) => Some(seq![entry] + rest),
                None => None,
            }));
            assert(parse_entries(d, dict_end, keys) == pe_glue(gs, (match parse_entries(
                d,
                i as int,
                keys.skip(k as int + 1),
            ) {
                Some(rest) => Some(seq![entry] + rest),
                None => None,
            })));
        }
        let st = match bytes_to_string(&terms[k]) {
            Some(st) => st,
            None => {
                proof {
                    assert(!valid_utf8(entry.0)) by {
                        assert(terms@[k as int]@ == keys[k as int]);
                    }
                    if parse_entries(d, i as int, keys.skip(k as int + 1)) is Some {
                        let whole = (gs + (seq![entry] + parse_entries(
                            d,
                            i as int,
                            keys.skip(k as int + 1),
                        )->Some_0));
                        assert(parse_entries(d, dict_end, keys) == Some(whole));
                        assert(parse_compressed(d) == Some(whole));
                        assert(whole[gs.len() as int] == entry);
                        assert(!valid_utf8(whole[gs.len() as int].0));
                        assert(!compressed_ok(d)) by {
                            if compressed_ok(d) {
                                assert(parse_compressed(d)->Some_0 == whole);
                                assert(forall|t: int|
                                    0 <= t < whole.len() ==> valid_utf8(
                                        (#[trigger] whole[t]).0,
                                    ));
                                assert(0 <= gs.len() < whole.len());
                                assert(valid_utf8(whole[gs.len() as int].0));
                            }
                        }
                    } else {
                        assert(parse_entries(d, dict_end, keys) is None);
                        assert(!compressed_ok(d));
                    }
                }
                return Err(crate::codec::CodecError::Malformed);
            },
        };
        let tv = crate::text::str_to_chars(st.as_str());
        let ghost gs0 = gs;
        proof {
            gs = gs.push(entry);
            if parse_entries(d, i as int, keys.skip(k as int + 1)) is Some {
                assert(gs0 + (seq![entry] + parse_entries(
                    d,
                    i as int,
                    keys.skip(k as int + 1),
                )->Some_0) =~= gs + parse_entries(d, i as int, keys.skip(k as int + 1))->Some_0);
            }
        }
        parts.push((tv, ids));
        proof {
            assert(forall|t: int| 0 <= t < gs0.len() ==> gs[t] == gs0[t]);
            assert(gs.last() == entry);
            assert(terms@[k as int]@ == keys[k as int]);
            assert(parts@.last().0@ == decode_utf8(entry.0) && parts@.last().1@
                == crate::uintset::seq_set(entry.1));
        }
        k += 1;
    }
    proof {
        assert(keys.skip(m as int) =~= Seq::<Seq<u8>>::empty());
        assert(parse_entries(d, i as int, keys.skip(m as int)) == Some(
            Seq::<(Seq<u8>, Seq<usize>)>::empty(),
        ));
        assert(gs + Seq::<(Seq<u8>, Seq<usize>)>::empty() =~= gs);
        assert(parse_entries(d, dict_end, keys) == Some(gs));
        assert(parse_compressed(d) == Some(gs));
        assert(compressed_ok(d));
        assert forall|t: int|
            0 <= t < parts@.len() implies (#[trigger] parts@[t]).1.wf() by {
            assert(valid_utf8(gs[t].0));
        }
    }
    let idx = crate::doc_index::InvertedIndex::from_parts(parts);
    proof {
        lemma_parts_denote(parts@, gs);
    }
    Ok(idx)
}

/// Of two distinct byte strings, one is byte-lexicographically smaller.
pub proof fn lemma_bytes_lt_total(a: Seq<u8>, b: Seq<u8>)
    requires
        a != b,
    ensures
        bytes_lt(a, b) || bytes_lt(b, a),
    decreases a.len(),
{
    if b.len() == 0 {
        assert(a.len() > 0) by {
            if a.len() == 0 {
                assert(a =~= b);
                assert(false);
            }
        }
    } else if a.len() == 0 {
    } else if a[0] < b[0] {
    } else if a[0] > b[0] {
    } else {
        assert(a.drop_first() != b.drop_first()) by {
            if a.drop_first() == b.drop_first() {
                assert(a.drop_first().len() == b.drop_first().len());
                assert(a.drop_first().len() == a.len() - 1);
                assert(b.drop_first().len() == b.len() - 1);
                assert(a.len() == b.len());
                assert forall|i: int| 0 <= i < a.len() implies a[i] == b[i] by {
                    if i > 0 {
                        assert(a[i] == a.drop_first()[i - 1]);
                        assert(b[i] == b.drop_first()[i - 1]);
                    } else {
                        assert(a[0] == b[0]);
                    }
                }
                assert(a =~= b);
                assert(false);
            }
        }
        lemma_bytes_lt_total(a.drop_first(), b.drop_first());
    }
}

/// Byte-lexicographic order is transitive.
pub proof fn lemma_bytes_lt_trans(a: Seq<u8>, b: Seq<u8>, c: Seq<u8>)
    requires
        bytes_lt(a, b),
        bytes_lt(b, c),
    ensures
        bytes_lt(a, c),
    decreases a.len(),
{
    if b.len() == 0 {
    } else if a.len() == 0 {
    } else if c.len() == 0 {
    } else {
        if a[0] < b[0] {
            if b[0] < c[0] {
            } else if b[0] == c[0] {
            }
        } else if a[0] == b[0] {
            if b[0] < c[0] {
            } else if b[0] == c[0] {
                lemma_bytes_lt_trans(a.drop_first(), b.drop_first(), c.drop_first());
            }
        }
    }
}

} // verus!
