use vstd::prelude::*;

verus! {

/// Why a compressed stream could not be decoded.
#[derive(PartialEq, Eq, Structural, Clone, Copy, Debug)]
pub enum CodecError {
    /// The stream ended before the final byte of a number.
    Truncated,
    /// A decoded value does not fit the machine's word size.
    Overflow,
    /// The stream's structure is not the expected one.
    Malformed,
}

/// The base-128 groups of `n`, most significant first; empty for zero.
pub open spec fn vb_groups(n: nat) -> Seq<u8>
    decreases n,
{
    if n == 0 {
        Seq::empty()
    } else {
        vb_groups(n / 128).push((n % 128) as u8)
    }
}

/// The variable-byte encoding of `n`: its base-128 groups most significant
/// first, the last byte carrying the continuation mark `0x80`; zero encodes
/// as the single byte `0x80`.
pub open spec fn vb_bytes(n: nat) -> Seq<u8> {
    if n == 0 {
        seq![0x80u8]
    } else {
        let g = vb_groups(n);
        g.drop_last().push((g.last() + 0x80) as u8)
    }
}

/// Parses a variable-byte number starting at `i` with accumulator `acc`:
/// bytes shift the accumulator by seven bits until one with the high bit set
/// ends the number. `None` when the stream ends first.
pub open spec fn vb_parse_from(data: Seq<u8>, i: int, acc: nat) -> Option<(nat, int)>
    decreases data.len() - i,
{
    if i < 0 || i >= data.len() {
        None
    } else if data[i] >= 128 {
        Some(((acc * 128 + (data[i] - 128)) as nat, i + 1))
    } else {
        vb_parse_from(data, i + 1, (acc * 128 + data[i]) as nat)
    }
}

/// Parses a variable-byte number starting at `i`.
pub open spec fn vb_parse(data: Seq<u8>, i: int) -> Option<(nat, int)> {
    vb_parse_from(data, i, 0)
}

/// Every base-128 group is below 128.
pub proof fn lemma_vb_groups_bounds(n: nat)
    ensures
        forall|i: int| 0 <= i < vb_groups(n).len() ==> #[trigger] vb_groups(n)[i] < 128,
        n > 0 ==> vb_groups(n).len() >= 1,
    decreases n,
{
    if n > 0 {
        lemma_vb_groups_bounds(n / 128);
        assert(forall|i: int|
            0 <= i < vb_groups(n).len() - 1 ==> vb_groups(n)[i] == vb_groups(n / 128)[i]);
    }
}

/// The value of consuming the groups `g` after accumulator `acc`.
pub open spec fn fold_groups(acc: nat, g: Seq<u8>) -> nat
    decreases g.len(),
{
    if g.len() == 0 {
        acc
    } else {
        fold_groups((acc * 128 + g[0]) as nat, g.drop_first())
    }
}

proof fn lemma_fold_groups_push(acc: nat, g: Seq<u8>, x: u8)
    ensures
        fold_groups(acc, g.push(x)) == fold_groups(acc, g) * 128 + x,
    decreases g.len(),
{
    if g.len() == 0 {
        assert(g.push(x).drop_first() =~= Seq::<u8>::empty());
        assert(g.push(x)[0] == x);
        assert(fold_groups((acc * 128 + x) as nat, g.push(x).drop_first()) == (acc * 128
            + x) as nat);
        assert(fold_groups(acc, g.push(x)) == (acc * 128 + x) as nat);
        assert(fold_groups(acc, g) == acc);
    } else {
        assert(g.push(x).drop_first() =~= g.drop_first().push(x));
        assert(g.push(x)[0] == g[0]);
        lemma_fold_groups_push((acc * 128 + g[0]) as nat, g.drop_first(), x);
        assert(fold_groups(acc, g.push(x)) == fold_groups(
            (acc * 128 + g[0]) as nat,
            g.drop_first().push(x),
        ));
        assert(fold_groups(acc, g) == fold_groups((acc * 128 + g[0]) as nat, g.drop_first()));
    }
}

proof fn lemma_fold_groups_value(n: nat)
    ensures
        fold_groups(0, vb_groups(n)) == n,
    decreases n,
{
    if n > 0 {
        lemma_fold_groups_value(n / 128);
        lemma_fold_groups_push(0, vb_groups(n / 128), (n % 128) as u8);
    }
}

proof fn lemma_parse_encoded_groups(data: Seq<u8>, i: int, acc: nat, g: Seq<u8>)
    requires
        0 <= i,
        i + g.len() + 1 <= data.len(),
        forall|t: int| 0 <= t < g.len() ==> data[i + t] == #[trigger] g[t] && g[t] < 128,
        data[i + g.len()] >= 128,
    ensures
        vb_parse_from(data, i, acc) == Some(
            (
                (fold_groups(acc, g) * 128 + (data[i + g.len()] - 128)) as nat,
                i + g.len() + 1,
            ),
        ),
    decreases g.len(),
{
    if g.len() == 0 {
    } else {
        assert(data[i + 0] == g[0]);
        assert(data[i] == g[0]);
        assert(forall|t: int|
            0 <= t < g.drop_first().len() ==> data[i + 1 + t] == #[trigger] g.drop_first()[t]
                && g.drop_first()[t] < 128) by {
            assert(forall|t: int|
                0 <= t < g.len() - 1 ==> g.drop_first()[t] == g[t + 1]);
            assert(forall|t: int|
                0 <= t < g.drop_first().len() ==> #[trigger] data[i + (t + 1)] == data[(i + 1)
                    + t]);
        }
        lemma_parse_encoded_groups(data, i + 1, (acc * 128 + g[0]) as nat, g.drop_first());
    }
}

/// Decoding inverts encoding: a variable-byte encoded number followed by any
/// further bytes parses back to the number, consuming exactly its encoding.
pub proof fn lemma_vb_round_trip(n: nat, rest: Seq<u8>)
    ensures
        vb_parse(vb_bytes(n) + rest, 0) == Some((n, vb_bytes(n).len() as int)),
{
    let data = vb_bytes(n) + rest;
    if n == 0 {
        assert(data[0] == 0x80);
        assert(vb_parse_from(data, 0, 0) == Some((0nat, 1int)));
    } else {
        lemma_vb_groups_bounds(n);
        let g = vb_groups(n);
        let pre = g.drop_last();
        assert(vb_bytes(n).len() == g.len());
        assert(forall|t: int| 0 <= t < pre.len() ==> data[0 + t] == #[trigger] pre[t] && pre[t] < 128) by {
            assert(forall|t: int| 0 <= t < g.len() - 1 ==> pre[t] == g[t]);
            assert(forall|t: int|
                0 <= t < g.len() - 1 ==> data[t] == vb_bytes(n)[t] && vb_bytes(n)[t] == pre[t]);
        }
        assert(data[pre.len() as int] == vb_bytes(n)[g.len() - 1]);
        assert(g.last() < 128);
        assert(data[pre.len() as int] == g.last() + 0x80);
        lemma_parse_encoded_groups(data, 0, 0, pre);
        lemma_fold_groups_push(0, pre, g.last());
        assert(pre.push(g.last()) =~= g);
        lemma_fold_groups_value(n);
        assert(fold_groups(0, pre) * 128 + (data[pre.len() as int] - 128) == n);
    }
}

/// The power `128^k`, the weight of the `k`-th base-128 group.
pub open spec fn pow128(k: nat) -> nat
    decreases k,
{
    if k == 0 {
        1
    } else {
        128 * pow128((k - 1) as nat)
    }
}

/// The encoded length of `n`: one byte for zero, and otherwise exactly as
/// many bytes as `n` has base-128 groups, with `128^(len-1) <= n < 128^len`.
pub proof fn lemma_vb_length(n: nat)
    ensures
        vb_bytes(n).len() >= 1,
        n == 0 ==> vb_bytes(n).len() == 1,
        n > 0 ==> vb_bytes(n).len() == vb_groups(n).len() && pow128(
            (vb_bytes(n).len() - 1) as nat,
        ) <= n < pow128(vb_bytes(n).len() as nat),
    decreases n,
{
    if n > 0 {
        lemma_vb_groups_bounds(n);
        if n / 128 > 0 {
            lemma_vb_length(n / 128);
            let k = vb_groups(n / 128).len();
            assert(vb_bytes(n / 128).len() == k);
            assert(pow128((k - 1) as nat) <= n / 128 < pow128(k as nat));
            assert(n == (n / 128) * 128 + n % 128) by {
                vstd::arithmetic::div_mod::lemma_fundamental_div_mod(n as int, 128);
            }
            assert(pow128(k as nat) == 128 * pow128((k - 1) as nat));
            assert(n >= pow128((k - 1) as nat) * 128) by (nonlinear_arith)
                requires
                    n >= (n / 128) * 128,
                    n / 128 >= pow128((k - 1) as nat),
            ;
            assert(pow128((k - 1) as nat) * 128 == pow128(k as nat)) by (nonlinear_arith)
                requires
                    pow128(k as nat) == 128 * pow128((k - 1) as nat),
            ;
            assert(n < pow128((k + 1) as nat)) by (nonlinear_arith)
                requires
                    n == (n / 128) * 128 + n % 128,
                    n % 128 < 128,
                    n / 128 < pow128(k as nat),
                    pow128((k + 1) as nat) == 128 * pow128(k as nat),
            ;
        } else {
            assert(vb_groups(0nat) =~= Seq::<u8>::empty());
            assert(vb_groups(n).len() == 1);
            assert(n < 128) by {
                vstd::arithmetic::div_mod::lemma_fundamental_div_mod(n as int, 128);
            }
            assert(pow128(0) == 1);
            assert(pow128(1) == 128);
        }
    }
}

fn vb_groups_push(n: usize, out: &mut Vec<u8>)
    ensures
        final(out)@ == old(out)@ + vb_groups(n as nat),
    decreases n,
{
    if n == 0 {
        proof {
            assert(old(out)@ + vb_groups(0) =~= old(out)@);
        }
        return ;
    }
    vb_groups_push(n / 128, out);
    let b = (n % 128) as u8;
    out.push(b);
    proof {
        assert(old(out)@ + vb_groups(n as nat) =~= (old(out)@ + vb_groups(n as nat / 128)).push(
            (n as nat % 128) as u8,
        ));
    }
}

/// Encodes `value` in variable-byte form: base-128, most significant group
/// first, the final byte carrying the continuation mark.
pub fn vb_encode(value: usize) -> (r: Vec<u8>)
    ensures
        r@ == vb_bytes(value as nat),
{
    if value == 0 {
        let mut v: Vec<u8> = Vec::new();
        v.push(0x80);
        proof {
            assert(v@ =~= vb_bytes(0));
        }
        return v;
    }
    let mut out: Vec<u8> = Vec::new();
    vb_groups_push(value, &mut out);
    proof {
        lemma_vb_groups_bounds(value as nat);
        assert(out@ =~= vb_groups(value as nat));
        assert(out@.len() >= 1);
        assert(out@[out@.len() - 1] < 128);
    }
    let k = out.len() - 1;
    let last = out[k];
    out[k] = last + 0x80;
    proof {
        let g = vb_groups(value as nat);
        assert(out@ =~= g.drop_last().push((g.last() + 0x80) as u8));
    }
    out
}

/// Decodes a variable-byte number from `data` starting at `start`, returning
/// the value and the index just past its last byte. A stream that ends
/// before the continuation byte is truncated; a value beyond the machine
/// word does not fit.
pub fn vb_decode(data: &Vec<u8>, start: usize) -> (r: Result<(usize, usize), CodecError>)
    ensures
        r matches Ok(p) ==> vb_parse(data@, start as int) == Some((p.0 as nat, p.1 as int)),
        r matches Err(e) ==> (match vb_parse(data@, start as int) {
            Some(v) => e == CodecError::Overflow && v.0 > usize::MAX,
            None => e == CodecError::Truncated,
        }),
{
    let ghost s = data@;
    let n = data.len();
    let mut i: usize = start;
    let mut acc: u128 = 0;
    let mut over = false;
    let ghost mut acc_spec: nat = 0nat;
    loop
        invariant
            s == data@,
            n == s.len(),
            start <= i,
            i <= n || i == start,
            vb_parse_from(s, start as int, 0) == vb_parse_from(s, i as int, acc_spec),
            !over ==> acc == acc_spec && acc_spec <= usize::MAX,
            over ==> acc_spec > usize::MAX,
        decreases n - i,
    {
        if i >= n {
            proof {
                assert(vb_parse_from(s, i as int, acc_spec) is None);
            }
            return Err(CodecError::Truncated);
        }
        let b = data[i];
        if b >= 128 {
            proof {
                assert(vb_parse_from(s, i as int, acc_spec) == Some(
                    ((acc_spec * 128 + (b - 128)) as nat, i as int + 1),
                ));
            }
            if over {
                proof {
                    assert(acc_spec * 128 + (b - 128) >= acc_spec) by (nonlinear_arith)
                        requires
                            acc_spec >= 0,
                            b >= 128,
                    ;
                }
                return Err(CodecError::Overflow);
            }
            let v = acc * 128 + ((b - 128) as u128);
            if v > usize::MAX as u128 {
                return Err(CodecError::Overflow);
            }
            return Ok((v as usize, i + 1));
        }
        proof {
            assert(vb_parse_from(s, i as int, acc_spec) == vb_parse_from(
                s,
                i as int + 1,
                (acc_spec * 128 + b) as nat,
            ));
        }
        if !over {
            let a2 = acc * 128 + (b as u128);
            if a2 > usize::MAX as u128 {
                over = true;
            } else {
                acc = a2;
            }
        } else {
            proof {
                assert(acc_spec * 128 + b > usize::MAX) by (nonlinear_arith)
                    requires
                        acc_spec > usize::MAX,
                        b >= 0,
                ;
            }
        }
        proof {
            acc_spec = (acc_spec * 128 + b) as nat;
        }
        i += 1;
    }
}

} // verus!
