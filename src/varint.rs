//! Unsigned LEB128 integers: seven bits per byte, least significant group
//! first, the high bit set on every byte but the last.
use vstd::prelude::*;

verus! {

pub open spec fn varint_bytes(v: nat) -> Seq<u8>
    decreases v,
{
    if v < 128 {
        seq![v as u8]
    } else {
        seq![(v % 128 + 128) as u8] + varint_bytes(v / 128)
    }
}

/// Appends the encoding of `value` to `out`.
pub fn encode_varint(value: u64, out: &mut Vec<u8>)
    ensures
        final(out)@ == old(out)@ + varint_bytes(value as nat),
{
    let mut x: u64 = value;
    while x >= 128
        invariant
            old(out)@ + varint_bytes(value as nat) == out@ + varint_bytes(x as nat),
        decreases x,
    {
        let ghost before = out@;
        out.push((x % 128 + 128) as u8);
        proof {
            assert(varint_bytes(x as nat) == seq![(x % 128 + 128) as u8] + varint_bytes(
                (x / 128) as nat,
            ));
            assert(before + varint_bytes(x as nat) =~= out@ + varint_bytes((x / 128) as nat));
        }
        x = x / 128;
    }
    let ghost before = out@;
    out.push(x as u8);
    proof {
        assert(before + varint_bytes(x as nat) =~= out@);
    }
}

/// A terminated varint: every byte but the last has its high bit set.
pub open spec fn is_varint(s: Seq<u8>) -> bool {
    &&& s.len() >= 1
    &&& forall|i: int| 0 <= i < s.len() - 1 ==> s[i] >= 128
    &&& s.last() < 128
}

/// The value of a varint's bytes.
pub open spec fn varint_value(s: Seq<u8>) -> nat
    decreases s.len(),
{
    if s.len() == 0 {
        0
    } else {
        (s[0] % 128) as nat + 128 * varint_value(s.drop_first())
    }
}

pub proof fn lemma_varint_bytes_shape(v: nat)
    ensures
        is_varint(varint_bytes(v)),
        varint_value(varint_bytes(v)) == v,
        v <= u64::MAX ==> varint_bytes(v).len() <= 10,
        v < 128 ==> varint_bytes(v).len() == 1,
    decreases v,
{
    let b = varint_bytes(v);
    if v < 128 {
        assert(b.drop_first().len() == 0);
        assert(varint_value(b.drop_first()) == 0);
        assert(b[0] % 128 == v);
    } else {
        assert(b[0] as int == v % 128 + 128);
        assert(b[0] % 128 == v % 128);
        assert(v == v % 128 + 128 * (v / 128));
        lemma_varint_bytes_shape(v / 128);
        assert(b.drop_first() =~= varint_bytes(v / 128));
        assert(varint_value(b) == (b[0] % 128) as nat + 128 * varint_value(b.drop_first()));
        assert forall|i: int| 0 <= i < b.len() - 1 implies b[i] >= 128 by {
            if i > 0 {
                assert(b[i] == varint_bytes(v / 128)[i - 1]);
            }
        }
        if v <= u64::MAX {
            lemma_varint_len_bound(v);
        }
    }
}

proof fn lemma_varint_len_bound(v: nat)
    requires
        v <= u64::MAX,
    ensures
        varint_bytes(v).len() <= 10,
{
    reveal_with_fuel(pow128, 11);
    assert(pow128(10) == 0x400000000000000000);
    lemma_varint_len_pow(v, 10);
}

pub open spec fn pow128(n: nat) -> nat
    decreases n,
{
    if n == 0 {
        1
    } else {
        128 * pow128((n - 1) as nat)
    }
}

pub proof fn lemma_varint_len_pow(v: nat, n: nat)
    requires
        n >= 1,
        v < pow128(n),
    ensures
        varint_bytes(v).len() <= n,
    decreases n,
{
    if v >= 128 {
        if n == 1 {
            assert(pow128(0) == 1);
            assert(false);
        }
        assert(v / 128 < pow128((n - 1) as nat));
        lemma_varint_len_pow(v / 128, (n - 1) as nat);
    }
}

/// Reads the varint that starts at `pos`: its value and the position after it.
/// Fails on running out of bytes, on more than ten bytes, and on a value over
/// `u64::MAX`.
pub fn decode_varint(data: &Vec<u8>, pos: usize) -> (r: Option<(u64, usize)>)
    ensures
        forall|v: nat, rest: Seq<u8>|
            v <= u64::MAX && pos <= data@.len() && data@.subrange(pos as int, data@.len() as int) == #[trigger] (varint_bytes(v) + rest)
                ==> r == Some((v as u64, (pos + varint_bytes(v).len()) as usize)),
        r matches Some((v, end)) ==> pos < end <= data@.len() && is_varint(
            data@.subrange(pos as int, end as int),
        ) && v == varint_value(data@.subrange(pos as int, end as int)),
{
    let n = data.len();
    if pos >= n {
        proof {
            assert forall|v: nat, rest: Seq<u8>|
                v <= u64::MAX && pos <= data@.len() && data@.subrange(pos as int, data@.len() as int)
                    == #[trigger] (varint_bytes(v) + rest) implies false by {
                lemma_varint_bytes_shape(v);
                assert(data@.subrange(pos as int, data@.len() as int).len() == 0);
            }
        }
        return None;
    }
    // find the terminating byte
    let mut e: usize = pos;
    while e < n && data[e] >= 128 && e - pos < 10
        invariant
            pos <= e <= n,
            n == data@.len(),
            e - pos <= 10,
            forall|i: int| pos <= i < e ==> data@[i] >= 128,
        decreases n - e,
    {
        e = e + 1;
    }
    if e >= n || e - pos >= 10 {
        proof {
            assert forall|v: nat, rest: Seq<u8>|
                v <= u64::MAX && pos <= data@.len() && data@.subrange(pos as int, data@.len() as int)
                    == #[trigger] (varint_bytes(v) + rest) implies false by {
                let b = varint_bytes(v);
                lemma_varint_bytes_shape(v);
                let l = b.len() as int;
                let t = data@.subrange(pos as int, data@.len() as int);
                assert(t.len() == l + rest.len());
                assert(t[l - 1] == (b + rest)[l - 1]);
                assert(data@[pos + l - 1] == b[l - 1]);
                assert(data@[pos + l - 1] < 128);
            }
        }
        return None;
    }
    // fold from the last byte back to the first
    let ghost s = data@.subrange(pos as int, e + 1);
    let mut value: u64 = (data[e] % 128) as u64;
    let mut i: usize = e;
    proof {
        let last = s.subrange(e - pos, s.len() as int);
        assert(last.drop_first().len() == 0);
        assert(varint_value(last.drop_first()) == 0);
        assert(last[0] == data@[e as int]);
    }
    while i > pos
        invariant
            pos <= i <= e < n,
            forall|j: int| pos <= j < e ==> data@[j] >= 128,
            data@[e as int] < 128,
            n == data@.len(),
            s == data@.subrange(pos as int, e + 1),
            value == varint_value(s.subrange(i - pos, s.len() as int)),
        decreases i,
    {
        i = i - 1;
        let low = (data[i] % 128) as u64;
        proof {
            assert(s.subrange(i - pos, s.len() as int).drop_first() =~= s.subrange(
                i + 1 - pos,
                s.len() as int,
            ));
        }
        if value > (u64::MAX - low) / 128 {
            proof {
                assert forall|v: nat, rest: Seq<u8>|
                    v <= u64::MAX && pos <= data@.len() && data@.subrange(pos as int, data@.len() as int)
                        == #[trigger] (varint_bytes(v) + rest) implies false by {
                    lemma_varint_bytes_shape(v);
                    lemma_varint_prefix_unique(data@, pos as int, e as int, v, rest);
                    lemma_varint_suffix_le(s, i - pos);
                }
            }
            return None;
        }
        value = value * 128 + low;
    }
    proof {
        assert(s.subrange(0, s.len() as int) =~= s);
        assert forall|v: nat, rest: Seq<u8>|
            v <= u64::MAX && pos <= data@.len() && data@.subrange(pos as int, data@.len() as int) == #[trigger] (varint_bytes(v)
                + rest) implies Some((value, (e + 1) as usize)) == Some(
            (v as u64, (pos + varint_bytes(v).len()) as usize),
        ) by {
            lemma_varint_bytes_shape(v);
            lemma_varint_prefix_unique(data@, pos as int, e as int, v, rest);
        }
    }
    Some((value, e + 1))
}

/// If the bytes at `pos` are `varint_bytes(v)` followed by anything, and `e` is
/// the first position from `pos` on with a byte below 128, the varint ends at `e`.
proof fn lemma_varint_prefix_unique(data: Seq<u8>, pos: int, e: int, v: nat, rest: Seq<u8>)
    requires
        0 <= pos <= e < data.len(),
        data.subrange(pos, data.len() as int) == varint_bytes(v) + rest,
        forall|i: int| pos <= i < e ==> data[i] >= 128,
        data[e] < 128,
        is_varint(varint_bytes(v)),
    ensures
        data.subrange(pos, e + 1) == varint_bytes(v),
{
    let b = varint_bytes(v);
    let l = b.len() as int;
    let t = data.subrange(pos, data.len() as int);
    assert(t.len() == l + rest.len());
    assert(t[l - 1] == (b + rest)[l - 1]);
    assert(data[pos + l - 1] == b[l - 1]);
    if l - 1 < e - pos {
        assert(false);
    }
    if l - 1 > e - pos {
        assert(t[e - pos] == (b + rest)[e - pos]);
        assert(data[e] == b[e - pos]);
        assert(false);
    }
    assert forall|i: int| 0 <= i < l implies data.subrange(pos, e + 1)[i] == b[i] by {
        assert(t[i] == (b + rest)[i]);
        assert(data[pos + i] == (b + rest)[i]);
    }
    assert(data.subrange(pos, e + 1) =~= b);
}

/// The value of a suffix of a varint's bytes is at most the value of the whole.
proof fn lemma_varint_suffix_le(s: Seq<u8>, k: int)
    requires
        0 <= k <= s.len(),
    ensures
        varint_value(s.subrange(k, s.len() as int)) * 128 + (if k > 0 { s[k - 1] % 128 } else { 0 }) <= (if k > 0 { varint_value(s.subrange(k - 1, s.len() as int)) } else { varint_value(s) * 128 }),
        varint_value(s.subrange(k, s.len() as int)) <= varint_value(s),
    decreases k,
{
    if k == 0 {
        assert(s.subrange(0, s.len() as int) =~= s);
    } else {
        assert(s.subrange(k - 1, s.len() as int).drop_first() =~= s.subrange(k, s.len() as int));
        lemma_varint_suffix_le(s, k - 1);
    }
}

} // verus!
