//! Compressed read records: an optional second-bucket byte, a length-prefixed
//! extra payload, a varint holding the base count with caller flags in the top
//! bits of its first byte, and the bases packed four to a byte.
use crate::varint::decode_varint;
use crate::varint::encode_varint;
use crate::varint::lemma_varint_bytes_shape;
use crate::varint::lemma_varint_len_pow;
use crate::varint::pow128;
use crate::varint::varint_bytes;
use vstd::prelude::*;

verus! {

/// 2-bit code of a plain base (`A`=0, `C`=1, `T`=2, `G`=3).
pub open spec fn base_code(c: u8) -> u8 {
    ((c / 2) % 4) as u8
}

/// Code at index `x` of a sequence of codes, zero past its end.
pub open spec fn code_at(codes: Seq<u8>, x: int) -> int {
    if 0 <= x < codes.len() {
        (codes[x] % 4) as int
    } else {
        0
    }
}

/// Byte `i` of a packed read: codes `4i .. 4i+4`, the first in the low bits.
pub open spec fn pack_at(codes: Seq<u8>, i: int) -> u8 {
    (code_at(codes, 4 * i) + 4 * code_at(codes, 4 * i + 1) + 16 * code_at(codes, 4 * i + 2) + 64
        * code_at(codes, 4 * i + 3)) as u8
}

pub open spec fn packed_len(count: nat) -> nat {
    (count + 3) / 4
}

pub open spec fn packed_bytes(codes: Seq<u8>) -> Seq<u8> {
    Seq::new(packed_len(codes.len()), |i: int| pack_at(codes, i))
}

/// A read whose bases are packed four to a byte.
pub struct CompressedRead {
    pub bases_count: usize,
    pub data: Vec<u8>,
}

impl CompressedRead {
    pub open spec fn wf(&self) -> bool {
        self.data@.len() == packed_len(self.bases_count as nat)
    }

    /// Packs plain bases.
    pub fn from_plain(bases: &[u8]) -> (r: CompressedRead)
        requires
            bases@.len() <= usize::MAX - 3,
        ensures
            r.wf(),
            r.bases_count == bases@.len(),
            r.data@ == packed_bytes(bases@.map_values(|c: u8| base_code(c))),
    {
        let ghost codes = bases@.map_values(|c: u8| base_code(c));
        let n = bases.len();
        let mut data: Vec<u8> = Vec::new();
        let mut i: usize = 0;
        while i < n
            invariant
                n == bases@.len(),
                n <= usize::MAX - 3,
                i <= n + 3,
                i % 4 == 0,
                codes == bases@.map_values(|c: u8| base_code(c)),
                data@.len() == i / 4,
                forall|j: int| 0 <= j < data@.len() ==> data@[j] == pack_at(codes, j),
            decreases n + 3 - i,
        {
            let mut byte: u8 = 0;
            let mut j: usize = 0;
            let mut mult: u8 = 1;
            while j < 4
                invariant
                    j <= 4,
                    n == bases@.len(),
                    n <= usize::MAX - 3,
                    i < n,
                    codes == bases@.map_values(|c: u8| base_code(c)),
                    mult as int == (if j == 0 { 1int } else if j == 1 { 4int } else if j == 2 { 16int } else { 64int }),
                    j <= 3 || mult == 64,
                    byte as int == (if j > 0 { code_at(codes, i as int) } else { 0int }) + (if j > 1 { 4 * code_at(codes, i + 1) } else { 0int }) + (if j > 2 { 16 * code_at(codes, i + 2) } else { 0int }) + (if j > 3 { 64 * code_at(codes, i + 3) } else { 0int }),
                decreases 4 - j,
            {
                let code: u8 = if i + j < n {
                    (bases[i + j] / 2) % 4
                } else {
                    0
                };
                assert(code as int == code_at(codes, i + j));
                byte = byte + code * mult;
                if j < 3 {
                    mult = mult * 4;
                }
                j = j + 1;
            }
            data.push(byte);
            i = i + 4;
        }
        CompressedRead { bases_count: n, data }
    }
}

/// The bases of a record: plain, packed when written, or already packed.
pub enum ReadData {
    Plain(Vec<u8>),
    Packed(CompressedRead),
}

/// How records are laid out.
#[derive(Clone, Copy, Debug, PartialEq, Eq, Structural)]
pub struct CodecConfig {
    /// Number of high bits of the first size byte that carry caller flags (0 to 7).
    pub flags_count: u8,
    /// Whether a one-byte second bucket precedes each record.
    pub with_second_bucket: bool,
    /// Whether reading a record first empties the shared read buffer.
    pub reset_buffer: bool,
}

/// Number of values the size bits of the first byte can hold: `2^(7 - flags_count)`.
pub open spec fn low_span(flags_count: u8) -> nat {
    if flags_count == 0 {
        128
    } else if flags_count == 1 {
        64
    } else if flags_count == 2 {
        32
    } else if flags_count == 3 {
        16
    } else if flags_count == 4 {
        8
    } else if flags_count == 5 {
        4
    } else if flags_count == 6 {
        2
    } else {
        1
    }
}

fn low_span_of(flags_count: u8) -> (r: u64)
    requires
        flags_count <= 7,
    ensures
        r == low_span(flags_count),
{
    match flags_count {
        0 => 128,
        1 => 64,
        2 => 32,
        3 => 16,
        4 => 8,
        5 => 4,
        6 => 2,
        _ => 1,
    }
}

/// The size varint: the first byte holds the flags in its top `flags_count`
/// bits, then a continuation bit, then the low bits of the value; the rest of
/// the value follows as a varint when the continuation bit is set.
pub open spec fn flags_varint_bytes(value: nat, flags: u8, flags_count: u8) -> Seq<u8> {
    let ls = low_span(flags_count);
    let cont: nat = if value >= ls {
        1
    } else {
        0
    };
    let first = (flags * (2 * ls) + cont * ls + value % ls) as u8;
    seq![first] + if value >= ls {
        varint_bytes(value / ls)
    } else {
        seq![]
    }
}

/// The flags fit in the top `flags_count` bits: `flags < 2^flags_count`.
pub open spec fn flags_fit(flags: u8, flags_count: u8) -> bool {
    flags_count <= 7 && flags * low_span(flags_count) < 128
}

proof fn lemma_first_byte_fits(flags: u8, flags_count: u8, cont: nat, low: nat)
    requires
        flags_fit(flags, flags_count),
        cont <= 1,
        low < low_span(flags_count),
    ensures
        flags * (2 * low_span(flags_count)) + cont * low_span(flags_count) + low < 256,
{
    let ls = low_span(flags_count);
    if flags_count == 0 {
        assert(ls == 128);
    } else if flags_count == 1 {
        assert(ls == 64);
    } else if flags_count == 2 {
        assert(ls == 32);
    } else if flags_count == 3 {
        assert(ls == 16);
    } else if flags_count == 4 {
        assert(ls == 8);
    } else if flags_count == 5 {
        assert(ls == 4);
    } else if flags_count == 6 {
        assert(ls == 2);
    } else {
        assert(ls == 1);
    }
    assert(flags * (2 * ls) + cont * ls + low < 256) by (nonlinear_arith)
        requires
            flags * ls < 128,
            cont <= 1,
            low < ls,
            ls == 1 || ls == 2 || ls == 4 || ls == 8 || ls == 16 || ls == 32 || ls == 64 || ls
                == 128,
    ;
}

pub fn encode_varint_flags(value: u64, flags: u8, flags_count: u8, out: &mut Vec<u8>)
    requires
        flags_fit(flags, flags_count),
    ensures
        final(out)@ == old(out)@ + flags_varint_bytes(value as nat, flags, flags_count),
{
    let ls = low_span_of(flags_count);
    let cont: u64 = if value >= ls {
        1
    } else {
        0
    };
    let low = value % ls;
    proof {
        lemma_first_byte_fits(flags, flags_count, cont as nat, low as nat);
    }
    let first = (flags as u64 * (2 * ls) + cont * ls + low) as u8;
    out.push(first);
    if value >= ls {
        encode_varint(value / ls, out);
    }
    proof {
        assert(out@ =~= old(out)@ + flags_varint_bytes(value as nat, flags, flags_count));
    }
}

/// Reads the size varint at `pos`: the value, the flags and the position after it.
pub fn decode_varint_flags(data: &Vec<u8>, pos: usize, flags_count: u8) -> (r: Option<(u64, u8, usize)>)
    requires
        flags_count <= 7,
    ensures
        forall|value: nat, flags: u8, rest: Seq<u8>|
            value <= u64::MAX && flags_fit(flags, flags_count) && pos <= data@.len()
                && data@.subrange(pos as int, data@.len() as int) == #[trigger] (flags_varint_bytes(
                value,
                flags,
                flags_count,
            ) + rest) ==> r == Some(
                (value as u64, flags, (pos + flags_varint_bytes(value, flags, flags_count).len()) as usize),
            ),
        r matches Some((_, _, end)) ==> end <= data@.len(),
{
    let n = data.len();
    if pos >= n {
        proof {
            assert forall|value: nat, flags: u8, rest: Seq<u8>|
                value <= u64::MAX && flags_fit(flags, flags_count) && pos <= data@.len()
                    && data@.subrange(pos as int, data@.len() as int) == #[trigger] (flags_varint_bytes(
                    value,
                    flags,
                    flags_count,
                ) + rest) implies false by {
                assert(data@.subrange(pos as int, data@.len() as int).len() == 0);
            }
        }
        return None;
    }
    let ls = low_span_of(flags_count);
    let b = data[pos] as u64;
    let flags = (b / (2 * ls)) as u8;
    let cont = (b / ls) % 2;
    let low = b % ls;
    proof {
        assert forall|value: nat, fl: u8, rest: Seq<u8>|
            value <= u64::MAX && flags_fit(fl, flags_count) && pos <= data@.len()
                && data@.subrange(pos as int, data@.len() as int) == #[trigger] (flags_varint_bytes(
                value,
                fl,
                flags_count,
            ) + rest) implies fl == flags && low == value % (ls as nat) && (cont == 1 <==> value
            >= ls) by {
            let t = data@.subrange(pos as int, data@.len() as int);
            assert(t[0] == flags_varint_bytes(value, fl, flags_count)[0]);
            let c: nat = if value >= ls {
                1
            } else {
                0
            };
            let lo = value % (ls as nat);
            lemma_first_byte_fits(fl, flags_count, c, lo);
            lemma_first_byte(b as nat, fl as nat, c, lo, ls as nat);
        }
    }
    if cont == 0 {
        proof {
            assert forall|value: nat, fl: u8, rest: Seq<u8>|
                value <= u64::MAX && flags_fit(fl, flags_count) && pos <= data@.len()
                    && data@.subrange(pos as int, data@.len() as int) == #[trigger] (flags_varint_bytes(
                    value,
                    fl,
                    flags_count,
                ) + rest) implies Some((low, flags, (pos + 1) as usize)) == Some(
                (value as u64, fl, (pos + flags_varint_bytes(value, fl, flags_count).len()) as usize),
            ) by {
                vstd::arithmetic::div_mod::lemma_small_mod(value, ls as nat);
            }
        }
        return Some((low, flags, pos + 1));
    }
    let high = decode_varint(data, pos + 1);
    match high {
        None => {
            proof {
                assert forall|value: nat, fl: u8, rest: Seq<u8>|
                    value <= u64::MAX && flags_fit(fl, flags_count) && pos <= data@.len()
                        && data@.subrange(pos as int, data@.len() as int) == #[trigger] (flags_varint_bytes(
                        value,
                        fl,
                        flags_count,
                    ) + rest) implies false by {
                    let hv = value / (ls as nat);
                    let t = data@.subrange(pos as int, data@.len() as int);
                    assert(value >= ls);
                    assert(data@.subrange(pos + 1, data@.len() as int) =~= t.drop_first());
                    assert(t.drop_first() =~= varint_bytes(hv) + rest);
                }
            }
            None
        },
        Some((hi, end)) => {
            if hi > (u64::MAX - low) / ls {
                proof {
                    assert forall|value: nat, fl: u8, rest: Seq<u8>|
                        value <= u64::MAX && flags_fit(fl, flags_count) && pos <= data@.len()
                            && data@.subrange(pos as int, data@.len() as int)
                            == #[trigger] (flags_varint_bytes(value, fl, flags_count) + rest) implies false by {
                        let hv = value / (ls as nat);
                        let t = data@.subrange(pos as int, data@.len() as int);
                        assert(value >= ls);
                        assert(data@.subrange(pos + 1, data@.len() as int) =~= t.drop_first());
                        assert(t.drop_first() =~= varint_bytes(hv) + rest);
                        assert(hi == hv);
                        lemma_split_value(value, ls as nat);
                        assert(hi * ls + low <= u64::MAX);
                        assert(hi <= (u64::MAX - low) as int / (ls as int)) by (nonlinear_arith)
                            requires
                                hi * ls + low <= u64::MAX,
                                ls >= 1,
                        ;
                    }
                }
                return None;
            }
            assert(hi * ls + low <= u64::MAX) by (nonlinear_arith)
                requires
                    hi <= (u64::MAX - low) / (ls as int),
                    ls >= 1,
                    low <= u64::MAX,
            ;
            let value = low + hi * ls;
            proof {
                assert forall|v: nat, fl: u8, rest: Seq<u8>|
                    v <= u64::MAX && flags_fit(fl, flags_count) && pos <= data@.len()
                        && data@.subrange(pos as int, data@.len() as int) == #[trigger] (flags_varint_bytes(
                        v,
                        fl,
                        flags_count,
                    ) + rest) implies Some((value, flags, end)) == Some(
                    (v as u64, fl, (pos + flags_varint_bytes(v, fl, flags_count).len()) as usize),
                ) by {
                    let hv = v / (ls as nat);
                    let t = data@.subrange(pos as int, data@.len() as int);
                    assert(v >= ls);
                    assert(data@.subrange(pos + 1, data@.len() as int) =~= t.drop_first());
                    assert(t.drop_first() =~= varint_bytes(hv) + rest);
                    lemma_split_value(v, ls as nat);
                }
            }
            Some((value, flags, end))
        },
    }
}

proof fn lemma_split_value(v: nat, ls: nat)
    requires
        ls >= 1,
    ensures
        v == v % ls + (v / ls) * ls,
{
    vstd::arithmetic::div_mod::lemma_fundamental_div_mod(v as int, ls as int);
    assert(ls * (v / ls) == (v / ls) * ls) by (nonlinear_arith);
}

/// Decoding the first size byte: `b = flags * 2ls + cont * ls + low`.
proof fn lemma_first_byte(b: nat, flags: nat, cont: nat, low: nat, ls: nat)
    requires
        ls >= 1,
        cont <= 1,
        low < ls,
        b == flags * (2 * ls) + cont * ls + low,
    ensures
        b / (2 * ls) == flags,
        (b / ls) % 2 == cont,
        b % ls == low,
{
    assert(cont * ls <= ls) by (nonlinear_arith)
        requires
            cont <= 1,
    ;
    vstd::arithmetic::div_mod::lemma_fundamental_div_mod_converse(
        b as int,
        (2 * ls) as int,
        flags as int,
        (cont * ls + low) as int,
    );
    assert(b == (2 * flags + cont) * ls + low) by (nonlinear_arith)
        requires
            b == flags * (2 * ls) + cont * ls + low,
    ;
    vstd::arithmetic::div_mod::lemma_fundamental_div_mod_converse(
        b as int,
        ls as int,
        (2 * flags + cont) as int,
        low as int,
    );
    vstd::arithmetic::div_mod::lemma_fundamental_div_mod_converse(
        (2 * flags + cont) as int,
        2,
        flags as int,
        cont as int,
    );
}

/// A whole record as written.
pub open spec fn record_spec(
    config: CodecConfig,
    second_bucket: u8,
    extra: Seq<u8>,
    flags: u8,
    count: nat,
    packed: Seq<u8>,
) -> Seq<u8> {
    (if config.with_second_bucket {
        seq![second_bucket]
    } else {
        seq![]
    }) + varint_bytes(extra.len()) + extra + flags_varint_bytes(count, flags, config.flags_count)
        + packed
}

/// The size estimate of a record: packed bases, the extra payload with its
/// length prefix, ten bytes for the size varint, and the second-bucket byte.
pub open spec fn size_spec(config: CodecConfig, count: nat, extra_len: nat) -> nat {
    packed_len(count) + (extra_len + 10) + 10 + if config.with_second_bucket {
        1nat
    } else {
        0nat
    }
}

fn append_bytes(src: &Vec<u8>, out: &mut Vec<u8>)
    ensures
        final(out)@ == old(out)@ + src@,
{
    let mut i: usize = 0;
    while i < src.len()
        invariant
            i <= src@.len(),
            out@ == old(out)@ + src@.subrange(0, i as int),
        decreases src@.len() - i,
    {
        out.push(src[i]);
        proof {
            assert(out@ =~= old(out)@ + src@.subrange(0, i + 1));
        }
        i = i + 1;
    }
    proof {
        assert(src@.subrange(0, i as int) =~= src@);
    }
}

/// A record's fields, as handed to the writer.
pub struct CompressedReadsBucketHelper {
    read: ReadData,
    extra_bucket: u8,
    flags: u8,
}

impl CompressedReadsBucketHelper {
    pub closed spec fn bases_count(&self) -> nat {
        match self.read {
            ReadData::Plain(v) => v@.len(),
            ReadData::Packed(c) => c.bases_count as nat,
        }
    }

    /// The bases as they go on the wire.
    pub closed spec fn packed(&self) -> Seq<u8> {
        match self.read {
            ReadData::Plain(v) => packed_bytes(v@.map_values(|c: u8| base_code(c))),
            ReadData::Packed(c) => c.data@,
        }
    }

    pub closed spec fn flags(&self) -> u8 {
        self.flags
    }

    pub closed spec fn extra_bucket(&self) -> u8 {
        self.extra_bucket
    }

    pub closed spec fn wf(&self) -> bool {
        match self.read {
            ReadData::Plain(v) => v@.len() <= usize::MAX - 3,
            ReadData::Packed(c) => c.wf(),
        }
    }

    /// A record of plain bases (`A`, `C`, `G`, `T`).
    pub fn new(read: Vec<u8>, flags: u8, extra_bucket: u8) -> (r: Self)
        requires
            read@.len() <= usize::MAX - 3,
        ensures
            r.wf(),
            r.bases_count() == read@.len(),
            r.packed() == packed_bytes(read@.map_values(|c: u8| base_code(c))),
            r.flags() == flags,
            r.extra_bucket() == extra_bucket,
    {
        CompressedReadsBucketHelper { read: ReadData::Plain(read), extra_bucket, flags }
    }

    /// A record of already packed bases.
    pub fn new_packed(read: CompressedRead, flags: u8, extra_bucket: u8) -> (r: Self)
        requires
            read.wf(),
        ensures
            r.wf(),
            r.bases_count() == read.bases_count,
            r.packed() == read.data@,
            r.flags() == flags,
            r.extra_bucket() == extra_bucket,
    {
        CompressedReadsBucketHelper { read: ReadData::Packed(read), extra_bucket, flags }
    }

    /// Appends the record to `bucket`.
    pub fn write_to(&self, config: CodecConfig, bucket: &mut Vec<u8>, extra: &Vec<u8>)
        requires
            self.wf(),
            flags_fit(self.flags(), config.flags_count),
        ensures
            final(bucket)@ == old(bucket)@ + record_spec(
                config,
                self.extra_bucket(),
                extra@,
                self.flags(),
                self.bases_count(),
                self.packed(),
            ),
    {
        if config.with_second_bucket {
            bucket.push(self.extra_bucket);
        }
        encode_varint(extra.len() as u64, bucket);
        append_bytes(extra, bucket);
        match &self.read {
            ReadData::Plain(read) => {
                let packed = CompressedRead::from_plain(read.as_slice());
                encode_varint_flags(packed.bases_count as u64, self.flags, config.flags_count, bucket);
                append_bytes(&packed.data, bucket);
            },
            ReadData::Packed(read) => {
                encode_varint_flags(read.bases_count as u64, self.flags, config.flags_count, bucket);
                append_bytes(&read.data, bucket);
            },
        }
        proof {
            assert(bucket@ =~= old(bucket)@ + record_spec(
                config,
                self.extra_bucket(),
                extra@,
                self.flags(),
                self.bases_count(),
                self.packed(),
            ));
        }
    }

    /// An upper bound on the bytes that `write_to` appends.
    pub fn get_size(&self, config: CodecConfig, extra: &Vec<u8>) -> (r: usize)
        requires
            size_spec(config, self.bases_count(), extra@.len()) <= usize::MAX,
        ensures
            r == size_spec(config, self.bases_count(), extra@.len()),
    {
        let bases_count = match &self.read {
            ReadData::Plain(read) => read.len(),
            ReadData::Packed(read) => read.bases_count,
        };
        let packed = bases_count / 4 + if bases_count % 4 != 0 {
            1
        } else {
            0
        };
        packed + (extra.len() + 10) + 10 + if config.with_second_bucket {
            1
        } else {
            0
        }
    }
}

/// Size bound: for a read of at most 2^32 bases, the bytes `write_to` appends
/// never exceed what `get_size` returns.
pub proof fn lemma_size_bound(
    config: CodecConfig,
    second_bucket: u8,
    extra: Seq<u8>,
    flags: u8,
    count: nat,
    packed: Seq<u8>,
)
    requires
        count <= 0x1_0000_0000,
        extra.len() <= u64::MAX,
        packed.len() == packed_len(count),
        config.flags_count <= 7,
    ensures
        record_spec(config, second_bucket, extra, flags, count, packed).len() <= size_spec(
            config,
            count,
            extra.len(),
        ),
{
    lemma_varint_bytes_shape(extra.len());
    let ls = low_span(config.flags_count);
    if count >= ls {
        reveal_with_fuel(pow128, 6);
        assert(count / ls <= count);
        lemma_varint_len_pow(count / ls, 5);
    }
}

/// Reads the length-prefixed extra payload at `pos`.
fn decode_extra(data: &Vec<u8>, pos: usize) -> (r: Option<(Vec<u8>, usize)>)
    ensures
        forall|e: Seq<u8>, rest: Seq<u8>|
            e.len() <= u64::MAX && pos <= data@.len() && data@.subrange(pos as int, data@.len() as int) == #[trigger] (varint_bytes(e.len())
                + (e + rest)) ==> (r matches Some((v, end)) && v@ == e && end == pos + varint_bytes(
                e.len(),
            ).len() + e.len()),
        r matches Some((_, end)) ==> end <= data@.len(),
{
    match decode_varint(data, pos) {
        None => None,
        Some((len, start)) => {
            let n = data.len();
            if len > (n - start) as u64 {
                proof {
                    assert forall|e: Seq<u8>, rest: Seq<u8>|
                        e.len() <= u64::MAX && pos <= data@.len() && data@.subrange(pos as int, data@.len() as int)
                            == #[trigger] (varint_bytes(e.len()) + (e + rest)) implies false by {
                        assert(len == e.len());
                        assert(data@.subrange(pos as int, data@.len() as int).len() == varint_bytes(e.len()).len() + e.len() + rest.len());
                    }
                }
                return None;
            }
            let end = start + len as usize;
            let mut v: Vec<u8> = Vec::new();
            let mut i: usize = start;
            while i < end
                invariant
                    start <= i <= end <= n,
                    n == data@.len(),
                    v@ == data@.subrange(start as int, i as int),
                decreases end - i,
            {
                v.push(data[i]);
                proof {
                    assert(v@ =~= data@.subrange(start as int, i + 1));
                }
                i = i + 1;
            }
            proof {
                assert forall|e: Seq<u8>, rest: Seq<u8>|
                    e.len() <= u64::MAX && pos <= data@.len() && data@.subrange(pos as int, data@.len() as int)
                        == #[trigger] (varint_bytes(e.len()) + (e + rest)) implies v@ == e && end == pos
                    + varint_bytes(e.len()).len() + e.len() by {
                    let t = data@.subrange(pos as int, data@.len() as int);
                    let l = varint_bytes(e.len()).len() as int;
                    assert(len == e.len());
                    assert(t.len() == l + e.len() + rest.len());
                    assert(pos + l <= data@.len());
                    assert(start == pos + l);
                    assert forall|k: int| 0 <= k < e.len() implies v@[k] == e[k] by {
                        assert(v@[k] == data@[start + k]);
                        assert(t[l + k] == data@[pos + l + k]);
                        assert(t[l + k] == (varint_bytes(e.len()) + (e + rest))[l + k]);
                        assert((e + rest)[k] == e[k]);
                    }
                    assert(v@ =~= e);
                }
            }
            Some((v, end))
        },
    }
}

pub proof fn lemma_suffix(data: Seq<u8>, pos: int, a: Seq<u8>, b: Seq<u8>)
    requires
        0 <= pos <= data.len(),
        data.subrange(pos, data.len() as int) == a + b,
    ensures
        pos + a.len() <= data.len(),
        data.subrange(pos + a.len(), data.len() as int) == b,
        data.subrange(pos, pos + a.len()) == a,
{
    let t = data.subrange(pos, data.len() as int);
    assert(t.len() == a.len() + b.len());
    assert forall|k: int| 0 <= k < b.len() implies data.subrange(
        pos + a.len(),
        data.len() as int,
    )[k] == b[k] by {
        assert(t[a.len() + k] == (a + b)[a.len() + k]);
    }
    assert(data.subrange(pos + a.len(), data.len() as int) =~= b);
    assert forall|k: int| 0 <= k < a.len() implies data.subrange(pos, pos + a.len())[k] == a[k] by {
        assert(t[k] == (a + b)[k]);
    }
    assert(data.subrange(pos, pos + a.len()) =~= a);
}

/// Reads one record at `pos`. Returns the flags, the second bucket (0 when the
/// layout has none), the extra payload, the packed read and the position after
/// the record; the packed bases are also appended to `read_buffer`, which is
/// emptied first when the layout asks for it. A size of zero ends the stream
/// and yields `None`, as do truncated or malformed bytes.
pub fn read_from(
    config: CodecConfig,
    data: &Vec<u8>,
    pos: usize,
    read_buffer: &mut Vec<u8>,
) -> (r: Option<(u8, u8, Vec<u8>, CompressedRead, usize)>)
    requires
        config.flags_count <= 7,
    ensures
        forall|sb: u8, extra: Seq<u8>, flags: u8, count: nat, packed: Seq<u8>, rest: Seq<u8>|
            pos <= data@.len() && flags_fit(flags, config.flags_count) && count <= usize::MAX
                && count <= u64::MAX && extra.len() <= u64::MAX && packed.len() == packed_len(count)
                && data@.subrange(pos as int, data@.len() as int) == #[trigger] (record_spec(
                config,
                sb,
                extra,
                flags,
                count,
                packed,
            ) + rest) ==> if count == 0 {
                r is None
            } else {
                (r matches Some((f, b, e, cr, end)) && f == flags && b == (if config.with_second_bucket {
                    sb
                } else {
                    0u8
                }) && e@ == extra && cr.bases_count == count && cr.data@ == packed && cr.wf() && end
                    == pos + record_spec(config, sb, extra, flags, count, packed).len() && final(read_buffer)@ == (if config.reset_buffer {
                    Seq::<u8>::empty()
                } else {
                    old(read_buffer)@
                }) + packed)
            },
{
    let n = data.len();
    let mut p: usize = pos;
    let mut second_bucket: u8 = 0;
    if config.with_second_bucket {
        if p >= n {
            proof {
                assert forall|sb: u8, extra: Seq<u8>, flags: u8, count: nat, packed: Seq<u8>, rest: Seq<u8>|
                    pos <= data@.len() && data@.subrange(pos as int, data@.len() as int) == #[trigger] (record_spec(config, sb, extra, flags, count, packed) + rest)
                    implies false by {
                    assert(data@.subrange(pos as int, data@.len() as int).len() >= 1);
                }
            }
            return None;
        }
        second_bucket = data[p];
        p = p + 1;
    }
    let (extra, after_extra) = match decode_extra(data, p) {
        Some(x) => x,
        None => {
            proof {
                assert forall|sb: u8, extra: Seq<u8>, flags: u8, count: nat, packed: Seq<u8>, rest: Seq<u8>|
                    pos <= data@.len() && extra.len() <= u64::MAX && data@.subrange(pos as int, data@.len() as int) == #[trigger] (record_spec(config, sb, extra, flags, count, packed) + rest)
                    implies false by {
                    lemma_record_split(data@, pos as int, config, sb, extra, flags, count, packed, rest);
                }
            }
            return None;
        },
    };
    let (size, flags, after_size) = match decode_varint_flags(data, after_extra, config.flags_count) {
        Some(x) => x,
        None => {
            proof {
                assert forall|sb: u8, extra: Seq<u8>, flags: u8, count: nat, packed: Seq<u8>, rest: Seq<u8>|
                    pos <= data@.len() && flags_fit(flags, config.flags_count) && count <= u64::MAX && extra.len() <= u64::MAX && data@.subrange(pos as int, data@.len() as int) == #[trigger] (record_spec(config, sb, extra, flags, count, packed) + rest)
                    implies false by {
                    lemma_record_split(data@, pos as int, config, sb, extra, flags, count, packed, rest);
                }
            }
            return None;
        },
    };
    if size == 0 {
        proof {
            assert forall|sb: u8, extra: Seq<u8>, fl: u8, count: nat, packed: Seq<u8>, rest: Seq<u8>|
                pos <= data@.len() && flags_fit(fl, config.flags_count) && count <= u64::MAX && extra.len() <= u64::MAX && data@.subrange(pos as int, data@.len() as int) == #[trigger] (record_spec(config, sb, extra, fl, count, packed) + rest)
                implies count == 0 by {
                lemma_record_split(data@, pos as int, config, sb, extra, fl, count, packed, rest);
            }
        }
        return None;
    }
    let bytes: u64 = size / 4 + if size % 4 != 0 {
        1
    } else {
        0
    };
    if size > usize::MAX as u64 || bytes > (n - after_size) as u64 {
        proof {
            assert forall|sb: u8, extra: Seq<u8>, fl: u8, count: nat, packed: Seq<u8>, rest: Seq<u8>|
                pos <= data@.len() && flags_fit(fl, config.flags_count) && count <= usize::MAX && count <= u64::MAX && extra.len() <= u64::MAX && packed.len() == packed_len(count) && data@.subrange(pos as int, data@.len() as int) == #[trigger] (record_spec(config, sb, extra, fl, count, packed) + rest)
                implies false by {
                lemma_record_split(data@, pos as int, config, sb, extra, fl, count, packed, rest);
            }
        }
        return None;
    }
    let bytes = bytes as usize;
    if config.reset_buffer {
        read_buffer.clear();
    }
    let ghost buffer_start = read_buffer@;
    let mut packed: Vec<u8> = Vec::new();
    let mut i: usize = after_size;
    let end = after_size + bytes;
    while i < end
        invariant
            after_size <= i <= end <= n,
            n == data@.len(),
            packed@ == data@.subrange(after_size as int, i as int),
            read_buffer@ == buffer_start + data@.subrange(after_size as int, i as int),
        decreases end - i,
    {
        packed.push(data[i]);
        read_buffer.push(data[i]);
        proof {
            assert(packed@ =~= data@.subrange(after_size as int, i + 1));
            assert(read_buffer@ =~= buffer_start + data@.subrange(after_size as int, i + 1));
        }
        i = i + 1;
    }
    let read = CompressedRead { bases_count: size as usize, data: packed };
    proof {
        assert forall|sb: u8, extra_s: Seq<u8>, fl: u8, count: nat, packed_s: Seq<u8>, rest: Seq<u8>|
            pos <= data@.len() && flags_fit(fl, config.flags_count) && count <= usize::MAX && count <= u64::MAX && extra_s.len() <= u64::MAX && packed_s.len() == packed_len(count) && data@.subrange(pos as int, data@.len() as int) == #[trigger] (record_spec(config, sb, extra_s, fl, count, packed_s) + rest)
            implies flags == fl && second_bucket == (if config.with_second_bucket { sb } else { 0u8 }) && extra@ == extra_s && read.bases_count == count && read.data@ == packed_s && read.wf() && end == pos + record_spec(config, sb, extra_s, fl, count, packed_s).len() && read_buffer@ == (if config.reset_buffer { Seq::<u8>::empty() } else { old(read_buffer)@ }) + packed_s by {
            lemma_record_split(data@, pos as int, config, sb, extra_s, fl, count, packed_s, rest);
            assert(bytes == packed_len(count));
        }
    }
    Some((flags, second_bucket, extra, read, end))
}

/// Cuts the bytes of a record into its fields.
proof fn lemma_record_split(
    data: Seq<u8>,
    pos: int,
    config: CodecConfig,
    sb: u8,
    extra: Seq<u8>,
    flags: u8,
    count: nat,
    packed: Seq<u8>,
    rest: Seq<u8>,
)
    requires
        0 <= pos <= data.len(),
        data.subrange(pos, data.len() as int) == record_spec(config, sb, extra, flags, count, packed)
            + rest,
    ensures
        ({
            let h: int = if config.with_second_bucket {
                1
            } else {
                0
            };
            let vb = varint_bytes(extra.len());
            let fb = flags_varint_bytes(count, flags, config.flags_count);
            let after_extra = pos + h + vb.len() + extra.len();
            let after_size = after_extra + fb.len();
            &&& config.with_second_bucket ==> pos < data.len() && data[pos] == sb
            &&& data.subrange(pos + h, data.len() as int) == vb + (extra + (fb + (packed + rest)))
            &&& data.subrange(after_extra, data.len() as int) == fb + (packed + rest)
            &&& after_size + packed.len() <= data.len()
            &&& data.subrange(after_size, after_size + packed.len()) == packed
            &&& record_spec(config, sb, extra, flags, count, packed).len() == h + vb.len()
                + extra.len() + fb.len() + packed.len()
        }),
{
    let hs: Seq<u8> = if config.with_second_bucket {
        seq![sb]
    } else {
        seq![]
    };
    let vb = varint_bytes(extra.len());
    let fb = flags_varint_bytes(count, flags, config.flags_count);
    assert(record_spec(config, sb, extra, flags, count, packed) + rest =~= hs + (vb + (extra + (fb
        + (packed + rest)))));
    lemma_suffix(data, pos, hs, vb + (extra + (fb + (packed + rest))));
    if config.with_second_bucket {
        let t = data.subrange(pos, data.len() as int);
        assert(t[0] == (hs + (vb + (extra + (fb + (packed + rest)))))[0]);
    }
    let q1 = pos + hs.len();
    lemma_suffix(data, q1, vb, extra + (fb + (packed + rest)));
    lemma_suffix(data, q1 + vb.len(), extra, fb + (packed + rest));
    let q2 = q1 + vb.len() + extra.len();
    lemma_suffix(data, q2, fb, packed + rest);
    lemma_suffix(data, q2 + fb.len(), packed, rest);
}

} // verus!
