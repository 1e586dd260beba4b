use vstd::prelude::*;

use crate::chunk::{chunk_wf, code_ok, code_ok_from, copy_bytes, Chunk, ChunkModel, Value, ValueModel};

verus! {

/// First byte of every serialized chunk.
pub const FORMAT_TAG: u8 = 0xB5;

/// Constant-pool entry tag for a 32-bit integer payload.
pub const TAG_INT: u8 = 0;

/// Constant-pool entry tag for a length-prefixed string payload.
pub const TAG_STR: u8 = 1;

/// 256 to the power `k`.
pub open spec fn pow256(k: nat) -> int
    decreases k,
{
    if k == 0 {
        1
    } else {
        256 * pow256((k - 1) as nat)
    }
}

proof fn lemma_pow256_pos(k: nat)
    ensures
        pow256(k) >= 1,
    decreases k,
{
    if k > 0 {
        lemma_pow256_pos((k - 1) as nat);
    }
}

/// The `k` little-endian bytes of `n`.
pub open spec fn le_bytes(n: int, k: nat) -> Seq<u8>
    decreases k,
{
    if k == 0 {
        Seq::empty()
    } else {
        seq![(n % 256) as u8] + le_bytes(n / 256, (k - 1) as nat)
    }
}

/// The number denoted by a little-endian byte sequence.
pub open spec fn le_val(s: Seq<u8>) -> int
    decreases s.len(),
{
    if s.len() == 0 {
        0
    } else {
        s[0] + 256 * le_val(s.subrange(1, s.len() as int))
    }
}

proof fn lemma_le_bytes_len(n: int, k: nat)
    ensures
        le_bytes(n, k).len() == k,
    decreases k,
{
    if k > 0 {
        lemma_le_bytes_len(n / 256, (k - 1) as nat);
    }
}

proof fn lemma_le_val_bound(s: Seq<u8>)
    ensures
        0 <= le_val(s) < pow256(s.len()),
    decreases s.len(),
{
    if s.len() == 0 {
    } else {
        let rest = s.subrange(1, s.len() as int);
        lemma_le_val_bound(rest);
        assert(le_val(s) == s[0] + 256 * le_val(rest));
        assert(s[0] < 256);
        assert(256 * le_val(rest) <= 256 * (pow256(rest.len()) - 1)) by (nonlinear_arith)
            requires
                le_val(rest) <= pow256(rest.len()) - 1,
        ;
        assert(pow256(s.len()) == 256 * pow256(rest.len()));
    }
}

proof fn lemma_le_roundtrip(n: int, k: nat)
    requires
        0 <= n < pow256(k),
    ensures
        le_val(le_bytes(n, k)) == n,
    decreases k,
{
    if k == 0 {
    } else {
        let s = le_bytes(n, k);
        let rest = le_bytes(n / 256, (k - 1) as nat);
        lemma_le_bytes_len(n, k);
        lemma_le_bytes_len(n / 256, (k - 1) as nat);
        assert(s =~= seq![(n % 256) as u8] + rest);
        assert(s.subrange(1, s.len() as int) =~= rest);
        assert(n / 256 < pow256((k - 1) as nat)) by (nonlinear_arith)
            requires
                n < pow256(k),
                pow256(k) == 256 * pow256((k - 1) as nat),
                n >= 0,
        ;
        lemma_le_roundtrip(n / 256, (k - 1) as nat);
        assert(le_val(s) == (n % 256) + 256 * (n / 256));
    }
}

/// Appends the `k` little-endian bytes of `n` to `out`.
#[verifier::loop_isolation(false)]
fn push_le(out: &mut Vec<u8>, n: u64, k: usize)
    requires
        k <= 8,
        (n as int) < pow256(k as nat),
    ensures
        final(out)@ == old(out)@ + le_bytes(n as int, k as nat),
{
    let mut m: u64 = n;
    let mut j: usize = 0;
    while j < k
        invariant
            j <= k,
            k <= 8,
            (m as int) < pow256((k - j) as nat),
            out@.len() == old(out)@.len() + j,
            out@ + le_bytes(m as int, (k - j) as nat) =~= old(out)@ + le_bytes(n as int, k as nat),
        decreases k - j,
    {
        let ghost m0 = m as int;
        let b: u8 = (m % 256) as u8;
        out.push(b);
        m = m / 256;
        proof {
            assert((m as int) < pow256((k - j - 1) as nat)) by (nonlinear_arith)
                requires
                    m0 < pow256((k - j) as nat),
                    pow256((k - j) as nat) == 256 * pow256((k - j - 1) as nat),
                    m0 >= 0,
                    m as int == m0 / 256,
            ;
            lemma_le_bytes_len(m0, (k - j) as nat);
            lemma_le_bytes_len(m as int, (k - j - 1) as nat);
            assert(le_bytes(m0, (k - j) as nat) =~= seq![b] + le_bytes(m as int, (k - j - 1) as nat));
            assert(out@ + le_bytes(m as int, (k - j - 1) as nat) =~= old(out)@ + le_bytes(
                n as int,
                k as nat,
            ));
        }
        j = j + 1;
    }
    proof {
        lemma_le_bytes_len(m as int, 0);
        assert(out@ + le_bytes(m as int, 0) =~= out@);
    }
}

/// Reads the `k`-byte little-endian number at `pos`.
#[verifier::loop_isolation(false)]
fn read_le(bytes: &Vec<u8>, pos: usize, k: usize) -> (r: u64)
    requires
        k <= 8,
        pos + k <= bytes@.len(),
    ensures
        r as int == le_val(bytes@.subrange(pos as int, pos as int + k as int)),
{
    let nb = bytes.len();
    let ghost s = bytes@.subrange(pos as int, pos as int + k as int);
    let mut acc: u64 = 0;
    let mut i: usize = k;
    while i > 0
        invariant
            i <= k,
            k <= 8,
            pos + k <= bytes@.len(),
            s == bytes@.subrange(pos as int, pos as int + k as int),
            acc as int == le_val(s.subrange(i as int, k as int)),
            (acc as int) < pow256((k - i) as nat),
        decreases i,
    {
        proof {
            reveal_with_fuel(pow256, 9);
            assert(pow256((k - i) as nat) <= pow256(7)) by {
                lemma_pow256_mono((k - i) as nat, 7);
            }
        }
        i = i - 1;
        let b = bytes[pos + i];
        let acc2: u64 = acc * 256 + (b as u64);
        proof {
            let tail = s.subrange(i + 1, k as int);
            let cur = s.subrange(i as int, k as int);
            assert(cur.subrange(1, cur.len() as int) =~= tail);
            assert(cur[0] == b);
            assert(le_val(cur) == b + 256 * le_val(tail));
            lemma_le_val_bound(cur);
            assert(cur.len() == k - i);
        }
        acc = acc2;
    }
    proof {
        assert(s.subrange(0, k as int) =~= s);
    }
    acc
}

proof fn lemma_pow256_mono(a: nat, b: nat)
    requires
        a <= b,
    ensures
        pow256(a) <= pow256(b),
    decreases b,
{
    if a < b {
        lemma_pow256_mono(a, (b - 1) as nat);
        lemma_pow256_pos((b - 1) as nat);
    }
}

/// The byte encoding of one constant-pool value: a tag byte, then either a
/// 4-byte integer or an 8-byte length followed by the string bytes.
pub open spec fn enc_value(v: ValueModel) -> Seq<u8> {
    match v {
        ValueModel::Int(n) => seq![TAG_INT] + le_bytes(n as int, 4),
        ValueModel::Str(s) => seq![TAG_STR] + le_bytes(s.len() as int, 8) + s,
    }
}

/// The concatenated encodings of a constant pool, in order.
pub open spec fn enc_values(vs: Seq<ValueModel>) -> Seq<u8>
    decreases vs.len(),
{
    if vs.len() == 0 {
        Seq::empty()
    } else {
        enc_value(vs[0]) + enc_values(vs.subrange(1, vs.len() as int))
    }
}

/// The line table as consecutive 4-byte little-endian entries.
pub open spec fn enc_lines(ls: Seq<u32>) -> Seq<u8>
    decreases ls.len(),
{
    if ls.len() == 0 {
        Seq::empty()
    } else {
        le_bytes(ls[0] as int, 4) + enc_lines(ls.subrange(1, ls.len() as int))
    }
}

/// The serialized form of a chunk: format tag, code length and code bytes,
/// constant count and constants, then the per-byte line table.
pub open spec fn spec_encode(c: ChunkModel) -> Seq<u8> {
    seq![FORMAT_TAG] + le_bytes(c.code.len() as int, 8) + c.code + le_bytes(
        c.constants.len() as int,
        8,
    ) + enc_values(c.constants) + enc_lines(c.lines)
}

/// A string constant short enough for its 8-byte length prefix.
pub open spec fn value_encodable(v: ValueModel) -> bool {
    match v {
        ValueModel::Int(_) => true,
        ValueModel::Str(s) => s.len() < pow256(8),
    }
}

/// Size bounds under which a chunk can be serialized: they hold of every
/// chunk held in memory, whose sequences fit in an address space.
pub open spec fn chunk_encodable(c: ChunkModel) -> bool {
    &&& c.code.len() < pow256(8)
    &&& forall|i: int| 0 <= i < c.constants.len() ==> value_encodable(#[trigger] c.constants[i])
}

proof fn lemma_enc_values_push(vs: Seq<ValueModel>, v: ValueModel)
    ensures
        enc_values(vs.push(v)) == enc_values(vs) + enc_value(v),
    decreases vs.len(),
{
    let p = vs.push(v);
    if vs.len() == 0 {
        assert(p.subrange(1, p.len() as int) =~= Seq::<ValueModel>::empty());
        assert(enc_values(p) == enc_value(p[0]) + enc_values(p.subrange(1, p.len() as int)));
        assert(enc_value(v) + Seq::<u8>::empty() =~= enc_value(v));
        assert(Seq::<u8>::empty() + enc_value(v) =~= enc_value(v));
    } else {
        let rest = vs.subrange(1, vs.len() as int);
        lemma_enc_values_push(rest, v);
        assert(p.subrange(1, p.len() as int) =~= rest.push(v));
        assert(enc_values(p) == enc_value(vs[0]) + enc_values(rest.push(v)));
        assert(enc_value(vs[0]) + (enc_values(rest) + enc_value(v)) =~= (enc_value(vs[0])
            + enc_values(rest)) + enc_value(v));
    }
}

proof fn lemma_enc_lines_push(ls: Seq<u32>, l: u32)
    ensures
        enc_lines(ls.push(l)) == enc_lines(ls) + le_bytes(l as int, 4),
    decreases ls.len(),
{
    let p = ls.push(l);
    if ls.len() == 0 {
        assert(p.subrange(1, p.len() as int) =~= Seq::<u32>::empty());
        assert(enc_lines(p) == le_bytes(p[0] as int, 4) + enc_lines(p.subrange(1, p.len() as int)));
        assert(le_bytes(l as int, 4) + Seq::<u8>::empty() =~= le_bytes(l as int, 4));
    } else {
        let rest = ls.subrange(1, ls.len() as int);
        lemma_enc_lines_push(rest, l);
        assert(p.subrange(1, p.len() as int) =~= rest.push(l));
        assert(enc_lines(p) == le_bytes(ls[0] as int, 4) + enc_lines(rest.push(l)));
        assert(le_bytes(ls[0] as int, 4) + (enc_lines(rest) + le_bytes(l as int, 4)) =~= (le_bytes(
            ls[0] as int,
            4,
        ) + enc_lines(rest)) + le_bytes(l as int, 4));
    }
}

proof fn lemma_enc_lines_len(ls: Seq<u32>)
    ensures
        enc_lines(ls).len() == 4 * ls.len(),
    decreases ls.len(),
{
    if ls.len() > 0 {
        lemma_enc_lines_len(ls.subrange(1, ls.len() as int));
        lemma_le_bytes_len(ls[0] as int, 4);
    }
}

/// Decoding of one constant at `pos`: the value and the position after it.
pub open spec fn dec_value(bytes: Seq<u8>, pos: int) -> Option<(ValueModel, int)> {
    if !(0 <= pos && pos + 1 <= bytes.len()) {
        Option::None
    } else if bytes[pos] == TAG_INT {
        if pos + 5 <= bytes.len() {
            Option::Some(
                (ValueModel::Int(le_val(bytes.subrange(pos + 1, pos + 5)) as u32), pos + 5),
            )
        } else {
            Option::None
        }
    } else if bytes[pos] == TAG_STR {
        if pos + 9 <= bytes.len() {
            let l = le_val(bytes.subrange(pos + 1, pos + 9));
            if pos + 9 + l <= bytes.len() {
                Option::Some((ValueModel::Str(bytes.subrange(pos + 9, pos + 9 + l)), pos + 9 + l))
            } else {
                Option::None
            }
        } else {
            Option::None
        }
    } else {
        Option::None
    }
}

/// Decoding of `n` consecutive constants starting at `pos`.
pub open spec fn dec_values(bytes: Seq<u8>, pos: int, n: nat) -> Option<(Seq<ValueModel>, int)>
    decreases n,
{
    if n == 0 {
        Option::Some((Seq::empty(), pos))
    } else {
        match dec_value(bytes, pos) {
            Option::None => Option::None,
            Option::Some((v, p2)) => match dec_values(bytes, p2, (n - 1) as nat) {
                Option::None => Option::None,
                Option::Some((vs, p3)) => Option::Some((seq![v] + vs, p3)),
            },
        }
    }
}

/// Decoding of `n` consecutive 4-byte line entries starting at `pos`.
pub open spec fn dec_lines(bytes: Seq<u8>, pos: int, n: nat) -> Seq<u32>
    decreases n,
{
    if n == 0 {
        Seq::empty()
    } else {
        seq![le_val(bytes.subrange(pos, pos + 4)) as u32] + dec_lines(bytes, pos + 4, (n - 1) as nat)
    }
}

/// What [`Chunk::from_bytes`] yields: `Some` exactly on byte sequences that
/// are a complete, well-formed serialized chunk, decoded defensively
/// (validated lengths and tags, a line table that parallels the code, and
/// in-range constant references); `None` otherwise.
pub open spec fn spec_decode(bytes: Seq<u8>) -> Option<ChunkModel> {
    if bytes.len() < 9 || bytes[0] != FORMAT_TAG {
        Option::None
    } else {
        let clen = le_val(bytes.subrange(1, 9));
        if clen + 17 > bytes.len() {
            Option::None
        } else {
            let code = bytes.subrange(9, 9 + clen);
            let ncon = le_val(bytes.subrange(9 + clen, 17 + clen));
            if ncon > 256 {
                Option::None
            } else {
                match dec_values(bytes, 17 + clen, ncon as nat) {
                    Option::None => Option::None,
                    Option::Some((vs, p)) => if p + 4 * clen == bytes.len() {
                        if code_ok_from(code, 0, ncon) {
                            Option::Some(
                                ChunkModel {
                                    code,
                                    constants: vs,
                                    lines: dec_lines(bytes, p, clen as nat),
                                },
                            )
                        } else {
                            Option::None
                        }
                    } else {
                        Option::None
                    },
                }
            }
        }
    }
}

/// Why deserialization failed; decoding fails closed and returns no chunk.
#[derive(Clone, Copy, PartialEq, Eq, Structural, Debug)]
pub enum DecodeError {
    /// The bytes do not begin with the format tag.
    BadTag,
    /// A declared length runs past the end of the input.
    Truncated,
    /// The constant count exceeds the one-byte index range.
    TooManyConstants,
    /// A constant entry carries an unknown tag.
    BadConstant,
    /// The line table does not parallel the code, or bytes trail it.
    BadLineTable,
    /// The code holds an unknown opcode, a truncated operand, or an
    /// out-of-range constant reference.
    InvalidCode,
}

/// Appends all of `v` to `out`.
#[verifier::loop_isolation(false)]
fn push_bytes(out: &mut Vec<u8>, v: &Vec<u8>)
    ensures
        final(out)@ == old(out)@ + v@,
{
    let mut i: usize = 0;
    while i < v.len()
        invariant
            i <= v.len(),
            out@ == old(out)@ + v@.subrange(0, i as int),
        decreases v.len() - i,
    {
        let ghost pre = out@;
        out.push(v[i]);
        proof {
            assert(pre.push(v@[i as int]) =~= old(out)@ + v@.subrange(0, i + 1));
        }
        i = i + 1;
    }
    assert(out@ =~= old(out)@ + v@);
}

/// Copies `len` bytes of `v` starting at `start`.
#[verifier::loop_isolation(false)]
fn copy_range(v: &Vec<u8>, start: usize, len: usize) -> (r: Vec<u8>)
    requires
        start + len <= v@.len(),
    ensures
        r@ == v@.subrange(start as int, start as int + len as int),
{
    let nv = v.len();
    let mut out: Vec<u8> = Vec::new();
    let mut i: usize = 0;
    while i < len
        invariant
            i <= len,
            start + len <= v@.len(),
            out@ == v@.subrange(start as int, start as int + i as int),
        decreases len - i,
    {
        let ghost pre = out@;
        out.push(v[start + i]);
        proof {
            assert(pre.push(v@[start + i]) =~= v@.subrange(start as int, start as int + i + 1));
        }
        i = i + 1;
    }
    out
}

impl Chunk {
    /// Serializes this chunk to its byte encoding, [`spec_encode`].
    #[verifier::loop_isolation(false)]
    pub fn to_bytes(&self) -> (r: Vec<u8>)
        ensures
            r@ == spec_encode(self@),
    {
        proof {
            reveal_with_fuel(pow256, 9);
        }
        let mut out: Vec<u8> = Vec::new();
        out.push(FORMAT_TAG);
        push_le(&mut out, self.code.len() as u64, 8);
        push_bytes(&mut out, &self.code);
        push_le(&mut out, self.constants.len() as u64, 8);
        let ghost head = seq![FORMAT_TAG] + le_bytes(self.code@.len() as int, 8) + self.code@
            + le_bytes(self.constants@.len() as int, 8);
        assert(out@ =~= head);
        let mut i: usize = 0;
        while i < self.constants.len()
            invariant
                i <= self.constants@.len(),
                out@ == head + enc_values(self@.constants.subrange(0, i as int)),
                head == seq![FORMAT_TAG] + le_bytes(self.code@.len() as int, 8) + self.code@
                    + le_bytes(self.constants@.len() as int, 8),
            decreases self.constants@.len() - i,
        {
            let ghost done = self@.constants.subrange(0, i as int);
            let ghost pre = out@;
            match &self.constants[i] {
                Value::Int(n) => {
                    out.push(TAG_INT);
                    proof {
                        reveal_with_fuel(pow256, 9);
                    }
                    push_le(&mut out, *n as u64, 4);
                    proof {
                        assert(out@ =~= pre + enc_value(self@.constants[i as int]));
                    }
                },
                Value::Str(b) => {
                    out.push(TAG_STR);
                    proof {
                        reveal_with_fuel(pow256, 9);
                    }
                    push_le(&mut out, b.len() as u64, 8);
                    push_bytes(&mut out, b);
                    proof {
                        assert(out@ =~= pre + enc_value(self@.constants[i as int]));
                    }
                },
            }
            proof {
                lemma_enc_values_push(done, self@.constants[i as int]);
                assert(done.push(self@.constants[i as int]) =~= self@.constants.subrange(
                    0,
                    i + 1,
                ));
                assert(out@ =~= head + enc_values(self@.constants.subrange(0, i + 1)));
            }
            i = i + 1;
        }
        proof {
            assert(self@.constants.subrange(0, self@.constants.len() as int) =~= self@.constants);
        }
        let ghost head2 = head + enc_values(self@.constants);
        assert(out@ =~= head2);
        let mut j: usize = 0;
        while j < self.lines.len()
            invariant
                j <= self.lines@.len(),
                out@ == head2 + enc_lines(self.lines@.subrange(0, j as int)),
                head2 == seq![FORMAT_TAG] + le_bytes(self.code@.len() as int, 8) + self.code@
                    + le_bytes(self.constants@.len() as int, 8) + enc_values(self@.constants),
            decreases self.lines@.len() - j,
        {
            let ghost done = self.lines@.subrange(0, j as int);
            let ghost pre = out@;
            proof {
                reveal_with_fuel(pow256, 9);
            }
            push_le(&mut out, self.lines[j] as u64, 4);
            proof {
                lemma_enc_lines_push(done, self.lines@[j as int]);
                assert(done.push(self.lines@[j as int]) =~= self.lines@.subrange(0, j + 1));
                assert(out@ =~= head2 + enc_lines(self.lines@.subrange(0, j + 1)));
            }
            j = j + 1;
        }
        proof {
            assert(self.lines@.subrange(0, self.lines@.len() as int) =~= self.lines@);
            assert(out@ =~= spec_encode(self@));
        }
        out
    }

    /// Deserializes a chunk from bytes, validating lengths, tags, the line
    /// table, and every embedded constant reference; fails closed, per
    /// [`spec_decode`].
    #[verifier::loop_isolation(false)]
    pub fn from_bytes(bytes: &Vec<u8>) -> (r: Result<Chunk, DecodeError>)
        ensures
            match r {
                Result::Ok(c) => spec_decode(bytes@) == Option::Some(c@) && chunk_wf(c@),
                Result::Err(_) => spec_decode(bytes@) is None,
            },
    {
        let n = bytes.len();
        if n < 9 {
            return Result::Err(DecodeError::Truncated);
        }
        if bytes[0] != FORMAT_TAG {
            return Result::Err(DecodeError::BadTag);
        }
        let clen64 = read_le(bytes, 1, 8);
        proof {
            lemma_le_val_bound(bytes@.subrange(1, 9));
        }
        if clen64 > (n as u64) {
            return Result::Err(DecodeError::Truncated);
        }
        let clen = clen64 as usize;
        if n - clen < 17 {
            return Result::Err(DecodeError::Truncated);
        }
        let code = copy_range(bytes, 9, clen);
        let ncon64 = read_le(bytes, 9 + clen, 8);
        if ncon64 > 256 {
            return Result::Err(DecodeError::TooManyConstants);
        }
        let ncon = ncon64 as usize;
        let ghost p0: int = 17 + clen as int;
        let mut pos: usize = 17 + clen;
        let mut consts: Vec<Value> = Vec::new();
        let mut k: usize = 0;
        assert(consts@.map_values(|v: Value| v@) =~= Seq::<ValueModel>::empty());
        while k < ncon
            invariant
                k <= ncon,
                pos <= n,
                n == bytes@.len(),
                consts@.len() == k,
                ({
                    let acc = consts@.map_values(|v: Value| v@);
                    match dec_values(bytes@, pos as int, (ncon - k) as nat) {
                        Option::Some((vs, p2)) => dec_values(bytes@, p0, ncon as nat)
                            == Option::Some((acc + vs, p2)),
                        Option::None => dec_values(bytes@, p0, ncon as nat) is None,
                    }
                }),
            decreases ncon - k,
        {
            let ghost acc = consts@.map_values(|v: Value| v@);
            let ghost rem = (ncon - k) as nat;
            if pos >= n {
                assert(dec_value(bytes@, pos as int) is None);
                assert(dec_values(bytes@, pos as int, rem) is None);
                return Result::Err(DecodeError::Truncated);
            }
            let t = bytes[pos];
            if t == TAG_INT {
                if n - pos < 5 {
                    assert(dec_value(bytes@, pos as int) is None);
                    assert(dec_values(bytes@, pos as int, rem) is None);
                    return Result::Err(DecodeError::Truncated);
                }
                let v64 = read_le(bytes, pos + 1, 4);
                proof {
                    lemma_le_val_bound(bytes@.subrange(pos + 1, pos + 5));
                    reveal_with_fuel(pow256, 9);
                }
                let v = v64 as u32;
                consts.push(Value::Int(v));
                proof {
                    assert(dec_value(bytes@, pos as int) == Option::Some(
                        (ValueModel::Int(v), pos + 5),
                    ));
                }
                pos = pos + 5;
            } else if t == TAG_STR {
                if n - pos < 9 {
                    assert(dec_value(bytes@, pos as int) is None);
                    assert(dec_values(bytes@, pos as int, rem) is None);
                    return Result::Err(DecodeError::Truncated);
                }
                let l64 = read_le(bytes, pos + 1, 8);
                proof {
                    lemma_le_val_bound(bytes@.subrange(pos + 1, pos + 9));
                }
                if l64 > ((n - pos - 9) as u64) {
                    assert(dec_value(bytes@, pos as int) is None);
                    assert(dec_values(bytes@, pos as int, rem) is None);
                    return Result::Err(DecodeError::Truncated);
                }
                let l = l64 as usize;
                let s = copy_range(bytes, pos + 9, l);
                consts.push(Value::Str(s));
                proof {
                    assert(dec_value(bytes@, pos as int) == Option::Some(
                        (ValueModel::Str(bytes@.subrange(pos + 9, pos + 9 + l as int)), pos + 9
                            + l as int),
                    ));
                }
                pos = pos + 9 + l;
            } else {
                assert(dec_value(bytes@, pos as int) is None);
                assert(dec_values(bytes@, pos as int, rem) is None);
                return Result::Err(DecodeError::BadConstant);
            }
            proof {
                let v = consts@.last()@;
                assert(consts@.map_values(|vv: Value| vv@) =~= acc.push(v));
                let inner = dec_values(bytes@, pos as int, (rem - 1) as nat);
                match inner {
                    Option::Some((vs2, q)) => {
                        assert(dec_values(bytes@, p0, ncon as nat) == Option::Some(
                            (acc + (seq![v] + vs2), q),
                        ));
                        assert(acc + (seq![v] + vs2) =~= acc.push(v) + vs2);
                    },
                    Option::None => {},
                }
            }
            k = k + 1;
        }
        let ghost accfin = consts@.map_values(|v: Value| v@);
        proof {
            assert(dec_values(bytes@, pos as int, 0) == Option::Some(
                (Seq::<ValueModel>::empty(), pos as int),
            ));
            assert(accfin + Seq::<ValueModel>::empty() =~= accfin);
            assert(dec_values(bytes@, p0, ncon as nat) == Option::Some((accfin, pos as int)));
        }
        if (n - pos) % 4 != 0 || (n - pos) / 4 != clen {
            return Result::Err(DecodeError::BadLineTable);
        }
        let ghost p1 = pos as int;
        let mut lines: Vec<u32> = Vec::new();
        let mut j: usize = 0;
        while j < clen
            invariant
                j <= clen,
                n == bytes@.len(),
                pos == p1 + 4 * j,
                p1 + 4 * clen == n,
                lines@.len() == j,
                dec_lines(bytes@, p1, clen as nat) == lines@ + dec_lines(
                    bytes@,
                    pos as int,
                    (clen - j) as nat,
                ),
            decreases clen - j,
        {
            let ghost pre = lines@;
            let v64 = read_le(bytes, pos, 4);
            proof {
                lemma_le_val_bound(bytes@.subrange(pos as int, pos + 4));
                reveal_with_fuel(pow256, 9);
            }
            lines.push(v64 as u32);
            proof {
                let rest = dec_lines(bytes@, pos + 4, (clen - j - 1) as nat);
                assert(dec_lines(bytes@, pos as int, (clen - j) as nat) == seq![(v64 as u32)]
                    + rest);
                assert(pre + (seq![(v64 as u32)] + rest) =~= pre.push(v64 as u32) + rest);
            }
            pos = pos + 4;
            j = j + 1;
        }
        proof {
            assert(dec_lines(bytes@, pos as int, 0) =~= Seq::<u32>::empty());
            assert(lines@ + Seq::<u32>::empty() =~= lines@);
            assert(dec_lines(bytes@, p1, clen as nat) == lines@);
        }
        if !code_ok(&code, ncon) {
            return Result::Err(DecodeError::InvalidCode);
        }
        let c = Chunk { code, constants: consts, lines };
        proof {
            assert(c@ == ChunkModel { code: c.code@, constants: accfin, lines: c.lines@ });
            assert(spec_decode(bytes@) == Option::Some(c@));
        }
        Result::Ok(c)
    }
}


proof fn lemma_nested_sub(a: Seq<u8>, pos: int, len: int, x: int, y: int)
    requires
        0 <= pos,
        0 <= x <= y <= len,
        pos + len <= a.len(),
        a.len() <= a.len(),
    ensures
        a.subrange(pos + x, pos + y) == a.subrange(pos, pos + len).subrange(x, y),
{
    assert(a.subrange(pos + x, pos + y) =~= a.subrange(pos, pos + len).subrange(x, y));
}

proof fn lemma_dec_enc_value(bytes: Seq<u8>, pos: int, v: ValueModel)
    requires
        0 <= pos,
        value_encodable(v),
        pos + enc_value(v).len() <= bytes.len(),
        bytes.subrange(pos, pos + enc_value(v).len()) == enc_value(v),
    ensures
        dec_value(bytes, pos) == Option::Some((v, pos + enc_value(v).len())),
{
    reveal_with_fuel(pow256, 9);
    match v {
        ValueModel::Int(n) => {
            lemma_le_bytes_len(n as int, 4);
            let e = enc_value(v);
            assert(e.len() == 5);
            assert(bytes[pos] == bytes.subrange(pos, pos + 5)[0]);
            assert(e[0] == TAG_INT);
            lemma_nested_sub(bytes, pos, 5, 1, 5);
            assert(e.subrange(1, 5) =~= le_bytes(n as int, 4));
            lemma_le_roundtrip(n as int, 4);
        },
        ValueModel::Str(str) => {
            lemma_le_bytes_len(str.len() as int, 8);
            let e = enc_value(v);
            let l = str.len() as int;
            assert(e.len() == 9 + l);
            assert(bytes[pos] == bytes.subrange(pos, pos + e.len())[0]);
            assert(e[0] == TAG_STR);
            lemma_nested_sub(bytes, pos, 9 + l, 1, 9);
            assert(e.subrange(1, 9) =~= le_bytes(l, 8));
            lemma_le_roundtrip(l, 8);
            lemma_nested_sub(bytes, pos, 9 + l, 9, 9 + l);
            assert(e.subrange(9, 9 + l) =~= str);
        },
    }
}

proof fn lemma_dec_enc_values(bytes: Seq<u8>, pos: int, vs: Seq<ValueModel>)
    requires
        0 <= pos,
        forall|i: int| 0 <= i < vs.len() ==> value_encodable(#[trigger] vs[i]),
        pos + enc_values(vs).len() <= bytes.len(),
        bytes.subrange(pos, pos + enc_values(vs).len()) == enc_values(vs),
    ensures
        dec_values(bytes, pos, vs.len()) == Option::Some((vs, pos + enc_values(vs).len())),
    decreases vs.len(),
{
    if vs.len() == 0 {
        assert(dec_values(bytes, pos, 0) == Option::Some((Seq::<ValueModel>::empty(), pos)));
        assert(vs =~= Seq::<ValueModel>::empty());
    } else {
        let first = vs[0];
        let rest = vs.subrange(1, vs.len() as int);
        let e = enc_values(vs);
        let e1 = enc_value(first);
        let e2 = enc_values(rest);
        assert(e == e1 + e2);
        lemma_nested_sub(bytes, pos, e.len() as int, 0, e1.len() as int);
        assert(e.subrange(0, e1.len() as int) =~= e1);
        lemma_dec_enc_value(bytes, pos, first);
        let p2 = pos + e1.len();
        lemma_nested_sub(bytes, pos, e.len() as int, e1.len() as int, e.len() as int);
        assert(e.subrange(e1.len() as int, e.len() as int) =~= e2);
        assert(forall|i: int| 0 <= i < rest.len() ==> value_encodable(#[trigger] rest[i]));
        lemma_dec_enc_values(bytes, p2, rest);
        assert(seq![first] + rest =~= vs);
        assert(dec_values(bytes, pos, vs.len()) == Option::Some((seq![first] + rest, p2 + e2.len())));
    }
}

proof fn lemma_dec_enc_lines(bytes: Seq<u8>, pos: int, ls: Seq<u32>)
    requires
        0 <= pos,
        pos + enc_lines(ls).len() <= bytes.len(),
        bytes.subrange(pos, pos + enc_lines(ls).len()) == enc_lines(ls),
    ensures
        dec_lines(bytes, pos, ls.len()) == ls,
    decreases ls.len(),
{
    reveal_with_fuel(pow256, 9);
    if ls.len() == 0 {
        assert(dec_lines(bytes, pos, 0) =~= ls);
    } else {
        let rest = ls.subrange(1, ls.len() as int);
        let e = enc_lines(ls);
        let e1 = le_bytes(ls[0] as int, 4);
        let e2 = enc_lines(rest);
        lemma_le_bytes_len(ls[0] as int, 4);
        assert(e == e1 + e2);
        lemma_nested_sub(bytes, pos, e.len() as int, 0, 4);
        assert(e.subrange(0, 4) =~= e1);
        lemma_le_roundtrip(ls[0] as int, 4);
        lemma_nested_sub(bytes, pos, e.len() as int, 4, e.len() as int);
        assert(e.subrange(4, e.len() as int) =~= e2);
        lemma_dec_enc_lines(bytes, pos + 4, rest);
        assert(dec_lines(bytes, pos, ls.len()) == seq![ls[0]] + rest);
        assert(seq![ls[0]] + rest =~= ls);
    }
}

/// Every chunk held in memory is encodable: its sequences live in vectors,
/// whose lengths fit the 8-byte length fields of the serialized form.
pub proof fn lemma_chunk_encodable(c: &Chunk)
    ensures
        chunk_encodable(c@),
{
    reveal_with_fuel(pow256, 9);
    vstd::std_specs::vec::axiom_spec_len(&c.code);
    assert(c.code@.len() <= usize::MAX);
    assert forall|i: int| 0 <= i < c@.constants.len() implies value_encodable(
        #[trigger] c@.constants[i],
    ) by {
        match c.constants@[i] {
            Value::Int(_) => {},
            Value::Str(b) => {
                vstd::std_specs::vec::axiom_spec_len(&b);
                assert(b@.len() <= usize::MAX);
            },
        }
    }
}

/// Round-trip law: decoding the encoding of any well-formed chunk yields
/// that same chunk — the same code bytes, the same constants in order and
/// value, and the same line table. Together with the contracts of
/// [`Chunk::to_bytes`] and [`Chunk::from_bytes`], deserializing a serialized
/// chunk returns a chunk structurally equal to the original.
pub proof fn lemma_round_trip(c: ChunkModel)
    requires
        chunk_wf(c),
        chunk_encodable(c),
    ensures
        spec_decode(spec_encode(c)) == Option::Some(c),
{
    reveal_with_fuel(pow256, 9);
    let bytes = spec_encode(c);
    let cl = c.code.len() as int;
    let nc = c.constants.len() as int;
    let ev = enc_values(c.constants);
    let el = enc_lines(c.lines);
    lemma_le_bytes_len(cl, 8);
    lemma_le_bytes_len(nc, 8);
    lemma_enc_lines_len(c.lines);
    assert(bytes.len() == 17 + cl + ev.len() + 4 * cl);
    assert(bytes[0] == FORMAT_TAG);
    assert(bytes.subrange(1, 9) =~= le_bytes(cl, 8));
    lemma_le_roundtrip(cl, 8);
    assert(le_val(bytes.subrange(1, 9)) == cl);
    assert(bytes.subrange(9, 9 + cl) =~= c.code);
    assert(bytes.subrange(9 + cl, 17 + cl) =~= le_bytes(nc, 8));
    lemma_le_roundtrip(nc, 8);
    assert(le_val(bytes.subrange(9 + cl, 17 + cl)) == nc);
    assert(bytes.subrange(17 + cl, 17 + cl + ev.len()) =~= ev);
    lemma_dec_enc_values(bytes, 17 + cl, c.constants);
    let p = 17 + cl + ev.len();
    assert(dec_values(bytes, 17 + cl, nc as nat) == Option::Some((c.constants, p as int)));
    assert(p + 4 * cl == bytes.len());
    assert(bytes.subrange(p as int, p + el.len()) =~= el);
    lemma_dec_enc_lines(bytes, p as int, c.lines);
    assert(dec_lines(bytes, p as int, cl as nat) == c.lines);
    assert(spec_decode(bytes) == Option::Some(
        ChunkModel { code: c.code, constants: c.constants, lines: c.lines },
    ));
    assert(ChunkModel { code: c.code, constants: c.constants, lines: c.lines } == c);
}

} // verus!
