//! Run-length codec, checkpoint index builder, `C` table builder, and the
//! rank (`occ`) and single-position decode queries.

use vstd::prelude::*;

use crate::Context;
use crate::model::{
    bwt, bwt_upto, c_val, count_pre, count_tails, head_of, in_sigma, is_tail, lemma_bwt_in_sigma,
    lemma_bwt_len, lemma_count_pre_const_range, lemma_count_pre_nonneg, lemma_count_tails_range,
    lemma_head_of_unique, lemma_len_after_mono, lemma_len_after_pos, lemma_pow128_pos,
    lemma_run_chars, lemma_run_count_step, lemma_run_len_pos, lemma_sigma_byte_roundtrip,
    lemma_sigma_roundtrip, lemma_sum_counts_mono, lemma_sum_counts_total, lemma_upto_mono,
    lemma_upto_tail_range, len_after, occ_spec, pow128, run_len_at, run_len_spec, sigma_byte,
    sigma_index, sum_counts, tails_of, total_len, wf_rlb,
};

verus! {

/// Dense index in `[0, 98)` of an alphabet byte.
pub fn map_char(c: u8) -> (r: usize)
    requires
        in_sigma(c),
    ensures
        r == sigma_index(c),
        r < 98,
{
    if c == 9 {
        0
    } else if c == 10 {
        1
    } else if c == 13 {
        2
    } else {
        (c - 29) as usize
    }
}

/// Values that carry a dense alphabet index.
pub trait Mapper {
    /// Whether this value is in the alphabet.
    spec fn sigma_ok(&self) -> bool;

    /// Its dense index.
    spec fn sigma_idx(&self) -> int;

    /// Dense alphabet index of this value.
    fn map_char(&self) -> (r: usize)
        requires
            self.sigma_ok(),
        ensures
            r == self.sigma_idx(),
            r < 98,
    ;
}

impl Mapper for u8 {
    open spec fn sigma_ok(&self) -> bool {
        in_sigma(*self)
    }

    open spec fn sigma_idx(&self) -> int {
        sigma_index(*self)
    }

    fn map_char(&self) -> (r: usize) {
        map_char(*self)
    }
}

/// Whether the top bit of a byte is set, marking a run-length tail byte.
pub fn msb_u8(b: u8) -> (r: bool)
    ensures
        r == is_tail(b),
{
    proof {
        assert((b & 0x80 != 0) == (b >= 0x80)) by (bit_vector);
    }
    b & 0x80 != 0
}

/// What one tail byte adds to a run's decoded length, given how many tails
/// came before it.
pub open spec fn tail_add(b: u8, size: int) -> int {
    if size == 0 {
        2 + (b & 0x7f)
    } else {
        (b & 0x7f) * pow128(size)
    }
}

/// One decoded run: its byte, decoded length, number of tail bytes in its
/// encoding, absolute BWT position of its first symbol, and the number of
/// occurrences of its byte before that position.
#[derive(Debug, Clone, Copy)]
pub struct RunLength {
    pub ch: u8,
    pub len: i32,
    pub size: u8,
    pub pos: i32,
    pub rank: i32,
}

impl RunLength {
    /// A fresh run of length one at a given position.
    pub fn new(ch: u8, pos: i32) -> (r: RunLength)
        ensures
            r.ch == ch,
            r.len == 1,
            r.size == 0,
            r.pos == pos,
            r.rank == 0,
    {
        RunLength { ch, len: 1, size: 0, pos, rank: 0 }
    }

    /// Dense alphabet index of this run's byte.
    pub fn map_char(&self) -> (r: usize)
        requires
            in_sigma(self.ch),
        ensures
            r == sigma_index(self.ch),
            r < 98,
    {
        map_char(self.ch)
    }

    /// This run's entry in an occurrence table.
    pub fn occ(&self, occ: &Vec<i32>) -> (r: i32)
        requires
            in_sigma(self.ch),
            occ@.len() == 98,
        ensures
            r == occ@[sigma_index(self.ch)],
    {
        occ[self.map_char()]
    }

    /// Feed the next stream byte: a tail byte extends this run's length and
    /// is consumed, any other byte is refused untouched.
    pub fn extend_byte(&mut self, b: u8) -> (r: bool)
        requires
            is_tail(b) ==> old(self).size <= 3,
            is_tail(b) ==> old(self).len as int + tail_add(b, old(self).size as int)
                <= 0x4000_0000,
        ensures
            r == is_tail(b),
            !is_tail(b) ==> *final(self) == *old(self),
            is_tail(b) ==> *final(self) == (RunLength {
                len: (old(self).len as int + tail_add(b, old(self).size as int)) as i32,
                size: (old(self).size + 1) as u8,
                ..*old(self)
            }),
    {
        if !msb_u8(b) {
            return false;
        }
        let p = b & 0x7f;
        proof {
            assert(p == b & 0x7f);
            assert(b & 0x7f <= 127) by (bit_vector);
        }
        if self.size == 0 {
            self.len = self.len + 2 + (p as i32);
        } else {
            let mult: i32 = if self.size == 1 {
                128
            } else if self.size == 2 {
                16384
            } else {
                2097152
            };
            proof {
                assert(pow128(0) == 1);
                assert(pow128(1) == 128);
                assert(pow128(2) == 16384);
                assert(pow128(3) == 2097152);
                vstd::arithmetic::mul::lemma_mul_nonnegative(p as int, pow128(self.size as int));
            }
            self.len = self.len + (p as i32) * mult;
        }
        self.size = self.size + 1;
        true
    }

    /// Add this run's length to its byte's entry of an occurrence table.
    pub fn update_occ(&self, occ: &mut Vec<i32>)
        requires
            in_sigma(self.ch),
            old(occ)@.len() == 98,
            old(occ)@[sigma_index(self.ch)] + self.len <= 0x4000_0000,
            old(occ)@[sigma_index(self.ch)] + self.len >= i32::MIN,
        ensures
            final(occ)@ == old(occ)@.update(sigma_index(self.ch), (old(occ)@[sigma_index(
                self.ch,
            )] + self.len) as i32),
    {
        let m = self.map_char();
        let v = occ[m] + self.len;
        occ.set(m, v);
    }
}

/// A run is never longer than the whole decoded BWT, and crossing it moves
/// `bwt_upto` by exactly its length.
pub proof fn lemma_run_len_le_total(s: Seq<u8>, j: int)
    requires
        wf_rlb(s),
        0 <= j < s.len(),
        !is_tail(s[j]),
    ensures
        bwt_upto(s, j + 1) == bwt_upto(s, j) + run_len_at(s, j),
        0 <= bwt_upto(s, j),
        bwt_upto(s, j) + run_len_at(s, j) <= total_len(s),
        run_len_at(s, j) <= total_len(s),
{
    lemma_upto_mono(s, 0, j);
    lemma_upto_mono(s, j + 1, s.len() as int);
}

/// Parse the run headed at byte `j`, carrying `pos` as its BWT position.
/// Returns the run and the position of the next head (or end of stream).
pub fn read_run(s: &Vec<u8>, j: usize, pos: i32) -> (r: (RunLength, usize))
    requires
        wf_rlb(s@),
        j < s@.len(),
        !is_tail(s@[j as int]),
    ensures
        r.0.ch == s@[j as int],
        in_sigma(r.0.ch),
        r.0.len as int == run_len_at(s@, j as int),
        1 <= r.0.len,
        r.0.len as int <= total_len(s@),
        r.0.pos == pos,
        r.0.rank == 0,
        r.1 as int == j + 1 + count_tails(s@, j + 1),
        j < r.1 <= s@.len(),
        r.1 == s@.len() || !is_tail(s@[r.1 as int]),
        forall|m: int| j < m < r.1 ==> is_tail(#[trigger] s@[m]),
        bwt_upto(s@, r.1 as int) == bwt_upto(s@, j as int) + r.0.len,
{
    let ghost ct = count_tails(s@, j + 1);
    let ghost tails = tails_of(s@, j as int);
    proof {
        lemma_count_tails_range(s@, j + 1);
        assert(ct <= 4);
        assert(tails.len() == ct);
        lemma_run_len_le_total(s@, j as int);
        lemma_run_len_pos(s@, j as int);
        lemma_upto_tail_range(s@, j + 1, j + 1 + ct);
    }
    let n = s.len();
    let mut rl = RunLength::new(s[j], pos);
    let mut t = j + 1;
    while t < n && msb_u8(s[t])
        invariant
            wf_rlb(s@),
            j < s@.len(),
            !is_tail(s@[j as int]),
            ct == count_tails(s@, j + 1),
            tails == tails_of(s@, j as int),
            tails.len() == ct,
            ct <= 4,
            n == s@.len(),
            j + 1 <= t <= j + 1 + ct,
            t <= s@.len(),
            rl.size as int == t - (j + 1),
            rl.len as int == len_after(tails, rl.size as int),
            rl.len as int <= total_len(s@),
            rl.ch == s@[j as int],
            rl.pos == pos,
            rl.rank == 0,
            run_len_at(s@, j as int) <= total_len(s@),
            total_len(s@) <= 0x4000_0000,
        decreases s@.len() - t,
    {
        proof {
            lemma_count_tails_range(s@, j + 1);
            if t == j + 1 + ct {
                assert(!is_tail(s@[t as int]));
                assert(false);
            }
            assert(t < j + 1 + ct);
            assert(tails[t - (j + 1)] == s@[t as int]);
            lemma_len_after_mono(tails, rl.size as int + 1, ct);
            assert(len_after(tails, rl.size as int + 1) == len_after(tails, rl.size as int)
                + tail_add(tails[rl.size as int], rl.size as int));
            lemma_len_after_pos(tails, rl.size as int);
            if rl.size > 0 {
                lemma_pow128_pos(rl.size as int);
                vstd::arithmetic::mul::lemma_mul_nonnegative(
                    (s@[t as int] & 0x7f) as int,
                    pow128(rl.size as int),
                );
            }
            assert(tail_add(s@[t as int], rl.size as int) >= 0);
        }
        let b = s[t];
        let extended = rl.extend_byte(b);
        t = t + 1;
    }
    proof {
        lemma_count_tails_range(s@, j + 1);
        if t < j + 1 + ct {
            assert(is_tail(s@[t as int]));
            assert(t < s@.len());
            assert(false);
        }
        assert(t == j + 1 + ct);
        assert(rl.len as int == run_len_spec(tails));
    }
    (rl, t)
}

/// Little-endian value of four bytes.
pub open spec fn le32(b0: u8, b1: u8, b2: u8, b3: u8) -> int {
    b0 + 256 * b1 + 65536 * b2 + 16777216 * b3
}

/// The little-endian 32-bit value stored at offset `o`.
pub open spec fn read_le32(t: Seq<u8>, o: int) -> int {
    le32(t[o], t[o + 1], t[o + 2], t[o + 3])
}

/// Equal bytes below the window give an equal stored value.
pub proof fn lemma_read_le32_frame(t1: Seq<u8>, t2: Seq<u8>, o: int)
    requires
        0 <= o,
        o + 4 <= t1.len(),
        t2.len() >= t1.len(),
        forall|m: int| 0 <= m < t1.len() ==> t2[m] == #[trigger] t1[m],
    ensures
        read_le32(t2, o) == read_le32(t1, o),
{
}

/// Append a nonnegative 32-bit value in little-endian order.
pub fn push_i32(out: &mut Vec<u8>, x: i32)
    requires
        0 <= x,
    ensures
        final(out)@.len() == old(out)@.len() + 4,
        forall|m: int| 0 <= m < old(out)@.len() ==> final(out)@[m] == #[trigger] old(out)@[m],
        read_le32(final(out)@, old(out)@.len() as int) == x,
{
    let u = x as u32;
    let b0 = (u & 0xff) as u8;
    let b1 = ((u >> 8u32) & 0xff) as u8;
    let b2 = ((u >> 16u32) & 0xff) as u8;
    let b3 = ((u >> 24u32) & 0xff) as u8;
    proof {
        assert((u & 0xff) < 256 && ((u >> 8u32) & 0xff) < 256 && ((u >> 16u32) & 0xff) < 256 && ((
        u >> 24u32) & 0xff) < 256) by (bit_vector);
        assert((u & 0xff) + 0x100 * ((u >> 8u32) & 0xff) + 0x10000 * ((u >> 16u32) & 0xff)
            + 0x1000000 * ((u >> 24u32) & 0xff) == u) by (bit_vector);
    }
    out.push(b0);
    out.push(b1);
    out.push(b2);
    out.push(b3);
}

/// Read the little-endian 32-bit value at offset `o`.
pub fn read_i32_le(buf: &Vec<u8>, o: usize) -> (r: i32)
    requires
        o + 4 <= buf@.len(),
        read_le32(buf@, o as int) < 0x8000_0000,
    ensures
        r as int == read_le32(buf@, o as int),
        r >= 0,
{
    let n = buf.len();
    proof {
        assert(o + 4 <= n);
    }
    let b0 = buf[o] as u32;
    let b1 = buf[o + 1] as u32;
    let b2 = buf[o + 2] as u32;
    let b3 = buf[o + 3] as u32;
    let u = b0 + b1 * 0x100 + b2 * 0x10000 + b3 * 0x1000000;
    u as i32
}

/// BWT position at checkpoint `i`: past every run headed in the first `i`
/// chunks of the stream.
pub open spec fn cp_pos(s: Seq<u8>, i: int) -> int {
    bwt_upto(s, i * 396)
}

/// Occurrence count of the byte with dense index `a` at checkpoint `i`.
pub open spec fn cp_occ(s: Seq<u8>, i: int, a: int) -> int {
    count_pre(bwt(s), sigma_byte(a), cp_pos(s, i))
}

/// Byte-exact layout of the side-car index file for a stream with
/// `K = len / CHUNK_SIZE` checkpoints: first `positions[1..=K]`, then `K`
/// occurrence tables of 98 values each, all little-endian 32-bit.
pub open spec fn wf_index(s: Seq<u8>, idx: Seq<u8>) -> bool {
    let k = s.len() as int / 396;
    &&& idx.len() == k * 396
    &&& forall|i: int| 1 <= i <= k ==> #[trigger] read_le32(idx, (i - 1) * 4) == cp_pos(s, i)
    &&& forall|i: int, a: int|
        1 <= i <= k && 0 <= a < 98 ==> #[trigger] read_le32(idx, k * 4 + (i - 1) * 392 + a * 4)
            == cp_occ(s, i, a)
}

/// A fresh all-zero occurrence table.
fn zero_occ() -> (r: Vec<i32>)
    ensures
        r@.len() == 98,
        forall|a: int| 0 <= a < 98 ==> #[trigger] r@[a] == 0,
{
    let mut v: Vec<i32> = Vec::new();
    let mut a: usize = 0;
    while a < 98
        invariant
            a <= 98,
            v@.len() == a,
            forall|m: int| 0 <= m < a ==> #[trigger] v@[m] == 0,
        decreases 98 - a,
    {
        v.push(0);
        a = a + 1;
    }
    v
}

/// An element-for-element copy of an occurrence table.
fn clone_occ(occ: &Vec<i32>) -> (r: Vec<i32>)
    ensures
        r@ == occ@,
{
    let mut v: Vec<i32> = Vec::new();
    let mut a: usize = 0;
    while a < occ.len()
        invariant
            a <= occ@.len(),
            v@.len() == a,
            forall|m: int| 0 <= m < a ==> #[trigger] v@[m] == occ@[m],
        decreases occ@.len() - a,
    {
        v.push(occ[a]);
        a = a + 1;
    }
    proof {
        assert(v@ =~= occ@);
    }
    v
}

/// One pass over the stream: returns the checkpoint BWT positions
/// (`positions[0] == 0` included) and the bytes of the side-car index file.
/// The same stream always yields the same bytes, since both are functions
/// of the stream alone.
pub fn gen_index(rlb: &Vec<u8>, checkpoints: usize) -> (r: (Vec<i32>, Vec<u8>))
    requires
        wf_rlb(rlb@),
        checkpoints == rlb@.len() as int / 396,
    ensures
        r.0@.len() == checkpoints + 1,
        forall|i: int| 0 <= i <= checkpoints ==> #[trigger] r.0@[i] as int == cp_pos(rlb@, i),
        wf_index(rlb@, r.1@),
{
    let ghost s = rlb@;
    let n = rlb.len();
    let k = checkpoints;
    proof {
        vstd::arithmetic::div_mod::lemma_fundamental_div_mod(n as int, 396);
        lemma_bwt_len(s);
    }
    let mut positions: Vec<i32> = Vec::new();
    positions.push(0);
    let mut snaps: Vec<Vec<i32>> = Vec::new();
    let mut occ: Vec<i32> = zero_occ();
    let mut cur: i32 = 0;
    let mut j: usize = 0;
    let mut next_cp: usize = 1;
    while j < k * 396
        invariant
            wf_rlb(s),
            s == rlb@,
            n == s.len(),
            k == s.len() as int / 396,
            k * 396 <= n,
            j <= n,
            j == n || !is_tail(s[j as int]),
            0 <= cur,
            cur as int == bwt_upto(s, j as int),
            cur as int <= total_len(s),
            total_len(s) <= 0x4000_0000,
            occ@.len() == 98,
            forall|a: int|
                0 <= a < 98 ==> #[trigger] occ@[a] as int == count_pre(
                    bwt(s),
                    sigma_byte(a),
                    cur as int,
                ),
            1 <= next_cp <= k + 1,
            next_cp <= k ==> (j as int) < next_cp * 396,
            positions@.len() == next_cp,
            forall|i: int| 0 <= i < next_cp ==> #[trigger] positions@[i] as int == cp_pos(s, i),
            snaps@.len() == next_cp - 1,
            forall|i: int| 0 <= i < next_cp - 1 ==> #[trigger] snaps@[i]@.len() == 98,
            forall|i: int, a: int|
                1 <= i < next_cp && 0 <= a < 98 ==> #[trigger] snaps@[i - 1]@[a] as int == cp_occ(
                    s,
                    i,
                    a,
                ),
        decreases n - j,
    {
        let (rl, j2) = read_run(rlb, j, cur);
        proof {
            lemma_upto_mono(s, j2 as int, s.len() as int);
            lemma_run_count_step(s, j as int, rl.ch);
            lemma_sigma_roundtrip(rl.ch);
            lemma_count_pre_nonneg(bwt(s), rl.ch, cur as int);
        }
        let cur2 = cur + rl.len;
        rl.update_occ(&mut occ);
        proof {
            assert forall|a: int| 0 <= a < 98 implies #[trigger] occ@[a] as int == count_pre(
                bwt(s),
                sigma_byte(a),
                cur2 as int,
            ) by {
                lemma_run_count_step(s, j as int, sigma_byte(a));
                lemma_sigma_byte_roundtrip(a);
                lemma_sigma_roundtrip(rl.ch);
            }
        }
        while next_cp <= k && next_cp * 396 <= j2
            invariant
                wf_rlb(s),
                s == rlb@,
                n == s.len(),
                k == s.len() as int / 396,
                k * 396 <= n,
                j < j2 <= n,
                forall|m: int| j < m < j2 ==> is_tail(#[trigger] s[m]),
                0 <= cur2,
                cur2 as int == bwt_upto(s, j2 as int),
                cur2 as int <= total_len(s),
                occ@.len() == 98,
                forall|a: int|
                    0 <= a < 98 ==> #[trigger] occ@[a] as int == count_pre(
                        bwt(s),
                        sigma_byte(a),
                        cur2 as int,
                    ),
                1 <= next_cp <= k + 1,
                next_cp <= k + 1 ==> (j as int) < next_cp * 396,
                positions@.len() == next_cp,
                forall|i: int| 0 <= i < next_cp ==> #[trigger] positions@[i] as int == cp_pos(s, i),
                snaps@.len() == next_cp - 1,
                forall|i: int| 0 <= i < next_cp - 1 ==> #[trigger] snaps@[i]@.len() == 98,
                forall|i: int, a: int|
                    1 <= i < next_cp && 0 <= a < 98 ==> #[trigger] snaps@[i - 1]@[a] as int
                        == cp_occ(s, i, a),
            decreases k + 1 - next_cp,
        {
            proof {
                lemma_upto_tail_range(s, next_cp as int * 396, j2 as int);
                assert(bwt_upto(s, next_cp as int * 396) == cur2);
            }
            positions.push(cur2);
            let snap = clone_occ(&occ);
            snaps.push(snap);
            next_cp = next_cp + 1;
        }
        j = j2;
        cur = cur2;
    }
    proof {
        assert(next_cp == k + 1);
    }
    // Serialize: positions[1..=k], then the per-checkpoint occurrence tables.
    let mut out: Vec<u8> = Vec::new();
    let mut i: usize = 1;
    while i <= k
        invariant
            s == rlb@,
            k * 396 <= n,
            n == s.len(),
            positions@.len() == k + 1,
            forall|i2: int| 0 <= i2 <= k ==> #[trigger] positions@[i2] as int == cp_pos(s, i2),
            1 <= i <= k + 1,
            out@.len() == (i - 1) * 4,
            forall|i2: int|
                1 <= i2 < i ==> #[trigger] read_le32(out@, (i2 - 1) * 4) == cp_pos(s, i2),
        decreases k + 1 - i,
    {
        proof {
            lemma_upto_mono(s, 0, i as int * 396);
        }
        let ghost out0 = out@;
        push_i32(&mut out, positions[i]);
        proof {
            assert forall|i2: int|
                1 <= i2 < i + 1 implies #[trigger] read_le32(out@, (i2 - 1) * 4) == cp_pos(
                s,
                i2,
            ) by {
                if i2 < i {
                    lemma_read_le32_frame(out0, out@, (i2 - 1) * 4);
                } else {
                    assert(read_le32(out@, (i as int - 1) * 4) == positions@[i as int]);
                }
            }
        }
        i = i + 1;
    }
    let mut i: usize = 1;
    while i <= k
        invariant
            s == rlb@,
            k * 396 <= n,
            n == s.len(),
            snaps@.len() == k,
            forall|i2: int| 0 <= i2 < k ==> #[trigger] snaps@[i2]@.len() == 98,
            forall|i2: int, a: int|
                1 <= i2 <= k && 0 <= a < 98 ==> #[trigger] snaps@[i2 - 1]@[a] as int == cp_occ(
                    s,
                    i2,
                    a,
                ),
            1 <= i <= k + 1,
            out@.len() == k * 4 + (i - 1) * 392,
            forall|i2: int|
                1 <= i2 <= k ==> #[trigger] read_le32(out@, (i2 - 1) * 4) == cp_pos(s, i2),
            forall|i2: int, a: int|
                1 <= i2 < i && 0 <= a < 98 ==> #[trigger] read_le32(
                    out@,
                    k * 4 + (i2 - 1) * 392 + a * 4,
                ) == cp_occ(s, i2, a),
        decreases k + 1 - i,
    {
        let mut a: usize = 0;
        while a < 98
            invariant
                s == rlb@,
                k * 396 <= n,
                n == s.len(),
                snaps@.len() == k,
                forall|i2: int| 0 <= i2 < k ==> #[trigger] snaps@[i2]@.len() == 98,
                forall|i2: int, a2: int|
                    1 <= i2 <= k && 0 <= a2 < 98 ==> #[trigger] snaps@[i2 - 1]@[a2] as int
                        == cp_occ(s, i2, a2),
                1 <= i <= k,
                a <= 98,
                out@.len() == k * 4 + (i - 1) * 392 + a * 4,
                forall|i2: int|
                    1 <= i2 <= k ==> #[trigger] read_le32(out@, (i2 - 1) * 4) == cp_pos(s, i2),
                forall|i2: int, a2: int|
                    1 <= i2 < i && 0 <= a2 < 98 ==> #[trigger] read_le32(
                        out@,
                        k * 4 + (i2 - 1) * 392 + a2 * 4,
                    ) == cp_occ(s, i2, a2),
                forall|a2: int|
                    0 <= a2 < a ==> #[trigger] read_le32(out@, k * 4 + (i - 1) * 392 + a2 * 4)
                        == cp_occ(s, i as int, a2),
            decreases 98 - a,
        {
            proof {
                lemma_count_pre_nonneg(bwt(s), sigma_byte(a as int), cp_pos(s, i as int));
            }
            let ghost out0 = out@;
            let v = snaps[i - 1][a];
            push_i32(&mut out, v);
            proof {
                assert forall|i2: int|
                    1 <= i2 <= k implies #[trigger] read_le32(out@, (i2 - 1) * 4) == cp_pos(
                    s,
                    i2,
                ) by {
                    lemma_read_le32_frame(out0, out@, (i2 - 1) * 4);
                }
                assert forall|i2: int, a2: int|
                    1 <= i2 < i && 0 <= a2 < 98 implies #[trigger] read_le32(
                    out@,
                    k * 4 + (i2 - 1) * 392 + a2 * 4,
                ) == cp_occ(s, i2, a2) by {
                    lemma_read_le32_frame(out0, out@, k * 4 + (i2 - 1) * 392 + a2 * 4);
                }
                assert forall|a2: int|
                    0 <= a2 < a + 1 implies #[trigger] read_le32(
                    out@,
                    k * 4 + (i - 1) * 392 + a2 * 4,
                ) == cp_occ(s, i as int, a2) by {
                    if a2 < a {
                        lemma_read_le32_frame(out0, out@, k * 4 + (i - 1) * 392 + a2 * 4);
                    } else {
                        assert(read_le32(out@, out0.len() as int) == v);
                    }
                }
            }
            a = a + 1;
        }
        i = i + 1;
    }
    proof {
        assert(out@.len() == k * 4 + k * 392);
        assert(k * 4 + k * 392 == k * 396) by (nonlinear_arith);
    }
    (positions, out)
}

/// Build the `C` table: `C[a]` counts the BWT symbols with dense index
/// below `a`, so `C[0] == 0` and `C[98]` is the BWT length.  Starts from the
/// last checkpoint of the index (when there is one) and walks the trailing
/// stream segment.
pub fn gen_c_table(rlb: &Vec<u8>, index: Option<&Vec<u8>>, checkpoints: usize) -> (r: Vec<i32>)
    requires
        wf_rlb(rlb@),
        checkpoints == rlb@.len() as int / 396,
        match index {
            Some(idx) => checkpoints > 0 && wf_index(rlb@, idx@),
            None => checkpoints == 0,
        },
    ensures
        r@.len() == 99,
        forall|a: int| 0 <= a <= 98 ==> #[trigger] r@[a] as int == c_val(rlb@, a),
{
    let ghost s = rlb@;
    let n = rlb.len();
    let k = checkpoints;
    proof {
        vstd::arithmetic::div_mod::lemma_fundamental_div_mod(n as int, 396);
        lemma_bwt_len(s);
        lemma_bwt_in_sigma(s);
        lemma_upto_mono(s, k as int * 396, n as int);
        lemma_upto_mono(s, 0, k as int * 396);
    }
    let mut tab: Vec<i32> = Vec::new();
    let mut z: usize = 0;
    while z < 99
        invariant
            z <= 99,
            tab@.len() == z,
            forall|m: int| 0 <= m < z ==> #[trigger] tab@[m] == 0,
        decreases 99 - z,
    {
        tab.push(0);
        z = z + 1;
    }
    let ghost mut cur: int = cp_pos(s, k as int);
    if let Some(idx) = index {
        let base = k * 4 + (k - 1) * 392;
        let mut a: usize = 0;
        while a < 98
            invariant
                s == rlb@,
                wf_rlb(s),
                n == s.len(),
                k == s.len() as int / 396,
                k >= 1,
                k * 396 <= n,
                wf_index(s, idx@),
                base == k * 4 + (k - 1) * 392,
                cur == cp_pos(s, k as int),
                0 <= cur <= total_len(s),
                total_len(s) <= 0x4000_0000,
                a <= 98,
                tab@.len() == 99,
                tab@[0] == 0,
                forall|m: int| 1 <= m < 99 && m > a ==> #[trigger] tab@[m] == 0,
                forall|m: int|
                    1 <= m <= a ==> #[trigger] tab@[m] as int == count_pre(
                        bwt(s),
                        sigma_byte(m - 1),
                        cur,
                    ),
            decreases 98 - a,
        {
            proof {
                assert(read_le32(idx@, k as int * 4 + (k as int - 1) * 392 + a as int * 4)
                    == cp_occ(s, k as int, a as int));
                lemma_count_pre_nonneg(bwt(s), sigma_byte(a as int), cp_pos(s, k as int));
                assert(idx@.len() == k * 396);
                assert((k as int - 1) * 392 + a as int * 4 + 4 <= k as int * 392);
            }
            let v = read_i32_le(idx, base + a * 4);
            tab.set(a + 1, v);
            a = a + 1;
        }
    }
    // Walk the trailing segment: skip the spill tails of the last counted
    // run, then add every remaining run to its byte's slot.
    let mut j: usize = k * 396;
    while j < n && msb_u8(rlb[j])
        invariant
            s == rlb@,
            n == s.len(),
            k * 396 <= j <= n,
            bwt_upto(s, j as int) == cp_pos(s, k as int),
        decreases n - j,
    {
        j = j + 1;
    }
    while j < n
        invariant
            s == rlb@,
            wf_rlb(s),
            n == s.len(),
            j <= n,
            j == n || !is_tail(s[j as int]),
            cur == bwt_upto(s, j as int),
            0 <= cur <= total_len(s),
            total_len(s) <= 0x4000_0000,
            bwt(s).len() == total_len(s),
            tab@.len() == 99,
            tab@[0] == 0,
            forall|m: int|
                1 <= m < 99 ==> #[trigger] tab@[m] as int == count_pre(
                    bwt(s),
                    sigma_byte(m - 1),
                    cur,
                ),
        decreases n - j,
    {
        let (rl, j2) = read_run(rlb, j, 0);
        proof {
            lemma_upto_mono(s, j2 as int, n as int);
            lemma_run_count_step(s, j as int, rl.ch);
            lemma_sigma_roundtrip(rl.ch);
            lemma_count_pre_nonneg(bwt(s), rl.ch, cur);
        }
        let m = map_char(rl.ch);
        let v = tab[m + 1] + rl.len;
        tab.set(m + 1, v);
        proof {
            let cur2 = cur + rl.len;
            assert forall|m2: int| 1 <= m2 < 99 implies #[trigger] tab@[m2] as int == count_pre(
                bwt(s),
                sigma_byte(m2 - 1),
                cur2,
            ) by {
                lemma_run_count_step(s, j as int, sigma_byte(m2 - 1));
                lemma_sigma_byte_roundtrip(m2 - 1);
                lemma_sigma_roundtrip(rl.ch);
            }
            cur = cur2;
        }
        j = j2;
    }
    proof {
        assert(cur == total_len(s));
    }
    // Prefix-sum in place: afterwards `tab[a]` is the count of symbols with
    // dense index below `a`.
    let ghost t = bwt(s);
    let ghost tot = total_len(s);
    proof {
        lemma_sum_counts_total(t, tot);
    }
    let mut acc: i32 = 0;
    let mut a: usize = 0;
    while a < 99
        invariant
            s == rlb@,
            t == bwt(s),
            tot == total_len(s),
            t.len() == tot,
            0 <= tot <= 0x4000_0000,
            sum_counts(t, tot, 98) == tot,
            forall|q: int| 0 <= q < t.len() ==> in_sigma(#[trigger] t[q]),
            a <= 99,
            tab@.len() == 99,
            acc as int == sum_counts(t, tot, if a == 0 {
                0int
            } else {
                a - 1
            }),
            0 <= acc,
            forall|m: int| 0 <= m < a ==> #[trigger] tab@[m] as int == sum_counts(t, tot, m),
            a == 0 ==> tab@[0] == 0,
            forall|m: int|
                1 <= m < 99 && m >= a ==> #[trigger] tab@[m] as int == count_pre(
                    t,
                    sigma_byte(m - 1),
                    tot,
                ),
        decreases 99 - a,
    {
        proof {
            lemma_sum_counts_mono(t, tot, a as int, 98);
            if a > 0 {
                lemma_sum_counts_mono(t, tot, a as int - 1, 98);
                lemma_count_pre_nonneg(t, sigma_byte(a as int - 1), tot);
                assert(sum_counts(t, tot, a as int) == sum_counts(t, tot, a as int - 1)
                    + count_pre(t, sigma_byte(a as int - 1), tot));
            }
        }
        let v = tab[a] + acc;
        tab.set(a, v);
        acc = v;
        a = a + 1;
    }
    proof {
        assert forall|a2: int| 0 <= a2 <= 98 implies #[trigger] tab@[a2] as int == c_val(
            rlb@,
            a2,
        ) by {}
    }
    tab
}

impl Context {
    /// BWT row of the `nth` occurrence of `ch` in the sorted first column.
    pub fn nth_char_pos(&self, nth: i32, ch: u8) -> (r: i32)
        requires
            self.wf(),
            in_sigma(ch),
            0 <= nth,
            c_val(self.rlb@, sigma_index(ch)) + nth <= 0x4000_0000,
        ensures
            r as int == c_val(self.rlb@, sigma_index(ch)) + nth,
    {
        proof {
            lemma_sum_counts_mono(bwt(self.rlb@), total_len(self.rlb@), 0, sigma_index(ch));
            assert(sum_counts(bwt(self.rlb@), total_len(self.rlb@), 0) == 0);
        }
        self.c_table[map_char(ch)] + nth
    }

    /// The greatest checkpoint whose BWT position is at or before `pos`.
    pub fn find_checkpoint(&self, pos: i32) -> (r: usize)
        requires
            self.wf(),
            0 <= pos,
        ensures
            r <= self.cps,
            cp_pos(self.rlb@, r as int) <= pos,
            r == self.cps || cp_pos(self.rlb@, r as int + 1) > pos,
    {
        let ghost s = self.rlb@;
        let np = self.positions.len();
        let mut lo: usize = 0;
        let mut hi: usize = self.cps;
        proof {
            assert(np == self.cps + 1);
            assert(self.positions@[0] as int == cp_pos(s, 0));
            assert(cp_pos(s, 0) == 0);
        }
        while lo < hi
            invariant
                self.wf(),
                s == self.rlb@,
                np == self.cps + 1,
                lo <= hi <= self.cps,
                cp_pos(s, lo as int) <= pos,
                hi == self.cps || cp_pos(s, hi as int + 1) > pos,
            decreases hi - lo,
        {
            let mid = lo + (hi - lo + 1) / 2;
            if self.positions[mid] <= pos {
                lo = mid;
            } else {
                hi = mid - 1;
            }
        }
        lo
    }

    /// The per-symbol occurrence table stored for a checkpoint; checkpoint 0
    /// (and a missing index) mean an all-zero table.
    fn read_cp(&self, nearest_cp: usize) -> (r: Vec<i32>)
        requires
            self.wf(),
            nearest_cp <= self.cps,
        ensures
            r@.len() == 98,
            forall|a: int|
                0 <= a < 98 ==> #[trigger] r@[a] as int == cp_occ(self.rlb@, nearest_cp as int, a),
    {
        let ghost s = self.rlb@;
        proof {
            lemma_upto_mono(s, 0, nearest_cp as int * 396);
        }
        if nearest_cp == 0 {
            let r = zero_occ();
            proof {
                assert(cp_pos(s, 0) == 0);
            }
            return r;
        }
        match &self.index {
            None => {
                proof {
                    assert(false);
                }
                zero_occ()
            },
            Some(idx) => {
                let ghost k = self.cps as int;
                let ni = idx.len();
                proof {
                    vstd::arithmetic::div_mod::lemma_fundamental_div_mod(s.len() as int, 396);
                    lemma_bwt_len(s);
                    lemma_upto_mono(s, nearest_cp as int * 396, s.len() as int);
                    assert(ni as int == k * 396);
                    assert(self.cps * 4 + (nearest_cp - 1) * 392 + 98 * 4 <= ni);
                }
                let base = self.cps * 4 + (nearest_cp - 1) * 392;
                let mut out: Vec<i32> = Vec::new();
                let mut a: usize = 0;
                while a < 98
                    invariant
                        self.wf(),
                        s == self.rlb@,
                        self.index matches Some(ix) && ix@ == idx@,
                        wf_index(s, idx@),
                        k == self.cps as int,
                        1 <= nearest_cp <= self.cps,
                        idx@.len() == k * 396,
                        ni == idx@.len(),
                        k * 396 <= s.len(),
                        base == k * 4 + (nearest_cp - 1) * 392,
                        base + 98 * 4 <= ni,
                        0 <= cp_pos(s, nearest_cp as int) <= total_len(s),
                        total_len(s) <= 0x4000_0000,
                        a <= 98,
                        out@.len() == a,
                        forall|a2: int|
                            0 <= a2 < a ==> #[trigger] out@[a2] as int == cp_occ(
                                s,
                                nearest_cp as int,
                                a2,
                            ),
                    decreases 98 - a,
                {
                    proof {
                        assert(read_le32(idx@, k * 4 + (nearest_cp as int - 1) * 392 + a as int
                            * 4) == cp_occ(s, nearest_cp as int, a as int));
                        lemma_count_pre_nonneg(
                            bwt(s),
                            sigma_byte(a as int),
                            cp_pos(s, nearest_cp as int),
                        );
                        assert((nearest_cp as int - 1) * 392 + a as int * 4 + 4 <= k * 392);
                    }
                    let v = read_i32_le(idx, base + a * 4);
                    out.push(v);
                    a = a + 1;
                }
                out
            },
        }
    }

    /// Rank query `occ(ch, pos)`: how many times `ch` occurs in
    /// `BWT[0..pos)`.  Starts from the nearest checkpoint at or before `pos`
    /// and walks the stream forward.
    pub fn occ_fn(&self, ch: u8, pos: i32) -> (r: i32)
        requires
            self.wf(),
            in_sigma(ch),
            0 <= pos,
            pos as int <= total_len(self.rlb@),
        ensures
            r as int == occ_spec(self.rlb@, ch, pos as int),
            0 <= r,
            r <= pos,
    {
        let ghost s = self.rlb@;
        proof {
            lemma_bwt_len(s);
        }
        let nearest_cp = self.find_checkpoint(pos);
        let pos_bwt = self.positions[nearest_cp];
        let occ_tab = self.read_cp(nearest_cp);
        let m = map_char(ch);
        proof {
            lemma_sigma_roundtrip(ch);
            lemma_count_pre_nonneg(bwt(s), ch, pos_bwt as int);
        }
        if pos_bwt == pos {
            return occ_tab[m];
        }
        let n = self.rlb.len();
        proof {
            vstd::arithmetic::div_mod::lemma_fundamental_div_mod(n as int, 396);
            lemma_upto_mono(s, 0, nearest_cp as int * 396);
        }
        let mut j: usize = nearest_cp * 396;
        let mut cur = pos_bwt;
        let mut acc = occ_tab[m];
        while j < n && msb_u8(self.rlb[j])
            invariant
                self.wf(),
                s == self.rlb@,
                n == s.len(),
                j <= n,
                bwt_upto(s, j as int) == cur as int,
                cur == pos_bwt,
            decreases n - j,
        {
            j = j + 1;
        }
        while cur < pos
            invariant
                self.wf(),
                s == self.rlb@,
                n == s.len(),
                in_sigma(ch),
                j <= n,
                j == n || !is_tail(s[j as int]),
                0 <= cur,
                cur as int == bwt_upto(s, j as int),
                cur <= pos,
                pos as int <= total_len(s),
                total_len(s) <= 0x4000_0000,
                bwt(s).len() == total_len(s),
                acc as int == count_pre(bwt(s), ch, cur as int),
                0 <= acc,
            decreases pos - cur,
        {
            proof {
                if j == n {
                    assert(cur as int == total_len(s));
                    assert(false);
                }
            }
            let (rl, j2) = read_run(&self.rlb, j, cur);
            proof {
                lemma_upto_mono(s, j2 as int, n as int);
                lemma_run_count_step(s, j as int, ch);
                lemma_count_pre_nonneg(bwt(s), ch, cur as int + rl.len as int);
            }
            if pos - cur < rl.len {
                proof {
                    lemma_run_chars(s, j as int);
                    lemma_count_pre_const_range(bwt(s), ch, rl.ch, cur as int, pos as int);
                    lemma_count_pre_nonneg(bwt(s), ch, pos as int);
                }
                if rl.ch == ch {
                    return acc + (pos - cur);
                } else {
                    return acc;
                }
            }
            if rl.ch == ch {
                acc = acc + rl.len;
            }
            cur = cur + rl.len;
            j = j2;
        }
        proof {
            lemma_count_pre_nonneg(bwt(s), ch, pos as int);
        }
        acc
    }

    /// Decode the run covering BWT position `pos`: its byte, start, length,
    /// and the rank `occ(byte, pos)`.
    pub fn decode(&self, pos: i32) -> (r: RunLength)
        requires
            self.wf(),
            0 <= pos,
            (pos as int) < total_len(self.rlb@),
        ensures
            r.ch == self.rlb@[head_of(self.rlb@, pos as int)],
            in_sigma(r.ch),
            r.pos as int == bwt_upto(self.rlb@, head_of(self.rlb@, pos as int)),
            r.len as int == run_len_at(self.rlb@, head_of(self.rlb@, pos as int)),
            r.rank as int == occ_spec(self.rlb@, r.ch, pos as int),
            r.pos <= pos < r.pos + r.len,
            r.pos as int + r.len as int <= total_len(self.rlb@),
            bwt(self.rlb@)[pos as int] == r.ch,
            0 <= r.rank,
    {
        let ghost s = self.rlb@;
        proof {
            lemma_bwt_len(s);
        }
        let nearest_cp = self.find_checkpoint(pos);
        let pos_bwt = self.positions[nearest_cp];
        let mut occ_tab = self.read_cp(nearest_cp);
        let n = self.rlb.len();
        proof {
            vstd::arithmetic::div_mod::lemma_fundamental_div_mod(n as int, 396);
            lemma_upto_mono(s, 0, nearest_cp as int * 396);
        }
        let mut j: usize = nearest_cp * 396;
        let mut cur = pos_bwt;
        while j < n && msb_u8(self.rlb[j])
            invariant
                self.wf(),
                s == self.rlb@,
                n == s.len(),
                j <= n,
                bwt_upto(s, j as int) == cur as int,
                cur == pos_bwt,
            decreases n - j,
        {
            j = j + 1;
        }
        loop
            invariant
                self.wf(),
                s == self.rlb@,
                n == s.len(),
                j <= n,
                j == n || !is_tail(s[j as int]),
                0 <= cur,
                cur as int == bwt_upto(s, j as int),
                cur <= pos,
                (pos as int) < total_len(s),
                total_len(s) <= 0x4000_0000,
                bwt(s).len() == total_len(s),
                occ_tab@.len() == 98,
                forall|a: int|
                    0 <= a < 98 ==> #[trigger] occ_tab@[a] as int == count_pre(
                        bwt(s),
                        sigma_byte(a),
                        cur as int,
                    ),
            decreases pos - cur,
        {
            proof {
                if j == n {
                    assert(cur as int == total_len(s));
                    assert(false);
                }
            }
            let (rl, j2) = read_run(&self.rlb, j, cur);
            proof {
                lemma_upto_mono(s, j2 as int, n as int);
                lemma_sigma_roundtrip(rl.ch);
            }
            if pos - cur < rl.len {
                let m = map_char(rl.ch);
                proof {
                    lemma_run_chars(s, j as int);
                    lemma_count_pre_const_range(bwt(s), rl.ch, rl.ch, cur as int, pos as int);
                    lemma_count_pre_nonneg(bwt(s), rl.ch, pos as int);
                    lemma_head_of_unique(s, j as int, pos as int);
                }
                let rank = occ_tab[m] + (pos - cur);
                return RunLength { ch: rl.ch, len: rl.len, size: rl.size, pos: cur, rank };
            }
            proof {
                lemma_run_count_step(s, j as int, rl.ch);
                lemma_count_pre_nonneg(bwt(s), rl.ch, cur as int);
            }
            rl.update_occ(&mut occ_tab);
            proof {
                assert forall|a: int| 0 <= a < 98 implies #[trigger] occ_tab@[a] as int
                    == count_pre(bwt(s), sigma_byte(a), cur as int + rl.len as int) by {
                    lemma_run_count_step(s, j as int, sigma_byte(a));
                    lemma_sigma_byte_roundtrip(a);
                    lemma_sigma_roundtrip(rl.ch);
                }
            }
            cur = cur + rl.len;
            j = j2;
        }
    }
}

/// Four bytes below 256 are determined by their little-endian value.
proof fn lemma_le32_injective(x0: u8, x1: u8, x2: u8, x3: u8, y0: u8, y1: u8, y2: u8, y3: u8)
    requires
        le32(x0, x1, x2, x3) == le32(y0, y1, y2, y3),
    ensures
        x0 == y0 && x1 == y1 && x2 == y2 && x3 == y3,
{
    let v = le32(x0, x1, x2, x3);
    vstd::arithmetic::div_mod::lemma_fundamental_div_mod_converse(
        v,
        256,
        x1 + 256 * x2 + 65536 * x3,
        x0 as int,
    );
    vstd::arithmetic::div_mod::lemma_fundamental_div_mod_converse(
        v,
        256,
        y1 + 256 * y2 + 65536 * y3,
        y0 as int,
    );
    let w = x1 + 256 * x2 + 65536 * x3;
    vstd::arithmetic::div_mod::lemma_fundamental_div_mod_converse(
        w,
        256,
        x2 + 256 * x3,
        x1 as int,
    );
    vstd::arithmetic::div_mod::lemma_fundamental_div_mod_converse(
        w,
        256,
        y2 + 256 * y3,
        y1 as int,
    );
    let u = x2 + 256 * x3;
    vstd::arithmetic::div_mod::lemma_fundamental_div_mod_converse(u, 256, x3 as int, x2 as int);
    vstd::arithmetic::div_mod::lemma_fundamental_div_mod_converse(u, 256, y3 as int, y2 as int);
}

/// Index determinism: one stream admits exactly one index file.  Every
/// aligned four-byte group of the layout is pinned by a stored value, so
/// two byte sequences that both satisfy the layout are equal byte for byte.
pub proof fn lemma_index_deterministic(s: Seq<u8>, idx1: Seq<u8>, idx2: Seq<u8>)
    requires
        wf_index(s, idx1),
        wf_index(s, idx2),
    ensures
        idx1 == idx2,
{
    let k = s.len() as int / 396;
    assert forall|n: int| 0 <= n < idx1.len() implies idx1[n] == idx2[n] by {
        let g = n / 4;
        let o = 4 * g;
        vstd::arithmetic::div_mod::lemma_fundamental_div_mod(n, 4);
        assert(o <= n < o + 4);
        if g < k {
            let i = g + 1;
            assert(read_le32(idx1, (i - 1) * 4) == cp_pos(s, i));
            assert(read_le32(idx2, (i - 1) * 4) == cp_pos(s, i));
            assert((i - 1) * 4 == o);
            lemma_le32_injective(
                idx1[o],
                idx1[o + 1],
                idx1[o + 2],
                idx1[o + 3],
                idx2[o],
                idx2[o + 1],
                idx2[o + 2],
                idx2[o + 3],
            );
        } else {
            let m = g - k;
            vstd::arithmetic::div_mod::lemma_fundamental_div_mod(m, 98);
            let i = m / 98 + 1;
            let a = m % 98;
            assert(0 <= a < 98);
            assert(m < 98 * k) by {
                assert(n < k * 396);
            }
            assert(i <= k) by {
                if m / 98 + 1 > k {
                    assert(m / 98 >= k);
                    vstd::arithmetic::div_mod::lemma_fundamental_div_mod(m, 98);
                    assert(m == 98 * (m / 98) + m % 98);
                    vstd::arithmetic::mul::lemma_mul_inequality(k, m / 98, 98);
                    assert(false);
                }
            }
            assert(read_le32(idx1, k * 4 + (i - 1) * 392 + a * 4) == cp_occ(s, i, a));
            assert(read_le32(idx2, k * 4 + (i - 1) * 392 + a * 4) == cp_occ(s, i, a));
            assert(k * 4 + (i - 1) * 392 + a * 4 == o) by {
                assert(m == 98 * (i - 1) + a);
            }
            lemma_le32_injective(
                idx1[o],
                idx1[o + 1],
                idx1[o + 2],
                idx1[o + 3],
                idx2[o],
                idx2[o + 1],
                idx2[o + 2],
                idx2[o + 3],
            );
        }
    }
    assert(idx1 =~= idx2);
}

/// Checkpoint positions strictly increase: every chunk starts at least one
/// run, so each checkpoint lies strictly past the one before it.
pub proof fn lemma_positions_strictly_increase(s: Seq<u8>, i: int)
    requires
        wf_rlb(s),
        0 <= i,
        (i + 1) * 396 <= s.len(),
    ensures
        cp_pos(s, i) < cp_pos(s, i + 1),
{
    crate::model::lemma_upto_strict(s, i * 396, (i + 1) * 396);
}

} // verus!
