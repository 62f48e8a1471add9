//! Positional cache of decoded runs, backward search, and the record
//! reconstruction walks.

use vstd::prelude::*;

use crate::Context;
use crate::index::map_char;
use crate::model::{
    bwt, bwt_upto, c_val, count_pre, head_of, in_sigma, is_tail, lemma_c_val_bounds,
    lemma_count_pre_const_range, lemma_count_pre_mono, lemma_count_pre_nonneg, lemma_covering_run,
    lemma_bwt_len, lemma_head_of_unique, lemma_lf_in_range, lemma_run_chars, lemma_run_len_pos, lemma_sigma_roundtrip,
    lemma_total_pos, lemma_upto_mono, lf_spec, rev_seq, run_len_at, sigma_byte, sigma_index, total_len, wf_rlb,
};

verus! {

/// A cached run record: byte, run start position, run length, and the
/// occurrence count of the byte at the run's start.
#[derive(Debug, Clone, Copy)]
pub struct CacheRL {
    pub ch: u8,
    pub pos: i32,
    pub len: i32,
    pub rank: i32,
}

/// Whether `e` describes exactly the run headed at stream byte `h`, with
/// `rank` normalized to the run's starting occurrence count.
pub open spec fn run_matches(s: Seq<u8>, h: int, e: CacheRL) -> bool {
    &&& 0 <= h < s.len()
    &&& !is_tail(s[h])
    &&& s[h] == e.ch
    &&& bwt_upto(s, h) == e.pos as int
    &&& run_len_at(s, h) == e.len as int
    &&& count_pre(bwt(s), e.ch, e.pos as int) == e.rank as int
}

/// A cache entry is some true run of the stream.
pub open spec fn entry_ok(s: Seq<u8>, e: CacheRL) -> bool {
    exists|h: int| #[trigger] run_matches(s, h, e)
}

/// Whether an entry's run interval contains a position.
pub open spec fn entry_covers(e: CacheRL, pos: int) -> bool {
    e.pos <= pos < e.pos + e.len
}

/// Whether a sequence of entries holds this exact entry.
pub open spec fn contains_entry(es: Seq<CacheRL>, e: CacheRL) -> bool {
    exists|m: int| 0 <= m < es.len() && (#[trigger] es[m]) == e
}

/// True runs occupy disjoint intervals: a run that starts earlier ends at
/// or before the start of any run that starts later.
pub proof fn lemma_runs_disjoint(s: Seq<u8>, e1: CacheRL, e2: CacheRL)
    requires
        entry_ok(s, e1),
        entry_ok(s, e2),
        e1.pos < e2.pos,
    ensures
        e1.pos + e1.len <= e2.pos,
{
    let h1 = choose|h: int| run_matches(s, h, e1);
    let h2 = choose|h: int| run_matches(s, h, e2);
    assert(run_matches(s, h1, e1));
    assert(run_matches(s, h2, e2));
    if h1 >= h2 {
        lemma_upto_mono(s, h2, h1);
        assert(false);
    }
    assert(bwt_upto(s, h1 + 1) == bwt_upto(s, h1) + run_len_at(s, h1));
    lemma_upto_mono(s, h1 + 1, h2);
}

/// Bounded set of decoded runs, ordered by run start position, answering
/// predecessor lookups.
pub struct Cache {
    pub entries: Vec<CacheRL>,
}

impl Cache {
    /// Every entry is a true run and starts strictly after the one before it.
    pub open spec fn wf(&self, s: Seq<u8>) -> bool {
        &&& forall|m: int|
            0 <= m < self.entries@.len() ==> entry_ok(s, #[trigger] self.entries@[m])
        &&& forall|m1: int, m2: int|
            0 <= m1 < m2 < self.entries@.len() ==> self.entries@[m1].pos
                < self.entries@[m2].pos
    }

    /// An empty cache.
    pub fn new() -> (r: Cache)
        ensures
            r.entries@.len() == 0,
    {
        Cache { entries: Vec::new() }
    }

    /// Predecessor lookup: if some stored run covers `pos`, return it with
    /// its `rank` advanced to `pos`; a miss means no stored run covers it.
    pub fn search(&self, pos: i32, Ghost(s): Ghost<Seq<u8>>) -> (r: Option<CacheRL>)
        requires
            self.wf(s),
            wf_rlb(s),
            0 <= pos,
            (pos as int) < total_len(s),
        ensures
            match r {
                Some(e) => {
                    &&& e.ch == s[head_of(s, pos as int)]
                    &&& e.pos as int == bwt_upto(s, head_of(s, pos as int))
                    &&& e.len as int == run_len_at(s, head_of(s, pos as int))
                    &&& e.rank as int == count_pre(bwt(s), e.ch, pos as int)
                },
                None => forall|m: int|
                    0 <= m < self.entries@.len() ==> !entry_covers(
                        #[trigger] self.entries@[m],
                        pos as int,
                    ),
            },
    {
        let n = self.entries.len();
        if n == 0 {
            return None;
        }
        if self.entries[0].pos > pos {
            proof {
                assert forall|m: int| 0 <= m < self.entries@.len() implies !entry_covers(
                    #[trigger] self.entries@[m],
                    pos as int,
                ) by {
                    if m > 0 {
                        assert(self.entries@[0].pos < self.entries@[m].pos);
                    }
                }
            }
            return None;
        }
        let mut lo: usize = 0;
        let mut hi: usize = n - 1;
        while lo < hi
            invariant
                self.wf(s),
                n == self.entries@.len(),
                0 < n,
                lo <= hi < n,
                self.entries@[lo as int].pos <= pos,
                hi == n - 1 || self.entries@[hi + 1].pos > pos,
            decreases hi - lo,
        {
            let mid = lo + (hi - lo + 1) / 2;
            if self.entries[mid].pos <= pos {
                lo = mid;
            } else {
                hi = mid - 1;
            }
        }
        let e = self.entries[lo];
        proof {
            let h = choose|h: int| run_matches(s, h, e);
            assert(run_matches(s, h, e));
            lemma_upto_mono(s, 0, h);
            lemma_upto_mono(s, h + 1, s.len() as int);
            lemma_run_len_pos(s, h);
            assert(bwt_upto(s, h + 1) == bwt_upto(s, h) + run_len_at(s, h));
        }
        if pos < e.pos + e.len {
            proof {
                let h = choose|h: int| run_matches(s, h, e);
                lemma_head_of_unique(s, h, pos as int);
                lemma_run_chars(s, h);
                lemma_count_pre_const_range(bwt(s), e.ch, e.ch, e.pos as int, pos as int);
                lemma_covering_run(s, pos as int);
                lemma_count_pre_nonneg(bwt(s), e.ch, pos as int);
                assert(e.rank + (pos - e.pos) == count_pre(bwt(s), e.ch, pos as int));
            }
            Some(CacheRL { rank: e.rank + (pos - e.pos), ..e })
        } else {
            proof {
                assert forall|m: int| 0 <= m < self.entries@.len() implies !entry_covers(
                    #[trigger] self.entries@[m],
                    pos as int,
                ) by {
                    if m < lo {
                        assert(self.entries@[m].pos < e.pos);
                        lemma_runs_disjoint(s, self.entries@[m], e);
                    } else if m > lo {
                        if m > lo + 1 {
                            assert(self.entries@[lo + 1].pos < self.entries@[m].pos);
                        }
                        assert(self.entries@[m].pos > pos);
                    }
                }
            }
            None
        }
    }

    /// Remember a run, keeping order, ignoring duplicates, and inserting
    /// nothing once the cache is full: the size never passes `MAX_CACHE`,
    /// grows by at most one, and every stored run is kept.
    pub fn insert(&mut self, e: CacheRL, Ghost(s): Ghost<Seq<u8>>)
        requires
            old(self).wf(s),
            entry_ok(s, e),
        ensures
            final(self).wf(s),
            old(self).entries@.len() <= final(self).entries@.len() <= old(self).entries@.len()
                + 1,
            old(self).entries@.len() <= crate::MAX_CACHE ==> final(self).entries@.len()
                <= crate::MAX_CACHE,
            old(self).entries@.len() >= crate::MAX_CACHE ==> final(self).entries@ == old(
                self,
            ).entries@,
            old(self).entries@.len() < crate::MAX_CACHE ==> exists|m: int|
                0 <= m < final(self).entries@.len() && (#[trigger] final(self).entries@[m]).pos
                    == e.pos,
            forall|m: int|
                0 <= m < old(self).entries@.len() ==> contains_entry(
                    final(self).entries@,
                    #[trigger] old(self).entries@[m],
                ),
    {
        let n = self.entries.len();
        if n >= crate::MAX_CACHE {
            proof {
                assert forall|m: int| 0 <= m < self.entries@.len() implies contains_entry(
                    self.entries@,
                    #[trigger] self.entries@[m],
                ) by {
                    assert(0 <= m < self.entries@.len() && self.entries@[m] == self.entries@[m]);
                }
            }
            return;
        }
        let mut lo: usize = 0;
        let mut hi: usize = n;
        while lo < hi
            invariant
                self.wf(s),
                n == self.entries@.len(),
                lo <= hi <= n,
                forall|m: int| 0 <= m < lo ==> #[trigger] self.entries@[m].pos < e.pos,
                forall|m: int| hi <= m < n ==> #[trigger] self.entries@[m].pos >= e.pos,
            decreases hi - lo,
        {
            let mid = lo + (hi - lo) / 2;
            if self.entries[mid].pos < e.pos {
                lo = mid + 1;
            } else {
                hi = mid;
            }
        }
        if lo < n && self.entries[lo].pos == e.pos {
            proof {
                assert(self.entries@[lo as int].pos == e.pos);
                assert forall|m: int| 0 <= m < self.entries@.len() implies contains_entry(
                    self.entries@,
                    #[trigger] self.entries@[m],
                ) by {
                    assert(0 <= m < self.entries@.len() && self.entries@[m] == self.entries@[m]);
                }
            }
            return;
        }
        let ghost before = self.entries@;
        self.entries.insert(lo, e);
        proof {
            assert forall|m: int|
                0 <= m < self.entries@.len() implies entry_ok(s, #[trigger] self.entries@[m]) by {
                if m < lo {
                    assert(self.entries@[m] == before[m]);
                } else if m == lo {
                    assert(self.entries@[m] == e);
                } else {
                    assert(self.entries@[m] == before[m - 1]);
                }
            }
            assert forall|m1: int, m2: int|
                0 <= m1 < m2 < self.entries@.len() implies self.entries@[m1].pos
                < self.entries@[m2].pos by {
                if m1 < lo && m2 < lo {
                } else if m1 == lo && m2 > lo {
                    assert(self.entries@[m2] == before[m2 - 1]);
                    assert(before[m2 - 1].pos >= e.pos);
                    if before[m2 - 1].pos == e.pos {
                        assert(m2 - 1 == lo || before[lo as int].pos < before[m2 - 1].pos);
                        assert(false);
                    }
                } else if m1 < lo && m2 == lo {
                } else if m1 < lo && m2 > lo {
                    assert(self.entries@[m2] == before[m2 - 1]);
                } else {
                    assert(self.entries@[m1] == before[m1 - 1]);
                    assert(self.entries@[m2] == before[m2 - 1]);
                }
            }
            assert(self.entries@[lo as int].pos == e.pos);
            assert forall|m: int| 0 <= m < before.len() implies contains_entry(
                self.entries@,
                #[trigger] before[m],
            ) by {
                if m < lo {
                    assert(self.entries@[m] == before[m]);
                } else {
                    assert(self.entries@[m + 1] == before[m]);
                }
            }
        }
    }
}

/// Decimal digits of a nonnegative value, most significant first.
pub open spec fn dec_digits(v: int) -> Seq<u8>
    decreases v,
{
    if v <= 9 {
        seq![(48 + if 0 <= v {
            v
        } else {
            0int
        }) as u8]
    } else {
        dec_digits(v / 10) + seq![(48 + v % 10) as u8]
    }
}

/// Whether every byte is a decimal digit.
pub open spec fn all_digits(ds: Seq<u8>) -> bool {
    forall|q: int| 0 <= q < ds.len() ==> 48 <= #[trigger] ds[q] <= 57
}

/// Value of the first `i` digits read as a decimal number.
pub open spec fn dec_val(ds: Seq<u8>, i: int) -> int
    decreases i,
{
    if i <= 0 {
        0
    } else {
        dec_val(ds, i - 1) * 10 + (ds[i - 1] - 48)
    }
}

/// Decimal values of digit strings are nonnegative.
pub proof fn lemma_dec_val_nonneg(ds: Seq<u8>, i: int)
    requires
        all_digits(ds),
        i <= ds.len(),
    ensures
        0 <= dec_val(ds, i),
    decreases i,
{
    if i > 0 {
        lemma_dec_val_nonneg(ds, i - 1);
    }
}

/// Decimal values only grow as digits are appended.
pub proof fn lemma_dec_val_grows(ds: Seq<u8>, i: int, j: int)
    requires
        all_digits(ds),
        0 <= i <= j <= ds.len(),
    ensures
        0 <= dec_val(ds, i),
        dec_val(ds, i) <= dec_val(ds, j),
        i < j ==> dec_val(ds, j) >= 10 * dec_val(ds, i),
    decreases j - i,
{
    lemma_dec_val_nonneg(ds, i);
    if i < j {
        lemma_dec_val_grows(ds, i, j - 1);
        lemma_dec_val_nonneg(ds, j - 1);
    }
}

/// Digits of a valid value are digit bytes.
pub proof fn lemma_dec_digits_are_digits(v: int)
    requires
        0 <= v,
    ensures
        dec_digits(v).len() >= 1,
        all_digits(dec_digits(v)),
    decreases v,
{
    if v > 9 {
        lemma_dec_digits_are_digits(v / 10);
    }
}

/// Append the decimal digits of `v`.
pub fn push_dec(out: &mut Vec<u8>, v: i32)
    requires
        0 <= v,
    ensures
        final(out)@ == old(out)@ + dec_digits(v as int),
    decreases v,
{
    if v >= 10 {
        push_dec(out, v / 10);
    }
    out.push(48 + (v % 10) as u8);
    proof {
        if v <= 9 {
            assert(dec_digits(v as int) == seq![(48 + v) as u8]);
            assert(final(out)@ =~= old(out)@ + dec_digits(v as int));
        } else {
            assert(dec_digits(v as int) == dec_digits(v as int / 10) + seq![
                (48 + v as int % 10) as u8,
            ]);
            assert(final(out)@ =~= old(out)@ + dec_digits(v as int));
        }
    }
}

/// Parse digit bytes as a decimal value; refused when empty, when any byte
/// is not a digit, or when the value exceeds 1000000000.
pub fn parse_dec(buf: &Vec<u8>) -> (r: Option<i32>)
    ensures
        match r {
            Some(v) => buf@.len() > 0 && all_digits(buf@) && 0 <= v && v <= 1000000000
                && v as int == dec_val(buf@, buf@.len() as int),
            None => buf@.len() == 0 || !all_digits(buf@) || dec_val(buf@, buf@.len() as int)
                > 1000000000,
        },
{
    let n = buf.len();
    if n == 0 {
        return None;
    }
    let mut acc: i32 = 0;
    let mut q: usize = 0;
    while q < n
        invariant
            n == buf@.len(),
            q <= n,
            forall|m: int| 0 <= m < q ==> 48 <= #[trigger] buf@[m] <= 57,
            acc as int == dec_val(buf@, q as int),
            0 <= acc <= 1000000000,
        decreases n - q,
    {
        let b = buf[q];
        if b < 48 || b > 57 {
            return None;
        }
        if acc > 100000000 {
            proof {
                if all_digits(buf@) {
                    lemma_dec_val_grows(buf@, q as int, n as int);
                }
            }
            return None;
        }
        let v2 = acc * 10 + ((b - 48) as i32);
        proof {
            if v2 > 1000000000 && all_digits(buf@) {
                lemma_dec_val_grows(buf@, q as int + 1, n as int);
            }
        }
        if v2 > 1000000000 {
            return None;
        }
        acc = v2;
        q = q + 1;
    }
    Some(acc)
}

/// Reverse a byte vector into a fresh one.
pub fn reversed(buf: &Vec<u8>) -> (r: Vec<u8>)
    ensures
        r@ == rev_seq(buf@),
{
    let n = buf.len();
    let mut out: Vec<u8> = Vec::new();
    let mut q: usize = 0;
    while q < n
        invariant
            n == buf@.len(),
            q <= n,
            out@.len() == q,
            forall|m: int| 0 <= m < q ==> #[trigger] out@[m] == buf@[n - 1 - m],
        decreases n - q,
    {
        out.push(buf[n - 1 - q]);
        q = q + 1;
    }
    proof {
        assert(out@ =~= rev_seq(buf@));
    }
    out
}

impl Context {
    /// Decode through the positional cache: a predecessor hit answers from
    /// the cache, a miss decodes from the stream and remembers the run with
    /// its rank normalized to the run start.  Either way the result is the
    /// run covering `pos` with `rank == occ(byte, pos)`.
    pub fn cached_decode(&mut self, pos: i32) -> (r: CacheRL)
        requires
            old(self).wf(),
            0 <= pos,
            (pos as int) < total_len(old(self).rlb@),
        ensures
            final(self).wf(),
            *final(self) == (Context { cache: final(self).cache, ..*old(self) }),
            r.ch == bwt(old(self).rlb@)[pos as int],
            in_sigma(r.ch),
            r.pos as int == bwt_upto(old(self).rlb@, head_of(old(self).rlb@, pos as int)),
            r.len as int == run_len_at(old(self).rlb@, head_of(old(self).rlb@, pos as int)),
            r.pos <= pos < r.pos + r.len,
            r.rank as int == count_pre(bwt(old(self).rlb@), r.ch, pos as int),
            0 <= r.rank,
    {
        let ghost s = self.rlb@;
        proof {
            lemma_covering_run(s, pos as int);
            lemma_count_pre_nonneg(bwt(s), bwt(s)[pos as int], pos as int);
        }
        let hit = self.cache.search(pos, Ghost(s));
        match hit {
            Some(rl) => rl,
            None => {
                let rl = self.decode(pos);
                proof {
                    lemma_count_pre_nonneg(bwt(s), rl.ch, rl.pos as int);
                }
                let base = rl.rank - (pos - rl.pos);
                let e = CacheRL { ch: rl.ch, pos: rl.pos, len: rl.len, rank: base };
                proof {
                    assert(run_matches(s, head_of(s, pos as int), e));
                }
                self.cache.insert(e, Ghost(s));
                CacheRL { ch: rl.ch, pos: rl.pos, len: rl.len, rank: rl.rank }
            },
        }
    }
}

/// One backward-search step: prepending byte `c` maps a row bound `p` to
/// `C[c] + occ(c, p)`.
pub open spec fn bs_step(s: Seq<u8>, c: u8, p: int) -> int {
    c_val(s, sigma_index(c)) + count_pre(bwt(s), c, p)
}

/// The row range after backward-searching `pat[0..i]`; `pat` is the
/// reversed pattern, so `pat[0]` is the pattern's last byte.
pub open spec fn sp_range(s: Seq<u8>, pat: Seq<u8>, i: int) -> (int, int)
    decreases i,
{
    if i <= 1 {
        (c_val(s, sigma_index(pat[0])), c_val(s, sigma_index(pat[0]) + 1))
    } else {
        let prev = sp_range(s, pat, i - 1);
        (bs_step(s, pat[i - 1], prev.0), bs_step(s, pat[i - 1], prev.1))
    }
}

/// Backward-search steps keep row bounds inside the BWT.
pub proof fn lemma_bs_step_bounds(s: Seq<u8>, c: u8, p: int)
    requires
        wf_rlb(s),
        in_sigma(c),
        0 <= p <= total_len(s),
    ensures
        0 <= bs_step(s, c, p) <= total_len(s),
{
    lemma_bwt_len(s);
    lemma_sigma_roundtrip(c);
    lemma_c_val_bounds(s, 0, sigma_index(c));
    lemma_count_pre_nonneg(bwt(s), c, p);
    lemma_count_pre_mono(bwt(s), c, p, total_len(s));
    assert(c_val(s, sigma_index(c) + 1) == c_val(s, sigma_index(c)) + count_pre(
        bwt(s),
        sigma_byte(sigma_index(c)),
        total_len(s),
    ));
    lemma_c_val_bounds(s, sigma_index(c) + 1, 98);
}

/// The reversed pattern that locates the row just after `[<id>`: the id's
/// digits back to front, then the opening bracket.
pub open spec fn id_prefix_pat(id: int) -> Seq<u8> {
    rev_seq(dec_digits(id)) + seq![91u8]
}

/// The single-row backward walk used to locate a record by id: starts at
/// the first row of the `]` block and prepends each pattern byte.
pub open spec fn bs_walk(s: Seq<u8>, pat: Seq<u8>, i: int) -> int
    decreases i,
{
    if i <= 0 {
        c_val(s, sigma_index(93))
    } else {
        bs_step(s, pat[i - 1], bs_walk(s, pat, i - 1))
    }
}

/// The BWT row of a record's text end, from its id.
pub open spec fn pos_of_id_spec(s: Seq<u8>, id: int) -> int {
    bs_walk(s, id_prefix_pat(id), id_prefix_pat(id).len() as int)
}

impl Context {
    /// Backward search for the (already reversed) pattern, returning the
    /// matching BWT row range `[lo, hi)`; the range is empty when `lo >= hi`.
    pub fn search_pattern(&self, pattern: &[u8]) -> (r: (i32, i32))
        requires
            self.wf(),
            pattern@.len() >= 1,
            forall|q: int| 0 <= q < pattern@.len() ==> in_sigma(#[trigger] pattern@[q]),
        ensures
            r.0 as int == sp_range(self.rlb@, pattern@, pattern@.len() as int).0,
            r.1 as int == sp_range(self.rlb@, pattern@, pattern@.len() as int).1,
            0 <= r.0 <= total_len(self.rlb@),
            0 <= r.1 <= total_len(self.rlb@),
    {
        let ghost s = self.rlb@;
        let m0 = map_char(pattern[0]);
        proof {
            lemma_sigma_roundtrip(pattern@[0]);
            lemma_c_val_bounds(s, 0, m0 as int);
            lemma_c_val_bounds(s, m0 as int, m0 as int + 1);
            lemma_c_val_bounds(s, m0 as int + 1, 98);
        }
        let mut lo = self.c_table[m0];
        let mut hi = self.c_table[m0 + 1];
        let n = pattern.len();
        let mut q: usize = 1;
        while q < n
            invariant
                self.wf(),
                s == self.rlb@,
                n == pattern@.len(),
                forall|m: int| 0 <= m < pattern@.len() ==> in_sigma(#[trigger] pattern@[m]),
                1 <= q <= n,
                lo as int == sp_range(s, pattern@, q as int).0,
                hi as int == sp_range(s, pattern@, q as int).1,
                0 <= lo,
                lo as int <= total_len(s),
                0 <= hi,
                hi as int <= total_len(s),
                total_len(s) <= 0x4000_0000,
            decreases n - q,
        {
            let ch = pattern[q];
            let olo = self.occ_fn(ch, lo);
            let ohi = self.occ_fn(ch, hi);
            proof {
                lemma_bs_step_bounds(s, ch, lo as int);
                lemma_bs_step_bounds(s, ch, hi as int);
                lemma_sigma_roundtrip(ch);
            }
            lo = self.nth_char_pos(olo, ch);
            hi = self.nth_char_pos(ohi, ch);
            q = q + 1;
        }
        (lo, hi)
    }

    /// Locate the BWT row just after the header `[<id>` — the row of the
    /// record's last text byte — by backward-searching from the `]` block.
    pub fn search_pos_of_id(&self, id: i32) -> (r: i32)
        requires
            self.wf(),
            0 <= id,
        ensures
            r as int == pos_of_id_spec(self.rlb@, id as int),
            0 <= r,
            r as int <= total_len(self.rlb@),
    {
        let ghost s = self.rlb@;
        let mut digits: Vec<u8> = Vec::new();
        push_dec(&mut digits, id);
        let mut pat = reversed(&digits);
        pat.push(91);
        proof {
            lemma_dec_digits_are_digits(id as int);
            assert(pat@ =~= id_prefix_pat(id as int));
            assert forall|m: int| 0 <= m < pat@.len() implies in_sigma(#[trigger] pat@[m]) by {
                if m < pat@.len() - 1 {
                    assert(pat@[m] == dec_digits(id as int)[dec_digits(id as int).len() - 1 - m]);
                }
            }
        }
        let m93 = map_char(93);
        proof {
            lemma_c_val_bounds(s, 0, 64);
            lemma_c_val_bounds(s, 64, 98);
        }
        let mut pos = self.c_table[m93];
        let n = pat.len();
        let mut q: usize = 0;
        while q < n
            invariant
                self.wf(),
                s == self.rlb@,
                n == pat@.len(),
                pat@ == id_prefix_pat(id as int),
                forall|m: int| 0 <= m < pat@.len() ==> in_sigma(#[trigger] pat@[m]),
                q <= n,
                pos as int == bs_walk(s, pat@, q as int),
                0 <= pos,
                pos as int <= total_len(s),
                total_len(s) <= 0x4000_0000,
            decreases n - q,
        {
            let ch = pat[q];
            let o = self.occ_fn(ch, pos);
            proof {
                lemma_bs_step_bounds(s, ch, pos as int);
                lemma_sigma_roundtrip(ch);
            }
            pos = self.nth_char_pos(o, ch);
            q = q + 1;
        }
        pos
    }
}

/// Cap on reconstructed record length; a longer walk is treated as
/// malformed input.
pub const MAX_RECORD_LEN: usize = 5000;

/// Budget for the id-discovery walk: a record plus an id header.
pub const MAX_ID_WALK: usize = 5016;

/// The id-discovery walk, one LF step per unfolding: remember whether a `]`
/// has been passed, collect bytes after it, stop at a `[`.
pub open spec fn id_walk(s: Seq<u8>, p: int, seen: bool, acc: Seq<u8>, fuel: nat) -> Option<
    Seq<u8>,
>
    decreases fuel,
{
    if fuel == 0 {
        None
    } else {
        let seen2 = seen || bwt(s)[p] == 93;
        let p2 = lf_spec(s, p);
        if bwt(s)[p2] == 91 {
            Some(acc)
        } else {
            id_walk(
                s,
                p2,
                seen2,
                if seen2 {
                    acc.push(bwt(s)[p2])
                } else {
                    acc
                },
                (fuel - 1) as nat,
            )
        }
    }
}

/// The record identifier found by walking backward from row `p`: the bytes
/// between the record's `]` and the `[` before it, read as a decimal.
pub open spec fn id_at_row(s: Seq<u8>, p: int) -> Option<int> {
    match id_walk(s, p, false, Seq::empty(), MAX_ID_WALK as nat) {
        None => None,
        Some(acc) => {
            let ds = rev_seq(acc);
            if ds.len() > 0 && all_digits(ds) && dec_val(ds, ds.len() as int) <= 1000000000 {
                Some(dec_val(ds, ds.len() as int))
            } else {
                None
            }
        },
    }
}

/// The record-text walk: collect bytes backward until the record's `]`.
pub open spec fn rec_walk(s: Seq<u8>, p: int, acc: Seq<u8>, fuel: nat) -> Option<Seq<u8>>
    decreases fuel,
{
    if bwt(s)[p] == 93 {
        Some(acc)
    } else if fuel == 0 {
        None
    } else {
        rec_walk(s, lf_spec(s, p), acc.push(bwt(s)[p]), (fuel - 1) as nat)
    }
}

/// The record text whose last byte sits at row `p`, in reading order.
pub open spec fn record_at(s: Seq<u8>, p: int) -> Option<Seq<u8>> {
    match rec_walk(s, p, Seq::empty(), MAX_RECORD_LEN as nat) {
        None => None,
        Some(acc) => Some(rev_seq(acc)),
    }
}

impl Context {
    /// Walk backward from row `pos` and decode the identifier of the record
    /// that contains that position.  Refused (`None`) when the walk exceeds
    /// its budget or what it collected is not a decimal number — both only
    /// happen on streams that are not the BWT of a bracketed record corpus.
    #[verifier::loop_isolation(false)]
    pub fn search_id_in_pos(&mut self, pos: i32) -> (r: Option<i32>)
        requires
            old(self).wf(),
            0 <= pos,
            (pos as int) < total_len(old(self).rlb@),
        ensures
            final(self).wf(),
            *final(self) == (Context { cache: final(self).cache, ..*old(self) }),
            match r {
                Some(v) => id_at_row(old(self).rlb@, pos as int) == Some(v as int) && 0 <= v
                    && v <= 1000000000,
                None => id_at_row(old(self).rlb@, pos as int) is None,
            },
    {
        let ghost s = self.rlb@;
        let ghost w = id_walk(s, pos as int, false, Seq::<u8>::empty(), MAX_ID_WALK as nat);
        proof {
            lemma_bwt_len(s);
        }
        let mut pos = pos;
        let mut buf: Vec<u8> = Vec::new();
        let mut id = false;
        let mut rl = self.cached_decode(pos);
        let mut fuel: usize = MAX_ID_WALK;
        loop
            invariant
                self.wf(),
                self.rlb@ == s,
                *self == (Context { cache: self.cache, ..*old(self) }),
                0 <= pos,
                (pos as int) < total_len(s),
                rl.ch == bwt(s)[pos as int],
                in_sigma(rl.ch),
                rl.rank as int == count_pre(bwt(s), rl.ch, pos as int),
                0 <= rl.rank,
                fuel <= MAX_ID_WALK,
                id_walk(s, pos as int, id, buf@, fuel as nat) == w,
            decreases fuel,
        {
            if fuel == 0 {
                return None;
            }
            fuel = fuel - 1;
            if rl.ch == 93 {
                id = true;
            }
            proof {
                lemma_lf_in_range(s, pos as int);
            }
            let pos2 = self.nth_char_pos(rl.rank, rl.ch);
            proof {
                assert(pos2 as int == lf_spec(s, pos as int));
            }
            pos = pos2;
            rl = self.cached_decode(pos);
            if rl.ch == 91 {
                proof {
                    assert(w == Some(buf@));
                }
                let rev = reversed(&buf);
                let parsed = parse_dec(&rev);
                return parsed;
            }
            if id {
                buf.push(rl.ch);
            }
        }
    }

    /// Reconstruct the record text whose last byte sits at row `pos`,
    /// walking backward until the record's closing bracket.  Refused when
    /// the walk exceeds the record-length cap.
    #[verifier::loop_isolation(false)]
    pub fn rebuild_record(&mut self, pos: i32) -> (r: Option<Vec<u8>>)
        requires
            old(self).wf(),
            0 <= pos,
            (pos as int) < total_len(old(self).rlb@),
        ensures
            final(self).wf(),
            *final(self) == (Context { cache: final(self).cache, ..*old(self) }),
            match r {
                Some(v) => record_at(old(self).rlb@, pos as int) == Some(v@),
                None => record_at(old(self).rlb@, pos as int) is None,
            },
    {
        let ghost s = self.rlb@;
        let ghost w = rec_walk(s, pos as int, Seq::<u8>::empty(), MAX_RECORD_LEN as nat);
        proof {
            lemma_bwt_len(s);
        }
        let mut pos = pos;
        let mut buf: Vec<u8> = Vec::new();
        let mut rl = self.cached_decode(pos);
        let mut fuel: usize = MAX_RECORD_LEN;
        loop
            invariant
                self.wf(),
                self.rlb@ == s,
                *self == (Context { cache: self.cache, ..*old(self) }),
                0 <= pos,
                (pos as int) < total_len(s),
                rl.ch == bwt(s)[pos as int],
                in_sigma(rl.ch),
                rl.rank as int == count_pre(bwt(s), rl.ch, pos as int),
                0 <= rl.rank,
                fuel <= MAX_RECORD_LEN,
                rec_walk(s, pos as int, buf@, fuel as nat) == w,
            decreases fuel,
        {
            if rl.ch == 93 {
                proof {
                    assert(w == Some(buf@));
                }
                return Some(reversed(&buf));
            }
            if fuel == 0 {
                return None;
            }
            fuel = fuel - 1;
            buf.push(rl.ch);
            proof {
                lemma_lf_in_range(s, pos as int);
            }
            let pos2 = self.nth_char_pos(rl.rank, rl.ch);
            pos = pos2;
            rl = self.cached_decode(pos);
        }
    }
}

/// Strictly increasing sequence of ids.
pub open spec fn sorted_strict(xs: Seq<int>) -> bool {
    forall|m1: int, m2: int| 0 <= m1 < m2 < xs.len() ==> xs[m1] < xs[m2]
}

/// Insert a value into a sorted sequence unless it is already there.
pub open spec fn sins(xs: Seq<int>, v: int) -> Seq<int>
    decreases xs.len(),
{
    if xs.len() == 0 {
        seq![v]
    } else if v < xs[0] {
        seq![v] + xs
    } else if v == xs[0] {
        xs
    } else {
        seq![xs[0]] + sins(xs.skip(1), v)
    }
}

/// Sorted deduplication: fold every id into place.
pub open spec fn sorted_uniq(ids: Seq<int>, i: int) -> Seq<int>
    decreases i,
{
    if i <= 0 {
        Seq::empty()
    } else {
        sins(sorted_uniq(ids, i - 1), ids[i - 1])
    }
}

/// The integer values of a vector of ids.
pub open spec fn ids_view(v: Seq<i32>) -> Seq<int> {
    Seq::new(v.len(), |q: int| v[q] as int)
}

/// On a sorted sequence, `sins` either finds the value at the split point
/// or inserts it there.
pub proof fn lemma_sins_at(xs: Seq<int>, v: int, idx: int)
    requires
        sorted_strict(xs),
        0 <= idx <= xs.len(),
        forall|m: int| 0 <= m < idx ==> #[trigger] xs[m] < v,
        idx < xs.len() ==> xs[idx] >= v,
    ensures
        idx < xs.len() && xs[idx] == v ==> sins(xs, v) == xs,
        !(idx < xs.len() && xs[idx] == v) ==> sins(xs, v) == xs.insert(idx, v),
    decreases xs.len(),
{
    if xs.len() == 0 {
        assert(sins(xs, v) =~= xs.insert(0, v));
    } else if v < xs[0] {
        assert(idx == 0);
        assert(sins(xs, v) =~= xs.insert(0, v));
    } else if v == xs[0] {
        assert(idx == 0);
    } else {
        assert(idx >= 1);
        let ys = xs.skip(1);
        assert forall|m: int| 0 <= m < idx - 1 implies #[trigger] ys[m] < v by {
            assert(ys[m] == xs[m + 1]);
        }
        lemma_sins_at(ys, v, idx - 1);
        if idx < xs.len() && xs[idx] == v {
            assert(ys[idx - 1] == v);
            assert(sins(xs, v) =~= xs);
        } else {
            assert(sins(xs, v) =~= xs.insert(idx, v));
        }
    }
}

/// Insert an id into a sorted vector, skipping duplicates.
pub fn insert_sorted(out: &mut Vec<i32>, v: i32)
    requires
        sorted_strict(ids_view(old(out)@)),
    ensures
        ids_view(final(out)@) == sins(ids_view(old(out)@), v as int),
        sorted_strict(ids_view(final(out)@)),
        final(out)@.len() >= old(out)@.len(),
        forall|m: int|
            0 <= m < final(out)@.len() ==> #[trigger] final(out)@[m] == v || exists|m2: int|
                0 <= m2 < old(out)@.len() && old(out)@[m2] == final(out)@[m],
{
    let ghost xs = ids_view(out@);
    let n = out.len();
    let mut lo: usize = 0;
    let mut hi: usize = n;
    while lo < hi
        invariant
            n == out@.len(),
            xs == ids_view(out@),
            sorted_strict(xs),
            lo <= hi <= n,
            forall|m: int| 0 <= m < lo ==> #[trigger] xs[m] < v as int,
            forall|m: int| hi <= m < n ==> #[trigger] xs[m] >= v as int,
        decreases hi - lo,
    {
        let mid = lo + (hi - lo) / 2;
        proof {
            assert(xs[mid as int] == out@[mid as int]);
        }
        if out[mid] < v {
            proof {
                assert forall|m: int| 0 <= m < mid + 1 implies #[trigger] xs[m] < v as int by {
                    if m < mid {
                        assert(xs[m] < xs[mid as int]);
                    }
                }
            }
            lo = mid + 1;
        } else {
            proof {
                assert forall|m: int| mid <= m < n implies #[trigger] xs[m] >= v as int by {
                    if m > mid {
                        assert(xs[mid as int] < xs[m]);
                    }
                }
            }
            hi = mid;
        }
    }
    proof {
        assert(lo < n ==> xs[lo as int] >= v);
        lemma_sins_at(xs, v as int, lo as int);
    }
    if lo < n && out[lo] == v {
        proof {
            assert(xs[lo as int] == v as int);
            assert(ids_view(out@) == sins(xs, v as int));
        }
        return;
    }
    proof {
        if lo < n {
            assert(xs[lo as int] != v as int);
        }
    }
    let ghost before = out@;
    out.insert(lo, v);
    proof {
        assert(ids_view(out@) =~= ids_view(before).insert(lo as int, v as int));
        assert(ids_view(out@) == sins(xs, v as int));
        assert forall|m1: int, m2: int|
            0 <= m1 < m2 < out@.len() implies ids_view(out@)[m1] < ids_view(out@)[m2] by {
            if m2 < lo {
            } else if m1 == lo && m2 > lo {
                assert(out@[m2] == before[m2 - 1]);
                assert(xs[m2 - 1] == before[m2 - 1] as int);
                assert(xs[m2 - 1] >= v as int);
                if m2 - 1 > lo {
                    assert(xs[lo as int] < xs[m2 - 1]);
                }
                assert(xs[m2 - 1] != v as int);
            } else if m1 < lo && m2 == lo {
            } else if m1 < lo && m2 > lo {
                assert(out@[m1] == before[m1] && out@[m2] == before[m2 - 1]);
            } else if m1 > lo {
                assert(out@[m1] == before[m1 - 1] && out@[m2] == before[m2 - 1]);
            }
        }
        assert forall|m: int|
            0 <= m < out@.len() implies #[trigger] out@[m] == v || exists|m2: int|
                0 <= m2 < before.len() && before[m2] == out@[m] by {
            if m < lo {
                assert(before[m] == out@[m]);
            } else if m > lo {
                assert(before[m - 1] == out@[m]);
            }
        }
    }
}

/// Executable alphabet membership test.
pub fn in_sigma_exec(b: u8) -> (r: bool)
    ensures
        r == in_sigma(b),
{
    b == 9 || b == 10 || b == 13 || (32 <= b && b < 127)
}

/// The reversed probe pattern for the whole header `[<id>]`.
pub open spec fn probe_pat(id: int) -> Seq<u8> {
    seq![93u8] + rev_seq(dec_digits(id)) + seq![91u8]
}

/// Whether the probe for id finds no row.
pub open spec fn probe_empty(s: Seq<u8>, id: int) -> bool {
    sp_range(s, probe_pat(id), probe_pat(id).len() as int).0 >= sp_range(
        s,
        probe_pat(id),
        probe_pat(id).len() as int,
    ).1
}

/// The calibration binary search: the value it converges to on `[l, r)`,
/// probing the middle id and keeping the half where presence can start.
pub open spec fn calib(s: Seq<u8>, l: int, r: int) -> int
    decreases r - l,
{
    if l >= r {
        l
    } else if probe_empty(s, (l + r) / 2) {
        calib(s, (l + r) / 2 + 1, r)
    } else {
        calib(s, l, (l + r) / 2)
    }
}

/// What calibration determines from the stream alone: the record count and
/// the smallest identifier present.
pub open spec fn metadata_spec(s: Seq<u8>) -> Option<(int, int)> {
    let recs = c_val(s, sigma_index(91) + 1) - c_val(s, sigma_index(91));
    match id_at_row(s, 0) {
        None => None,
        Some(r0) => {
            let l = if r0 >= recs {
                r0 - recs
            } else {
                0int
            };
            Some((recs, calib(s, l, r0)))
        },
    }
}

/// Build the reversed probe pattern for `[<id>]`.
fn make_probe(id: i32) -> (r: Vec<u8>)
    requires
        0 <= id,
    ensures
        r@ == probe_pat(id as int),
        r@.len() >= 2,
        forall|q: int| 0 <= q < r@.len() ==> in_sigma(#[trigger] r@[q]),
{
    let mut digits: Vec<u8> = Vec::new();
    push_dec(&mut digits, id);
    let rd = reversed(&digits);
    let mut pat: Vec<u8> = Vec::new();
    pat.push(93);
    let m = rd.len();
    let mut q: usize = 0;
    while q < m
        invariant
            m == rd@.len(),
            q <= m,
            pat@.len() == q + 1,
            pat@[0] == 93u8,
            forall|m2: int| 0 <= m2 < q ==> #[trigger] pat@[m2 + 1] == rd@[m2],
        decreases m - q,
    {
        pat.push(rd[q]);
        q = q + 1;
    }
    pat.push(91);
    proof {
        lemma_dec_digits_are_digits(id as int);
        assert(digits@ =~= dec_digits(id as int));
        assert forall|i: int| 0 <= i < pat@.len() implies pat@[i] == probe_pat(id as int)[i] by {
            if 1 <= i <= m {
                assert(pat@[(i - 1) + 1] == rd@[i - 1]);
            }
        }
        assert(pat@ =~= probe_pat(id as int));
        assert forall|q2: int| 0 <= q2 < pat@.len() implies in_sigma(#[trigger] pat@[q2]) by {
            if 0 < q2 < pat@.len() - 1 {
                assert(pat@[q2] == rev_seq(dec_digits(id as int))[q2 - 1]);
                assert(pat@[q2] == dec_digits(id as int)[dec_digits(id as int).len() - q2]);
            }
        }
    }
    pat
}

impl Context {
    /// Count the records and calibrate the smallest identifier present,
    /// storing both.  Refused when the id walk at row 0 fails, which only
    /// happens on streams that are not a bracketed-corpus BWT.
    pub fn get_metadata(&mut self) -> (ok: bool)
        requires
            old(self).wf(),
        ensures
            final(self).wf(),
            *final(self) == (Context {
                cache: final(self).cache,
                min_id: final(self).min_id,
                recs: final(self).recs,
                ..*old(self)
            }),
            ok == (metadata_spec(old(self).rlb@) is Some),
            ok ==> metadata_spec(old(self).rlb@) == Some(
                (final(self).recs as int, final(self).min_id as int),
            ),
            ok ==> 0 <= final(self).min_id <= 1000000000 && 0 <= final(self).recs
                && final(self).recs as int <= total_len(old(self).rlb@),
    {
        let ghost s = self.rlb@;
        proof {
            lemma_total_pos(s);
            lemma_bwt_len(s);
            lemma_c_val_bounds(s, 0, 62);
            lemma_c_val_bounds(s, 62, 63);
            lemma_c_val_bounds(s, 63, 98);
        }
        let mlb = map_char(91);
        let recs = self.c_table[mlb + 1] - self.c_table[mlb];
        self.recs = recs;
        let r0 = match self.search_id_in_pos(0) {
            None => {
                return false;
            },
            Some(v) => v,
        };
        let mut l: i32 = 0;
        if r0 >= recs {
            l = r0 - recs;
        }
        let ghost l0 = l as int;
        let mut r: i32 = r0;
        while l < r
            invariant
                self.wf(),
                self.rlb@ == s,
                *self == (Context {
                    cache: self.cache,
                    min_id: self.min_id,
                    recs: self.recs,
                    ..*old(self)
                }),
                self.recs == recs,
                0 <= l,
                l <= r,
                r <= 1000000000,
                calib(s, l as int, r as int) == calib(s, l0, r0 as int),
            decreases r - l,
        {
            let mid = (l + r) / 2;
            let pat = make_probe(mid);
            let rg = self.search_pattern(pat.as_slice());
            if rg.0 >= rg.1 {
                l = mid + 1;
            } else {
                r = mid;
            }
        }
        self.min_id = l;
        true
    }
}

/// Prepend collected ids to an optional remainder.
pub open spec fn opt_cat(c: Seq<int>, o: Option<Seq<int>>) -> Option<Seq<int>> {
    match o {
        None => None,
        Some(rest) => Some(c + rest),
    }
}

/// The (1-based) record ids found at every row of the range, in row order;
/// refused as soon as one row's id walk fails.
pub open spec fn ids_of_range(s: Seq<u8>, lo: int, hi: int) -> Option<Seq<int>>
    decreases hi - lo,
{
    if lo >= hi {
        Some(Seq::empty())
    } else {
        match id_at_row(s, lo) {
            None => None,
            Some(v) => match ids_of_range(s, lo + 1, hi) {
                None => None,
                Some(rest) => Some(seq![v + 1] + rest),
            },
        }
    }
}

/// The output rows for a sorted list of ids: each id's record text, found
/// from the row just after its header; the top id wraps to the smallest.
pub open spec fn records_of(s: Seq<u8>, ids: Seq<int>, i: int, upper: int, low: int) -> Option<
    Seq<(int, Seq<u8>)>,
>
    decreases ids.len() - i,
{
    if i >= ids.len() {
        Some(Seq::empty())
    } else {
        let id = ids[i];
        let start = pos_of_id_spec(
            s,
            if id == upper {
                low
            } else {
                id
            },
        );
        if start >= total_len(s) {
            None
        } else {
            match record_at(s, start) {
                None => None,
                Some(txt) => match records_of(s, ids, i + 1, upper, low) {
                    None => None,
                    Some(rest) => Some(seq![(id - 1, txt)] + rest),
                },
            }
        }
    }
}

/// A pattern the search accepts: nonempty and made of alphabet bytes.
pub open spec fn valid_query(pat: Seq<u8>) -> bool {
    pat.len() >= 1 && (forall|q: int| 0 <= q < pat.len() ==> in_sigma(#[trigger] pat[q]))
}

/// What a whole query returns, as a function of the stream and the
/// (reversed) pattern alone: an invalid pattern matches nothing; otherwise
/// calibrate, backward-search, collect the id of every matching row, sort
/// and deduplicate, and reconstruct each record.  `None` is a malformed
/// stream: some walk failed or ran past its budget.
pub open spec fn search_spec(s: Seq<u8>, pat: Seq<u8>) -> Option<Seq<(int, Seq<u8>)>> {
    if !valid_query(pat) {
        Some(Seq::empty())
    } else {
        match metadata_spec(s) {
            None => None,
            Some(md) => {
                let rg = sp_range(s, pat, pat.len() as int);
                match ids_of_range(s, rg.0, rg.1) {
                    None => None,
                    Some(idseq) => records_of(
                        s,
                        sorted_uniq(idseq, idseq.len() as int),
                        0,
                        md.1 + md.0,
                        md.1,
                    ),
                }
            },
        }
    }
}

/// The ids and texts of a result vector.
pub open spec fn hits_view(v: Seq<(i32, Vec<u8>)>) -> Seq<(int, Seq<u8>)> {
    Seq::new(v.len(), |q: int| (v[q].0 as int, v[q].1@))
}

impl Context {
    /// Run a whole query for the (already reversed) pattern: calibrate the
    /// metadata, find the matching row range, collect and deduplicate the
    /// record ids, and return each record's text with its 0-based id, in
    /// ascending id order.  An invalid pattern yields no matches; `None`
    /// means the stream was not a well-formed record corpus.
    #[verifier::loop_isolation(false)]
    #[verifier::rlimit(80)]
    pub fn search(&mut self, pattern: &[u8]) -> (r: Option<Vec<(i32, Vec<u8>)>>)
        requires
            old(self).wf(),
        ensures
            final(self).wf(),
            final(self).rlb@ == old(self).rlb@,
            match r {
                Some(hits) => search_spec(old(self).rlb@, pattern@) == Some(hits_view(hits@)),
                None => search_spec(old(self).rlb@, pattern@) is None,
            },
    {
        let ghost s = self.rlb@;
        proof {
            lemma_bwt_len(s);
            lemma_c_val_bounds(s, 0, 98);
        }
        let np = pattern.len();
        let mut okpat = np >= 1;
        let mut qv: usize = 0;
        while qv < np
            invariant
                np == pattern@.len(),
                qv <= np,
                okpat == (np >= 1 && (forall|m: int|
                    0 <= m < qv ==> in_sigma(#[trigger] pattern@[m]))),
            decreases np - qv,
        {
            if !in_sigma_exec(pattern[qv]) {
                okpat = false;
            }
            qv = qv + 1;
        }
        if !okpat {
            proof {
                assert(hits_view(Seq::empty()) =~= Seq::<(int, Seq<u8>)>::empty());
            }
            return Some(Vec::new());
        }
        if !self.get_metadata() {
            return None;
        }
        let ghost md = metadata_spec(s)->Some_0;
        let rg = self.search_pattern(pattern);
        let ghost rgs = sp_range(s, pattern@, pattern@.len() as int);
        let mut uniq: Vec<i32> = Vec::new();
        let ghost mut collected: Seq<int> = Seq::empty();
        let mut row: i32 = rg.0;
        proof {
            assert(opt_cat(collected, ids_of_range(s, row as int, rgs.1)) == ids_of_range(
                s,
                rgs.0,
                rgs.1,
            ) || rg.0 >= rg.1);
        }
        while row < rg.1
            invariant
                self.wf(),
                self.rlb@ == s,
                self.min_id as int == md.1,
                self.recs as int == md.0,
                rg.0 as int == rgs.0,
                rg.1 as int == rgs.1,
                rg.0 <= row,
                row as int <= if rgs.1 >= rgs.0 {
                    rgs.1
                } else {
                    rgs.0
                },
                0 <= row,
                row as int <= total_len(s),
                rg.1 as int <= total_len(s),
                collected.len() <= row - rg.0,
                opt_cat(collected, ids_of_range(s, row as int, rgs.1)) == ids_of_range(
                    s,
                    rgs.0,
                    rgs.1,
                ),
                ids_view(uniq@) == sorted_uniq(collected, collected.len() as int),
                sorted_strict(ids_view(uniq@)),
                forall|m: int| 0 <= m < uniq@.len() ==> 1 <= #[trigger] uniq@[m] <= 1000000001,
            decreases rg.1 - row,
        {
            let v = match self.search_id_in_pos(row) {
                None => {
                    proof {
                        assert(ids_of_range(s, row as int, rgs.1) is None);
                        assert(ids_of_range(s, rgs.0, rgs.1) is None);
                    }
                    return None;
                },
                Some(v) => v,
            };
            let ghost coll0 = collected;
            let ghost uv0 = ids_view(uniq@);
            insert_sorted(&mut uniq, v + 1);
            proof {
                collected = collected.push(v as int + 1);
                assert(collected.len() == coll0.len() + 1);
                assert(sorted_uniq(collected, collected.len() as int) == sins(
                    sorted_uniq(coll0, coll0.len() as int),
                    v as int + 1,
                )) by {
                    assert(collected[collected.len() - 1] == v as int + 1);
                    assert forall|m: int| 0 <= m < coll0.len() implies collected[m] == coll0[m]
                        by {}
                    lemma_sorted_uniq_prefix(coll0, collected, coll0.len() as int);
                }
                if ids_of_range(s, row as int + 1, rgs.1) is Some {
                    let rest = ids_of_range(s, row as int + 1, rgs.1)->Some_0;
                    assert(ids_of_range(s, row as int, rgs.1) == Some(seq![v as int + 1] + rest));
                    assert(coll0 + (seq![v as int + 1] + rest) =~= collected + rest);
                } else {
                    assert(ids_of_range(s, row as int, rgs.1) is None);
                }
            }
            row = row + 1;
        }
        proof {
            assert(ids_of_range(s, row as int, rgs.1) == Some(Seq::<int>::empty()));
            assert(collected + Seq::<int>::empty() =~= collected);
            assert(ids_of_range(s, rgs.0, rgs.1) == Some(collected));
        }
        let ghost uniq_ids = ids_view(uniq@);
        let upper = self.min_id + self.recs;
        let low = self.min_id;
        let total = self.c_table[98];
        let mut out: Vec<(i32, Vec<u8>)> = Vec::new();
        let ghost mut outs: Seq<(int, Seq<u8>)> = Seq::empty();
        let nq = uniq.len();
        let mut qi: usize = 0;
        while qi < nq
            invariant
                self.wf(),
                self.rlb@ == s,
                self.min_id == low,
                low as int == md.1,
                upper as int == md.1 + md.0,
                0 <= low,
                total as int == total_len(s),
                nq == uniq@.len(),
                qi <= nq,
                ids_view(uniq@) == uniq_ids,
                forall|m: int| 0 <= m < uniq@.len() ==> 1 <= #[trigger] uniq@[m] <= 1000000001,
                outs == hits_view(out@),
                out@.len() == qi,
                match records_of(s, uniq_ids, qi as int, upper as int, low as int) {
                    None => records_of(s, uniq_ids, 0, upper as int, low as int) is None,
                    Some(rest) => records_of(s, uniq_ids, 0, upper as int, low as int) == Some(
                        outs + rest,
                    ),
                },
            decreases nq - qi,
        {
            let id = uniq[qi];
            let startq = if id == upper {
                low
            } else {
                id
            };
            let start = self.search_pos_of_id(startq);
            proof {
                assert(start as int == pos_of_id_spec(s, if id as int == upper as int {
                    low as int
                } else {
                    id as int
                }));
            }
            if start >= total {
                return None;
            }
            let txt = match self.rebuild_record(start) {
                None => {
                    return None;
                },
                Some(t) => t,
            };
            let ghost out0 = out@;
            out.push((id - 1, txt));
            proof {
                outs = outs.push((id as int - 1, txt@));
                assert(outs =~= hits_view(out@));
                assert(seq![(id as int - 1, txt@)] + records_of(
                    s,
                    uniq_ids,
                    qi as int + 1,
                    upper as int,
                    low as int,
                )->Some_0 =~= outs.skip(out0.len() as int) + records_of(
                    s,
                    uniq_ids,
                    qi as int + 1,
                    upper as int,
                    low as int,
                )->Some_0);
            }
            qi = qi + 1;
        }
        proof {
            assert(records_of(s, uniq_ids, nq as int, upper as int, low as int) == Some(
                Seq::<(int, Seq<u8>)>::empty(),
            ));
            assert(outs + Seq::<(int, Seq<u8>)>::empty() =~= outs);
        }
        Some(out)
    }
}

/// Index idempotence: the outcome of a query is a function of the stream
/// and the pattern alone, so a context rebuilt from a stored index answers
/// exactly as one whose index was generated fresh.  `Context::search`
/// promises its result equals `search_spec` of the stream, whatever index
/// bytes the context carries, as long as they satisfy `wf_index` — which
/// `lemma_index_deterministic` shows only one byte sequence does.
pub proof fn lemma_search_independent_of_index(c1: Context, c2: Context, pat: Seq<u8>)
    requires
        c1.wf(),
        c2.wf(),
        c1.rlb@ == c2.rlb@,
    ensures
        search_spec(c1.rlb@, pat) == search_spec(c2.rlb@, pat),
{
}

/// Cache correctness: query outcomes do not depend on the cache.  Two
/// well-formed contexts over the same stream — whatever runs their caches
/// hold, including none — are promised the same `search_spec` result by
/// `Context::search`, because the cache never appears in that function.
pub proof fn lemma_search_independent_of_cache(c1: Context, c2: Context, pat: Seq<u8>)
    requires
        c1.wf(),
        c2.wf(),
        c1.rlb@ == c2.rlb@,
    ensures
        search_spec(c1.rlb@, pat) == search_spec(c2.rlb@, pat),
{
}

/// A record walk collects at most one byte per LF step, so a
/// reconstruction that succeeds stays within the record-length budget.
/// That on a true corpus BWT every walk does succeed — terminating at a
/// `[` within the record plus its id header — depends on the stream being
/// such a BWT; it is exercised by the end-to-end scenarios, not proved.
pub proof fn lemma_record_walk_bounded(s: Seq<u8>, p: int, acc: Seq<u8>, fuel: nat)
    ensures
        match rec_walk(s, p, acc, fuel) {
            Some(collected) => collected.len() <= acc.len() + fuel,
            None => true,
        },
    decreases fuel,
{
    if bwt(s)[p] != 93 && fuel > 0 {
        lemma_record_walk_bounded(s, lf_spec(s, p), acc.push(bwt(s)[p]), (fuel - 1) as nat);
    }
}

/// Every reconstructed record fits the stated cap.
pub proof fn lemma_record_len_bounded(s: Seq<u8>, p: int)
    ensures
        match record_at(s, p) {
            Some(txt) => txt.len() <= MAX_RECORD_LEN,
            None => true,
        },
{
    lemma_record_walk_bounded(s, p, Seq::empty(), MAX_RECORD_LEN as nat);
}

/// Folding ids agrees on any common prefix.
pub proof fn lemma_sorted_uniq_prefix(xs: Seq<int>, ys: Seq<int>, i: int)
    requires
        0 <= i <= xs.len(),
        i <= ys.len(),
        forall|m: int| 0 <= m < i ==> xs[m] == ys[m],
    ensures
        sorted_uniq(xs, i) == sorted_uniq(ys, i),
    decreases i,
{
    if i > 0 {
        lemma_sorted_uniq_prefix(xs, ys, i - 1);
    }
}

} // verus!
