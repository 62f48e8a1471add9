//! Mathematical model of the run-length byte stream and the BWT it encodes.
//!
//! A stream is a sequence of runs.  Each run is one head byte (top bit clear,
//! an alphabet byte) followed by up to four tail bytes (top bit set) that
//! extend the run length in base 128.  The decoded BWT is each head's byte
//! repeated by its run length, in stream order.

use vstd::prelude::*;

verus! {

/// Tail bytes of the stream carry their top bit set.
pub open spec fn is_tail(b: u8) -> bool {
    b >= 0x80
}

/// The 98 permitted input bytes: tab, line feed, carriage return, and 32..126.
pub open spec fn in_sigma(b: u8) -> bool {
    b == 9 || b == 10 || b == 13 || (32 <= b && b < 127)
}

/// Dense index of an alphabet byte in `[0, 98)`.
pub open spec fn sigma_index(b: u8) -> int {
    if b == 9 {
        0
    } else if b == 10 {
        1
    } else if b == 13 {
        2
    } else {
        b - 29
    }
}

/// The alphabet byte carrying a given dense index.
pub open spec fn sigma_byte(a: int) -> u8 {
    if a == 0 {
        9
    } else if a == 1 {
        10
    } else if a == 2 {
        13
    } else {
        (a + 29) as u8
    }
}

pub proof fn lemma_sigma_roundtrip(b: u8)
    requires
        in_sigma(b),
    ensures
        0 <= sigma_index(b) < 98,
        sigma_byte(sigma_index(b)) == b,
{
}

pub proof fn lemma_sigma_byte_roundtrip(a: int)
    requires
        0 <= a < 98,
    ensures
        in_sigma(sigma_byte(a)),
        sigma_index(sigma_byte(a)) == a,
{
}

/// Powers of 128, the base of the tail-byte length extension.
pub open spec fn pow128(k: int) -> int
    decreases k,
{
    if k <= 0 {
        1
    } else {
        128 * pow128(k - 1)
    }
}

pub proof fn lemma_pow128_pos(k: int)
    ensures
        pow128(k) >= 1,
    decreases k,
{
    if k > 0 {
        lemma_pow128_pos(k - 1);
    }
}

/// Run length decoded after consuming the first `j` tail bytes: a bare head
/// stands for one symbol, the first tail adds `2 + payload`, and tail `i`
/// adds `payload * 128^i`.
pub open spec fn len_after(tails: Seq<u8>, j: int) -> int
    decreases j,
{
    if j <= 0 {
        1
    } else if j == 1 {
        3 + (tails[0] & 0x7f)
    } else {
        len_after(tails, j - 1) + (tails[j - 1] & 0x7f) * pow128(j - 1)
    }
}

/// Length of the run encoded by a head followed by exactly `tails`.
pub open spec fn run_len_spec(tails: Seq<u8>) -> int {
    len_after(tails, tails.len() as int)
}

/// Run lengths are positive.
pub proof fn lemma_len_after_pos(tails: Seq<u8>, j: int)
    ensures
        1 <= len_after(tails, j),
    decreases j,
{
    if j > 1 {
        lemma_len_after_pos(tails, j - 1);
        lemma_pow128_pos(j - 1);
        vstd::arithmetic::mul::lemma_mul_nonnegative((tails[j - 1] & 0x7f) as int, pow128(j - 1));
    }
}

/// Run lengths grow as tails are consumed.
pub proof fn lemma_len_after_mono(tails: Seq<u8>, j1: int, j2: int)
    requires
        j1 <= j2,
    ensures
        len_after(tails, j1) <= len_after(tails, j2),
    decreases j2 - j1,
{
    lemma_len_after_pos(tails, j1);
    if j2 > j1 {
        lemma_len_after_mono(tails, j1, j2 - 1);
        if j2 > 1 {
            lemma_pow128_pos(j2 - 1);
            vstd::arithmetic::mul::lemma_mul_nonnegative(
                (tails[j2 - 1] & 0x7f) as int,
                pow128(j2 - 1),
            );
        } else {
            lemma_len_after_pos(tails, j2);
            assert(len_after(tails, j1) <= len_after(tails, j2));
        }
    }
}

/// Every run is at least one symbol long.
pub proof fn lemma_run_len_pos(s: Seq<u8>, j: int)
    ensures
        run_len_at(s, j) >= 1,
{
    lemma_len_after_pos(tails_of(s, j), tails_of(s, j).len() as int);
}

/// Number of consecutive tail bytes starting at position `i`.
pub open spec fn count_tails(s: Seq<u8>, i: int) -> int
    decreases s.len() - i,
{
    if i < 0 || i >= s.len() || !is_tail(s[i]) {
        0
    } else {
        1 + count_tails(s, i + 1)
    }
}

pub proof fn lemma_count_tails_range(s: Seq<u8>, i: int)
    requires
        0 <= i <= s.len(),
    ensures
        0 <= count_tails(s, i) <= s.len() - i,
        forall|m: int| i <= m < i + count_tails(s, i) ==> is_tail(#[trigger] s[m]),
        i + count_tails(s, i) == s.len() || !is_tail(s[i + count_tails(s, i)]),
    decreases s.len() - i,
{
    if i < s.len() && is_tail(s[i]) {
        lemma_count_tails_range(s, i + 1);
    }
}

/// The tail bytes of the run whose head is at `j`.
pub open spec fn tails_of(s: Seq<u8>, j: int) -> Seq<u8> {
    s.subrange(j + 1, j + 1 + count_tails(s, j + 1))
}

/// Length of the run whose head is at `j`.
pub open spec fn run_len_at(s: Seq<u8>, j: int) -> int {
    run_len_spec(tails_of(s, j))
}

/// Position of the head following the run whose head is at `j`.
pub open spec fn next_head(s: Seq<u8>, j: int) -> int {
    j + 1 + count_tails(s, j + 1)
}

/// Total decoded length contributed by runs whose head lies before `b`.
pub open spec fn bwt_upto(s: Seq<u8>, b: int) -> int
    decreases b,
{
    if b <= 0 {
        0
    } else {
        bwt_upto(s, b - 1) + if b - 1 < s.len() && !is_tail(s[b - 1]) {
            run_len_at(s, b - 1)
        } else {
            0
        }
    }
}

/// The BWT decoded from the stream suffix starting at byte `i`; a tail byte
/// contributes nothing of its own (its head already counted it).
pub open spec fn bwt_from(s: Seq<u8>, i: int) -> Seq<u8>
    decreases s.len() - i,
{
    if i < 0 || i >= s.len() {
        Seq::empty()
    } else if is_tail(s[i]) {
        bwt_from(s, i + 1)
    } else {
        Seq::new(run_len_at(s, i) as nat, |q: int| s[i]) + bwt_from(s, i + 1)
    }
}

/// The BWT decoded from the whole stream.
pub open spec fn bwt(s: Seq<u8>) -> Seq<u8> {
    bwt_from(s, 0)
}

/// Length of the decoded BWT.
pub open spec fn total_len(s: Seq<u8>) -> int {
    bwt_upto(s, s.len() as int)
}

/// Number of occurrences of `c` among the first `n` elements of `t`.
pub open spec fn count_pre(t: Seq<u8>, c: u8, n: int) -> int
    decreases n,
{
    if n <= 0 {
        0
    } else {
        count_pre(t, c, n - 1) + if n - 1 < t.len() && t[n - 1] == c {
            1int
        } else {
            0int
        }
    }
}

/// `occ`: occurrences of `c` in `BWT[0..p)`.
pub open spec fn occ_spec(s: Seq<u8>, c: u8, p: int) -> int {
    count_pre(bwt(s), c, p)
}

/// A well-formed run-length stream: nonempty, begins at a head, every head
/// is an alphabet byte, no run carries more than four tails, and the decoded
/// BWT is small enough that every position fits comfortably in an `i32`.
pub open spec fn wf_rlb(s: Seq<u8>) -> bool {
    &&& s.len() > 0
    &&& !is_tail(s[0])
    &&& forall|j: int| 0 <= j < s.len() && !is_tail(s[j]) ==> in_sigma(#[trigger] s[j])
    &&& forall|j: int|
        0 <= j < s.len() && !(#[trigger] is_tail(s[j])) ==> count_tails(s, j + 1) <= 4
    &&& total_len(s) <= 0x4000_0000
}

/// In a well-formed stream no position starts more than four consecutive tails.
pub proof fn lemma_tails_bounded(s: Seq<u8>, i: int)
    requires
        wf_rlb(s),
        0 <= i <= s.len(),
    ensures
        count_tails(s, i) <= 4,
    decreases i,
{
    if i == 0 {
        assert(count_tails(s, 0) == 0);
    } else if !is_tail(s[i - 1]) {
        assert(count_tails(s, i) <= 4);
    } else {
        lemma_tails_bounded(s, i - 1);
        assert(count_tails(s, i - 1) == 1 + count_tails(s, i));
    }
}

/// `bwt_upto` grows with its bound.
pub proof fn lemma_upto_mono(s: Seq<u8>, b1: int, b2: int)
    requires
        b1 <= b2,
    ensures
        bwt_upto(s, b1) <= bwt_upto(s, b2),
    decreases b2 - b1,
{
    if b1 < b2 {
        lemma_upto_mono(s, b1, b2 - 1);
        if b2 - 1 < s.len() && 0 <= b2 - 1 && !is_tail(s[b2 - 1]) {
            lemma_run_len_pos(s, b2 - 1);
        }
    }
}

/// Tail bytes contribute nothing to `bwt_upto`.
pub proof fn lemma_upto_tail_range(s: Seq<u8>, b1: int, b2: int)
    requires
        0 <= b1 <= b2 <= s.len(),
        forall|m: int| b1 <= m < b2 ==> is_tail(#[trigger] s[m]),
    ensures
        bwt_upto(s, b2) == bwt_upto(s, b1),
    decreases b2 - b1,
{
    if b1 < b2 {
        lemma_upto_tail_range(s, b1, b2 - 1);
    }
}

/// Any five consecutive stream bytes contain a head, so the decoded position
/// strictly grows across a whole chunk.
pub proof fn lemma_upto_strict(s: Seq<u8>, b1: int, b2: int)
    requires
        wf_rlb(s),
        0 <= b1,
        b1 + 5 <= b2,
        b2 <= s.len(),
    ensures
        bwt_upto(s, b1) < bwt_upto(s, b2),
{
    lemma_tails_bounded(s, b1);
    lemma_count_tails_range(s, b1);
    let j = b1 + count_tails(s, b1);
    assert(j < s.len() && !is_tail(s[j]));
    lemma_upto_mono(s, b1, j);
    lemma_run_len_pos(s, j);
    assert(bwt_upto(s, j + 1) == bwt_upto(s, j) + run_len_at(s, j));
    lemma_upto_mono(s, j + 1, b2);
}

/// The decoded BWT seen past `bwt_upto(i)` is exactly the decode of the
/// stream suffix from byte `i`.
pub proof fn lemma_suffix_view(s: Seq<u8>, i: int)
    requires
        0 <= i <= s.len(),
    ensures
        bwt(s).len() == bwt_upto(s, i) + bwt_from(s, i).len(),
        forall|p: int|
            bwt_upto(s, i) <= p < bwt(s).len() ==> #[trigger] bwt(s)[p] == bwt_from(s, i)[p
                - bwt_upto(s, i)],
    decreases i,
{
    if i > 0 {
        lemma_suffix_view(s, i - 1);
        if is_tail(s[i - 1]) {
            assert(bwt_from(s, i - 1) == bwt_from(s, i));
            assert(bwt_upto(s, i) == bwt_upto(s, i - 1));
        } else {
            let ln = run_len_at(s, i - 1);
            lemma_run_len_pos(s, i - 1);
            assert(bwt_from(s, i - 1) == Seq::new(ln as nat, |q: int| s[i - 1]) + bwt_from(s, i));
            assert(bwt_upto(s, i) == bwt_upto(s, i - 1) + ln);
            assert forall|p: int| bwt_upto(s, i) <= p < bwt(s).len() implies #[trigger] bwt(s)[p]
                == bwt_from(s, i)[p - bwt_upto(s, i)] by {
                assert(bwt(s)[p] == bwt_from(s, i - 1)[p - bwt_upto(s, i - 1)]);
            }
        }
    }
}

/// The decoded BWT is exactly `total_len` long.
pub proof fn lemma_bwt_len(s: Seq<u8>)
    ensures
        bwt(s).len() == total_len(s),
{
    lemma_suffix_view(s, s.len() as int);
}

/// Every BWT position inside the run headed at `j` holds that head's byte.
pub proof fn lemma_run_chars(s: Seq<u8>, j: int)
    requires
        0 <= j < s.len(),
        !is_tail(s[j]),
    ensures
        bwt_upto(s, j) + run_len_at(s, j) <= bwt(s).len(),
        forall|p: int|
            bwt_upto(s, j) <= p < bwt_upto(s, j) + run_len_at(s, j) ==> #[trigger] bwt(s)[p] == s[j],
{
    lemma_suffix_view(s, j);
    let ln = run_len_at(s, j);
    lemma_run_len_pos(s, j);
    assert(bwt_from(s, j) == Seq::new(ln as nat, |q: int| s[j]) + bwt_from(s, j + 1));
    assert(bwt_from(s, j).len() >= ln);
    assert forall|p: int|
        bwt_upto(s, j) <= p < bwt_upto(s, j) + ln implies #[trigger] bwt(s)[p] == s[j] by {
        assert(bwt(s)[p] == bwt_from(s, j)[p - bwt_upto(s, j)]);
    }
}

/// Bounds and monotonicity of prefix counting.
pub proof fn lemma_count_pre_mono(t: Seq<u8>, c: u8, n1: int, n2: int)
    requires
        0 <= n1 <= n2,
    ensures
        0 <= count_pre(t, c, n1) <= count_pre(t, c, n2),
        count_pre(t, c, n2) - count_pre(t, c, n1) <= n2 - n1,
    decreases n2 - n1,
{
    if n1 < n2 {
        lemma_count_pre_mono(t, c, n1, n2 - 1);
    } else {
        lemma_count_pre_nonneg(t, c, n1);
    }
}

pub proof fn lemma_count_pre_nonneg(t: Seq<u8>, c: u8, n: int)
    ensures
        0 <= count_pre(t, c, n) <= if n < 0 {
            0int
        } else {
            n
        },
    decreases n,
{
    if n > 0 {
        lemma_count_pre_nonneg(t, c, n - 1);
    }
}

/// Counting across a range of equal elements.
pub proof fn lemma_count_pre_const_range(t: Seq<u8>, c: u8, ch: u8, a: int, b: int)
    requires
        0 <= a <= b,
        forall|q: int| a <= q < b ==> q < t.len() && #[trigger] t[q] == ch,
    ensures
        count_pre(t, c, b) == count_pre(t, c, a) + if c == ch {
            b - a
        } else {
            0int
        },
    decreases b - a,
{
    if a < b {
        assert(t[b - 1] == ch);
        assert forall|q: int| a <= q < b - 1 implies q < t.len() && #[trigger] t[q] == ch by {}
        lemma_count_pre_const_range(t, c, ch, a, b - 1);
    }
}

/// Crossing one whole run adds its length to its own byte's count and leaves
/// every other count unchanged.
pub proof fn lemma_run_count_step(s: Seq<u8>, j: int, c: u8)
    requires
        0 <= j < s.len(),
        !is_tail(s[j]),
    ensures
        count_pre(bwt(s), c, bwt_upto(s, j) + run_len_at(s, j)) == count_pre(
            bwt(s),
            c,
            bwt_upto(s, j),
        ) + if c == s[j] {
            run_len_at(s, j)
        } else {
            0int
        },
{
    lemma_run_chars(s, j);
    lemma_upto_mono(s, 0, j);
    lemma_run_len_pos(s, j);
    lemma_count_pre_const_range(
        bwt(s),
        c,
        s[j],
        bwt_upto(s, j),
        bwt_upto(s, j) + run_len_at(s, j),
    );
}

/// Every decoded BWT byte is an alphabet byte.
pub proof fn lemma_bwt_from_in_sigma(s: Seq<u8>, i: int)
    requires
        forall|j: int| 0 <= j < s.len() && !is_tail(s[j]) ==> in_sigma(#[trigger] s[j]),
        0 <= i,
    ensures
        forall|q: int|
            0 <= q < bwt_from(s, i).len() ==> in_sigma(#[trigger] bwt_from(s, i)[q]),
    decreases s.len() - i,
{
    if i < s.len() {
        lemma_bwt_from_in_sigma(s, i + 1);
        if !is_tail(s[i]) {
            let ln = run_len_at(s, i);
            lemma_run_len_pos(s, i);
            assert(bwt_from(s, i) == Seq::new(ln as nat, |q: int| s[i]) + bwt_from(s, i + 1));
        }
    }
}

pub proof fn lemma_bwt_in_sigma(s: Seq<u8>)
    requires
        wf_rlb(s),
    ensures
        forall|q: int| 0 <= q < bwt(s).len() ==> in_sigma(#[trigger] bwt(s)[q]),
{
    lemma_bwt_from_in_sigma(s, 0);
}

/// Sum of the prefix counts of the first `a` alphabet bytes.
pub open spec fn sum_counts(t: Seq<u8>, n: int, a: int) -> int
    decreases a,
{
    if a <= 0 {
        0
    } else {
        sum_counts(t, n, a - 1) + count_pre(t, sigma_byte(a - 1), n)
    }
}

pub proof fn lemma_sum_counts_zero(t: Seq<u8>, n: int, a: int)
    requires
        n <= 0,
    ensures
        sum_counts(t, n, a) == 0,
    decreases a,
{
    if a > 0 {
        lemma_sum_counts_zero(t, n, a - 1);
    }
}

pub proof fn lemma_sum_counts_step(t: Seq<u8>, n: int, a: int)
    requires
        1 <= n <= t.len(),
        a <= 98,
        in_sigma(t[n - 1]),
    ensures
        sum_counts(t, n, a) == sum_counts(t, n - 1, a) + if sigma_index(t[n - 1]) < a {
            1int
        } else {
            0int
        },
    decreases a,
{
    if a > 0 {
        lemma_sum_counts_step(t, n, a - 1);
        lemma_sigma_roundtrip(t[n - 1]);
        lemma_sigma_byte_roundtrip(a - 1);
    }
}

/// Each of the first `n` positions is counted exactly once over the alphabet.
pub proof fn lemma_sum_counts_total(t: Seq<u8>, n: int)
    requires
        0 <= n <= t.len(),
        forall|q: int| 0 <= q < t.len() ==> in_sigma(#[trigger] t[q]),
    ensures
        sum_counts(t, n, 98) == n,
    decreases n,
{
    if n == 0 {
        lemma_sum_counts_zero(t, 0, 98);
    } else {
        lemma_sum_counts_total(t, n - 1);
        lemma_sum_counts_step(t, n, 98);
        lemma_sigma_roundtrip(t[n - 1]);
    }
}

/// Sums over the alphabet grow with the number of bytes considered.
pub proof fn lemma_sum_counts_mono(t: Seq<u8>, n: int, a1: int, a2: int)
    requires
        a1 <= a2,
    ensures
        sum_counts(t, n, a1) <= sum_counts(t, n, a2),
    decreases a2 - a1,
{
    if a1 < a2 {
        lemma_sum_counts_mono(t, n, a1, a2 - 1);
        lemma_count_pre_nonneg(t, sigma_byte(a2 - 1), n);
    }
}

/// The `C` table value for dense index `a`: how many BWT positions hold a
/// byte whose dense index is below `a`; equally, the first BWT row whose
/// sorted first column reaches `a`.
pub open spec fn c_val(s: Seq<u8>, a: int) -> int {
    sum_counts(bwt(s), total_len(s), a)
}

/// The head position of the run covering decoded position `p`, scanning
/// from byte `i`.
pub open spec fn find_head(s: Seq<u8>, i: int, p: int) -> int
    decreases s.len() - i,
{
    if i < 0 || i >= s.len() {
        i
    } else if is_tail(s[i]) {
        find_head(s, i + 1, p)
    } else if p < bwt_upto(s, i) + run_len_at(s, i) {
        i
    } else {
        find_head(s, i + 1, p)
    }
}

/// The head position of the run covering decoded position `p`.
pub open spec fn head_of(s: Seq<u8>, p: int) -> int {
    find_head(s, 0, p)
}

/// A scan that starts at or before the covering run finds it.
pub proof fn lemma_find_head_props(s: Seq<u8>, i: int, p: int)
    requires
        0 <= i <= s.len(),
        bwt_upto(s, i) <= p < total_len(s),
    ensures
        i <= find_head(s, i, p) < s.len(),
        !is_tail(s[find_head(s, i, p)]),
        bwt_upto(s, find_head(s, i, p)) <= p,
        p < bwt_upto(s, find_head(s, i, p)) + run_len_at(s, find_head(s, i, p)),
    decreases s.len() - i,
{
    if i == s.len() {
        assert(false);
    } else if is_tail(s[i]) {
        assert(bwt_upto(s, i + 1) == bwt_upto(s, i));
        lemma_find_head_props(s, i + 1, p);
    } else if p < bwt_upto(s, i) + run_len_at(s, i) {
    } else {
        assert(bwt_upto(s, i + 1) == bwt_upto(s, i) + run_len_at(s, i));
        lemma_find_head_props(s, i + 1, p);
    }
}

/// Scanning may start at any byte at or below the target position.
pub proof fn lemma_find_head_skip(s: Seq<u8>, b: int, p: int)
    requires
        0 <= b <= s.len(),
        bwt_upto(s, b) <= p,
    ensures
        find_head(s, 0, p) == find_head(s, b, p),
    decreases b,
{
    if b > 0 {
        lemma_upto_mono(s, b - 1, b);
        lemma_find_head_skip(s, b - 1, p);
        if !is_tail(s[b - 1]) {
            assert(bwt_upto(s, b) == bwt_upto(s, b - 1) + run_len_at(s, b - 1));
        } else {
            assert(bwt_upto(s, b) == bwt_upto(s, b - 1));
        }
    }
}

/// The covering run is unique: any head whose run covers `p` is `head_of`.
pub proof fn lemma_head_of_unique(s: Seq<u8>, h: int, p: int)
    requires
        0 <= h < s.len(),
        !is_tail(s[h]),
        bwt_upto(s, h) <= p < bwt_upto(s, h) + run_len_at(s, h),
    ensures
        head_of(s, p) == h,
{
    lemma_find_head_skip(s, h, p);
}

/// What the run covering position `p` looks like: `p` lies inside it, the
/// BWT holds its byte there, and the occurrence count at `p` is the count at
/// the run's start plus the offset into the run.
pub proof fn lemma_covering_run(s: Seq<u8>, p: int)
    requires
        wf_rlb(s),
        0 <= p < total_len(s),
    ensures
        0 <= head_of(s, p) < s.len(),
        !is_tail(s[head_of(s, p)]),
        in_sigma(s[head_of(s, p)]),
        bwt_upto(s, head_of(s, p)) <= p,
        p < bwt_upto(s, head_of(s, p)) + run_len_at(s, head_of(s, p)),
        bwt_upto(s, head_of(s, p)) + run_len_at(s, head_of(s, p)) <= total_len(s),
        bwt(s).len() == total_len(s),
        bwt(s)[p] == s[head_of(s, p)],
        forall|q: int|
            bwt_upto(s, head_of(s, p)) <= q < bwt_upto(s, head_of(s, p)) + run_len_at(
                s,
                head_of(s, p),
            ) ==> #[trigger] bwt(s)[q] == s[head_of(s, p)],
        count_pre(bwt(s), s[head_of(s, p)], p) == count_pre(
            bwt(s),
            s[head_of(s, p)],
            bwt_upto(s, head_of(s, p)),
        ) + (p - bwt_upto(s, head_of(s, p))),
{
    lemma_bwt_len(s);
    lemma_find_head_props(s, 0, p);
    let h = head_of(s, p);
    lemma_run_chars(s, h);
    lemma_upto_mono(s, 0, h);
    lemma_upto_mono(s, h + 1, s.len() as int);
    lemma_count_pre_const_range(bwt(s), s[h], s[h], bwt_upto(s, h), p);
}

/// The row the LF-mapping sends position `p` to: the first-column row of
/// the BWT byte at `p`, offset by that byte's rank.
pub open spec fn lf_spec(s: Seq<u8>, p: int) -> int {
    c_val(s, sigma_index(bwt(s)[p])) + count_pre(bwt(s), bwt(s)[p], p)
}

/// The `C` table is monotone, starts at zero, and ends at the BWT length.
pub proof fn lemma_c_val_bounds(s: Seq<u8>, a1: int, a2: int)
    requires
        wf_rlb(s),
        0 <= a1 <= a2 <= 98,
    ensures
        0 <= c_val(s, a1) <= c_val(s, a2) <= c_val(s, 98),
        c_val(s, 98) == total_len(s),
        c_val(s, 0) == 0,
{
    lemma_bwt_len(s);
    lemma_bwt_in_sigma(s);
    lemma_sum_counts_total(bwt(s), total_len(s));
    lemma_sum_counts_mono(bwt(s), total_len(s), 0, a1);
    lemma_sum_counts_mono(bwt(s), total_len(s), a1, a2);
    lemma_sum_counts_mono(bwt(s), total_len(s), a2, 98);
}

/// From any BWT position the LF step lands on a valid BWT row.
pub proof fn lemma_lf_in_range(s: Seq<u8>, p: int)
    requires
        wf_rlb(s),
        0 <= p < total_len(s),
    ensures
        0 <= lf_spec(s, p) < total_len(s),
        in_sigma(bwt(s)[p]),
        0 <= count_pre(bwt(s), bwt(s)[p], p),
        c_val(s, sigma_index(bwt(s)[p])) + count_pre(bwt(s), bwt(s)[p], p) < total_len(s),
        0 <= c_val(s, sigma_index(bwt(s)[p])),
{
    lemma_bwt_len(s);
    lemma_bwt_in_sigma(s);
    let c = bwt(s)[p];
    let a = sigma_index(c);
    lemma_sigma_roundtrip(c);
    lemma_c_val_bounds(s, 0, a);
    lemma_count_pre_nonneg(bwt(s), c, p);
    assert(count_pre(bwt(s), c, p + 1) == count_pre(bwt(s), c, p) + 1);
    lemma_count_pre_mono(bwt(s), c, p + 1, total_len(s));
    assert(c_val(s, a + 1) == c_val(s, a) + count_pre(bwt(s), sigma_byte(a), total_len(s)));
    lemma_c_val_bounds(s, a + 1, 98);
}

/// A well-formed stream decodes to at least one symbol.
pub proof fn lemma_total_pos(s: Seq<u8>)
    requires
        wf_rlb(s),
    ensures
        total_len(s) >= 1,
{
    lemma_run_len_pos(s, 0);
    lemma_upto_mono(s, 1, s.len() as int);
    assert(bwt_upto(s, 0) == 0);
    assert(bwt_upto(s, 1) == run_len_at(s, 0));
}

/// A sequence read back to front.
pub open spec fn rev_seq(t: Seq<u8>) -> Seq<u8> {
    Seq::new(t.len(), |q: int| t[t.len() - 1 - q])
}

/// Two sequences that agree on their first `n` elements count alike.
pub proof fn lemma_count_pre_agree(t1: Seq<u8>, t2: Seq<u8>, c: u8, n: int)
    requires
        n <= t1.len(),
        n <= t2.len(),
        forall|m: int| 0 <= m < n ==> t1[m] == t2[m],
    ensures
        count_pre(t1, c, n) == count_pre(t2, c, n),
    decreases n,
{
    if n > 0 {
        lemma_count_pre_agree(t1, t2, c, n - 1);
    }
}

/// Occurrences of `c` in `t[a..b)`.
pub open spec fn count_range(t: Seq<u8>, c: u8, a: int, b: int) -> int {
    count_pre(t.subrange(a, b), c, b - a)
}

/// Prefix counts split at any midpoint into the prefix count and the count
/// over the remaining window.
pub proof fn lemma_count_pre_split(t: Seq<u8>, c: u8, a: int, b: int)
    requires
        0 <= a <= b <= t.len(),
    ensures
        count_pre(t, c, b) == count_pre(t, c, a) + count_range(t, c, a, b),
    decreases b - a,
{
    if a < b {
        lemma_count_pre_split(t, c, a, b - 1);
        lemma_count_pre_agree(t.subrange(a, b), t.subrange(a, b - 1), c, b - 1 - a);
        assert(t.subrange(a, b)[b - a - 1] == t[b - 1]);
    } else {
        assert(count_pre(t.subrange(a, a), c, 0) == 0);
    }
}

/// No symbol occurs before the start of the BWT.
pub proof fn lemma_occ_at_zero(s: Seq<u8>, c: u8)
    ensures
        occ_spec(s, c, 0) == 0,
{
}

/// Summed over the whole alphabet, the occurrence counts at the end of the
/// BWT add up to the BWT's length: every position holds exactly one
/// alphabet symbol.  `sum_counts(bwt(s), n, 98)` is the sum over every
/// dense index `a` of `occ_spec(s, sigma_byte(a), n)`.
pub proof fn lemma_occ_sum_is_length(s: Seq<u8>)
    requires
        wf_rlb(s),
    ensures
        sum_counts(bwt(s), total_len(s), 98) == total_len(s),
{
    lemma_bwt_len(s);
    lemma_bwt_in_sigma(s);
    lemma_sum_counts_total(bwt(s), total_len(s));
}

/// Checkpoint consistency: the rank at any position equals the rank stored
/// for any checkpoint at or before it, plus the local count of the window
/// walked from that checkpoint.
pub proof fn lemma_occ_checkpoint_split(s: Seq<u8>, c: u8, q: int, pos: int)
    requires
        wf_rlb(s),
        0 <= q,
        bwt_upto(s, q * 396) <= pos <= total_len(s),
    ensures
        occ_spec(s, c, pos) == occ_spec(s, c, bwt_upto(s, q * 396)) + count_range(
            bwt(s),
            c,
            bwt_upto(s, q * 396),
            pos,
        ),
{
    lemma_bwt_len(s);
    lemma_upto_mono(s, 0, q * 396);
    lemma_count_pre_split(bwt(s), c, bwt_upto(s, q * 396), pos);
}

/// Ranks only grow with the position.
pub proof fn lemma_occ_monotone(s: Seq<u8>, c: u8, p1: int, p2: int)
    requires
        0 <= p1 <= p2,
    ensures
        occ_spec(s, c, p1) <= occ_spec(s, c, p2),
{
    lemma_count_pre_mono(bwt(s), c, p1, p2);
}

/// The run covering a position brackets it, and the rank of the run's byte
/// at the position is the rank at the run's start plus the offset into the
/// run.
pub proof fn lemma_decode_covers(s: Seq<u8>, p: int)
    requires
        wf_rlb(s),
        0 <= p < total_len(s),
    ensures
        bwt_upto(s, head_of(s, p)) <= p < bwt_upto(s, head_of(s, p)) + run_len_at(
            s,
            head_of(s, p),
        ),
        occ_spec(s, s[head_of(s, p)], p) == occ_spec(s, s[head_of(s, p)], bwt_upto(
            s,
            head_of(s, p),
        )) + (p - bwt_upto(s, head_of(s, p))),
{
    lemma_covering_run(s, p);
}

} // verus!
