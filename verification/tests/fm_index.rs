// End-to-end tests: build small corpora, BWT them by rotation sorting,
// run-length encode the BWT, and query through the library.

use bwt_rle_rs::index::{gen_c_table, gen_index, map_char, msb_u8, read_run, RunLength};
use bwt_rle_rs::search::{parse_dec, push_dec};
use bwt_rle_rs::{Context, ALPHABETS, CHUNK_SIZE, I32_SIZE, MAX_CACHE, OOC_TABLE_SIZE};

fn bwt_of(text: &[u8]) -> Vec<u8> {
    let n = text.len();
    let mut rots: Vec<usize> = (0..n).collect();
    rots.sort_by(|&a, &b| {
        let ra: Vec<u8> = (0..n).map(|i| text[(a + i) % n]).collect();
        let rb: Vec<u8> = (0..n).map(|i| text[(b + i) % n]).collect();
        ra.cmp(&rb)
    });
    rots.iter().map(|&r| text[(r + n - 1) % n]).collect()
}

fn encode_run(out: &mut Vec<u8>, c: u8, l: usize) {
    if l <= 2 {
        for _ in 0..l {
            out.push(c);
        }
        return;
    }
    out.push(c);
    let mut v = l - 3;
    out.push(0x80 | (v % 128) as u8);
    v /= 128;
    while v > 0 {
        out.push(0x80 | (v % 128) as u8);
        v /= 128;
    }
}

fn rle(bwt: &[u8]) -> Vec<u8> {
    let mut out = Vec::new();
    let mut i = 0;
    while i < bwt.len() {
        let c = bwt[i];
        let mut l = 1;
        while i + l < bwt.len() && bwt[i + l] == c {
            l += 1;
        }
        encode_run(&mut out, c, l);
        i += l;
    }
    out
}

fn make_ctx(rlb: Vec<u8>) -> Context {
    let cps = rlb.len() / CHUNK_SIZE;
    if cps > 0 {
        let (positions, idx) = gen_index(&rlb, cps);
        Context::new(rlb, Some(idx), cps, positions)
    } else {
        Context::new(rlb, None, cps, vec![0])
    }
}

fn corpus_ctx(text: &[u8]) -> Context {
    make_ctx(rle(&bwt_of(text)))
}

fn run_query(ctx: &mut Context, pattern: &[u8]) -> Vec<(i32, Vec<u8>)> {
    let mut pat = pattern.to_vec();
    pat.reverse();
    ctx.search(&pat).expect("query failed")
}

fn read_le_i32(bytes: &[u8], off: usize) -> i32 {
    i32::from_le_bytes([bytes[off], bytes[off + 1], bytes[off + 2], bytes[off + 3]])
}

#[test]
fn constants_are_consistent() {
    assert_eq!(I32_SIZE, 4);
    assert_eq!(ALPHABETS, 98);
    assert_eq!(OOC_TABLE_SIZE, 392);
    assert_eq!(CHUNK_SIZE, 396);
    assert_eq!(MAX_CACHE, 250000);
}

#[test]
fn map_char_covers_the_alphabet() {
    assert_eq!(map_char(9), 0);
    assert_eq!(map_char(10), 1);
    assert_eq!(map_char(13), 2);
    assert_eq!(map_char(32), 3);
    assert_eq!(map_char(b'['), 62);
    assert_eq!(map_char(b']'), 64);
    assert_eq!(map_char(126), 97);
}

#[test]
fn msb_marks_tail_bytes() {
    assert!(!msb_u8(0));
    assert!(!msb_u8(0x7f));
    assert!(msb_u8(0x80));
    assert!(msb_u8(0xff));
}

#[test]
fn bare_head_decodes_to_one() {
    let rlb = vec![b'a', b'b'];
    let (rl, next) = read_run(&rlb, 0, 0);
    assert_eq!(rl.ch, b'a');
    assert_eq!(rl.len, 1);
    assert_eq!(next, 1);
}

#[test]
fn one_tail_starts_at_three() {
    // head + one zero-payload tail is the smallest tailed run: length 3
    let rlb = vec![b'x', 0x80];
    let (rl, next) = read_run(&rlb, 0, 0);
    assert_eq!(rl.ch, b'x');
    assert_eq!(rl.len, 3);
    assert_eq!(next, 2);
}

#[test]
fn run_of_two_hundred_uses_head_and_tails() {
    // 200 = 1 + (2 + 69) + 1 * 128: head, tail payload 69, tail payload 1
    let encoded = vec![b'q', 0x80 | 69, 0x80 | 1];
    let (rl, next) = read_run(&encoded, 0, 0);
    assert_eq!(rl.ch, b'q');
    assert_eq!(rl.len, 200);
    assert_eq!(next, 3);
    // and the encoder used by these tests produces exactly that form
    let mut out = Vec::new();
    encode_run(&mut out, b'q', 200);
    assert_eq!(out, encoded);
}

#[test]
fn decoded_run_covers_its_position() {
    let mut text = Vec::new();
    text.extend_from_slice(b"[0]");
    text.extend(std::iter::repeat(b'm').take(40));
    let ctx = corpus_ctx(&text);
    let total = text.len() as i32;
    for pos in 0..total {
        let rl = ctx.decode(pos);
        assert!(rl.pos <= pos && pos < rl.pos + rl.len);
        assert_eq!(rl.rank, ctx.occ_fn(rl.ch, pos));
    }
}

#[test]
fn occ_is_zero_at_the_origin() {
    let ctx = corpus_ctx(b"[0]hello[1]world");
    for b in [9u8, 10, 13, b'a', b'z', b'[', b']', b'0'] {
        assert_eq!(ctx.occ_fn(b, 0), 0);
    }
}

#[test]
fn occ_sums_to_bwt_length_over_the_alphabet() {
    let text = b"[0]hello[1]world";
    let ctx = corpus_ctx(text);
    let n = text.len() as i32;
    let mut sum = 0;
    for a in 0..98u8 {
        let b = match a {
            0 => 9,
            1 => 10,
            2 => 13,
            _ => a + 29,
        };
        sum += ctx.occ_fn(b, n);
    }
    assert_eq!(sum, n);
}

#[test]
fn occ_is_monotone_in_the_position() {
    let text = b"[0]abracadabra";
    let ctx = corpus_ctx(text);
    let n = text.len() as i32;
    for b in [b'a', b'b', b'r', b'['] {
        let mut prev = 0;
        for pos in 0..=n {
            let v = ctx.occ_fn(b, pos);
            assert!(v >= prev);
            prev = v;
        }
    }
}

#[test]
fn c_table_ends_at_the_bwt_length() {
    let text = b"[0]hello[1]world";
    let ctx = corpus_ctx(text);
    assert_eq!(ctx.c_table[0], 0);
    assert_eq!(ctx.c_table[98], text.len() as i32);
    for a in 0..98 {
        assert!(ctx.c_table[a] <= ctx.c_table[a + 1]);
    }
}

#[test]
fn query_hello_world_for_ell() {
    let mut ctx = corpus_ctx(b"[0]hello[1]world");
    let hits = run_query(&mut ctx, b"ell");
    assert_eq!(hits.len(), 1);
    assert_eq!(hits[0].0, 0);
    assert_eq!(hits[0].1, b"hello".to_vec());
}

#[test]
fn query_repeated_text_dedupes_and_orders() {
    let mut ctx = corpus_ctx(b"[0]ab[1]ab");
    let hits = run_query(&mut ctx, b"ab");
    assert_eq!(hits.len(), 2);
    assert_eq!(hits[0].0, 0);
    assert_eq!(hits[0].1, b"ab".to_vec());
    assert_eq!(hits[1].0, 1);
    assert_eq!(hits[1].1, b"ab".to_vec());
}

#[test]
fn query_with_shifted_identifiers() {
    let mut ctx = corpus_ctx(b"[5]x[6]y[7]z");
    let hits = run_query(&mut ctx, b"y");
    assert_eq!(hits.len(), 1);
    assert_eq!(hits[0].0, 6);
    assert_eq!(hits[0].1, b"y".to_vec());
}

#[test]
fn record_count_comes_from_the_bracket_column() {
    let ctx = corpus_ctx(b"[5]x[6]y[7]z");
    let m = map_char(b']');
    assert_eq!(ctx.c_table[m + 1] - ctx.c_table[m], 3);
    let m = map_char(b'[');
    assert_eq!(ctx.c_table[m + 1] - ctx.c_table[m], 3);
}

#[test]
fn id_walk_from_row_zero() {
    let mut ctx = corpus_ctx(b"[5]x[6]y[7]z");
    assert_eq!(ctx.search_id_in_pos(0), Some(7));
}

#[test]
fn calibration_finds_the_smallest_identifier() {
    let mut ctx = corpus_ctx(b"[5]x[6]y[7]z");
    assert!(ctx.get_metadata());
    assert_eq!(ctx.recs, 3);
    assert_eq!(ctx.min_id, 5);
}

#[test]
fn calibration_on_zero_based_identifiers() {
    let mut ctx = corpus_ctx(b"[0]hello[1]world");
    assert!(ctx.get_metadata());
    assert_eq!(ctx.recs, 2);
    assert_eq!(ctx.min_id, 0);
}

#[test]
fn absent_pattern_matches_nothing() {
    let mut ctx = corpus_ctx(b"[0]a");
    let hits = run_query(&mut ctx, b"z");
    assert!(hits.is_empty());
}

#[test]
fn empty_and_invalid_patterns_match_nothing() {
    let mut ctx = corpus_ctx(b"[0]a");
    assert_eq!(ctx.search(b""), Some(vec![]));
    assert_eq!(ctx.search(&[0x80, b'a']), Some(vec![]));
    assert_eq!(ctx.search(&[7u8]), Some(vec![]));
}

#[test]
fn index_generation_is_deterministic() {
    let mut rlb = Vec::new();
    for i in 0..500 {
        rlb.push(if i % 3 == 0 { b'a' } else { b'b' });
    }
    encode_run(&mut rlb, b'c', 300);
    let cps = rlb.len() / CHUNK_SIZE;
    assert!(cps >= 1);
    let (p1, i1) = gen_index(&rlb, cps);
    let (p2, i2) = gen_index(&rlb, cps);
    assert_eq!(p1, p2);
    assert_eq!(i1, i2);
    assert_eq!(i1.len(), cps * CHUNK_SIZE);
}

#[test]
fn rank_across_a_checkpoint_boundary() {
    // 395 single-symbol runs fill most of the first chunk; the run headed
    // at byte 395 has a tail at byte 396, straddling the chunk boundary.
    let mut rlb = Vec::new();
    for _ in 0..395 {
        rlb.push(b'a');
    }
    encode_run(&mut rlb, b'x', 10); // bytes 395..=396: head + one tail
    encode_run(&mut rlb, b'x', 6); // bytes 397..=398: head + one tail
    assert_eq!(rlb.len(), 399);
    let cps = rlb.len() / CHUNK_SIZE;
    assert_eq!(cps, 1);
    let (positions, idx) = gen_index(&rlb, cps);
    assert_eq!(positions, vec![0, 405]);
    // the stored occurrence of 'x' at checkpoint 1 counts the whole
    // straddling run
    let stored = read_le_i32(&idx, cps * I32_SIZE + map_char(b'x') * I32_SIZE);
    assert_eq!(stored, 10);
    let ctx = Context::new(rlb, Some(idx), cps, positions);
    assert_eq!(ctx.find_checkpoint(405), 1);
    assert_eq!(ctx.find_checkpoint(404), 0);
    // five positions past the checkpoint, all holding 'x'
    assert_eq!(ctx.occ_fn(b'x', 405 + 5), stored + 5);
    assert_eq!(ctx.occ_fn(b'a', 405), 395);
    assert_eq!(ctx.c_table[98], 411);
}

#[test]
fn reloading_the_index_gives_the_same_answers() {
    let text = b"[0]hello[1]world[2]hell";
    let rlb = rle(&bwt_of(text));
    let cps = rlb.len() / CHUNK_SIZE;
    let mut fresh = make_ctx(rlb.clone());
    let hits1 = run_query(&mut fresh, b"ell");
    // a second context fed the stored bytes, as if read back from disk
    let mut reloaded = if cps > 0 {
        let (positions, idx) = gen_index(&rlb, cps);
        Context::new(rlb, Some(idx), cps, positions)
    } else {
        Context::new(rlb, None, cps, vec![0])
    };
    let hits2 = run_query(&mut reloaded, b"ell");
    assert_eq!(hits1, hits2);
    assert_eq!(hits1.len(), 2);
    assert_eq!(hits1[0].0, 0);
    assert_eq!(hits1[0].1, b"hello".to_vec());
    assert_eq!(hits1[1].0, 2);
    assert_eq!(hits1[1].1, b"hell".to_vec());
}

#[test]
fn warm_cache_answers_like_a_cold_one() {
    let mut ctx = corpus_ctx(b"[0]hello[1]world");
    let cold = run_query(&mut ctx, b"ell");
    assert!(ctx.summary() > 0);
    let warm = run_query(&mut ctx, b"ell");
    assert_eq!(cold, warm);
    let mut other = corpus_ctx(b"[0]hello[1]world");
    assert_eq!(run_query(&mut other, b"o"), run_query(&mut ctx, b"o"));
}

#[test]
fn cached_decode_agrees_with_decode() {
    let text = b"[0]hello[1]world";
    let mut ctx = corpus_ctx(text);
    for pos in 0..text.len() as i32 {
        let plain = ctx.decode(pos);
        let cached = ctx.cached_decode(pos);
        assert_eq!(cached.ch, plain.ch);
        assert_eq!(cached.pos, plain.pos);
        assert_eq!(cached.len, plain.len);
        assert_eq!(cached.rank, plain.rank);
        let again = ctx.cached_decode(pos);
        assert_eq!(again.rank, plain.rank);
    }
}

#[test]
fn decimal_digits_round_trip() {
    for v in [0i32, 7, 10, 99, 100, 12345, 1000000000] {
        let mut digits = Vec::new();
        push_dec(&mut digits, v);
        assert_eq!(digits, v.to_string().into_bytes());
        assert_eq!(parse_dec(&digits), Some(v));
    }
    assert_eq!(parse_dec(&Vec::new()), None);
    assert_eq!(parse_dec(&vec![b'a']), None);
    assert_eq!(parse_dec(&vec![b'1', b' ']), None);
    assert_eq!(parse_dec(&b"1000000001".to_vec()), None);
    assert_eq!(parse_dec(&b"99999999999".to_vec()), None);
}

#[test]
fn runlength_new_starts_fresh() {
    let rl = RunLength::new(b'k', 17);
    assert_eq!(rl.ch, b'k');
    assert_eq!(rl.len, 1);
    assert_eq!(rl.pos, 17);
    assert_eq!(rl.rank, 0);
}

#[test]
fn extend_byte_refuses_heads() {
    let mut rl = RunLength::new(b'k', 0);
    assert!(!rl.extend_byte(b'q'));
    assert_eq!(rl.len, 1);
    assert!(rl.extend_byte(0x80 | 4));
    assert_eq!(rl.len, 7);
    assert!(rl.extend_byte(0x80 | 1));
    assert_eq!(rl.len, 7 + 128);
}

#[test]
fn c_table_without_an_index_walks_the_whole_stream() {
    let text = b"[0]banana";
    let rlb = rle(&bwt_of(text));
    assert!(rlb.len() < CHUNK_SIZE);
    let tab = gen_c_table(&rlb, None, 0);
    assert_eq!(tab.len(), 99);
    assert_eq!(tab[0], 0);
    assert_eq!(tab[98], text.len() as i32);
    // three 'a's in the corpus: the 'a' column spans three rows
    let m = map_char(b'a');
    assert_eq!(tab[m + 1] - tab[m], 3);
}

#[test]
fn long_run_corpus_queries_correctly() {
    // a symbol repeated two hundred times within one record
    let mut text = Vec::new();
    text.extend_from_slice(b"[0]");
    text.extend(std::iter::repeat(b'w').take(200));
    text.extend_from_slice(b"end[1]other");
    let mut ctx = corpus_ctx(&text);
    let hits = run_query(&mut ctx, b"wwend");
    assert_eq!(hits.len(), 1);
    assert_eq!(hits[0].0, 0);
    assert_eq!(hits[0].1.len(), 203);
    let hits2 = run_query(&mut ctx, b"other");
    assert_eq!(hits2.len(), 1);
    assert_eq!(hits2[0].0, 1);
}

fn naive_decode(rlb: &[u8]) -> Vec<u8> {
    let mut out = Vec::new();
    let mut i = 0;
    while i < rlb.len() {
        let c = rlb[i];
        let mut l: u64 = 1;
        let mut tails = 0u32;
        i += 1;
        while i < rlb.len() && rlb[i] & 0x80 != 0 {
            let p = (rlb[i] & 0x7f) as u64;
            if tails == 0 {
                l += 2 + p;
            } else {
                l += p << (7 * tails);
            }
            tails += 1;
            i += 1;
        }
        for _ in 0..l {
            out.push(c);
        }
    }
    out
}

#[test]
fn rank_and_decode_agree_with_a_naive_scan_across_checkpoints() {
    let mut rlb = Vec::new();
    let mut i = 0usize;
    while rlb.len() < 900 {
        let c = b'a' + (i % 26) as u8;
        let l = 1 + (i * 7) % 40;
        encode_run(&mut rlb, c, l);
        i += 1;
    }
    assert!(rlb.len() / CHUNK_SIZE >= 2);
    let bwt = naive_decode(&rlb);
    let ctx = make_ctx(rlb);
    assert_eq!(ctx.c_table[98] as usize, bwt.len());
    for b in [b'a', b'c', b'm', b'z'] {
        for pos in (0..=bwt.len()).step_by(37) {
            let expect = bwt[..pos].iter().filter(|&&x| x == b).count() as i32;
            assert_eq!(ctx.occ_fn(b, pos as i32), expect);
        }
        let all = bwt.iter().filter(|&&x| x == b).count() as i32;
        assert_eq!(ctx.occ_fn(b, bwt.len() as i32), all);
    }
    for pos in (0..bwt.len()).step_by(53) {
        let rl = ctx.decode(pos as i32);
        assert_eq!(rl.ch, bwt[pos]);
        assert!(rl.pos as usize <= pos && pos < (rl.pos + rl.len) as usize);
        let expect = bwt[..pos].iter().filter(|&&x| x == rl.ch).count() as i32;
        assert_eq!(rl.rank, expect);
    }
}

#[test]
fn stream_without_record_markers_is_refused() {
    // a decodable stream that is no bracketed corpus: the id walk loops on
    // one symbol until its budget runs out, and the query reports failure
    let mut ctx = make_ctx(vec![b'a', b'a']);
    assert_eq!(ctx.search(b"a"), None);
}
