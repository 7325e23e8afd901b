use kmer_colors::hashes::{
    bkw_l, fwd_l, get_rmmult, CanonicalRabinKarpHashFactory, CanonicalRabinKarpHashIterator,
    ExtCanonicalRabinKarpHash, MULTIPLIER, MULT_A, MULT_C, MULT_G, MULT_T,
};

fn fwd_direct(w: &[u8]) -> u64 {
    let mut h: u64 = 0;
    for &c in w {
        h = h.wrapping_mul(MULTIPLIER).wrapping_add(fwd_l(c));
    }
    h
}

fn rev_direct(w: &[u8]) -> u64 {
    let mut h: u64 = 0;
    for &c in w.iter().rev() {
        h = h.wrapping_mul(MULTIPLIER).wrapping_add(bkw_l(c));
    }
    h
}

fn complement(c: u8) -> u8 {
    match c {
        b'A' => b'T',
        b'T' => b'A',
        b'C' => b'G',
        b'G' => b'C',
        0 => 2,
        2 => 0,
        1 => 3,
        3 => 1,
        x => x,
    }
}

fn reverse_complement(s: &[u8]) -> Vec<u8> {
    s.iter().rev().map(|&c| complement(c)).collect()
}

fn pseudo_random_bases(len: usize, seed: u64) -> Vec<u8> {
    let mut x = seed | 1;
    (0..len)
        .map(|_| {
            x ^= x << 13;
            x ^= x >> 7;
            x ^= x << 17;
            b"ACGT"[(x % 4) as usize]
        })
        .collect()
}

#[test]
fn cn_rkhash_test() {
    for k in 2..4096usize {
        let seq = pseudo_random_bases(k + 4, k as u64);
        let hashes = CanonicalRabinKarpHashFactory::new(seq.clone(), k).iter_enumerate();
        assert_eq!(hashes.len(), seq.len() - k + 1);
        let rc = reverse_complement(&seq);
        let rc_hashes = CanonicalRabinKarpHashFactory::new(rc.clone(), k).iter();
        for (pos, h) in hashes.iter() {
            let w = &seq[*pos..*pos + k];
            assert_eq!(h.0, fwd_direct(w));
            assert_eq!(h.1, rev_direct(w));
            let mirrored = rc_hashes[seq.len() - k - pos];
            assert_eq!(h.to_unextendable(), mirrored.to_unextendable());
        }
    }
}

#[test]
fn scenario_acgt_k3() {
    let hashes = CanonicalRabinKarpHashFactory::new(b"ACGT".to_vec(), 3).iter();
    assert_eq!(hashes.len(), 2);
    assert_eq!(hashes[0], ExtCanonicalRabinKarpHash(fwd_direct(b"ACG"), rev_direct(b"ACG")));
    assert_eq!(hashes[1], ExtCanonicalRabinKarpHash(fwd_direct(b"CGT"), rev_direct(b"CGT")));
    assert_eq!(hashes[0].1, fwd_direct(b"CGT"));
    assert_eq!(
        hashes[0].to_unextendable(),
        fwd_direct(b"ACG").min(fwd_direct(b"CGT"))
    );
    assert_eq!(hashes[0].to_unextendable(), hashes[1].to_unextendable());
}

#[test]
fn scenario_n_collapse() {
    let hashes = CanonicalRabinKarpHashFactory::new(b"ANNA".to_vec(), 4).iter();
    assert_eq!(hashes.len(), 1);
    let m3 = MULTIPLIER.wrapping_mul(MULTIPLIER).wrapping_mul(MULTIPLIER);
    assert_eq!(hashes[0].0, MULT_A.wrapping_mul(m3).wrapping_add(MULT_A));
    assert_eq!(hashes[0].1, MULT_T.wrapping_add(MULT_T.wrapping_mul(m3)));
    assert_eq!(hashes[0].to_unextendable(), hashes[0].0.min(hashes[0].1));
}

#[test]
fn compressed_and_ascii_agree() {
    let ascii = CanonicalRabinKarpHashFactory::new(b"ACGTNA".to_vec(), 3).iter();
    let packed = CanonicalRabinKarpHashFactory::new(vec![0, 1, 3, 2, 4, 0], 3).iter();
    assert_eq!(ascii, packed);
    assert_eq!(bkw_l(b'A'), MULT_T);
    assert_eq!(bkw_l(b'C'), MULT_G);
    assert_eq!(bkw_l(b'G'), MULT_C);
    assert_eq!(bkw_l(b'T'), MULT_A);
    assert_eq!(fwd_l(b'N'), 0);
    assert_eq!(fwd_l(b'X'), 1);
    assert_eq!(bkw_l(200), 1);
}

#[test]
fn manual_roll_forward_matches_iterator() {
    let seq = pseudo_random_bases(40, 99);
    let k = 7;
    let hashes = CanonicalRabinKarpHashFactory::new(seq.clone(), k).iter();
    for i in 0..hashes.len() - 1 {
        let rolled =
            CanonicalRabinKarpHashFactory::manual_roll_forward(hashes[i], k, seq[i], seq[i + k]);
        assert_eq!(rolled, hashes[i + 1]);
    }
}

#[test]
fn manual_roll_reverse_matches_iterator() {
    let seq = pseudo_random_bases(40, 5);
    let k = 5;
    let hashes = CanonicalRabinKarpHashFactory::new(seq.clone(), k).iter();
    for i in 1..hashes.len() {
        let rolled = CanonicalRabinKarpHashFactory::manual_roll_reverse(
            hashes[i],
            k,
            seq[i + k - 1],
            seq[i - 1],
        );
        assert_eq!(rolled, hashes[i - 1]);
    }
}

#[test]
fn manual_remove_only() {
    let w = b"GATTACA";
    let h = ExtCanonicalRabinKarpHash(fwd_direct(w), rev_direct(w));
    let front = CanonicalRabinKarpHashFactory::manual_remove_only_forward(h, w.len(), w[0]);
    assert_eq!(front, ExtCanonicalRabinKarpHash(fwd_direct(&w[1..]), rev_direct(&w[1..])));
    let back = CanonicalRabinKarpHashFactory::manual_remove_only_reverse(h, w.len(), w[6]);
    assert_eq!(back, ExtCanonicalRabinKarpHash(fwd_direct(&w[..6]), rev_direct(&w[..6])));
}

#[test]
fn bucket_and_shift() {
    assert_eq!(CanonicalRabinKarpHashFactory::get_bucket(0x1234_5678_9abc_def0), 0x9abc_def0);
    assert_eq!(CanonicalRabinKarpHashFactory::get_bucket(u64::MAX), u32::MAX);
    assert_eq!(CanonicalRabinKarpHashFactory::get_shifted(0x1234_5678_9abc_def0, 8), 0xde);
    assert_eq!(CanonicalRabinKarpHashFactory::get_shifted(0x1234_5678_9abc_def0, 56), 0x12);
    assert_eq!(CanonicalRabinKarpHashFactory::get_second_bucket(7), None);
    assert_eq!(CanonicalRabinKarpHashFactory::get_minimizer(7), None);
}

#[test]
fn rmmult_values() {
    assert_eq!(get_rmmult(1), 1);
    assert_eq!(get_rmmult(2), MULTIPLIER);
    assert_eq!(get_rmmult(4), MULTIPLIER.wrapping_mul(MULTIPLIER).wrapping_mul(MULTIPLIER));
    assert_eq!(kmer_colors::hashes::fastexp(3, 5), 243);
    assert_eq!(MULTIPLIER.wrapping_mul(kmer_colors::hashes::MULT_INV), 1);
}

#[test]
fn iterator_rolls_one_window_at_a_time() {
    let mut it = match CanonicalRabinKarpHashIterator::new(b"ACGTTGCA".to_vec(), 4) {
        Ok(it) => it,
        Err(e) => panic!("{}", e),
    };
    let first = it.roll_hash();
    assert_eq!(first, ExtCanonicalRabinKarpHash(fwd_direct(b"ACGT"), rev_direct(b"ACGT")));
    let rest = it.iter();
    assert_eq!(rest.len(), 4);
    assert_eq!(rest[3], ExtCanonicalRabinKarpHash(fwd_direct(b"TGCA"), rev_direct(b"TGCA")));
    let _ = MULT_C;
}
