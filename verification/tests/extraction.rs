use minread::kmer::{normalize_vec, revcomp, Kmer};
use minread::params::{Params, DENSITY_NONE, DENSITY_ONE};
use minread::read::Read;
use minread::vocab::{TokenSet, Vocab};

fn base_params() -> Params {
    Params {
        density: DENSITY_ONE,
        l: 3,
        k: 2,
        n: 3,
        use_hpc: true,
        uhs: false,
        lcp: false,
        error_correct: false,
        has_lmer_counts: false,
        correction_threshold: 0,
        // the 0.15 mash cutoff translated for window length three
        dist_threshold: (5320, 10000),
        debug: false,
    }
}

#[test]
fn hpc_collapses_runs() {
    let (comp, pos) = Read::encode_rle(&b"AAATTTGGG".to_vec());
    assert_eq!(comp, b"ATG".to_vec());
    assert_eq!(pos, vec![0, 3, 6]);
}

#[test]
fn hpc_round_trip_points_at_run_starts() {
    let raw = b"ACCGGGTTTTACG".to_vec();
    let (comp, pos) = Read::encode_rle(&raw);
    assert_eq!(comp.len(), pos.len());
    for i in 0..comp.len() {
        assert_eq!(comp[i], raw[pos[i]]);
        if i > 0 {
            assert!(pos[i - 1] < pos[i]);
        }
    }
}

#[test]
fn hpc_idempotent_on_compressed_input() {
    let raw = b"AACCTTGG".to_vec();
    let (comp, _) = Read::encode_rle(&raw);
    let (comp2, pos2) = Read::encode_rle(&comp);
    assert_eq!(comp2, comp);
    let identity: Vec<usize> = (0..comp.len()).collect();
    assert_eq!(pos2, identity);
}

#[test]
fn hpc_keeps_non_nucleotide_runs() {
    // only A/C/T/G/N (either case) collapse; other characters never do
    let (comp, pos) = Read::encode_rle(&b"XXAA".to_vec());
    assert_eq!(comp, b"XXA".to_vec());
    assert_eq!(pos, vec![0, 1, 2]);
}

#[test]
fn hpc_empty_input_gives_empty_output() {
    let (comp, pos) = Read::encode_rle(&Vec::new());
    assert!(comp.is_empty());
    assert!(pos.is_empty());
}

#[test]
fn density_one_selects_every_window() {
    let params = base_params();
    let vocab = Vocab::new();
    let r = Read::extract_density("r1", b"ACGTA".to_vec(), &params, &vocab);
    assert_eq!(r.minimizers_pos, vec![0, 1, 2]);
    assert_eq!(r.transformed.len(), 3);
    assert!(!r.corrected);
    assert_eq!(r.id, "r1");
}

#[test]
fn density_zero_selects_no_window() {
    let mut params = base_params();
    params.density = DENSITY_NONE;
    let vocab = Vocab::new();
    let r = Read::extract_density("r1", b"ACGTA".to_vec(), &params, &vocab);
    assert!(r.minimizers_pos.is_empty());
    assert!(r.transformed.is_empty());
}

#[test]
fn short_sequence_yields_empty_result() {
    let params = base_params();
    let vocab = Vocab::new();
    let r = Read::extract_density("r1", b"AC".to_vec(), &params, &vocab);
    assert!(r.transformed.is_empty());
    assert_eq!(r.seq, b"AC".to_vec());
}

#[test]
fn window_hash_matches_published_value() {
    // the canonical hash of TGCAG at window length 5, as the hash crate
    // documents it
    let mut params = base_params();
    params.l = 5;
    let vocab = Vocab::new();
    let r = Read::extract_density("r1", b"TGCAG".to_vec(), &params, &vocab);
    assert_eq!(r.transformed, vec![0x0baf_a672_8fc6_dabf_u64]);
    assert_eq!(r.minimizers_pos, vec![0]);
}

#[test]
fn extraction_is_deterministic() {
    let params = base_params();
    let vocab = Vocab::new();
    let a = Read::extract_density("a", b"ACGTACGTAC".to_vec(), &params, &vocab);
    let b = Read::extract_density("b", b"ACGTACGTAC".to_vec(), &params, &vocab);
    assert_eq!(a.transformed, b.transformed);
    assert_eq!(a.minimizers_pos, b.minimizers_pos);
}

#[test]
fn position_invariant_with_internal_hpc() {
    let mut params = base_params();
    params.use_hpc = false;
    let vocab = Vocab::new();
    let raw = b"AAACCCGGGTTTACGT".to_vec();
    let r = Read::extract_density("r1", raw.clone(), &params, &vocab);
    assert_eq!(r.seq, raw);
    assert_eq!(r.minimizers_pos.len(), r.transformed.len());
    for i in 0..r.minimizers_pos.len() {
        assert!(r.minimizers_pos[i] + params.l <= r.seq.len());
        if i > 0 {
            assert!(r.minimizers_pos[i - 1] < r.minimizers_pos[i]);
        }
    }
}

#[test]
fn uhs_keeps_first_occurrence_only() {
    // ACGACG repeats the window ACG at offsets 0 and 3
    let mut params = base_params();
    params.uhs = true;
    let vocab = Vocab::new();
    let mut uhs_bloom = TokenSet::new();
    let mut lcp_bloom = TokenSet::new();
    let r = Read::extract(
        "r1",
        b"ACGACG".to_vec(),
        &params,
        &vocab,
        &mut uhs_bloom,
        &mut lcp_bloom,
    );
    let plain = Read::extract_density("r1", b"ACGACG".to_vec(), &base_params(), &vocab);
    assert_eq!(plain.transformed.len(), 4);
    assert_eq!(r.transformed.len(), 3);
    assert_eq!(r.minimizers_pos[0], 0);
}

#[test]
fn uhs_shares_its_set_across_reads() {
    let mut params = base_params();
    params.uhs = true;
    let vocab = Vocab::new();
    let mut uhs_bloom = TokenSet::new();
    let first = Read::extract_uhs("r1", b"ACGTT".to_vec(), &params, &vocab, &mut uhs_bloom);
    assert!(!first.transformed.is_empty());
    // the same windows are already taken for a second read
    let second = Read::extract_uhs("r2", b"ACGTT".to_vec(), &params, &vocab, &mut uhs_bloom);
    assert!(second.transformed.is_empty());
}

#[test]
fn lcp_rejects_ambiguous_windows() {
    let mut params = base_params();
    params.lcp = true;
    params.l = 2;
    let vocab = Vocab::new();
    let mut lcp_bloom = TokenSet::new();
    let r = Read::extract_lcp("r1", b"ANGT".to_vec(), &params, &vocab, &mut lcp_bloom);
    // windows AN and NG hold an N and are rejected; only GT stays
    assert_eq!(r.minimizers_pos, vec![2]);
    let mut uhs_params = base_params();
    uhs_params.uhs = true;
    uhs_params.l = 2;
    let mut uhs_bloom = TokenSet::new();
    let u = Read::extract_uhs("r1", b"ANGT".to_vec(), &uhs_params, &vocab, &mut uhs_bloom);
    assert_eq!(u.transformed.len(), 3);
}

#[test]
fn vocabulary_redirect_maps_and_skips() {
    let mut params = base_params();
    params.l = 2;
    params.error_correct = true;
    let mut vocab = Vocab::new();
    vocab.insert(b"AC".to_vec(), 10);
    vocab.insert(b"GT".to_vec(), 30);
    // CG is missing from the vocabulary and is silently skipped
    let r = Read::extract_density("r1", b"ACGT".to_vec(), &params, &vocab);
    assert_eq!(r.transformed, vec![10, 30]);
    assert_eq!(r.minimizers_pos, vec![0, 2]);
}

#[test]
fn windowing_counts_follow_token_count() {
    let params = Params { l: 1, k: 2, ..base_params() };
    let read = Read {
        id: "r1".to_string(),
        minimizers: Vec::new(),
        minimizers_pos: vec![0, 1, 2],
        transformed: vec![1, 2, 3],
        seq: b"ACG".to_vec(),
        corrected: false,
    };
    let out = read.read_to_kmers(&params);
    assert_eq!(out.len(), 2);
    let exact = Params { l: 1, k: 3, ..base_params() };
    let one = read.read_to_kmers(&exact);
    assert_eq!(one.len(), 1);
}

#[test]
fn windowing_records_substring_and_shift() {
    let params = Params { l: 1, k: 3, ..base_params() };
    let read = Read {
        id: "r1".to_string(),
        minimizers: Vec::new(),
        minimizers_pos: vec![0, 2, 5],
        transformed: vec![1, 2, 3],
        seq: b"AACCGG".to_vec(),
        corrected: false,
    };
    let out = read.read_to_kmers(&params);
    assert_eq!(out.len(), 1);
    let (node, seq_part, reversed, origin, shift) = (&out[0].0, &out[0].1, out[0].2, &out[0].3, out[0].4);
    assert_eq!(node.tokens, vec![1, 2, 3]);
    assert!(!reversed);
    assert_eq!(seq_part, &b"AACCGG".to_vec());
    assert_eq!(origin.as_str(), "*");
    assert_eq!(shift, (2, 3));
}

#[test]
fn strand_symmetry_inverts_orientation() {
    let fwd = Kmer { tokens: vec![1, 2, 3] };
    let (cf, ff) = fwd.normalize();
    let rev = Kmer { tokens: vec![3, 2, 1] };
    let (cr, fr) = rev.normalize();
    assert_eq!(cf.tokens, cr.tokens);
    assert_eq!(ff, !fr);
    assert_eq!(normalize_vec(&vec![1, 2, 3]), normalize_vec(&vec![3, 2, 1]));
}

#[test]
fn strand_symmetry_through_windowing() {
    let params = Params { l: 1, k: 3, ..base_params() };
    let read = Read {
        id: "r1".to_string(),
        minimizers: Vec::new(),
        minimizers_pos: vec![0, 1, 2],
        transformed: vec![5, 6, 7],
        seq: b"ACG".to_vec(),
        corrected: false,
    };
    // reverse-complement the read: tokens reversed, sequence
    // reverse-complemented, positions reflected
    let rc = Read {
        id: "r1rc".to_string(),
        minimizers: Vec::new(),
        minimizers_pos: vec![0, 1, 2],
        transformed: vec![7, 6, 5],
        seq: revcomp(&b"ACG".to_vec()),
        corrected: false,
    };
    let a = read.read_to_kmers(&params);
    let b = rc.read_to_kmers(&params);
    assert_eq!(a[0].0.tokens, b[0].0.tokens);
    assert_eq!(a[0].2, !b[0].2);
}

#[test]
fn revcomp_complements_and_reverses() {
    assert_eq!(revcomp(&b"AACG".to_vec()), b"CGTT".to_vec());
    assert_eq!(revcomp(&b"ACGT".to_vec()), b"ACGT".to_vec());
}

#[test]
fn run_start_predicate_is_exact() {
    // spot-check the compressed output against the run-start rule
    let raw = b"AATTX".to_vec();
    let (comp, pos) = Read::encode_rle(&raw);
    assert_eq!(comp, b"ATX".to_vec());
    assert_eq!(pos, vec![0, 2, 4]);
}
