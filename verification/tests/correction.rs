use minread::correct::CorrError;
use minread::dist::{dist_pair, filter_rank};
use minread::params::{Params, DENSITY_ONE};
use minread::read::Read;
use minread::table::{Buckets, CorrMap, PoaMap, ReadTable};
use minread::vocab::VocabInv;

fn corr_params() -> Params {
    Params {
        density: DENSITY_ONE,
        l: 1,
        k: 2,
        n: 3,
        use_hpc: true,
        uhs: false,
        lcp: false,
        error_correct: true,
        has_lmer_counts: false,
        correction_threshold: 1,
        // the 0.15 mash cutoff translated for window length one
        dist_threshold: (2445, 10000),
        debug: false,
    }
}

fn mk_read(id: &str, tokens: &[u64], seq: &[u8], corrected: bool) -> Read {
    Read {
        id: id.to_string(),
        minimizers: Vec::new(),
        minimizers_pos: (0..tokens.len()).collect(),
        transformed: tokens.to_vec(),
        seq: seq.to_vec(),
        corrected,
    }
}

fn mk_vocab() -> VocabInv {
    let mut iv = VocabInv::new();
    iv.insert(1, b"A".to_vec());
    iv.insert(2, b"C".to_vec());
    iv.insert(3, b"G".to_vec());
    iv.insert(4, b"T".to_vec());
    iv.insert(5, b"W".to_vec());
    iv.insert(9, b"Z".to_vec());
    iv
}

#[test]
fn distance_is_zero_on_identical_token_sets() {
    let a = vec![1u64, 2, 3, 4, 5];
    let b = vec![5u64, 4, 3, 2, 1];
    let d = dist_pair(&a, &b);
    assert_eq!(d.0, 0);
    assert_eq!(d.1, 5);
}

#[test]
fn distance_counts_symmetric_difference() {
    let a = vec![1u64, 2, 3];
    let b = vec![1u64, 2, 9];
    let d1 = dist_pair(&a, &b);
    let d2 = dist_pair(&b, &a);
    // two tokens differ over a union of four
    assert_eq!(d1, (2, 4));
    assert_eq!(d1, d2);
}

#[test]
fn filter_drops_distant_candidates_and_sorts() {
    // entries are (slot, numerator, denominator)
    let cands = vec![(0usize, 2usize, 4usize), (1, 0, 5), (2, 1, 10), (3, 3, 20)];
    let kept = filter_rank(&cands, 3, 20);
    // at a bound of 3/20, the distances 2/4 and 3/20 are dropped
    assert_eq!(kept.len(), 2);
    assert_eq!(kept[0], (1, 0, 5));
    assert_eq!(kept[1], (2, 1, 10));
}

#[test]
fn filter_caps_at_eighty() {
    let mut cands: Vec<(usize, usize, usize)> = Vec::new();
    for i in 0..100 {
        cands.push((i, 0, 1));
    }
    let kept = filter_rank(&cands, 3, 20);
    assert_eq!(kept.len(), 80);
}

#[test]
fn missing_bucket_key_is_fatal() {
    let params = corr_params();
    let mut template = mk_read("t", &[1, 2, 3, 4, 5], b"ACGTW", false);
    let iv = mk_vocab();
    let buckets = Buckets::new();
    let mut poa_map = PoaMap::new();
    let mut corrected_map = CorrMap::new();
    let mut table = ReadTable::new();
    table.push(mk_read("t", &[1, 2, 3, 4, 5], b"ACGTW", false));
    let res = template.poa_correct(&iv, &mut poa_map, &buckets, &params, &mut corrected_map, &table);
    assert_eq!(res, Err(CorrError::IndexContractViolation));
    assert!(!template.corrected);
    assert_eq!(template.transformed, vec![1, 2, 3, 4, 5]);
    assert!(corrected_map.entries.is_empty());
    assert!(poa_map.entries.is_empty());
}

#[test]
fn zero_neighbors_still_completes() {
    let params = corr_params();
    let mut template = mk_read("t", &[1, 2, 3], b"ACG", false);
    let iv = mk_vocab();
    let mut table = ReadTable::new();
    table.push(mk_read("t", &[1, 2, 3], b"ACG", false));
    let buckets = Buckets::build(&table, params.n);
    let mut poa_map = PoaMap::new();
    let mut corrected_map = CorrMap::new();
    let res = template.poa_correct(&iv, &mut poa_map, &buckets, &params, &mut corrected_map, &table);
    assert!(res.is_ok());
    assert!(template.corrected);
    assert_eq!(template.transformed, vec![1, 2, 3]);
    assert_eq!(template.seq, b"ACG".to_vec());
    assert_eq!(template.minimizers_pos, vec![0, 1, 2]);
    assert_eq!(template.minimizers, vec![b"A".to_vec(), b"C".to_vec(), b"G".to_vec()]);
    // no neighbor was recruited, so nothing is propagated
    assert!(corrected_map.entries.is_empty());
    assert_eq!(poa_map.entries.len(), 1);
    assert_eq!(poa_map.entries[0].0, "t");
    assert!(poa_map.entries[0].1.is_empty());
}

#[test]
fn bucket_completeness_links_sharing_reads() {
    let params = corr_params();
    let a = mk_read("a", &[1, 2, 3, 4, 5], b"ACGTW", false);
    let b = mk_read("b", &[9, 1, 2, 3], b"ZACG", false);
    let mut table = ReadTable::new();
    table.push(a);
    table.push(b);
    let buckets = Buckets::build(&table, params.n);
    // a and b share the window [1, 2, 3]
    let from_a = table.get(&"a".to_string()).unwrap().recruit_neighbors(&buckets, params.n).unwrap();
    assert!(from_a.contains(&"b".to_string()));
    let from_b = table.get(&"b".to_string()).unwrap().recruit_neighbors(&buckets, params.n).unwrap();
    assert!(from_b.contains(&"a".to_string()));
}

#[test]
fn bucket_lookup_matches_either_orientation() {
    let params = corr_params();
    // the reversed window [3, 2, 1] normalizes to the same key as [1, 2, 3]
    let a = mk_read("a", &[1, 2, 3, 4], b"ACGT", false);
    let b = mk_read("b", &[5, 3, 2, 1], b"WGCA", false);
    let mut table = ReadTable::new();
    table.push(a);
    table.push(b);
    let buckets = Buckets::build(&table, params.n);
    let from_a = table.get(&"a".to_string()).unwrap().recruit_neighbors(&buckets, params.n).unwrap();
    assert!(from_a.contains(&"b".to_string()));
}

#[test]
fn end_to_end_five_token_template() {
    // template [1,2,3,4,5]; A identical (already corrected); B with one
    // mismatching token; C too short to own a window in the index
    let mut params = corr_params();
    params.l = 2;
    // the 0.15 mash cutoff translated for window length two
    params.dist_threshold = (4117, 10000);
    let t_tokens: Vec<u64> = vec![1, 2, 3, 4, 5];
    let b_tokens: Vec<u64> = vec![1, 2, 3, 9, 5];
    let t_seq = b"AACCGGTTWW".to_vec();
    let b_seq = b"AACCGGZZWW".to_vec();
    let mk2 = |id: &str, tokens: &[u64], seq: &[u8], corrected: bool| Read {
        id: id.to_string(),
        minimizers: Vec::new(),
        minimizers_pos: (0..tokens.len()).map(|i| 2 * i).collect(),
        transformed: tokens.to_vec(),
        seq: seq.to_vec(),
        corrected,
    };
    let mut iv = VocabInv::new();
    iv.insert(1, b"AA".to_vec());
    iv.insert(2, b"CC".to_vec());
    iv.insert(3, b"GG".to_vec());
    iv.insert(4, b"TT".to_vec());
    iv.insert(5, b"WW".to_vec());
    iv.insert(9, b"ZZ".to_vec());
    let mut template = mk2("t", &t_tokens, &t_seq, false);
    // the index is built over the reads owning 3-token windows: t, a, b
    let mut indexed = ReadTable::new();
    indexed.push(mk2("t", &t_tokens, &t_seq, false));
    indexed.push(mk2("a", &t_tokens, &t_seq, true));
    indexed.push(mk2("b", &b_tokens, &b_seq, false));
    let buckets = Buckets::build(&indexed, params.n);
    // the read table also holds c, which stands in no bucket
    let mut table = indexed;
    table.push(mk2("c", &[1, 2, 3], b"AACCGG", false));
    let mut poa_map = PoaMap::new();
    let mut corrected_map = CorrMap::new();
    let res = template.poa_correct(&iv, &mut poa_map, &buckets, &params, &mut corrected_map, &table);
    assert!(res.is_ok());
    // a and b are the candidates, both below the translated cutoff
    assert_eq!(poa_map.entries.len(), 1);
    assert_eq!(poa_map.entries[0].0, "t");
    assert!(poa_map.entries[0].1.contains(&"a".to_string()));
    assert!(poa_map.entries[0].1.contains(&"b".to_string()));
    assert!(!poa_map.entries[0].1.contains(&"c".to_string()));
    // the identical neighbor outvotes the mismatch: consensus [1,2,3,4,5]
    assert!(template.corrected);
    assert_eq!(template.transformed, t_tokens);
    assert_eq!(template.seq, t_seq);
    assert_eq!(template.minimizers_pos, vec![0, 2, 4, 6, 8]);
    // b was previously uncorrected and the budget is one: b is labeled
    assert_eq!(corrected_map.entries.len(), 1);
    assert_eq!(corrected_map.entries[0].0, "b");
    assert_eq!(corrected_map.entries[0].1.transformed, t_tokens);
}

#[test]
fn end_to_end_consensus_and_propagation() {
    let params = corr_params();
    // fourteen tokens also keep a one-token mismatch under the cutoff at
    // window length one
    let t_tokens: Vec<u64> = (1..=14).collect();
    let mut b_tokens = t_tokens.clone();
    b_tokens[3] = 99;
    let t_seq: Vec<u8> = (1..=14u8).map(|i| 64 + i).collect();
    let mut b_seq = t_seq.clone();
    b_seq[3] = b'z';
    let mut iv = mk_vocab();
    for i in 6..=14u64 {
        iv.insert(i, vec![64 + i as u8]);
    }
    iv.insert(99, b"z".to_vec());
    let mut template = mk_read("t", &t_tokens, &t_seq, false);
    let mut table = ReadTable::new();
    table.push(mk_read("t", &t_tokens, &t_seq, false));
    // neighbor A: identical, already corrected, so propagation passes it by
    table.push(mk_read("a", &t_tokens, &t_seq, true));
    // neighbor B: one mismatching token, not yet corrected
    table.push(mk_read("b", &b_tokens, &b_seq, false));
    // neighbor C: shares one window but lies beyond the distance threshold
    table.push(mk_read("c", &[1, 2, 3], b"ACG", false));
    let buckets = Buckets::build(&table, params.n);
    let mut poa_map = PoaMap::new();
    let mut corrected_map = CorrMap::new();
    let res = template.poa_correct(&iv, &mut poa_map, &buckets, &params, &mut corrected_map, &table);
    assert!(res.is_ok());
    // the template and the identical neighbor outvote the mismatch
    assert!(template.corrected);
    assert_eq!(template.transformed, t_tokens);
    assert_eq!(template.seq, t_seq);
    let identity: Vec<usize> = (0..14).collect();
    assert_eq!(template.minimizers_pos, identity);
    // provenance: a and b contributed, c did not
    assert_eq!(poa_map.entries.len(), 1);
    assert_eq!(poa_map.entries[0].0, "t");
    assert!(poa_map.entries[0].1.contains(&"a".to_string()));
    assert!(poa_map.entries[0].1.contains(&"b".to_string()));
    assert!(!poa_map.entries[0].1.contains(&"c".to_string()));
    // propagation: within the budget of one, to the uncorrected neighbor b
    assert_eq!(corrected_map.entries.len(), 1);
    assert_eq!(corrected_map.entries[0].0, "b");
    assert_eq!(corrected_map.entries[0].1.transformed, t_tokens);
    assert_eq!(corrected_map.entries[0].1.seq, t_seq);
}

#[test]
fn propagation_budget_zero_labels_nobody() {
    let mut params = corr_params();
    params.correction_threshold = 0;
    let mut template = mk_read("t", &[1, 2, 3, 4, 5], b"ACGTW", false);
    let iv = mk_vocab();
    let mut table = ReadTable::new();
    table.push(mk_read("t", &[1, 2, 3, 4, 5], b"ACGTW", false));
    table.push(mk_read("b", &[1, 2, 3, 9, 5], b"ACGZW", false));
    let buckets = Buckets::build(&table, params.n);
    let mut poa_map = PoaMap::new();
    let mut corrected_map = CorrMap::new();
    let res = template.poa_correct(&iv, &mut poa_map, &buckets, &params, &mut corrected_map, &table);
    assert!(res.is_ok());
    assert!(template.corrected);
    assert!(corrected_map.entries.is_empty());
}

#[test]
fn propagation_never_exceeds_budget() {
    let mut params = corr_params();
    params.correction_threshold = 2;
    let mut template = mk_read("t", &[1, 2, 3, 4, 5], b"ACGTW", false);
    let iv = mk_vocab();
    let mut table = ReadTable::new();
    table.push(mk_read("t", &[1, 2, 3, 4, 5], b"ACGTW", false));
    table.push(mk_read("n1", &[1, 2, 3, 4, 5], b"ACGTW", false));
    table.push(mk_read("n2", &[1, 2, 3, 4, 5], b"ACGTW", false));
    table.push(mk_read("n3", &[1, 2, 3, 4, 5], b"ACGTW", false));
    let buckets = Buckets::build(&table, params.n);
    let mut poa_map = PoaMap::new();
    let mut corrected_map = CorrMap::new();
    let res = template.poa_correct(&iv, &mut poa_map, &buckets, &params, &mut corrected_map, &table);
    assert!(res.is_ok());
    assert_eq!(corrected_map.entries.len(), 2);
}
