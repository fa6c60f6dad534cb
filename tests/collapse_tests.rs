use dinuc_collapse::collapse::collapse_dinuct;
use dinuc_collapse::nucleotide::{chars_of, flip_dinuc, revcomp};

const LONG_READ: &str = "TTAGGCTTTGCGCAGTAGCGCGCGCGCGCGCGAATATATTATATATATATATATATATATATATATATATATATATATATATATATGGGGGGGGGGGCGCGCGCGCGCGCGATATATATATATATAAGAGAGAGAGAGAGAGTCTCTCTCTCTCTCTCTCTC";

#[test]
fn test1_collapse_dinuct_dev() {
    let sequence = "ATATAGGGCGAGACCCCCGAGAGA";
    collapse_dinuct(sequence);
}

#[test]
fn test2_collapse_dinuct_dev() {
    let sequence = "GCGCGCGC";
    collapse_dinuct(sequence);
}

#[test]
fn test3_collapse_dinuct_dev() {
    let sequence = LONG_READ;
    collapse_dinuct(sequence);
}

#[test]
fn revcomp_test1() {
    assert_eq!(revcomp("ATATAGATA"), "TATCTATAT");
}

#[test]
fn flip_test1() {
    assert_eq!("GA", flip_dinuc("AG"));
}

#[test]
fn collapse_drops_exactly_repeated_windows() {
    // windows: AT AT AG GG CG AG AC CC CC GA GA GA
    // dropped: the second AT and the last two GA; CC stays (equal characters)
    assert_eq!(collapse_dinuct("ATATAGGGCGAGACCCCCGAGAGA"), "ATAGGGCGAGACCCCCGA");
}

#[test]
fn collapse_alternating_run_keeps_one_unit() {
    assert_eq!(collapse_dinuct("GCGCGCGC"), "GC");
    assert_eq!(collapse_dinuct("AGAGAG"), "AG");
}

#[test]
fn collapse_keeps_homopolymer_windows() {
    assert_eq!(collapse_dinuct("AAAA"), "AAAA");
    assert_eq!(collapse_dinuct("CCCCCC"), "CCCCCC");
}

#[test]
fn collapse_drops_trailing_odd_character() {
    assert_eq!(collapse_dinuct("AGAGA"), "AG");
    assert_eq!(collapse_dinuct("ATG"), "AT");
    assert_eq!(collapse_dinuct("A"), "");
}

#[test]
fn collapse_empty_is_empty() {
    assert_eq!(collapse_dinuct(""), "");
}

#[test]
fn collapse_without_repeats_is_identity() {
    assert_eq!(collapse_dinuct("ACGTTGCA"), "ACGTTGCA");
    assert_eq!(collapse_dinuct("AGGAAGGA"), "AGGAAGGA");
}

#[test]
fn collapse_never_grows() {
    for s in ["ATATAGGGCGAGACCCCCGAGAGA", "GCGCGCGCG", LONG_READ, "ACG", ""] {
        let r = collapse_dinuct(s);
        assert_eq!(r.len() % 2, 0);
        assert!(r.len() <= s.len() / 2 * 2);
    }
}

#[test]
fn collapse_is_idempotent() {
    for s in ["ATATAGGGCGAGACCCCCGAGAGA", "GCGCGCGC", LONG_READ, "AGAGTCTC"] {
        let once = collapse_dinuct(s);
        assert_eq!(collapse_dinuct(&once), once);
    }
}

#[test]
fn collapse_long_read_value() {
    let r = collapse_dinuct(LONG_READ);
    assert_eq!(r, "TTAGGCTTTGCGCAGTAGCGAATATTATGGGGGGGGGGGCGATAAGTC");
}

#[test]
fn revcomp_maps_unknown_to_n() {
    assert_eq!(revcomp("ACGTNX"), "NNACGT");
    assert_eq!(revcomp(""), "");
    assert_eq!(revcomp("GGC"), "GCC");
}

#[test]
fn flip_reverses_all_characters() {
    assert_eq!(flip_dinuc("ACG"), "GCA");
    assert_eq!(flip_dinuc(""), "");
    assert_eq!(flip_dinuc("TT"), "TT");
}

#[test]
fn chars_of_keeps_order() {
    assert_eq!(chars_of("AGN"), vec!['A', 'G', 'N']);
}
