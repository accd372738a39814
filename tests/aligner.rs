use smith_waterman::{string_to_vec, Aligner, Trace, ERR_CATCH_ALL, ERR_INVALID_SYMBOL, GAP, MATCH};

fn built(a: &str, b: &str) -> Aligner {
    let mut al = Aligner::new(a.as_bytes().to_vec(), b.as_bytes().to_vec());
    assert_eq!(Ok(()), al.build());
    al
}

fn best_score(al: &Aligner) -> i32 {
    let (row, col) = al.scores().max_index();
    *al.scores().get(row, col).unwrap()
}

fn all_scores(al: &Aligner, rows: usize, cols: usize) -> Vec<i32> {
    let mut out = Vec::new();
    for row in 0..rows {
        for col in 0..cols {
            out.push(*al.scores().get(row, col).unwrap());
        }
    }
    out
}

fn all_moves(al: &Aligner, rows: usize, cols: usize) -> Vec<Trace> {
    let mut out = Vec::new();
    for row in 0..rows {
        for col in 0..cols {
            out.push(*al.traceback().get(row, col).unwrap());
        }
    }
    out
}

#[test]
fn golden_fixture_alignment() {
    let al = built("TGTTACGG", "GGTTGACTA");
    assert_eq!((7, 6), al.scores().max_index());
    assert_eq!(13, best_score(&al));
    assert_eq!("GTT-AC", al.aligned0());
    assert_eq!("GTTGAC", al.aligned1());
}

#[test]
fn golden_fixture_grid_cells() {
    let al = built("TGTTACGG", "GGTTGACTA");
    assert_eq!(Ok(&Trace::Diag), al.traceback().get(7, 6));
    assert_eq!(Ok(&Trace::Top), al.traceback().get(5, 4));
    assert_eq!(Ok(&3), al.scores().get(1, 2));
    assert_eq!(Ok(&Trace::Stop), al.traceback().get(0, 3));
    assert_eq!(90, al.scores().len());
}

#[test]
fn tie_breaks_follow_diagonal_top_left_order() {
    let al = built("GATTACA", "GCATGCT");
    assert_eq!(7, best_score(&al));
    assert_eq!("G-AT", al.aligned0());
    assert_eq!("GCAT", al.aligned1());
    let al = built("ACACACTA", "AGCACACA");
    assert_eq!(17, best_score(&al));
    assert_eq!("A-CACACTA", al.aligned0());
    assert_eq!("AGCACAC-A", al.aligned1());
}

#[test]
fn scores_are_never_negative() {
    let al = built("TGTTACGG", "GGTTGACTA");
    assert!(all_scores(&al, 10, 9).iter().all(|v| *v >= 0));
    let al = built("AAAA", "TTTTTT");
    assert!(all_scores(&al, 7, 5).iter().all(|v| *v >= 0));
}

#[test]
fn aligned_sequences_have_equal_length() {
    for (a, b) in [("TGTTACGG", "GGTTGACTA"), ("GATTACA", "GCATGCT"), ("A", "T"), ("ACGT", "")] {
        let al = built(a, b);
        assert_eq!(al.aligned0().len(), al.aligned1().len());
    }
}

#[test]
fn self_alignment_is_a_perfect_match() {
    let s = "GATTACA";
    let al = built(s, s);
    assert_eq!(MATCH * 7, best_score(&al));
    assert_eq!(s, al.aligned0());
    assert_eq!(s, al.aligned1());
    assert!(!al.aligned0().contains(GAP as char));
}

#[test]
fn disjoint_alphabets_give_empty_alignment() {
    let al = built("AAGA", "CTTC");
    assert_eq!((0, 0), al.scores().max_index());
    assert_eq!(0, best_score(&al));
    assert_eq!(Ok(&Trace::Stop), al.traceback().get(0, 0));
    assert!(all_scores(&al, 5, 5).iter().all(|v| *v == 0));
    assert_eq!("", al.aligned0());
    assert_eq!("", al.aligned1());
}

#[test]
fn build_is_deterministic() {
    let mut once = Aligner::new(b"TGTTACGG".to_vec(), b"GGTTGACTA".to_vec());
    assert_eq!(Ok(()), once.build());
    let scores = all_scores(&once, 10, 9);
    let moves = all_moves(&once, 10, 9);
    let texts = (once.aligned0().to_string(), once.aligned1().to_string());
    assert_eq!(Ok(()), once.build());
    assert_eq!(scores, all_scores(&once, 10, 9));
    assert_eq!(moves, all_moves(&once, 10, 9));
    assert_eq!(texts, (once.aligned0().to_string(), once.aligned1().to_string()));
    let other = built("TGTTACGG", "GGTTGACTA");
    assert_eq!(scores, all_scores(&other, 10, 9));
    assert_eq!(moves, all_moves(&other, 10, 9));
    assert_eq!(texts, (other.aligned0().to_string(), other.aligned1().to_string()));
}

#[test]
fn empty_input_gives_zero_grid_and_empty_alignment() {
    let al = built("", "GATTACA");
    assert_eq!(8, al.scores().len());
    assert!(all_scores(&al, 8, 1).iter().all(|v| *v == 0));
    assert_eq!("", al.aligned0());
    assert_eq!("", al.aligned1());
    let al = built("GATTACA", "");
    assert!(all_scores(&al, 1, 8).iter().all(|v| *v == 0));
    assert_eq!("", al.aligned1());
    let al = built("", "");
    assert_eq!(1, al.scores().len());
    assert_eq!("", al.aligned0());
}

#[test]
fn new_aligner_starts_blank() {
    let al = Aligner::new(b"ACG".to_vec(), b"TT".to_vec());
    assert!(all_scores(&al, 3, 4).iter().all(|v| *v == 0));
    assert!(all_moves(&al, 3, 4).iter().all(|t| *t == Trace::Stop));
    assert_eq!("", al.aligned0());
}

#[test]
fn non_text_bytes_fail_with_catch_all() {
    let mut al = Aligner::new(vec![0xFF, 0x41], vec![0xFF]);
    assert_eq!(Err(ERR_CATCH_ALL), al.build());
    assert_eq!(Ok(&3), al.scores().get(1, 1));
    assert_eq!("", al.aligned0());
}

#[test]
fn trace_default_is_stop() {
    assert_eq!(Trace::Stop, Trace::default());
}

#[test]
fn bases_are_read_as_bytes() {
    assert_eq!(Ok(b"GATTACA".to_vec()), string_to_vec("GATTACA"));
    assert_eq!(Ok(Vec::new()), string_to_vec(""));
}

#[test]
fn invalid_base_is_rejected() {
    assert_eq!(Err(ERR_INVALID_SYMBOL), string_to_vec("GATXACA"));
    assert_eq!(Err(ERR_INVALID_SYMBOL), string_to_vec("gattaca"));
    assert_eq!(Err(ERR_INVALID_SYMBOL), string_to_vec("ACGÜ"));
}
