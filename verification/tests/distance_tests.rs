use jf_score::distance::Capability;
use jf_score::distance::Kernel;
use jf_score::distance::distance_narrow;
use jf_score::distance::distance_scalar;
use jf_score::distance::distance_wide;
use jf_score::distance::distance_with;
use jf_score::distance::select_kernel;

#[test]
fn identical_sequences_have_zero_distance() {
    assert_eq!(distance_scalar(b"ACGT-", b"ACGT-"), 0);
    assert_eq!(distance_scalar(b"", b""), 0);
    assert_eq!(distance_scalar(b"----", b"----"), 0);
    let long: Vec<u8> = (0..1000u32).map(|i| b"ACGT-"[(i % 5) as usize]).collect();
    assert_eq!(distance_wide(&long, &long), 0);
}

#[test]
fn distance_is_symmetric() {
    let pairs: [(&[u8], &[u8]); 4] = [
        (b"ACGT", b"AGCT"),
        (b"AC-T", b"ACTT"),
        (b"ACGTACGT", b"ACGT"),
        (b"", b"ACGT"),
    ];
    for (a, b) in pairs {
        assert_eq!(distance_scalar(a, b), distance_scalar(b, a));
        assert_eq!(distance_wide(a, b), distance_wide(b, a));
        assert_eq!(distance_narrow(a, b), distance_narrow(b, a));
    }
}

#[test]
fn all_gap_operand_gives_zero_distance() {
    assert_eq!(distance_scalar(b"----", b"ACGT"), 0);
    assert_eq!(distance_scalar(b"ACGT", b"----"), 0);
    assert_eq!(distance_wide(b"--------", b"ACGTTGCA"), 0);
}

#[test]
fn gap_positions_are_excluded() {
    // Position 3 is the only one where both symbols are known and differ.
    assert_eq!(distance_scalar(b"A-GT", b"ACGA"), 1);
    // A gap in either operand masks a difference.
    assert_eq!(distance_scalar(b"A-GT", b"AC-T"), 0);
}

#[test]
fn length_mismatch_truncates_to_shared_prefix() {
    assert_eq!(distance_scalar(b"ACGTACGT", b"ACGT"), 0);
    assert_eq!(distance_scalar(b"ACTTACGT", b"ACGT"), 1);
    assert_eq!(distance_scalar(b"ACGT", b"ACTTACGT"), 1);
    assert_eq!(distance_scalar(b"ACGTACGT", b""), 0);
}

fn next_symbol(state: &mut u64) -> u8 {
    *state = state
        .wrapping_mul(6364136223846793005)
        .wrapping_add(1442695040888963407);
    b"ACGT-N"[((*state >> 33) % 6) as usize]
}

#[test]
fn strategies_agree_on_random_buffers() {
    let mut state: u64 = 42;
    let lengths: [usize; 14] = [0, 1, 5, 31, 32, 33, 63, 64, 65, 100, 127, 128, 129, 300];
    for &la in &lengths {
        for &lb in &lengths {
            let a: Vec<u8> = (0..la).map(|_| next_symbol(&mut state)).collect();
            let b: Vec<u8> = (0..lb).map(|_| next_symbol(&mut state)).collect();
            let scalar = distance_scalar(&a, &b);
            assert_eq!(distance_wide(&a, &b), scalar);
            assert_eq!(distance_narrow(&a, &b), scalar);
            assert_eq!(distance_with(Kernel::Wide, &a, &b), scalar);
            assert_eq!(distance_with(Kernel::Narrow, &a, &b), scalar);
            assert_eq!(distance_with(Kernel::Scalar, &a, &b), scalar);
        }
    }
}

#[test]
fn kernel_selection_prefers_widest_tier() {
    assert_eq!(select_kernel(Capability::WideVectors), Kernel::Wide);
    assert_eq!(select_kernel(Capability::NarrowVectors), Kernel::Narrow);
    assert_eq!(select_kernel(Capability::ScalarOnly), Kernel::Scalar);
}
