use nistrs::approximate::approximate_entropy_counts;
use nistrs::block_freq::block_frequency_counts;
use nistrs::cusum::cumulative_sums_ranges;
use nistrs::freq::frequency_sum;
use nistrs::linear::linear_complexity_counts;
use nistrs::longest_run_of_ones::longest_run_counts;
use nistrs::non_overlapping_template::{get_tempalte, get_template_size, non_overlapping_counts};
use nistrs::overlapping_template::overlapping_counts;
use nistrs::random_excursions::random_excursions_counts;
use nistrs::random_excursions_variant::random_excursions_variant_counts;
use nistrs::rank::rank_counts;
use nistrs::runs::{runs_count, runs_prerequisite_holds};
use nistrs::serial::serial_counts;
use nistrs::universal::universal_gaps;
use nistrs::{BitsData, TestError};

fn text(s: &str) -> BitsData {
    BitsData::from_text(s.to_string()).unwrap()
}

fn from_bools(bits: &[bool]) -> BitsData {
    let s: String = bits.iter().map(|b| if *b { '1' } else { '0' }).collect();
    BitsData::from_text(s).unwrap()
}

fn close(a: f64, b: f64) -> bool {
    (a - b).abs() < 1e-6
}

const PI_FIXTURE: &str = "11001001000011111101101010100010001000010110100011000010001101001100010011000110011000101000101110001100";

#[test]
fn monobit_fixture_p_value() {
    let data = text(PI_FIXTURE);
    let s = frequency_sum(&data);
    assert_eq!(s, -16);
    let n = data.len() as f64;
    let p = libm::erfc((s.abs() as f64) / n.sqrt() / 2f64.sqrt());
    assert!(close(p, 0.116664));
}

#[test]
fn monobit_small_sum() {
    assert_eq!(frequency_sum(&text("1011010101")), 2);
    assert_eq!(frequency_sum(&text("")), 0);
}

#[test]
fn block_frequency_fixture_p_value() {
    let data = text("11001001000011111101101010100010001000010110100011000010001101001100010011000110011000101000101110000000");
    let counts = block_frequency_counts(&data, 10).unwrap();
    assert_eq!(counts, vec![4, 7, 4, 3, 5, 3, 4, 4, 4, 4]);
    let m = 10f64;
    let chi2: f64 = counts.iter().map(|c| (*c as f64 / m - 0.5).powi(2)).sum::<f64>() * 4.0 * m;
    let p = statrs::function::gamma::gamma_ur(counts.len() as f64 / 2.0, chi2 / 2.0);
    assert!(close(p, 0.706438));
}

#[test]
fn block_frequency_errors() {
    let data = text("0110011010");
    assert_eq!(block_frequency_counts(&data, 3).unwrap(), vec![2, 1, 2]);
    assert_eq!(block_frequency_counts(&data, 0).err(), Some(TestError::InvalidParameter));
    assert_eq!(block_frequency_counts(&data, 11).err(), Some(TestError::InsufficientData));
}

#[test]
fn runs_counts() {
    assert_eq!(runs_count(&text("1001101011")), 7);
    assert_eq!(runs_count(&text("")), 0);
    assert_eq!(runs_count(&text("1")), 1);
    assert_eq!(runs_count(&text("0000")), 1);
}

#[test]
fn runs_fixture_p_value() {
    let data = text("1100100100001111110110101010001000100001011010001100001000110100110001001100011001100010100010111000");
    assert!(runs_prerequisite_holds(&data));
    let v = runs_count(&data);
    assert_eq!(v, 52);
    let n = data.len() as f64;
    let pi = data.ones() as f64 / n;
    let arg = (v as f64 - 2.0 * n * pi * (1.0 - pi)).abs() / (2.0 * (2.0 * n).sqrt() * pi * (1.0 - pi));
    assert!(close(libm::erfc(arg), 0.500798));
}

#[test]
fn runs_prerequisite_bounds() {
    assert!(runs_prerequisite_holds(&text("1111111111")));
    assert!(runs_prerequisite_holds(&text("1111100000")));
    assert!(!runs_prerequisite_holds(&text("")));
    let mut bits = vec![true; 70];
    bits.extend(vec![false; 30]);
    assert!(!runs_prerequisite_holds(&from_bools(&bits)));
    let mut bits = vec![true; 69];
    bits.extend(vec![false; 31]);
    assert!(runs_prerequisite_holds(&from_bools(&bits)));
    assert!(!runs_prerequisite_holds(&from_bools(&vec![true; 17])));
}

#[test]
fn longest_run_fixture() {
    let data = text(
        "110011000001010101101100010011001110000000000010010011010
         1010001000100111101011010000000110101111100110011100110110110001
         0110010",
    );
    assert_eq!(data.len(), 128);
    let tally = longest_run_counts(&data).unwrap();
    assert_eq!(tally.block_len, 8);
    assert_eq!(tally.counts, vec![4, 9, 3, 0]);
    let pi = [0.21484375, 0.3671875, 0.23046875, 0.1875];
    let nb = 16f64;
    let chi2: f64 = tally.counts.iter().zip(pi.iter()).map(|(c, p)| (*c as f64 - nb * p).powi(2) / (nb * p)).sum();
    let p = statrs::function::gamma::gamma_ur(3.0 / 2.0, chi2 / 2.0);
    assert!(close(p, 0.18060931823971144));
}

#[test]
fn longest_run_needs_128_bits() {
    let short = from_bools(&vec![true; 127]);
    assert_eq!(longest_run_counts(&short).err(), Some(TestError::InsufficientData));
    let ok = from_bools(&vec![true; 128]);
    assert_eq!(longest_run_counts(&ok).unwrap().counts, vec![0, 0, 0, 16]);
}

#[test]
fn longest_run_middle_regime() {
    let bits: Vec<bool> = (0..6400).map(|i| i % 128 < 6).collect();
    let tally = longest_run_counts(&from_bools(&bits)).unwrap();
    assert_eq!(tally.block_len, 128);
    assert_eq!(tally.counts, vec![0, 0, 50, 0, 0, 0]);
}

fn identity_rows(zero_last: bool) -> Vec<bool> {
    let mut bits = Vec::new();
    for i in 0..32 {
        for j in 0..32 {
            bits.push(i == j && !(zero_last && i == 31));
        }
    }
    bits
}

#[test]
fn rank_classes() {
    let mut bits = Vec::new();
    for _ in 0..10 {
        bits.extend(identity_rows(false));
    }
    for _ in 0..5 {
        bits.extend(identity_rows(true));
    }
    bits.resize(38 * 1024 + 100, true);
    let tally = rank_counts(&from_bools(&bits)).unwrap();
    assert_eq!(tally.matrices, 38);
    assert_eq!(tally.full, 10);
    assert_eq!(tally.one_less, 5);
}

#[test]
fn rank_needs_38912_bits() {
    let bits = vec![false; 38911];
    assert_eq!(rank_counts(&from_bools(&bits)).err(), Some(TestError::InsufficientData));
    let bits = vec![false; 38912];
    let tally = rank_counts(&from_bools(&bits)).unwrap();
    assert_eq!((tally.matrices, tally.full, tally.one_less), (38, 0, 0));
}

#[test]
fn rank_of_shuffled_full_matrix() {
    let mut bits = Vec::new();
    for i in 0..32 {
        for j in 0..32 {
            bits.push(j == 31 - i || (i < 31 && j == 30 - i) || j == 0);
        }
    }
    bits.resize(38 * 1024, false);
    let tally = rank_counts(&from_bools(&bits)).unwrap();
    assert_eq!(tally.full, 1);
}

#[test]
fn templates_of_length_nine() {
    assert_eq!(get_template_size(9), 148);
    assert_eq!(get_template_size(2), 2);
    assert_eq!(get_template_size(3), 4);
    assert_eq!(get_template_size(4), 6);
    assert_eq!(get_template_size(10), 148);
    let first: Vec<bool> = "000000001".chars().map(|c| c == '1').collect();
    let last: Vec<bool> = "111111110".chars().map(|c| c == '1').collect();
    assert_eq!(get_tempalte(0, 9), first);
    assert_eq!(get_tempalte(147, 9), last);
    assert_eq!(get_tempalte(1, 3), vec![false, true, true]);
}

#[test]
fn non_overlapping_counts_small() {
    let data = text("1010010010111010010110011010010110011001000100101100000100101");
    let tally = non_overlapping_counts(&data, 2).unwrap();
    assert_eq!(tally.block_len, 7);
    assert_eq!(tally.counts.len(), 2);
    assert_eq!(tally.counts[0], vec![2, 2, 2, 2, 2, 1, 3, 1]);
    assert_eq!(tally.counts[1], vec![3, 2, 2, 2, 2, 2, 2, 1]);
}

#[test]
fn non_overlapping_jumps_past_a_match() {
    let data = text("0010010010000000");
    let tally = non_overlapping_counts(&data, 2).unwrap();
    assert_eq!(tally.block_len, 2);
    let t = non_overlapping_counts(&text("000100010001000100010001000100010001000100010001000100010001000100010001000100010001000100010001"), 4).unwrap();
    assert_eq!(t.block_len, 12);
    assert_eq!(t.counts[0], vec![3; 8]);
}

#[test]
fn non_overlapping_errors() {
    let data = text("0101010101010101");
    assert_eq!(non_overlapping_counts(&data, 1).err(), Some(TestError::InvalidParameter));
    assert_eq!(non_overlapping_counts(&data, 17).err(), Some(TestError::InvalidParameter));
    assert_eq!(non_overlapping_counts(&data, 3).err(), Some(TestError::InsufficientData));
}

#[test]
fn non_overlapping_repeatable() {
    let bits: Vec<bool> = (0..20000u64).map(|i| (i * 2654435761 % 4093) % 3 == 0).collect();
    let data = from_bools(&bits);
    let a = non_overlapping_counts(&data, 9).unwrap();
    let b = non_overlapping_counts(&data, 9).unwrap();
    assert_eq!(a.counts.len(), 148);
    assert_eq!(a.counts, b.counts);
}

#[test]
fn overlapping_classes() {
    let mut bits = vec![true; 1032];
    bits.extend(vec![false; 1032]);
    let mut third = vec![false; 1032];
    for k in 0..3 {
        for j in 0..10 {
            third[k * 100 + j] = true;
        }
    }
    bits.extend(third);
    let counts = overlapping_counts(&from_bools(&bits), 9).unwrap();
    assert_eq!(counts, vec![1, 0, 0, 0, 0, 2]);
    let mut two = vec![false; 1032];
    for j in 0..9 {
        two[j] = true;
        two[500 + j] = true;
    }
    assert_eq!(overlapping_counts(&from_bools(&two), 9).unwrap(), vec![0, 0, 1, 0, 0, 0]);
}

#[test]
fn overlapping_errors() {
    let data = from_bools(&vec![true; 1031]);
    assert_eq!(overlapping_counts(&data, 9).err(), Some(TestError::InsufficientData));
    assert_eq!(overlapping_counts(&data, 0).err(), Some(TestError::InvalidParameter));
    assert_eq!(overlapping_counts(&data, 1033).err(), Some(TestError::InvalidParameter));
}

#[test]
fn universal_gaps_of_constant_sequence() {
    let data = from_bools(&vec![false; 1610]);
    let tally = universal_gaps(&data).unwrap();
    assert_eq!(tally.block_len, 5);
    assert_eq!(tally.init_blocks, 320);
    assert_eq!(tally.gaps, vec![1, 1]);
    assert_eq!(universal_gaps(&from_bools(&vec![false; 1604])).err(), Some(TestError::InsufficientData));
}

#[test]
fn universal_gaps_first_occurrence() {
    let mut bits = vec![false; 1605];
    for j in 1600..1605 {
        bits[j] = true;
    }
    let tally = universal_gaps(&from_bools(&bits)).unwrap();
    assert_eq!(tally.gaps, vec![321]);
}

#[test]
fn linear_complexity_classes() {
    let data = text("1101011110001");
    assert_eq!(linear_complexity_counts(&data, 13).unwrap(), vec![0, 0, 0, 0, 0, 0, 1]);
    let zeros = from_bools(&vec![false; 20]);
    assert_eq!(linear_complexity_counts(&zeros, 10).unwrap(), vec![2, 0, 0, 0, 0, 0, 0]);
    assert_eq!(linear_complexity_counts(&zeros, 0).err(), Some(TestError::InvalidParameter));
    assert_eq!(linear_complexity_counts(&zeros, 21).err(), Some(TestError::InsufficientData));
}

#[test]
fn linear_complexity_of_alternating_blocks() {
    let bits: Vec<bool> = (0..40).map(|i| i % 2 == 0).collect();
    assert_eq!(linear_complexity_counts(&from_bools(&bits), 10).unwrap(), vec![4, 0, 0, 0, 0, 0, 0]);
    let single: Vec<bool> = (0..8).map(|i| i == 7).collect();
    assert_eq!(linear_complexity_counts(&from_bools(&single), 8).unwrap(), vec![0, 0, 0, 0, 0, 0, 1]);
}

#[test]
fn serial_pattern_counts() {
    let counts = serial_counts(&text("0011011101"), 3).unwrap();
    assert_eq!(counts[0], vec![0, 1, 1, 2, 1, 2, 2, 1]);
    assert_eq!(counts[1], vec![1, 3, 3, 3]);
    assert_eq!(counts[2], vec![4, 6]);
    assert_eq!(serial_counts(&text("0011011101"), 1).err(), Some(TestError::InvalidParameter));
    assert_eq!(serial_counts(&text("0011011101"), 21).err(), Some(TestError::InvalidParameter));
    assert_eq!(serial_counts(&text(""), 3).err(), Some(TestError::InsufficientData));
}

#[test]
fn approximate_entropy_pattern_counts() {
    let counts = approximate_entropy_counts(&text("0100110101"), 3).unwrap();
    assert_eq!(counts[0], vec![0, 1, 3, 1, 1, 3, 1, 0]);
    assert_eq!(counts[1], vec![0, 0, 0, 1, 1, 2, 1, 0, 0, 1, 3, 0, 0, 1, 0, 0]);
    let zero = approximate_entropy_counts(&text("0100110101"), 0).unwrap();
    assert_eq!(zero[0], vec![10]);
    assert_eq!(zero[1], vec![5, 5]);
    assert_eq!(approximate_entropy_counts(&text(""), 2).err(), Some(TestError::InsufficientData));
    assert_eq!(approximate_entropy_counts(&text("01"), 21).err(), Some(TestError::InvalidParameter));
}

#[test]
fn cusum_forward_and_reverse_differ() {
    let (z, zr) = cumulative_sums_ranges(&text("1110")).unwrap();
    assert_eq!((z, zr), (3, 2));
    let (z, zr) = cumulative_sums_ranges(&text("1011010111")).unwrap();
    assert_eq!((z, zr), (4, 4));
    let (z, zr) = cumulative_sums_ranges(&text("0001111111")).unwrap();
    assert_eq!((z, zr), (4, 7));
    assert_eq!(cumulative_sums_ranges(&text("")).err(), Some(TestError::InsufficientData));
}

fn pairs(count: usize) -> BitsData {
    let bits: Vec<bool> = (0..2 * count).map(|i| i % 2 == 0).collect();
    from_bools(&bits)
}

#[test]
fn random_excursions_tally() {
    let tally = random_excursions_counts(&pairs(500)).unwrap();
    assert_eq!(tally.cycles, 500);
    for i in 0..8 {
        for v in 0..6 {
            let expected = if (i == 4 && v == 1) || (i != 4 && v == 0) { 500 } else { 0 };
            assert_eq!(tally.counts[i * 6 + v], expected);
        }
    }
}

#[test]
fn random_excursions_open_last_cycle() {
    let mut bits: Vec<bool> = (0..1000).map(|i| i % 2 == 1).collect();
    bits.extend(vec![true; 7]);
    let tally = random_excursions_counts(&from_bools(&bits)).unwrap();
    assert_eq!(tally.cycles, 501);
    assert_eq!(tally.counts[3 * 6 + 1], 500);
    assert_eq!(tally.counts[3 * 6], 1);
    assert_eq!(tally.counts[4 * 6 + 1], 1);
    assert_eq!(tally.counts[7 * 6 + 1], 1);
    assert_eq!(tally.counts[7 * 6], 500);
}

#[test]
fn random_excursions_not_applicable() {
    assert_eq!(random_excursions_counts(&pairs(499)).err(), Some(TestError::NotApplicable));
    assert_eq!(random_excursions_counts(&text("")).err(), Some(TestError::NotApplicable));
    assert_eq!(random_excursions_variant_counts(&pairs(499)).err(), Some(TestError::NotApplicable));
}

#[test]
fn random_excursions_variant_tally() {
    let tally = random_excursions_variant_counts(&pairs(500)).unwrap();
    assert_eq!(tally.cycles, 500);
    let mut expected = vec![0; 18];
    expected[9] = 500;
    assert_eq!(tally.visits, expected);
}

fn lcg_bits(n: usize) -> Vec<bool> {
    let mut x: u64 = 12345;
    let mut out = Vec::with_capacity(n);
    for _ in 0..n {
        x = x.wrapping_mul(6364136223846793005).wrapping_add(1442695040888963407);
        out.push(x >> 63 == 1);
    }
    out
}

#[test]
fn linear_complexity_on_generated_bits() {
    let data = from_bools(&lcg_bits(20000));
    assert_eq!(linear_complexity_counts(&data, 500).unwrap(), vec![2, 2, 8, 19, 6, 3, 0]);
    assert_eq!(linear_complexity_counts(&data, 17).unwrap(), vec![12, 32, 131, 587, 322, 68, 24]);
    assert_eq!(linear_complexity_counts(&data, 8).unwrap(), vec![38, 80, 338, 1235, 622, 139, 48]);
    assert_eq!(linear_complexity_counts(&data, 3).unwrap(), vec![0, 0, 842, 3293, 1705, 826, 0]);
    assert_eq!(linear_complexity_counts(&data, 1).unwrap(), vec![0, 0, 0, 10078, 9922, 0, 0]);
}

#[test]
fn rank_on_generated_bits() {
    let bits = lcg_bits(40 * 1024);
    let tally = rank_counts(&from_bools(&bits)).unwrap();
    assert_eq!((tally.matrices, tally.full, tally.one_less), (40, 9, 23));
    let mut copied = bits.clone();
    for k in (0..40).step_by(3) {
        for j in 0..32 {
            copied[k * 1024 + 5 * 32 + j] = copied[k * 1024 + 9 * 32 + j];
        }
    }
    for k in (0..40).step_by(7) {
        for j in 0..32 {
            copied[k * 1024 + 32 + j] = copied[k * 1024 + 2 * 32 + j];
        }
    }
    let tally = rank_counts(&from_bools(&copied)).unwrap();
    assert_eq!((tally.matrices, tally.full, tally.one_less), (40, 6, 20));
}
