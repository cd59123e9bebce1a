use icer::ixec::{CUTOFFS, ComponentCode, Z_DENOM, bin_for_probability, bins, ceil_log2, int_to_bits};

fn bits(s: &str) -> Vec<bool> {
    s.chars().map(|c| c == '1').collect()
}

#[test]
fn ceil_log2_basic() {
    assert_eq!(ceil_log2(1), 0);
    assert_eq!(ceil_log2(2), 1);
    assert_eq!(ceil_log2(3), 2);
    assert_eq!(ceil_log2(4), 2);
    assert_eq!(ceil_log2(5), 3);
    assert_eq!(ceil_log2(8), 3);
    assert_eq!(ceil_log2(9), 4);
    assert_eq!(ceil_log2(512), 9);
}

#[test]
fn int_to_bits_msb_first() {
    assert_eq!(int_to_bits(0, 3), bits("000"));
    assert_eq!(int_to_bits(6, 4), bits("0110"));
    assert_eq!(int_to_bits(7, 4), bits("0111"));
    assert_eq!(int_to_bits(2, 3), bits("010"));
}

#[test]
fn golomb_g5_matches_table9() {
    let g5 = ComponentCode::golomb(5);

    let expect: Vec<(&str, &str)> = vec![
        ("1", "000"),
        ("01", "001"),
        ("001", "010"),
        ("0001", "0110"),
        ("00001", "0111"),
        ("00000", "1"),
    ];
    let pairs = g5.pairs();
    assert_eq!(pairs.len(), 6, "G5 has m+1 = 6 codewords");
    for (inp, outp) in expect {
        let found = pairs
            .iter()
            .find(|(i, _)| *i == bits(inp))
            .unwrap_or_else(|| panic!("G5 missing input {inp}"));
        assert_eq!(found.1, bits(outp), "G5 output for input {inp}");
    }
}

#[test]
fn golomb_codeword_sets_prefix_free_and_bijective() {
    for &m in &[1u32, 2, 5, 6, 7, 11, 17, 31, 70, 200, 512] {
        let g = ComponentCode::golomb(m);
        assert_eq!(g.len(), m as usize + 1, "G{m} has m+1 codewords");

        for (input, output) in g.pairs() {
            let (enc_out, used_in) = g.encode_one(input).expect("encode_one");
            assert_eq!(&enc_out, output, "G{m} encode input {input:?}");
            assert_eq!(used_in, input.len(), "G{m} consumed full input");
            let (dec_in, used_out) = g.decode_one(output).expect("decode_one");
            assert_eq!(&dec_in, input, "G{m} decode output {output:?}");
            assert_eq!(used_out, output.len(), "G{m} consumed full output");
        }
    }
}

#[test]
fn shorthand_simple_balanced_tree() {
    let c = ComponentCode::from_shorthand("((0^3 , 01), (10, (001, 11)))");
    let pairs: std::collections::HashMap<Vec<bool>, Vec<bool>> =
        c.pairs().iter().cloned().collect();
    assert_eq!(pairs[&bits("000")], bits("00"));
    assert_eq!(pairs[&bits("01")], bits("01"));
    assert_eq!(pairs[&bits("10")], bits("10"));
    assert_eq!(pairs[&bits("001")], bits("110"));
    assert_eq!(pairs[&bits("11")], bits("111"));
}

#[test]
fn shorthand_bins_are_bijective() {
    let all = bins();
    for bin in &all[1..8] {
        for (input, output) in bin.code.pairs() {
            let (enc_out, used_in) = bin.code.encode_one(input).expect("encode_one");
            assert_eq!(&enc_out, output, "bin {} encode {input:?}", bin.index);
            assert_eq!(used_in, input.len());
            let (dec_in, used_out) = bin.code.decode_one(output).expect("decode_one");
            assert_eq!(&dec_in, input, "bin {} decode {output:?}", bin.index);
            assert_eq!(used_out, output.len());
        }
    }
}

#[test]
fn table10_has_17_bins_with_published_cutoffs() {
    let all = bins();
    assert_eq!(all.len(), 17);
    for (idx, bin) in all.iter().enumerate() {
        assert_eq!(bin.index, (idx + 1) as u8);
        assert_eq!(bin.cutoff_num, CUTOFFS[idx]);
    }

    for w in CUTOFFS.windows(2) {
        assert!(w[0] < w[1], "cutoffs strictly increasing");
    }
    assert_eq!(*CUTOFFS.last().unwrap(), Z_DENOM);
}

#[test]
fn golomb_bins_have_expected_m() {
    let all = bins();
    let expected_m = [5u32, 6, 7, 11, 17, 31, 70, 200, 512];
    for (k, &m) in expected_m.iter().enumerate() {
        let bin = &all[8 + k];
        assert_eq!(bin.code.len(), m as usize + 1, "bin {} is G{m}", bin.index);
    }
}

#[test]
fn bin_selection_intervals() {
    assert_eq!(bin_for_probability(1, 2), 1);

    assert_eq!(bin_for_probability(35297, 65536), 1);

    assert_eq!(bin_for_probability(35298, 65536), 2);

    assert_eq!(bin_for_probability(37344, 65536), 2);

    assert_eq!(bin_for_probability(37345, 65536), 3);

    assert_eq!(bin_for_probability(65536, 65536), 17);

    assert_eq!(bin_for_probability(65392, 65536), 17);
}

#[test]
fn uncoded_bin1_is_identity() {
    let c = ComponentCode::uncoded();
    let (o0, _) = c.encode_one(&bits("0")).unwrap();
    assert_eq!(o0, bits("0"));
    let (o1, _) = c.encode_one(&bits("1")).unwrap();
    assert_eq!(o1, bits("1"));
    let (i0, _) = c.decode_one(&bits("0")).unwrap();
    assert_eq!(i0, bits("0"));
}

#[test]
fn every_input_starts_with_one_word_of_each_bin() {
    for bin in bins().iter().take(8) {
        let longest = bin.code.max_input_len();
        for v in 0..(1u32 << longest) {
            let input = int_to_bits(v, longest as u32);
            let words = bin.code.pairs().iter().filter(|(i, _)| input.starts_with(i)).count();
            assert_eq!(words, 1, "bin {}", bin.index);
            let (output, used) = bin.code.encode_one(&input).unwrap();
            assert_eq!(bin.code.decode_one(&output).unwrap(), (input[..used].to_vec(), output.len()));
        }
    }
}

#[test]
fn words_of_the_second_and_eighth_bin() {
    let all = bins();
    assert_eq!(all[1].code.encode_one(&bits("10")).unwrap(), (bits("01"), 2));
    assert_eq!(all[1].code.encode_one(&bits("01")).unwrap(), (bits("10"), 2));
    assert_eq!(all[7].code.encode_one(&bits("0000")).unwrap(), (bits("0"), 4));
    assert_eq!(all[7].code.encode_one(&bits("11")).unwrap(), (bits("11111"), 2));
}

#[test]
fn ceil_log2_of_large_numbers() {
    assert_eq!(ceil_log2(0x8000_0000), 31);
    assert_eq!(ceil_log2(0x8000_0001), 32);
    assert_eq!(ceil_log2(u32::MAX), 32);
}
