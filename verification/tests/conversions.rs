use numsys::dec2seq;
use numsys::seq2dec;
use numsys::switch_dec_base;
use numsys::NewError;

#[test]
fn dec2seq_works_when_dict_has_single_element() {
    let result = dec2seq(10, &['a']);
    assert_eq!(result, Ok("aaaaaaaaaa".to_string()));
}

#[test]
fn dec2seq_and_seq2dec_are_reversible_when_dict_len_1() {
    let number = 10;
    let dict = ['a'];
    let seq = dec2seq(number, &dict).expect("First conversion failed");
    assert_eq!(seq2dec(&seq, &dict), Ok(number));
}

#[test]
fn switch_dec_base_renders_zero_in_every_base() {
    for base in 2..=36 {
        assert_eq!(switch_dec_base(0, base), Ok("0".to_string()));
    }
}

#[test]
fn switch_dec_base_renders_ten() {
    assert_eq!(switch_dec_base(10, 16), Ok("A".to_string()));
    assert_eq!(switch_dec_base(10, 2), Ok("1010".to_string()));
    assert_eq!(switch_dec_base(10, 10), Ok("10".to_string()));
    assert_eq!(switch_dec_base(10, 3), Ok("101".to_string()));
}

#[test]
fn switch_dec_base_rejects_base_below_two() {
    assert_eq!(
        switch_dec_base(10, 1),
        Err(NewError::BaseTooSmall { min: 2, given: 1 })
    );
    assert_eq!(
        switch_dec_base(7, 0),
        Err(NewError::BaseTooSmall { min: 2, given: 0 })
    );
}

#[test]
fn switch_dec_base_rejects_base_above_canonical_length() {
    assert_eq!(
        switch_dec_base(10, 37),
        Err(NewError::BaseTooBig { max: 36, given: 37 })
    );
}

#[test]
fn seq2dec_decodes_custom_alphabets() {
    assert_eq!(seq2dec("BABA", &['A', 'B']), Ok(10));
    assert_eq!(seq2dec("1010", &['0', '1']), Ok(10));
    assert_eq!(seq2dec("\u{2606}\u{2605}\u{2606}\u{2605}", &['\u{2605}', '\u{2606}']), Ok(10));
}

#[test]
fn seq2dec_rejects_empty_alphabet() {
    assert_eq!(seq2dec("1010", &[]), Err(NewError::DictEmpty));
}

#[test]
fn seq2dec_rejects_duplicated_symbol() {
    assert_eq!(
        seq2dec("1010", &['A', 'A']),
        Err(NewError::MultipleChar {
            dup: 'A',
            alphabet: vec!['A', 'A'],
        })
    );
}

#[test]
fn seq2dec_reports_first_duplicate_before_missing_symbols() {
    assert_eq!(
        seq2dec("Z", &['A', 'B', 'A']),
        Err(NewError::MultipleChar {
            dup: 'A',
            alphabet: vec!['A', 'B', 'A'],
        })
    );
}

#[test]
fn seq2dec_rejects_symbol_missing_from_alphabet() {
    assert_eq!(
        seq2dec("20", &['0']),
        Err(NewError::MissingChar {
            missing: '2',
            alphabet: vec!['0'],
        })
    );
}

#[test]
fn seq2dec_reports_rightmost_missing_symbol() {
    assert_eq!(
        seq2dec("XY", &['0', '1']),
        Err(NewError::MissingChar {
            missing: 'Y',
            alphabet: vec!['0', '1'],
        })
    );
}

#[test]
fn seq2dec_counts_unary_sequences() {
    assert_eq!(seq2dec("aaaaaaaaaa", &['a']), Ok(10));
    // Only the sequence's own uniformity is inspected, not membership.
    assert_eq!(seq2dec("bbb", &['a']), Ok(3));
}

#[test]
fn seq2dec_decodes_empty_sequence_to_zero() {
    assert_eq!(seq2dec("", &['0', '1']), Ok(0));
    assert_eq!(seq2dec("", &['a']), Ok(0));
}

#[test]
fn seq2dec_rejects_value_beyond_native_width() {
    let mut seq = String::from("1");
    for _ in 0..64 {
        seq.push('0');
    }
    assert_eq!(seq2dec(&seq, &['0', '1']), Err(NewError::Overflow));
    let all_f: String = std::iter::repeat('F').take(17).collect();
    assert_eq!(
        seq2dec(&all_f, &['0', '1', '2', '3', '4', '5', '6', '7', '8', '9', 'A', 'B', 'C', 'D', 'E', 'F']),
        Err(NewError::Overflow)
    );
}

#[test]
fn seq2dec_accepts_largest_native_value() {
    let max_binary = format!("{:b}", usize::MAX);
    assert_eq!(seq2dec(&max_binary, &['0', '1']), Ok(usize::MAX));
}

#[test]
fn dec2seq_expands_unary() {
    assert_eq!(dec2seq(10, &['a']), Ok("aaaaaaaaaa".to_string()));
    assert_eq!(dec2seq(0, &['a']), Ok("".to_string()));
}

#[test]
fn dec2seq_rejects_empty_alphabet() {
    assert_eq!(dec2seq(10, &[]), Err(NewError::DictEmpty));
    assert_eq!(dec2seq(0, &[]), Err(NewError::DictEmpty));
    assert_eq!(dec2seq(usize::MAX, &[]), Err(NewError::DictEmpty));
}

#[test]
fn dec2seq_renders_custom_alphabets() {
    assert_eq!(dec2seq(10, &['0', '1']), Ok("1010".to_string()));
    assert_eq!(dec2seq(10, &['A', 'B']), Ok("BABA".to_string()));
    assert_eq!(
        dec2seq(10, &['\u{2605}', '\u{2606}']),
        Ok("\u{2606}\u{2605}\u{2606}\u{2605}".to_string())
    );
}

#[test]
fn dec2seq_renders_zero_as_empty_sequence() {
    assert_eq!(dec2seq(0, &['0', '1']), Ok("".to_string()));
}

#[test]
fn round_trip_over_several_alphabets() {
    let alphabets: Vec<Vec<char>> = vec![
        vec!['0', '1'],
        vec!['A', 'B', 'C'],
        vec!['a'],
        vec!['\u{2605}', '\u{2606}', '\u{2661}', '\u{2662}'],
        vec!['0', '1', '2', '3', '4', '5', '6', '7', '8', '9'],
    ];
    for alphabet in &alphabets {
        for d in 0..100 {
            let seq = dec2seq(d, alphabet).expect("rendering failed");
            assert_eq!(seq2dec(&seq, alphabet), Ok(d));
        }
        let seq = dec2seq(12345, alphabet).expect("rendering failed");
        assert_eq!(seq2dec(&seq, alphabet), Ok(12345));
    }
}

#[test]
fn round_trip_through_canonical_bases() {
    for base in 2..=36 {
        for d in [1, 35, 36, 37, 1000, 123456789] {
            let seq = switch_dec_base(d, base).expect("rendering failed");
            let alphabet: Vec<char> = "0123456789ABCDEFGHIJKLMNOPQRSTUVWXYZ"
                .chars()
                .take(base)
                .collect();
            assert_eq!(seq2dec(&seq, &alphabet), Ok(d));
        }
    }
}

#[test]
fn no_leading_zero_symbol_for_nonzero_input() {
    for base in 2..=36 {
        for d in [1, 9, 35, 36, 100, 54321] {
            let seq = switch_dec_base(d, base).expect("rendering failed");
            assert!(!seq.is_empty());
            assert_ne!(seq.chars().next(), Some('0'));
        }
    }
}
