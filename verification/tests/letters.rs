use wordgrid::letters::{from_bits, letter_text, to_bits, AA, AE, OE};

#[test]
fn plain_letters_are_numbered_from_one() {
    assert_eq!(to_bits('A'), 1);
    assert_eq!(to_bits('B'), 2);
    assert_eq!(to_bits('M'), 13);
    assert_eq!(to_bits('Z'), 26);
}

#[test]
fn accented_letters_follow_the_plain_ones() {
    assert_eq!(to_bits('\u{c4}'), 27);
    assert_eq!(to_bits('\u{c5}'), 28);
    assert_eq!(to_bits('\u{d6}'), 29);
    assert_eq!(AE, 27);
    assert_eq!(AA, 28);
    assert_eq!(OE, 29);
}

#[test]
fn what_is_no_letter_has_ordinal_zero() {
    assert_eq!(to_bits('a'), 0);
    assert_eq!(to_bits(' '), 0);
    assert_eq!(to_bits('\n'), 0);
    assert_eq!(to_bits('@'), 0);
    assert_eq!(to_bits('['), 0);
    assert_eq!(to_bits('1'), 0);
    assert_eq!(to_bits('\u{e4}'), 0);
}

#[test]
fn ordinals_decode_to_their_letters() {
    assert_eq!(from_bits(1), 'A');
    assert_eq!(from_bits(26), 'Z');
    assert_eq!(from_bits(27), '\u{c4}');
    assert_eq!(from_bits(28), '\u{c5}');
    assert_eq!(from_bits(29), '\u{d6}');
}

#[test]
fn codec_round_trips_on_every_ordinal() {
    for k in 1..=29u64 {
        assert_eq!(to_bits(from_bits(k)), k);
    }
    for c in 'A'..='Z' {
        assert_eq!(from_bits(to_bits(c)), c);
    }
}

#[test]
fn letter_text_is_the_letter_as_a_text() {
    assert_eq!(letter_text(1), "A");
    assert_eq!(letter_text(20), "T");
    assert_eq!(letter_text(26), "Z");
    assert_eq!(letter_text(27), "\u{c4}");
    assert_eq!(letter_text(28), "\u{c5}");
    assert_eq!(letter_text(29), "\u{d6}");
    for k in 1..=29u64 {
        assert_eq!(letter_text(k), from_bits(k).to_string());
    }
}
