use tuner::{
    parse_alteration, parse_note, parse_octave, parse_pitch, parse_pitches, pprint_pitch,
    TunerError,
};

#[test]
fn parse_pitches_guitar() {
    let computed = parse_pitches("E2 A2 D3 G3 B3 E4").unwrap();
    let expected = [-29, -24, -19, -14, -10, -5];
    assert_eq!(expected.len(), computed.len());
    for i in 0..computed.len() {
        assert_eq!(expected[i], computed[i]);
    }
}

#[test]
fn parse_pitch_tests() {
    assert_eq!(0, parse_pitch("A").unwrap());
    assert_eq!(0, parse_pitch("A4").unwrap());
    assert_eq!(1, parse_pitch("A#").unwrap());
    assert_eq!(-1, parse_pitch("Ab").unwrap());
    assert_eq!(12, parse_pitch("A5").unwrap());
    assert_eq!(-12, parse_pitch("A3").unwrap());
    assert_eq!(-5, parse_pitch("E4").unwrap());
    assert_eq!(7, parse_pitch("E5").unwrap());
    assert_eq!(-57, parse_pitch("C0").unwrap());
    assert_eq!(-45, parse_pitch("C1").unwrap());
    assert_eq!(-33, parse_pitch("C2").unwrap());
    assert_eq!(-21, parse_pitch("C3").unwrap());
    assert_eq!(-9, parse_pitch("C4").unwrap());
    assert_eq!(3, parse_pitch("C5").unwrap());
    assert_eq!(15, parse_pitch("C6").unwrap());
    assert_eq!(27, parse_pitch("C7").unwrap());
    assert_eq!(39, parse_pitch("C8").unwrap());
}

#[test]
fn pprint_pitch_tests() {
    assert_eq!("A", pprint_pitch(0).unwrap());
    assert_eq!("A♯", pprint_pitch(1).unwrap());
    assert_eq!("G♯", pprint_pitch(-1).unwrap());
    assert_eq!("C0", pprint_pitch(-57).unwrap());
    assert_eq!("C", pprint_pitch(-9).unwrap());
    assert_eq!("C5", pprint_pitch(3).unwrap());
    assert_eq!("C8", pprint_pitch(39).unwrap());
}

#[test]
fn parse_and_pprint_pitch() {
    for pitch in -57..39 {
        assert_eq!(pitch, parse_pitch(&pprint_pitch(pitch).unwrap()).unwrap());
    }
}

#[test]
fn every_printable_pitch_reads_back() {
    for pitch in -57..51 {
        let name = pprint_pitch(pitch).unwrap();
        assert_eq!(Ok(pitch), parse_pitch(&name));
    }
}

#[test]
fn printable_range_ends() {
    assert_eq!("B8", pprint_pitch(50).unwrap());
    assert_eq!(Err(TunerError::OutOfRange), pprint_pitch(51));
    assert_eq!(Err(TunerError::OutOfRange), pprint_pitch(-58));
    assert_eq!(Err(TunerError::OutOfRange), pprint_pitch(isize::MAX));
    assert_eq!(Err(TunerError::OutOfRange), pprint_pitch(isize::MIN));
}

#[test]
fn chromatic_scale_of_the_fourth_octave() {
    let names = ["C", "C♯", "D", "D♯", "E", "F", "F♯", "G", "G♯", "A", "A♯", "B"];
    for i in 0..12 {
        assert_eq!(names[i], pprint_pitch(i as isize - 9).unwrap());
    }
}

#[test]
fn letters_octaves_and_accidentals() {
    assert_eq!(Some(-9), parse_note('C'));
    assert_eq!(Some(-7), parse_note('D'));
    assert_eq!(Some(-5), parse_note('E'));
    assert_eq!(Some(-4), parse_note('F'));
    assert_eq!(Some(-2), parse_note('G'));
    assert_eq!(Some(0), parse_note('A'));
    assert_eq!(Some(2), parse_note('B'));
    assert_eq!(None, parse_note('H'));
    assert_eq!(None, parse_note('a'));
    for d in 0..9u32 {
        let c = char::from_digit(d, 10).unwrap();
        assert_eq!(Some(d as isize - 4), parse_octave(c));
    }
    assert_eq!(None, parse_octave('9'));
    assert_eq!(None, parse_octave('#'));
    assert_eq!(Some(1), parse_alteration('#'));
    assert_eq!(Some(1), parse_alteration('♯'));
    assert_eq!(Some(0), parse_alteration('♮'));
    assert_eq!(Some(-1), parse_alteration('b'));
    assert_eq!(Some(-1), parse_alteration('♭'));
    assert_eq!(None, parse_alteration('4'));
    assert_eq!(None, parse_alteration('B'));
}

#[test]
fn accidental_and_octave_together() {
    assert_eq!(Ok(-8), parse_pitch("C#"));
    assert_eq!(Ok(-20), parse_pitch("C#3"));
    assert_eq!(Ok(-20), parse_pitch("C♯3"));
    assert_eq!(Ok(13), parse_pitch("B♭5"));
    assert_eq!(Ok(13), parse_pitch("Bb5"));
    assert_eq!(Ok(-5), parse_pitch("E♮"));
    assert_eq!(Ok(-29), parse_pitch("E♮2"));
    assert_eq!(Ok(50), parse_pitch("B8"));
    assert_eq!(Ok(51), parse_pitch("B#8"));
    assert_eq!(Ok(-58), parse_pitch("Cb0"));
}

#[test]
fn what_is_no_note_name() {
    let bad = [
        "", "H4", "a", "4", "#", "A9", "Ax", "A44", "A4#", "A4x", "A#x", "A##", "A#9", "A#4x",
        "A 4", " A", "A ", "AB", "E2 A2",
    ];
    for text in bad {
        assert_eq!(Err(TunerError::InvalidNote), parse_pitch(text), "{:?}", text);
    }
}

#[test]
fn pitches_come_out_sorted() {
    assert_eq!(Ok(vec![-29, -24, -19, -14, -10, -5]), parse_pitches("E4 B3 G3 D3 A2 E2"));
    assert_eq!(Ok(vec![-5, 0, 1]), parse_pitches("A# E A"));
    assert_eq!(Ok(vec![0]), parse_pitches("A"));
}

#[test]
fn a_pitch_named_twice_is_kept_once() {
    assert_eq!(Ok(vec![-5, 0, 1]), parse_pitches("A A# E A4"));
    assert_eq!(Ok(vec![0]), parse_pitches("A A4"));
    assert_eq!(Ok(vec![0]), parse_pitches("A4 A A♮ A♮4 A4"));
    assert_eq!(Ok(vec![-8, -5]), parse_pitches("E C# D♭ E4 Db4 C♯4"));
    assert_eq!(Ok(vec![-29, -24, -19]), parse_pitches("D3 E2 A2 E2 D3 D3 A2"));
}

#[test]
fn blanks_part_the_names() {
    assert_eq!(Ok(vec![-29, -24]), parse_pitches("  A2 \t E2\n"));
    assert_eq!(Ok(vec![-9]), parse_pitches("\tC\r\n"));
}

#[test]
fn tuning_without_a_name() {
    assert_eq!(Err(TunerError::PrecondViolation), parse_pitches(""));
    assert_eq!(Err(TunerError::PrecondViolation), parse_pitches("   "));
    assert_eq!(Err(TunerError::PrecondViolation), parse_pitches(" \t\r\n"));
}

#[test]
fn tuning_with_a_bad_name() {
    assert_eq!(Err(TunerError::InvalidNote), parse_pitches("H4"));
    assert_eq!(Err(TunerError::InvalidNote), parse_pitches("E2 A2 X D3"));
    assert_eq!(Err(TunerError::InvalidNote), parse_pitches("E2 A2 D3 G33"));
    assert_eq!(Err(TunerError::InvalidNote), parse_pitches("E2,A2"));
}
