use audio_samples::chord::ChordType;
use audio_samples::{chord_name, chord_type, note_number_to_note, num_chord_notes, NUM_CHORD_TYPES};

fn table() -> Vec<(&'static str, Vec<f32>)> {
    vec![
        ("Single Note", vec![]),
        ("Power", vec![3. / 2.]),
        ("Major", vec![5. / 4., 3. / 2.]),
        ("Minor", vec![6. / 5., 3. / 2.]),
        ("Diminished", vec![6. / 5., std::f32::consts::SQRT_2]),
        ("Sus", vec![4. / 3., 3. / 2.]),
        ("Major 7th", vec![5. / 4., 3. / 2., 15. / 8.]),
        ("Minor 7th", vec![6. / 5., 3. / 2., 9. / 5.]),
        ("Dominant 7th", vec![5. / 4., 3. / 2., 9. / 5.]),
    ]
}

#[test]
fn chord_table_holds_nine_chords() {
    assert_eq!(NUM_CHORD_TYPES, 9);
    assert_eq!(table().len(), NUM_CHORD_TYPES as usize);
}

#[test]
fn chord_table_names_and_multipliers() {
    for (index, (name, offsets)) in table().into_iter().enumerate() {
        let index = index as u32;
        assert_eq!(chord_name(index), name);
        let chord = chord_type(index);
        let bits: Vec<u32> = offsets.iter().map(|x| x.to_bits()).collect();
        assert_eq!(chord.offsets(), &bits, "{name}");
        assert_eq!(chord.num_notes(), offsets.len() + 1);
        assert_eq!(num_chord_notes(index), offsets.len() + 1);
    }
}

#[test]
fn single_note_is_the_first_chord() {
    assert_eq!(chord_name(0), "Single Note");
    assert_eq!(chord_type(0).num_notes(), 1);
    assert_eq!(num_chord_notes(0), 1);
}

#[test]
fn major_chord_is_root_third_and_fifth() {
    let chord = chord_type(2);
    assert_eq!(chord.offsets().len(), 2);
    assert_eq!(f32::from_bits(chord.offsets()[0]), 1.25);
    assert_eq!(f32::from_bits(chord.offsets()[1]), 1.5);
}

#[test]
fn chord_type_keeps_its_multipliers() {
    let chord = ChordType::new(vec![1.5f32.to_bits(), 2.0f32.to_bits(), 3.0f32.to_bits()]);
    assert_eq!(chord.num_notes(), 4);
    assert_eq!(chord.offsets()[2], 3.0f32.to_bits());
    assert_eq!(ChordType::new(vec![]).num_notes(), 1);
}

#[test]
fn note_is_the_rounded_note_number_modulo_twelve() {
    for note_number in [
        0.0f32,
        0.49999997,
        0.5,
        1.5,
        2.5,
        11.4,
        11.5,
        12.0,
        59.6,
        60.0,
        69.0,
        69.49,
        69.5,
        80.0,
        127.0,
        8388607.5,
        8388608.0,
        -0.4,
        -3.0,
        5e9,
        4294967000.0,
        3.0e38,
        f32::INFINITY,
        f32::NEG_INFINITY,
        f32::NAN,
    ] {
        let expected = note_number.round() as u32 % 12;
        assert_eq!(note_number_to_note(note_number.to_bits()), expected, "{note_number}");
    }
    assert_eq!(note_number_to_note(69.0f32.to_bits()), 9);
    assert_eq!(note_number_to_note(60.0f32.to_bits()), 0);
    assert_eq!(note_number_to_note(59.5f32.to_bits()), 0);
    assert_eq!(note_number_to_note(59.49f32.to_bits()), 11);
}

#[test]
fn notes_of_the_documented_pitches() {
    for (note_number, frequency) in [(80.0f32, 830.61f32), (60., 261.63), (40., 82.41), (20., 25.96)]
    {
        let from_frequency = 69.0 + 12.0 * (frequency / 440.0).log2();
        assert!((from_frequency - note_number).abs() < 0.01);
        assert_eq!(
            note_number_to_note(from_frequency.to_bits()),
            note_number_to_note(note_number.to_bits())
        );
        assert_eq!(note_number_to_note(note_number.to_bits()), note_number as u32 % 12);
    }
}

#[test]
fn notes_agree_with_the_numbers() {
    let mut x: u32 = 0x9e37_79b9;
    for _ in 0..200_000 {
        x ^= x << 13;
        x ^= x >> 17;
        x ^= x << 5;
        let note_number = f32::from_bits(x);
        let expected = note_number.round() as u32 % 12;
        assert_eq!(note_number_to_note(x), expected, "{note_number}");
        let small = (x >> 8) as f32 / 4096.0;
        assert_eq!(
            note_number_to_note(small.to_bits()),
            small.round() as u32 % 12,
            "{small}"
        );
    }
}

#[test]
fn chord_frequencies_are_multiples_of_the_root() {
    for (index, (_, offsets)) in table().into_iter().enumerate() {
        for base in [55.0f32, 261.63, 311.13, 440.0, 1999.9, 0.0, 1e-40, 3.0e38] {
            let expected: Vec<u32> = std::iter::once(base)
                .chain(offsets.iter().map(|&offset| base * offset))
                .map(|x| x.to_bits())
                .collect();
            let chord = chord_type(index as u32);
            assert_eq!(chord.frequencies(base.to_bits()), Some(expected), "{index} {base}");
        }
    }
    let major = chord_type(2).frequencies(440.0f32.to_bits()).unwrap();
    assert_eq!(major, vec![440.0f32.to_bits(), 550.0f32.to_bits(), 660.0f32.to_bits()]);
    assert_eq!(chord_type(0).frequencies(440.0f32.to_bits()), Some(vec![440.0f32.to_bits()]));
}

#[test]
fn chord_frequencies_need_numbers() {
    for base in [-440.0f32, f32::NAN, f32::INFINITY, -0.0] {
        assert_eq!(chord_type(2).frequencies(base.to_bits()), None, "{base}");
    }
    let chord = ChordType::new(vec![1.5f32.to_bits(), f32::NAN.to_bits()]);
    assert_eq!(chord.frequencies(440.0f32.to_bits()), None);
    let chord = ChordType::new(vec![(-1.5f32).to_bits()]);
    assert_eq!(chord.frequencies(440.0f32.to_bits()), None);
}
