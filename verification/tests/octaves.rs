use audio_samples::error::ParameterError;
use audio_samples::parameters::data::{OctaveError, OctaveParameters, OctaveSpan};
use rand::distributions::Bernoulli;
use rand::{Rng, SeedableRng};
use rand_pcg::Pcg64Mcg;

fn b(x: f32) -> u32 {
    x.to_bits()
}

fn p(x: f64) -> u64 {
    x.to_bits()
}

fn octaves(min: f32, max: f32) -> OctaveParameters {
    OctaveParameters::new(p(0.5), p(0.3), b(min), b(max)).unwrap()
}

fn span_with_numbers(min: f32, max: f32, frequency: f32) -> Option<(i32, f32, i32)> {
    let given_octave = (-10i32..40).find(|&i| frequency / (i as f32).exp2() < min)? - 1;
    let lowest_octave = frequency / (given_octave as f32).exp2();
    if lowest_octave < min {
        return None;
    }
    let num_octaves = (1i32..40).find(|&i| lowest_octave * (i as f32).exp2() > max)?;
    Some((given_octave, lowest_octave, num_octaves))
}

fn frequencies_with_numbers(
    rng: &mut Pcg64Mcg,
    add_octave_probability: f64,
    min: f32,
    max: f32,
    frequency: f32,
    root: bool,
) -> Vec<f32> {
    let (_, lowest_octave, num_octaves) = span_with_numbers(min, max, frequency).unwrap();
    let mut octaves = vec![if root { 0 } else { rng.gen_range(0..num_octaves) }];
    while rng.gen_bool(add_octave_probability) {
        let octave = rng.gen_range(0..num_octaves);
        if !octaves.contains(&octave) {
            octaves.push(octave);
        }
    }
    octaves
        .into_iter()
        .map(|octave| lowest_octave * (octave as f32).exp2())
        .collect()
}

#[test]
fn octave_rules_keep_their_values() {
    let rules = OctaveParameters::new(p(0.5), p(0.3), b(90.0), b(10_000.0)).unwrap();
    assert_eq!(rules.add_root_octave_probability(), p(0.5));
    assert_eq!(rules.add_other_octave_probability(), p(0.3));
    assert_eq!(rules.min_frequency(), b(90.0));
    assert_eq!(rules.max_frequency(), b(10_000.0));
}

#[test]
fn octave_rules_name_the_first_broken_rule() {
    let new = |root: f64, other: f64, min: f32, max: f32| {
        OctaveParameters::new(p(root), p(other), b(min), b(max)).err()
    };
    assert_eq!(new(-0.1, 0.3, 90.0, 1000.0), Some(ParameterError::Probability));
    assert_eq!(new(1.1, 0.3, 90.0, 1000.0), Some(ParameterError::Probability));
    assert_eq!(new(0.5, -0.3, 90.0, 1000.0), Some(ParameterError::Probability));
    assert_eq!(new(0.5, 1.3, 90.0, 1000.0), Some(ParameterError::Probability));
    assert_eq!(new(f64::NAN, 0.3, 90.0, 1000.0), Some(ParameterError::Probability));
    assert_eq!(new(0.5, 0.3, 0.0, 1000.0), Some(ParameterError::MinimumFrequency));
    assert_eq!(new(0.5, 0.3, -90.0, 1000.0), Some(ParameterError::MinimumFrequency));
    assert_eq!(new(0.5, 0.3, f32::NAN, 1000.0), Some(ParameterError::MinimumFrequency));
    assert_eq!(new(0.5, 0.3, 90.0, 179.99), Some(ParameterError::OctaveRoom));
    assert_eq!(new(0.5, 0.3, 90.0, f32::NAN), Some(ParameterError::OctaveRoom));
    assert_eq!(new(0.5, 0.3, 90.0, 180.0), None);
    assert_eq!(new(0.0, 1.0, 90.0, 10_000.0), None);
}

#[test]
fn octave_room_is_checked_at_exactly_twice_the_minimum() {
    let below = f32::from_bits(b(180.0) - 1);
    assert!(OctaveParameters::new(p(0.5), p(0.3), b(90.0), b(below)).is_err());
    assert!(OctaveParameters::new(p(0.5), p(0.3), b(90.0), b(180.0)).is_ok());
}

#[test]
fn span_of_a4_between_90_and_10000() {
    let span = octaves(90.0, 10_000.0).octave_span(b(440.0)).unwrap();
    assert_eq!(
        span,
        OctaveSpan { given_octave: 2, lowest_octave: b(110.0), num_octaves: 7 }
    );
}

#[test]
fn span_of_a_note_below_the_minimum() {
    let span = octaves(90.0, 10_000.0).octave_span(b(50.0)).unwrap();
    assert_eq!(
        span,
        OctaveSpan { given_octave: -1, lowest_octave: b(100.0), num_octaves: 7 }
    );
}

#[test]
fn span_agrees_with_the_numbers() {
    let ranges = [(90.0f32, 10_000.0f32), (50.0, 100.0), (20.0, 20_000.0), (0.001, 1.0e6)];
    let frequencies = [
        20.0f32, 25.96, 50.0, 82.41, 89.999, 90.0, 100.0, 179.99, 180.0, 261.63, 440.0, 830.61,
        1999.0, 3000.0, 12_345.678, 20_000.0,
    ];
    for &(min, max) in ranges.iter() {
        let rules = octaves(min, max);
        for &frequency in frequencies.iter() {
            let expected = span_with_numbers(min, max, frequency);
            match rules.octave_span(b(frequency)) {
                Ok(span) => {
                    let (given_octave, lowest_octave, num_octaves) = expected.unwrap();
                    assert_eq!(span.given_octave, given_octave, "{min} {max} {frequency}");
                    assert_eq!(span.lowest_octave, b(lowest_octave), "{min} {max} {frequency}");
                    assert_eq!(span.num_octaves, num_octaves, "{min} {max} {frequency}");
                }
                Err(e) => {
                    assert_eq!(e, OctaveError::NoOctave);
                    assert!(expected.is_none(), "{min} {max} {frequency}");
                }
            }
        }
    }
}

#[test]
fn span_refuses_what_is_no_frequency() {
    let rules = octaves(90.0, 10_000.0);
    for bad in [0.0f32, -0.0, -440.0, f32::NAN, f32::INFINITY, f32::NEG_INFINITY] {
        assert_eq!(rules.octave_span(b(bad)).err(), Some(OctaveError::Frequency), "{bad}");
    }
}

#[test]
fn span_of_very_small_frequencies() {
    let min = (-100.0f32).exp2();
    let rules = octaves(min, (-80.0f32).exp2());
    let span = rules.octave_span(b((-95.0f32).exp2())).unwrap();
    assert_eq!(span.lowest_octave, b(min));
    assert_eq!(span.given_octave, 5);
    assert_eq!(span.num_octaves, 21);
    let frequencies =
        rules.frequencies_from_draws(b((-95.0f32).exp2()), false, &vec![5, 0]).unwrap();
    assert_eq!(frequencies, vec![b((-95.0f32).exp2()), b(min)]);
    let tiny = octaves(3.0e-44, 1.0e-40);
    for frequency in [1.0e-45f32, 3.0e-44, 5.0e-44, 7.1e-42, 1.0e-40, 1.0e-38, 3.0e-39] {
        let expected = span_with_numbers(3.0e-44, 1.0e-40, frequency);
        match tiny.octave_span(b(frequency)) {
            Ok(span) => {
                let (given_octave, lowest_octave, num_octaves) = expected.unwrap();
                assert_eq!(span.given_octave, given_octave, "{frequency}");
                assert_eq!(span.lowest_octave, b(lowest_octave), "{frequency}");
                assert_eq!(span.num_octaves, num_octaves, "{frequency}");
                let all: Vec<i32> = (0..span.num_octaves).collect();
                for (o, f) in span.frequencies(&all).into_iter().enumerate() {
                    assert_eq!(f, b(lowest_octave * (o as f32).exp2()));
                    assert!(3.0e-44 <= f32::from_bits(f) && f32::from_bits(f) <= 1.0e-40);
                }
            }
            Err(e) => {
                assert_eq!(e, OctaveError::NoOctave);
                assert!(expected.is_none(), "{frequency}");
            }
        }
    }
}

#[test]
fn a_note_far_below_the_minimum_has_no_octave() {
    let rules = octaves(90.0, 10_000.0);
    assert_eq!(rules.octave_span(b(0.01)).err(), Some(OctaveError::NoOctave));
    assert_eq!(rules.octave_span(b(1.0e-30)).err(), Some(OctaveError::NoOctave));
    assert_eq!(rules.octave_span(b(f32::MIN_POSITIVE)).err(), Some(OctaveError::NoOctave));
    assert!(rules.octave_span(b(0.05)).is_ok());
}

#[test]
fn span_fails_without_an_octave_in_reach() {
    assert_eq!(
        octaves(1.0e-20, 1.0).octave_span(b(440.0)).err(),
        Some(OctaveError::NoOctave)
    );
    assert_eq!(
        octaves(90.0, f32::INFINITY).octave_span(b(440.0)).err(),
        Some(OctaveError::NoOctave)
    );
}

#[test]
fn root_sounds_at_its_lowest_octave() {
    let rules = octaves(90.0, 10_000.0);
    let frequencies = rules.frequencies_from_draws(b(440.0), true, &vec![]).unwrap();
    assert_eq!(frequencies, vec![b(110.0)]);
    let frequencies = rules.frequencies_from_draws(b(50.0), true, &vec![]).unwrap();
    assert_eq!(frequencies, vec![b(100.0)]);
    let frequencies = rules.frequencies_from_draws(b(30_000.0), true, &vec![]).unwrap();
    assert_eq!(frequencies, vec![b(30_000.0 / 256.0)]);
}

#[test]
fn other_note_sounds_at_the_octave_drawn_first() {
    let rules = octaves(90.0, 10_000.0);
    let frequencies = rules.frequencies_from_draws(b(660.0), false, &vec![0]).unwrap();
    assert_eq!(frequencies, vec![b(165.0)]);
    let frequencies = rules.frequencies_from_draws(b(660.0), false, &vec![5]).unwrap();
    assert_eq!(frequencies, vec![b(5280.0)]);
}

#[test]
fn an_octave_is_never_added_twice() {
    let rules = octaves(90.0, 10_000.0);
    let frequencies =
        rules.frequencies_from_draws(b(440.0), true, &vec![0, 3, 0, 2, 3, 6, 2]).unwrap();
    assert_eq!(frequencies, vec![b(110.0), b(880.0), b(440.0), b(7040.0)]);
    let frequencies =
        rules.frequencies_from_draws(b(440.0), false, &vec![1, 1, 0, 1, 0]).unwrap();
    assert_eq!(frequencies, vec![b(220.0), b(110.0)]);
}

#[test]
fn draws_from_outside_the_span_are_refused() {
    let rules = octaves(90.0, 10_000.0);
    assert_eq!(
        rules.frequencies_from_draws(b(440.0), true, &vec![7]).err(),
        Some(OctaveError::Draw)
    );
    assert_eq!(
        rules.frequencies_from_draws(b(440.0), true, &vec![1, -1]).err(),
        Some(OctaveError::Draw)
    );
    assert_eq!(
        rules.frequencies_from_draws(b(440.0), false, &vec![]).err(),
        Some(OctaveError::Draw)
    );
    assert_eq!(
        rules.frequencies_from_draws(b(-440.0), false, &vec![0]).err(),
        Some(OctaveError::Frequency)
    );
}

#[test]
fn span_checks_and_chooses_octaves() {
    let span = octaves(90.0, 10_000.0).octave_span(b(440.0)).unwrap();
    assert!(span.check_draws(&vec![0, 6, 3]));
    assert!(!span.check_draws(&vec![0, 7]));
    assert!(!span.check_draws(&vec![-1]));
    assert_eq!(span.octaves(true, &vec![2, 5, 5, 0]), vec![0, 2, 5]);
    assert_eq!(span.octaves(false, &vec![4, 4, 1]), vec![4, 1]);
    assert_eq!(
        span.frequencies(&vec![0, 1, 2, 6]),
        vec![b(110.0), b(220.0), b(440.0), b(7040.0)]
    );
}

#[test]
fn drawn_octaves_lie_between_the_bounds() {
    let (min, max) = (90.0f32, 10_000.0f32);
    let rules = octaves(min, max);
    for frequency in [90.0f32, 100.0, 261.63, 440.0, 830.61, 5000.0, 12_000.0] {
        let span = rules.octave_span(b(frequency)).unwrap();
        let all: Vec<i32> = (0..span.num_octaves).collect();
        let frequencies = rules.frequencies_from_draws(b(frequency), false, &all).unwrap();
        assert_eq!(frequencies.len(), span.num_octaves as usize);
        for &f in frequencies.iter() {
            let f = f32::from_bits(f);
            assert!(min <= f && f <= max, "{frequency}: {f}");
        }
    }
}

#[test]
fn generated_frequencies_are_those_of_the_numbers() {
    let (min, max) = (90.0f32, 10_000.0f32);
    let rules = octaves(min, max);
    for seed in 0u64..40 {
        for &(probability, root) in [(0.5f64, true), (0.3, false), (0.9, false), (0.0, true)].iter()
        {
            for frequency in [55.0f32, 261.63, 440.0, 659.25, 1999.0] {
                let mut expected_rng = Pcg64Mcg::seed_from_u64(seed);
                let expected = frequencies_with_numbers(
                    &mut expected_rng,
                    probability,
                    min,
                    max,
                    frequency,
                    root,
                );
                let expected: Vec<u32> = expected.into_iter().map(b).collect();
                let mut rng = Pcg64Mcg::seed_from_u64(seed);
                let trial = Bernoulli::new(probability).unwrap();
                let frequencies =
                    rules.generate_frequencies(&mut rng, &trial, b(frequency), root).unwrap();
                assert_eq!(frequencies, expected, "{seed} {probability} {root} {frequency}");
                assert_eq!(rng.gen::<u64>(), expected_rng.gen::<u64>());
            }
        }
    }
}

#[test]
fn generated_frequencies_lie_between_the_bounds() {
    let (min, max) = (90.0f32, 10_000.0f32);
    let rules = octaves(min, max);
    let trial = Bernoulli::new(0.8).unwrap();
    let mut rng = Pcg64Mcg::seed_from_u64(7);
    for round in 0..400 {
        let root = round % 2 == 0;
        let note = [0.3f32, 50.0, 660.0, 9_999.0, 25_000.0, 3.0e9][round % 6];
        let frequencies = rules.generate_frequencies(&mut rng, &trial, b(note), root).unwrap();
        assert!(!frequencies.is_empty());
        for (i, &f) in frequencies.iter().enumerate() {
            let value = f32::from_bits(f);
            assert!(min <= value && value <= max, "{note}: {value}");
            assert!(!frequencies[..i].contains(&f));
            assert_eq!((value / note).log2().fract(), 0.0);
        }
        if root {
            assert!(f32::from_bits(frequencies[0]) < 2.0 * min);
        }
    }
}

#[test]
fn generating_fails_as_the_span_does() {
    let rules = octaves(90.0, 10_000.0);
    let trial = Bernoulli::new(0.5).unwrap();
    let mut rng = Pcg64Mcg::seed_from_u64(1);
    let mut untouched = Pcg64Mcg::seed_from_u64(1);
    assert_eq!(
        rules.generate_frequencies(&mut rng, &trial, b(0.0), true).err(),
        Some(OctaveError::Frequency)
    );
    assert_eq!(rng.gen::<u64>(), untouched.gen::<u64>());
}

fn octave_with_numbers(rng: &mut Pcg64Mcg, min: f32, max: f32, frequency: f32) -> Option<f32> {
    let lowest_octave = frequency / ((frequency / min).floor());
    let num_octaves = (1u32..40).find(|&i| lowest_octave * (i as f32).exp2() > max)?;
    let octave = rng.gen_range(0..num_octaves);
    Some(frequency * (octave as f32).exp2())
}

#[test]
fn generated_octave_is_that_of_the_numbers() {
    let ranges = [(90.0f32, 10_000.0f32), (50.0, 100.0), (20.0, 20_000.0), (0.37, 912.5)];
    for &(min, max) in ranges.iter() {
        let rules = octaves(min, max);
        for seed in 0u64..50 {
            for frequency in
                [1.0e-40f32, 25.0, 89.0, 100.0, 261.63, 440.0, 1999.0, 12_000.0, 30_000.0]
            {
                let mut expected_rng = Pcg64Mcg::seed_from_u64(seed);
                let expected = octave_with_numbers(&mut expected_rng, min, max, frequency);
                let mut rng = Pcg64Mcg::seed_from_u64(seed);
                match rules.generate_octave(&mut rng, b(frequency)) {
                    Ok(raised) => assert_eq!(Some(raised), expected.map(b), "{seed} {frequency}"),
                    Err(e) => {
                        assert_eq!(e, OctaveError::NoOctave);
                        assert_eq!(expected, None, "{seed} {frequency}");
                    }
                }
                assert_eq!(rng.gen::<u64>(), expected_rng.gen::<u64>());
            }
        }
    }
}

#[test]
fn generated_octave_above_is_that_of_the_numbers() {
    let (min, max) = (90.0f32, 10_000.0f32);
    let rules = octaves(min, max);
    for seed in 0u64..50 {
        for frequency in [100.0f32, 261.63, 440.0, 1999.0] {
            let lowest_octave = frequency / ((frequency / min).floor());
            let mut expected_rng = Pcg64Mcg::seed_from_u64(seed);
            let expected = octave_with_numbers(&mut expected_rng, min, max, frequency).unwrap();
            let mut rng = Pcg64Mcg::seed_from_u64(seed);
            let raised =
                rules.generate_octave_above(&mut rng, b(frequency), b(lowest_octave)).unwrap();
            assert_eq!(raised, b(expected), "{seed} {frequency}");
        }
    }
}

#[test]
fn generated_octave_needs_numbers_to_scale() {
    let rules = octaves(90.0, 10_000.0);
    let mut rng = Pcg64Mcg::seed_from_u64(3);
    for bad in [0.0f32, -440.0, f32::NAN, f32::INFINITY] {
        assert_eq!(
            rules.generate_octave(&mut rng, b(bad)).err(),
            Some(OctaveError::Frequency),
            "{bad}"
        );
    }
    assert_eq!(
        rules.generate_octave_above(&mut rng, b(-1.0), b(100.0)).err(),
        Some(OctaveError::Frequency)
    );
    assert_eq!(rules.generate_octave_above(&mut rng, b(0.0), b(100.0)).ok(), Some(b(0.0)));
    assert_eq!(
        rules.generate_octave_above(&mut rng, b(440.0), b(f32::NAN)).err(),
        Some(OctaveError::Frequency)
    );
    assert_eq!(
        octaves(90.0, f32::INFINITY).generate_octave_above(&mut rng, b(440.0), b(110.0)).err(),
        Some(OctaveError::NoOctave)
    );
    assert_eq!(
        octaves(90.0, f32::INFINITY).generate_octave(&mut rng, b(440.0)).err(),
        Some(OctaveError::NoOctave)
    );
}

#[test]
fn chord_frequencies_list_the_root_first() {
    let rules = octaves(90.0, 10_000.0);
    let notes = vec![b(440.0), b(550.0), b(660.0)];
    let draws = vec![vec![1], vec![0, 2], vec![3]];
    let frequencies = rules.chord_frequencies_from_draws(&notes, &draws).unwrap();
    assert_eq!(
        frequencies,
        vec![b(110.0), b(220.0), b(137.5), b(550.0), b(1320.0)]
    );
    assert_eq!(
        rules.chord_frequencies_from_draws(&notes, &vec![vec![], vec![0]]).err(),
        Some(OctaveError::Draw)
    );
    assert_eq!(
        rules.chord_frequencies_from_draws(&notes, &vec![vec![], vec![], vec![0]]).err(),
        Some(OctaveError::Draw)
    );
    assert_eq!(
        rules.chord_frequencies_from_draws(&vec![b(440.0), b(0.0)], &vec![vec![], vec![0]]).err(),
        Some(OctaveError::Frequency)
    );
    assert_eq!(rules.chord_frequencies_from_draws(&vec![], &vec![]).unwrap(), Vec::<u32>::new());
}

#[test]
fn generated_chord_is_that_of_the_numbers() {
    let (min, max) = (90.0f32, 10_000.0f32);
    let rules = octaves(min, max);
    let root_trial = Bernoulli::new(0.5).unwrap();
    let other_trial = Bernoulli::new(0.3).unwrap();
    for seed in 0u64..40 {
        let base = 311.13f32;
        let notes: Vec<f32> = vec![base, base * (5. / 4.), base * (3. / 2.), base * (15. / 8.)];
        let mut expected_rng = Pcg64Mcg::seed_from_u64(seed);
        let mut expected: Vec<u32> = Vec::new();
        for (i, &note) in notes.iter().enumerate() {
            let probability = if i == 0 { 0.5 } else { 0.3 };
            expected.extend(
                frequencies_with_numbers(&mut expected_rng, probability, min, max, note, i == 0)
                    .into_iter()
                    .map(b),
            );
        }
        let mut rng = Pcg64Mcg::seed_from_u64(seed);
        let note_bits: Vec<u32> = notes.iter().map(|&x| b(x)).collect();
        let frequencies = rules
            .generate_chord_frequencies(&mut rng, &root_trial, &other_trial, &note_bits)
            .unwrap();
        assert_eq!(frequencies, expected, "{seed}");
        assert_eq!(frequencies[0], b(base / 2.0));
    }
}

#[test]
fn generated_chord_is_that_of_the_table() {
    let (min, max) = (90.0f32, 10_000.0f32);
    let rules = octaves(min, max);
    let root_trial = Bernoulli::new(0.5).unwrap();
    let other_trial = Bernoulli::new(0.3).unwrap();
    for seed in 0u64..20 {
        for chord in 0u32..9 {
            let base = 196.0f32;
            let chord = audio_samples::chord_type(chord);
            let mut expected_rng = Pcg64Mcg::seed_from_u64(seed);
            let mut expected: Vec<u32> = Vec::new();
            let notes = std::iter::once(base)
                .chain(chord.offsets().iter().map(|&offset| base * f32::from_bits(offset)));
            for (i, note) in notes.enumerate() {
                let probability = if i == 0 { 0.5 } else { 0.3 };
                expected.extend(
                    frequencies_with_numbers(&mut expected_rng, probability, min, max, note, i == 0)
                        .into_iter()
                        .map(b),
                );
            }
            let mut rng = Pcg64Mcg::seed_from_u64(seed);
            let frequencies = rules
                .generate_chord(&mut rng, &root_trial, &other_trial, b(base), &chord)
                .unwrap();
            assert_eq!(frequencies, expected, "{seed}");
        }
    }
    let mut rng = Pcg64Mcg::seed_from_u64(0);
    assert_eq!(
        rules
            .generate_chord(
                &mut rng,
                &root_trial,
                &other_trial,
                b(-196.0),
                &audio_samples::chord_type(2)
            )
            .err(),
        Some(OctaveError::Frequency)
    );
}
