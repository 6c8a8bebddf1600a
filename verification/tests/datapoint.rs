use audio_samples::audio::Audio;
use audio_samples::data::{amplitude_factor, DataPoint, DataPointLabel, LabelMismatch};
use audio_samples::parameters::data::{
    any_has_frequency, included, DataParameters, DataPointError, DataPointParameters,
    OctaveParameters,
};
use audio_samples::parameters::effects::{EffectParameters, EffectTypeDistribution};
use audio_samples::parameters::oscillators::{
    OscillatorParameters, OscillatorType, OscillatorTypeDistribution,
};
use rand::{Rng, SeedableRng};
use rand_pcg::Pcg64Mcg;

fn b(x: f32) -> u32 {
    x.to_bits()
}

fn p(x: f64) -> u64 {
    x.to_bits()
}

fn template() -> DataParameters {
    let octaves = OctaveParameters::new(p(0.5), p(0.3), b(90.0), b(10_000.0)).unwrap();
    DataParameters::new(44100, (b(50.0), b(2000.0)), (b(0.5), b(3.0)), vec![0, 2], octaves, 256)
        .unwrap()
        .with_oscillator(OscillatorTypeDistribution::Sine, p(0.3), (b(0.1), b(0.2)))
        .unwrap()
        .with_oscillator(OscillatorTypeDistribution::Noise, p(0.3), (b(0.1), b(0.2)))
        .unwrap()
        .with_effect(EffectTypeDistribution::distortion((b(0.2), b(20.0))).unwrap(), p(0.5))
        .unwrap()
        .with_effect(EffectTypeDistribution::normalize(), p(1.0))
        .unwrap()
}

fn sine(amplitude: f32) -> OscillatorParameters {
    OscillatorParameters::new(OscillatorType::Sine, b(amplitude))
}

fn noise(amplitude: f32) -> OscillatorParameters {
    OscillatorParameters::new(OscillatorType::Noise(99), b(amplitude))
}

fn parameters() -> DataPointParameters {
    DataPointParameters::new(
        &template(),
        b(440.0),
        b(1.5),
        77,
        2,
        vec![b(440.0), b(275.0), b(330.0), b(660.0)],
        &vec![Some(sine(0.15)), Some(noise(0.12))],
        &vec![None, Some(EffectParameters::Normalize)],
    )
    .unwrap()
}

#[test]
fn taken_slots_are_gathered_in_order() {
    assert_eq!(included(&vec![Some(3u32), None, Some(5), None, None, Some(1)]), vec![3, 5, 1]);
    assert_eq!(included::<u32>(&vec![None, None]), Vec::<u32>::new());
    assert_eq!(included::<u32>(&vec![]), Vec::<u32>::new());
}

#[test]
fn datapoint_holds_what_was_drawn() {
    let params = parameters();
    assert_eq!(params.sample_rate, 44100);
    assert_eq!(params.num_samples, 256);
    assert_eq!(params.base_frequency, b(440.0));
    assert_eq!(params.frequency_std_dev, b(1.5));
    assert_eq!(params.frequency_walk_seed, 77);
    assert_eq!(params.chord_type, 2);
    assert_eq!(params.frequencies.len(), 4);
    assert_eq!(params.oscillators.len(), 2);
    assert_eq!(params.effects.len(), 1);
    assert!(matches!(params.effects[0], EffectParameters::Normalize));
    assert!(params.has_frequency());
}

#[test]
fn datapoint_needs_an_oscillator_with_a_frequency() {
    let new = |oscillators: Vec<Option<OscillatorParameters>>| {
        DataPointParameters::new(
            &template(),
            b(440.0),
            b(1.5),
            77,
            0,
            vec![b(440.0)],
            &oscillators,
            &vec![None, None],
        )
    };
    assert_eq!(new(vec![None, None]).err(), Some(DataPointError::NoFrequency));
    assert_eq!(new(vec![None, Some(noise(0.2))]).err(), Some(DataPointError::NoFrequency));
    assert_eq!(new(vec![Some(sine(0.0)), None]).err(), Some(DataPointError::Oscillator));
    assert!(new(vec![Some(sine(0.1)), None]).unwrap().has_frequency());
    assert!(new(vec![Some(sine(0.1)), Some(noise(0.2))]).unwrap().has_frequency());
}

#[test]
fn datapoint_names_the_first_fault() {
    let new = |chord: u32, frequencies: Vec<u32>, oscillators: usize, effects: usize| {
        DataPointParameters::new(
            &template(),
            b(440.0),
            b(1.5),
            77,
            chord,
            frequencies,
            &{
                let mut drawn = vec![Some(sine(0.1)); oscillators];
                if oscillators > 1 {
                    drawn[1] = Some(noise(0.1));
                }
                drawn
            },
            &vec![None; effects],
        )
        .err()
    };
    assert_eq!(new(0, vec![b(440.0)], 1, 2), Some(DataPointError::Slots));
    assert_eq!(new(0, vec![b(440.0)], 2, 3), Some(DataPointError::Slots));
    assert_eq!(new(1, vec![b(440.0)], 2, 2), Some(DataPointError::Chord));
    assert_eq!(new(9, vec![b(440.0)], 2, 2), Some(DataPointError::Chord));
    assert_eq!(new(0, vec![], 2, 2), Some(DataPointError::Frequencies));
    assert_eq!(new(2, vec![b(440.0), b(550.0)], 2, 2), Some(DataPointError::Frequencies));
    assert_eq!(new(2, vec![b(440.0), b(550.0), b(660.0)], 2, 2), None);
    assert_eq!(new(0, vec![b(440.0)], 2, 2), None);
}

#[test]
fn some_oscillator_has_a_frequency() {
    assert!(!any_has_frequency(&vec![]));
    assert!(!any_has_frequency(&vec![noise(0.5), sine(0.0)]));
    assert!(any_has_frequency(&vec![noise(0.5), sine(0.0), sine(0.3)]));
}

#[test]
fn every_oscillator_is_rendered_at_every_frequency() {
    let params = parameters();
    let jobs = DataPoint::generate_from_oscillators(&params);
    assert_eq!(jobs.len(), 8);
    for (i, &frequency) in params.frequencies.iter().enumerate() {
        for (j, oscillator) in params.oscillators.iter().enumerate() {
            let job = &jobs[i * 2 + j];
            assert_eq!(job.frequency, frequency);
            assert_eq!(job.oscillator.amplitude, oscillator.amplitude);
            assert_eq!(
                matches!(job.oscillator.oscillator_type, OscillatorType::Sine),
                matches!(oscillator.oscillator_type, OscillatorType::Sine)
            );
        }
    }
}

#[test]
fn walk_seeds_come_from_the_walk_generator() {
    let params = parameters();
    let jobs = DataPoint::generate_from_oscillators(&params);
    let mut rng = Pcg64Mcg::seed_from_u64(params.frequency_walk_seed);
    for job in jobs.iter() {
        assert_eq!(job.frequency_walk_seed, rng.sample(rand::distributions::Standard));
    }
    let again = DataPoint::generate_from_oscillators(&params);
    for (a, c) in jobs.iter().zip(again.iter()) {
        assert_eq!(a.frequency_walk_seed, c.frequency_walk_seed);
    }
    assert_ne!(jobs[0].frequency_walk_seed, jobs[1].frequency_walk_seed);
}

#[test]
fn datapoint_keeps_audio_and_parameters() {
    let samples: Vec<u32> = (0..256).map(|i| b(i as f32 / 256.0)).collect();
    let data_point = DataPoint::new(parameters(), samples.clone()).unwrap();
    assert_eq!(data_point.audio().samples, samples);
    assert_eq!(data_point.audio().sample_rate, 44100);
    assert_eq!(data_point.audio().num_samples(), 256);
    assert_eq!(data_point.parameters().chord_type, 2);
}

#[test]
fn label_is_what_is_kept_of_the_parameters() {
    let params = parameters();
    let label = DataPointLabel::new(&params, b(69.3));
    assert_eq!(label.sample_rate(), 44100);
    assert_eq!(label.base_frequency(), Some(b(440.0)));
    assert_eq!(label.frequencies(), Some(&params.frequencies));
    assert_eq!(label.note(), Some(9));
    assert_eq!(label.chord_type(), 2);
    assert_eq!(label.num_samples(), 256);
    let data_point = DataPoint::new(params, vec![0; 256]).unwrap();
    let same = data_point.label(b(68.5));
    assert_eq!(same.note(), Some(9));
    assert_eq!(same.frequencies(), label.frequencies());
    assert_eq!(same.chord_type(), 2);
}

#[test]
fn label_is_checked_against_the_audio() {
    let label = DataPointLabel::new(&parameters(), b(69.0));
    assert_eq!(label.check(&Audio::from_samples(vec![0; 256], 44100)), Ok(()));
    assert_eq!(
        label.check(&Audio::from_samples(vec![0; 256], 48000)),
        Err(LabelMismatch::SampleRate)
    );
    assert_eq!(
        label.check(&Audio::from_samples(vec![0; 255], 44100)),
        Err(LabelMismatch::NumSamples)
    );
    assert_eq!(
        label.check(&Audio::from_samples(vec![], 8000)),
        Err(LabelMismatch::SampleRate)
    );
}

#[test]
fn total_amplitude_is_the_sum_of_the_amplitudes() {
    assert_eq!(parameters().total_amplitude(), Some(b(0.15f32 + 0.12f32)));
    let mut params = parameters();
    params.oscillators = vec![sine(0.1), sine(0.2), noise(0.3), sine(0.05)];
    assert_eq!(params.total_amplitude(), Some(b(0.1f32 + 0.2 + 0.3 + 0.05)));
    params.oscillators = vec![];
    assert_eq!(params.total_amplitude(), Some(b(0.0)));
    params.oscillators = vec![sine(0.1), sine(-0.2)];
    assert_eq!(params.total_amplitude(), None);
    params.oscillators = vec![sine(f32::NAN)];
    assert_eq!(params.total_amplitude(), None);
    params.oscillators = vec![sine(f32::MAX), sine(f32::MAX)];
    assert_eq!(params.total_amplitude(), None);
}

#[test]
fn amplitude_factor_is_one_over_the_number_of_notes() {
    for chord in 0u32..9 {
        let notes = audio_samples::num_chord_notes(chord);
        assert_eq!(amplitude_factor(chord), b(1. / notes as f32), "{chord}");
    }
    assert_eq!(amplitude_factor(0), b(1.0));
    assert_eq!(amplitude_factor(2), b(0.33333334));
}

#[test]
fn samples_are_scaled_to_the_chord() {
    let samples = [0.3f32, -0.9, 0.0, -0.0, 1e-40, 0.123456];
    for chord in 0u32..9 {
        let factor = 1. / audio_samples::num_chord_notes(chord) as f32;
        let expected: Vec<u32> = samples.iter().map(|x| b(x * factor)).collect();
        let mut buffer: Vec<u32> = samples.iter().map(|&x| b(x)).collect();
        assert!(DataPoint::scale_to_chord(&mut buffer, chord));
        assert_eq!(buffer, expected, "{chord}");
    }
    let mut buffer = vec![b(0.5), b(f32::INFINITY)];
    assert!(!DataPoint::scale_to_chord(&mut buffer, 2));
    assert_eq!(buffer, vec![b(0.5), b(f32::INFINITY)]);
    let mut buffer = vec![b(f32::NAN), b(0.5)];
    assert!(!DataPoint::scale_to_chord(&mut buffer, 2));
    assert_eq!(buffer, vec![b(f32::NAN), b(0.5)]);
}

#[test]
fn oscillators_are_added_to_the_buffer() {
    let mut rng = Pcg64Mcg::seed_from_u64(5);
    let mut buffer = vec![0.0f32; 64];
    let mut patterns: Vec<u32> = buffer.iter().map(|&x| b(x)).collect();
    for amplitude in [0.5f32, 0.2, 0.3, 1e-6] {
        let rendered: Vec<f32> = (0..64).map(|_| rng.gen_range(-1.0f32..=1.0)).collect();
        for (sample, given) in buffer.iter_mut().zip(rendered.iter()) {
            *sample += given * amplitude;
        }
        let given: Vec<u32> = rendered.iter().map(|&x| b(x)).collect();
        assert!(DataPoint::write_oscillator(&mut patterns, &given, b(amplitude)));
        let expected: Vec<u32> = buffer.iter().map(|&x| b(x)).collect();
        assert_eq!(patterns, expected);
    }
}

#[test]
fn what_cannot_be_added_leaves_the_buffer() {
    let mut buffer = vec![b(0.25), b(-0.5)];
    assert!(!DataPoint::write_oscillator(&mut buffer, &vec![b(1.0)], b(0.5)));
    assert!(!DataPoint::write_oscillator(&mut buffer, &vec![b(1.0), b(f32::NAN)], b(0.5)));
    assert!(!DataPoint::write_oscillator(&mut buffer, &vec![b(1.0), b(1.0)], b(f32::INFINITY)));
    assert!(!DataPoint::write_oscillator(&mut buffer, &vec![b(1.0), b(1.0)], b(-0.5)));
    assert!(!DataPoint::write_oscillator(&mut buffer, &vec![b(3.0e38), b(1.0)], b(3.0e38)));
    assert_eq!(buffer, vec![b(0.25), b(-0.5)]);
    assert!(DataPoint::write_oscillator(&mut buffer, &vec![b(1.0), b(1.0)], b(0.5)));
    assert_eq!(buffer, vec![b(0.75), b(0.0)]);
}

#[test]
fn a_datapoint_that_clips_is_refused() {
    let mut samples: Vec<u32> = vec![b(0.5); 256];
    samples[17] = b(-1.25);
    samples[100] = b(3.0);
    assert_eq!(
        DataPoint::new(parameters(), samples.clone()).err(),
        Some(audio_samples::audio::AudioGenerationError::Clipping(17))
    );
    assert_eq!(
        parameters().generate(samples.clone()).err(),
        Some(audio_samples::audio::AudioGenerationError::Clipping(17))
    );
    samples[17] = b(-1.0);
    samples[100] = b(1.0);
    let data_point = parameters().generate(samples.clone()).unwrap();
    assert_eq!(data_point.audio().samples, samples);
    assert_eq!(data_point.audio().num_samples() as u64, data_point.parameters().num_samples);
}

#[test]
fn what_is_taken_must_be_of_its_slot() {
    let new = |oscillators: Vec<Option<OscillatorParameters>>,
               effects: Vec<Option<EffectParameters>>| {
        DataPointParameters::new(
            &template(),
            b(440.0),
            b(1.5),
            77,
            0,
            vec![b(440.0)],
            &oscillators,
            &effects,
        )
        .err()
    };
    let saw = OscillatorParameters::new(OscillatorType::Saw, b(0.15));
    assert_eq!(new(vec![Some(saw), None], vec![None, None]), Some(DataPointError::Oscillator));
    assert_eq!(
        new(vec![Some(sine(100.0)), None], vec![None, None]),
        Some(DataPointError::Oscillator)
    );
    assert_eq!(
        new(vec![Some(sine(0.05)), None], vec![None, None]),
        Some(DataPointError::Oscillator)
    );
    assert_eq!(
        new(vec![Some(sine(f32::NAN)), None], vec![None, None]),
        Some(DataPointError::Oscillator)
    );
    assert_eq!(
        new(vec![Some(sine(0.1)), Some(sine(0.1))], vec![None, None]),
        Some(DataPointError::Oscillator)
    );
    assert_eq!(
        new(vec![Some(sine(0.1)), None], vec![Some(EffectParameters::Normalize), None]),
        Some(DataPointError::Effect)
    );
    assert_eq!(
        new(vec![Some(sine(0.1)), None], vec![Some(EffectParameters::Distortion(b(25.0))), None]),
        Some(DataPointError::Effect)
    );
    assert_eq!(
        new(vec![Some(sine(0.1)), None], vec![None, Some(EffectParameters::Distortion(b(2.0)))]),
        Some(DataPointError::Effect)
    );
    assert_eq!(
        new(
            vec![Some(sine(0.2)), Some(noise(0.1))],
            vec![Some(EffectParameters::Distortion(b(20.0))), Some(EffectParameters::Normalize)]
        ),
        None
    );
}

#[test]
fn slots_make_their_oscillators_and_effects() {
    let t = template();
    let sine_slot = t.oscillators()[0];
    let noise_slot = t.oscillators()[1];
    let made = sine_slot.oscillator(b(0.3), 7, b(0.15));
    assert!(matches!(made.oscillator_type, OscillatorType::Sine));
    assert_eq!(made.amplitude(), b(0.15));
    assert!(sine_slot.check(&made));
    assert_eq!(sine_slot.oscillator(0, 0, b(100.0)).amplitude(), b(0.2));
    assert_eq!(sine_slot.oscillator(0, 0, b(0.01)).amplitude(), b(0.1));
    assert_eq!(sine_slot.oscillator(0, 0, b(f32::NAN)).amplitude(), b(0.1));
    assert_eq!(sine_slot.oscillator(0, 0, b(0.20000002)).amplitude(), b(0.2));
    let made = noise_slot.oscillator(b(0.3), 7, b(0.12));
    assert!(matches!(made.oscillator_type, OscillatorType::Noise(7)));
    assert!(noise_slot.check(&made));
    assert!(!sine_slot.check(&made));
    assert!(!sine_slot.check(&sine(0.21)));
    let distortion_slot = t.effects()[0];
    let normalize_slot = t.effects()[1];
    assert_eq!(distortion_slot.effect(b(3.0)), EffectParameters::Distortion(b(3.0)));
    assert_eq!(distortion_slot.effect(b(30.0)), EffectParameters::Distortion(b(20.0)));
    assert_eq!(distortion_slot.effect(b(0.0)), EffectParameters::Distortion(b(0.2)));
    assert_eq!(normalize_slot.effect(b(3.0)), EffectParameters::Normalize);
    assert!(distortion_slot.check(&EffectParameters::Distortion(b(0.2))));
    assert!(!distortion_slot.check(&EffectParameters::Normalize));
    assert!(normalize_slot.check(&EffectParameters::Normalize));
}

#[test]
fn effects_run_in_their_order() {
    let mut params = parameters();
    params.effects = vec![
        EffectParameters::Normalize,
        EffectParameters::Distortion(b(2.0)),
        EffectParameters::Distortion(b(3.0)),
        EffectParameters::Normalize,
    ];
    let total = params.total_amplitude().unwrap();
    let mut buffer = vec![b(0.1), b(-0.4), b(0.2)];
    let step = DataPoint::apply_effects(&params, 0, &mut buffer).unwrap();
    assert_eq!(
        step,
        Some((2, audio_samples::parameters::effects::Distortion {
            power: b(2.0),
            signal_amplitude: total
        }))
    );
    assert_eq!(buffer, vec![b(0.1 / 0.4), b(-1.0), b(0.2 / 0.4)]);
    let step = DataPoint::apply_effects(&params, 2, &mut buffer).unwrap();
    assert_eq!(step.map(|s| (s.0, s.1.power)), Some((3, b(3.0))));
    assert_eq!(buffer, vec![b(0.1 / 0.4), b(-1.0), b(0.2 / 0.4)]);
    buffer[1] = b(-0.5);
    let step = DataPoint::apply_effects(&params, 3, &mut buffer).unwrap();
    assert_eq!(step, None);
    assert_eq!(buffer, vec![b(0.25 / 0.5), b(-1.0), b(0.5 / 0.5)]);
    assert_eq!(DataPoint::apply_effects(&params, 4, &mut buffer).unwrap(), None);
    assert_eq!(DataPoint::apply_effects(&params, 9, &mut buffer).unwrap(), None);
    let mut empty: Vec<u32> = vec![];
    assert_eq!(
        DataPoint::apply_effects(&params, 0, &mut empty),
        Err(audio_samples::parameters::effects::EffectError::EmptyBuffer)
    );
    assert_eq!(DataPoint::apply_effects(&params, 1, &mut empty).unwrap().map(|s| s.0), Some(2));
}
