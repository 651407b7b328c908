use wasm_games::music::{Arrangement, Tone};
use wasm_games::wav;

fn sorted<T: Clone + Ord>(v: &[T]) -> Vec<T> {
    let mut s = v.to_vec();
    s.sort();
    s
}

fn tone_rank(t: &Tone) -> u8 {
    match t {
        Tone::Sine => 0,
        Tone::Saw => 1,
        Tone::Square => 2,
    }
}

#[test]
fn wav_header_bytes() {
    let h = wav::create_wav_header(8, 44100);
    assert_eq!(h.len(), 44);
    assert_eq!(&h[0..4], b"RIFF");
    assert_eq!(&h[4..8], &44u32.to_le_bytes());
    assert_eq!(&h[8..16], b"WAVEfmt ");
    assert_eq!(&h[16..20], &16u32.to_le_bytes());
    assert_eq!(&h[20..22], &1u16.to_le_bytes());
    assert_eq!(&h[22..24], &1u16.to_le_bytes());
    assert_eq!(&h[24..28], &44100u32.to_le_bytes());
    assert_eq!(&h[28..32], &88200u32.to_le_bytes());
    assert_eq!(&h[32..34], &2u16.to_le_bytes());
    assert_eq!(&h[34..36], &16u16.to_le_bytes());
    assert_eq!(&h[36..40], b"data");
    assert_eq!(&h[40..44], &8u32.to_le_bytes());
}

#[test]
fn encode_wav_appends_little_endian_samples() {
    let samples: Vec<i16> = vec![1, -1, 0x1234, i16::MIN];
    let w = wav::encode_wav(&samples, 22050);
    assert_eq!(w.len(), 44 + 8);
    assert_eq!(&w[0..44], &wav::create_wav_header(8, 22050)[..]);
    assert_eq!(&w[44..], &[0x01, 0x00, 0xff, 0xff, 0x34, 0x12, 0x00, 0x80]);
}

#[test]
fn encode_wav_empty() {
    let w = wav::encode_wav(&Vec::new(), 44100);
    assert_eq!(w, wav::create_wav_header(0, 44100));
}

#[test]
fn default_arrangement_values() {
    let a = Arrangement::default_arrangement();
    assert_eq!(a.drum_var, [0, 1, 2, 3, 4, 1, 0, 3]);
    assert_eq!(a.lead_var, [0, 1, 2, 0, 1, 2, 0, 1]);
    assert_eq!(
        a.lead_tone,
        [Tone::Sine, Tone::Saw, Tone::Square, Tone::Sine, Tone::Saw, Tone::Square, Tone::Saw, Tone::Sine]
    );
    assert_eq!(a.cp_active, [false, true, false, true, true, false, false, true]);
    let b = Arrangement::for_seed(None);
    assert_eq!(b.drum_var, a.drum_var);
    assert_eq!(b.lead_tone, a.lead_tone);
}

#[test]
fn from_seed_shuffles_each_field() {
    let d = Arrangement::default_arrangement();
    for seed in [0u32, 1, 42, 12345, 0x7FFF_FFFF, u32::MAX] {
        let a = Arrangement::from_seed(seed);
        assert_eq!(sorted(&a.drum_var), sorted(&d.drum_var));
        assert_eq!(sorted(&a.lead_var), sorted(&d.lead_var));
        assert_eq!(sorted(&a.cp_active), sorted(&d.cp_active));
        let mut t1: Vec<u8> = a.lead_tone.iter().map(tone_rank).collect();
        let mut t2: Vec<u8> = d.lead_tone.iter().map(tone_rank).collect();
        t1.sort();
        t2.sort();
        assert_eq!(t1, t2);
        let again = Arrangement::from_seed(seed);
        assert_eq!(again.drum_var, a.drum_var);
        assert_eq!(again.lead_tone, a.lead_tone);
        let via = Arrangement::for_seed(Some(seed));
        assert_eq!(via.cp_active, a.cp_active);
    }
}

#[test]
fn from_seed_matches_direct_shuffle() {
    // The same shuffle written directly: four draws per step, one per field.
    let seed: u32 = 42;
    let mut rng = seed;
    let mut next = || {
        rng = rng.wrapping_mul(1103515245).wrapping_add(12345);
        (rng >> 16) & 0x7FFF
    };
    let mut drums: [u8; 8] = [0, 1, 2, 3, 4, 1, 0, 3];
    let mut leads: [u8; 8] = [0, 1, 2, 0, 1, 2, 0, 1];
    let mut tones = [Tone::Sine, Tone::Saw, Tone::Square, Tone::Sine, Tone::Saw, Tone::Square, Tone::Saw, Tone::Sine];
    let mut cp = [false, true, false, true, true, false, false, true];
    for i in (1..8).rev() {
        let j = (next() % (i as u32 + 1)) as usize;
        drums.swap(i, j);
        let j = (next() % (i as u32 + 1)) as usize;
        leads.swap(i, j);
        let j = (next() % (i as u32 + 1)) as usize;
        tones.swap(i, j);
        let j = (next() % (i as u32 + 1)) as usize;
        cp.swap(i, j);
    }
    let a = Arrangement::from_seed(seed);
    assert_eq!(a.drum_var, drums);
    assert_eq!(a.lead_var, leads);
    assert_eq!(a.lead_tone, tones);
    assert_eq!(a.cp_active, cp);
}

#[test]
fn editor_steps() {
    let mut a = Arrangement::default_arrangement();
    a.cycle_drum(0);
    assert_eq!(a.drum_var[0], 1);
    a.cycle_drum(4);
    assert_eq!(a.drum_var[4], 2);
    a.cycle_drum(1);
    a.cycle_drum(1);
    assert_eq!(a.drum_var[1], 0);
    a.cycle_lead(2);
    assert_eq!(a.lead_var[2], 1);
    a.cycle_lead(2);
    assert_eq!(a.lead_var[2], 0);
    a.toggle_counter(0);
    assert!(a.cp_active[0]);
    a.toggle_counter(0);
    assert!(!a.cp_active[0]);
    assert_eq!(a.lead_tone, Arrangement::default_arrangement().lead_tone);
}
