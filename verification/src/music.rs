//! Arrangements of the procedural background music: which drum pattern,
//! lead phrase, lead tone and counter-melody each of the eight four-bar
//! blocks of a track uses. A seed shuffles the default arrangement with a
//! linear congruential generator.

use vstd::prelude::*;
use crate::permutation::{lemma_swapped_multiset, swapped};

verus! {

/// The oscillator of the lead voice.
#[derive(Clone, Copy, Debug, PartialEq, Eq, Structural)]
pub enum Tone {
    Sine,
    Saw,
    Square,
}

/// The choices for the eight blocks of a track.
#[derive(Clone, Debug)]
pub struct Arrangement {
    pub drum_var: [u8; 8],
    pub lead_var: [u8; 8],
    pub lead_tone: [Tone; 8],
    pub cp_active: [bool; 8],
}

/// The drum patterns of the default arrangement.
pub open spec fn default_drums() -> Seq<u8> {
    seq![0u8, 1, 2, 3, 4, 1, 0, 3]
}

/// The lead phrases of the default arrangement.
pub open spec fn default_leads() -> Seq<u8> {
    seq![0u8, 1, 2, 0, 1, 2, 0, 1]
}

/// The lead tones of the default arrangement.
pub open spec fn default_tones() -> Seq<Tone> {
    seq![Tone::Sine, Tone::Saw, Tone::Square, Tone::Sine, Tone::Saw, Tone::Square, Tone::Saw, Tone::Sine]
}

/// Where the counter-melody plays in the default arrangement.
pub open spec fn default_counter() -> Seq<bool> {
    seq![false, true, false, true, true, false, false, true]
}

/// One step of the generator: `r * 1103515245 + 12345` modulo 2^32.
pub open spec fn lcg_step(r: u32) -> u32 {
    ((r as int * 1103515245 + 12345) % 0x1_0000_0000) as u32
}

/// The generator state after `n` steps from `seed`.
pub open spec fn lcg_state(seed: u32, n: nat) -> u32
    decreases n,
{
    if n == 0 {
        seed
    } else {
        lcg_step(lcg_state(seed, (n - 1) as nat))
    }
}

/// The value a state yields: bits 16 to 30.
pub open spec fn lcg_output(r: u32) -> u32 {
    (r / 0x1_0000) % 0x8000
}

/// The partner index of the swap at step `step` of the shuffle of field
/// `field` (drums 0, leads 1, tones 2, counter-melody 3): each step draws
/// four values, one per field, and the swap at position `7 - step` picks a
/// partner in `0..=7 - step`.
pub open spec fn shuffle_pick(seed: u32, field: nat, step: nat) -> int {
    (lcg_output(lcg_state(seed, 4 * step + field + 1)) % (8 - step) as u32) as int
}

/// The field `field` of the arrangement after the first `steps` steps of
/// the Fisher-Yates shuffle of `s`.
pub open spec fn shuffled<A>(s: Seq<A>, seed: u32, field: nat, steps: nat) -> Seq<A>
    decreases steps,
{
    if steps == 0 {
        s
    } else {
        swapped(
            shuffled(s, seed, field, (steps - 1) as nat),
            7 - (steps - 1),
            shuffle_pick(seed, field, (steps - 1) as nat),
        )
    }
}

/// One step of the generator, in place.
pub(crate) fn lcg_advance(rng: &mut u32)
    ensures
        *final(rng) == lcg_step(*old(rng)),
{
    let a: u32 = rng.wrapping_mul(1103515245);
    assert(a == (*rng as int * 1103515245) % 0x1_0000_0000);
    let b: u32 = a.wrapping_add(12345);
    proof {
        let x: int = *rng as int * 1103515245;
        vstd::arithmetic::div_mod::lemma_add_mod_noop(x, 12345, 0x1_0000_0000);
        assert(b == (x + 12345) % 0x1_0000_0000);
    }
    *rng = b;
}

/// One step of the generator and its output.
fn next_draw(rng: &mut u32) -> (out: u32)
    ensures
        *final(rng) == lcg_step(*old(rng)),
        out == lcg_output(*final(rng)),
{
    lcg_advance(rng);
    let b: u32 = *rng;
    let out: u32 = (b >> 16) & 0x7FFF;
    assert(out == (b / 0x1_0000) % 0x8000) by (bit_vector)
        requires
            out == (b >> 16) & 0x7FFF,
    ;
    out
}

/// Every prefix of the shuffle keeps the elements of `s`, each as often.
proof fn lemma_shuffled_multiset<A>(s: Seq<A>, seed: u32, field: nat, steps: nat)
    requires
        s.len() == 8,
        steps <= 7,
    ensures
        shuffled(s, seed, field, steps).to_multiset() =~= s.to_multiset(),
        shuffled(s, seed, field, steps).len() == 8,
    decreases steps,
{
    if steps > 0 {
        let prev = shuffled(s, seed, field, (steps - 1) as nat);
        lemma_shuffled_multiset(s, seed, field, (steps - 1) as nat);
        lemma_swapped_multiset(prev, 7 - (steps - 1), shuffle_pick(seed, field, (steps - 1) as nat));
    }
}

/// The arrangement a seed gives: each field is a permutation of its default,
/// and the seed alone decides which.
pub proof fn lemma_from_seed_permutes(seed: u32)
    ensures
        shuffled(default_drums(), seed, 0, 7).to_multiset() =~= default_drums().to_multiset(),
        shuffled(default_leads(), seed, 1, 7).to_multiset() =~= default_leads().to_multiset(),
        shuffled(default_tones(), seed, 2, 7).to_multiset() =~= default_tones().to_multiset(),
        shuffled(default_counter(), seed, 3, 7).to_multiset() =~= default_counter().to_multiset(),
{
    lemma_shuffled_multiset(default_drums(), seed, 0, 7);
    lemma_shuffled_multiset(default_leads(), seed, 1, 7);
    lemma_shuffled_multiset(default_tones(), seed, 2, 7);
    lemma_shuffled_multiset(default_counter(), seed, 3, 7);
}

impl Arrangement {
    /// The arrangement every track starts from.
    pub fn default_arrangement() -> (r: Arrangement)
        ensures
            r.drum_var@ == default_drums(),
            r.lead_var@ == default_leads(),
            r.lead_tone@ == default_tones(),
            r.cp_active@ == default_counter(),
    {
        let r = Arrangement {
            drum_var: [0, 1, 2, 3, 4, 1, 0, 3],
            lead_var: [0, 1, 2, 0, 1, 2, 0, 1],
            lead_tone: [Tone::Sine, Tone::Saw, Tone::Square, Tone::Sine, Tone::Saw, Tone::Square, Tone::Saw, Tone::Sine],
            cp_active: [false, true, false, true, true, false, false, true],
        };
        assert(r.drum_var@ =~= default_drums());
        assert(r.lead_var@ =~= default_leads());
        assert(r.lead_tone@ =~= default_tones());
        assert(r.cp_active@ =~= default_counter());
        r
    }

    /// Shuffles each field of the default arrangement with a Fisher-Yates
    /// shuffle driven by a generator seeded with `seed`; the four fields
    /// take turns drawing from the one generator.
    pub fn from_seed(seed: u32) -> (r: Arrangement)
        ensures
            r.drum_var@ == shuffled(default_drums(), seed, 0, 7),
            r.lead_var@ == shuffled(default_leads(), seed, 1, 7),
            r.lead_tone@ == shuffled(default_tones(), seed, 2, 7),
            r.cp_active@ == shuffled(default_counter(), seed, 3, 7),
    {
        let mut a = Arrangement::default_arrangement();
        let mut rng: u32 = seed;
        let mut i: usize = 7;
        while i >= 1
            invariant
                0 <= i <= 7,
                rng == lcg_state(seed, (4 * (7 - i)) as nat),
                a.drum_var@ == shuffled(default_drums(), seed, 0, (7 - i) as nat),
                a.lead_var@ == shuffled(default_leads(), seed, 1, (7 - i) as nat),
                a.lead_tone@ == shuffled(default_tones(), seed, 2, (7 - i) as nat),
                a.cp_active@ == shuffled(default_counter(), seed, 3, (7 - i) as nat),
            decreases i,
        {
            let ghost step: nat = (7 - i) as nat;
            proof {
                lemma_shuffled_multiset(default_drums(), seed, 0, step);
                lemma_shuffled_multiset(default_leads(), seed, 1, step);
                lemma_shuffled_multiset(default_tones(), seed, 2, step);
                lemma_shuffled_multiset(default_counter(), seed, 3, step);
            }
            let m: u32 = i as u32 + 1;

            let j: usize = (next_draw(&mut rng) % m) as usize;
            assert(rng == lcg_state(seed, 4 * step + 0 + 1));
            let t = a.drum_var[i];
            a.drum_var[i] = a.drum_var[j];
            a.drum_var[j] = t;

            let j: usize = (next_draw(&mut rng) % m) as usize;
            assert(rng == lcg_state(seed, 4 * step + 1 + 1));
            let t = a.lead_var[i];
            a.lead_var[i] = a.lead_var[j];
            a.lead_var[j] = t;

            let j: usize = (next_draw(&mut rng) % m) as usize;
            assert(rng == lcg_state(seed, 4 * step + 2 + 1));
            let t = a.lead_tone[i];
            a.lead_tone[i] = a.lead_tone[j];
            a.lead_tone[j] = t;

            let j: usize = (next_draw(&mut rng) % m) as usize;
            assert(rng == lcg_state(seed, 4 * step + 3 + 1));
            let t = a.cp_active[i];
            a.cp_active[i] = a.cp_active[j];
            a.cp_active[j] = t;

            proof {
                assert(a.drum_var@ =~= shuffled(default_drums(), seed, 0, step + 1));
                assert(a.lead_var@ =~= shuffled(default_leads(), seed, 1, step + 1));
                assert(a.lead_tone@ =~= shuffled(default_tones(), seed, 2, step + 1));
                assert(a.cp_active@ =~= shuffled(default_counter(), seed, 3, step + 1));
            }
            i -= 1;
        }
        a
    }

    /// The editor's step for the drum pattern of block `i`: patterns 0, 1
    /// and 2 in turn.
    pub fn cycle_drum(&mut self, i: usize)
        requires
            i < 8,
            old(self).drum_var[i as int] < 255,
        ensures
            final(self).drum_var@ == old(self).drum_var@.update(i as int, ((old(self).drum_var[i as int] + 1) % 3) as u8),
            final(self).lead_var == old(self).lead_var,
            final(self).lead_tone == old(self).lead_tone,
            final(self).cp_active == old(self).cp_active,
    {
        let v = self.drum_var[i];
        self.drum_var[i] = (v + 1) % 3;
        assert(self.drum_var@ =~= old(self).drum_var@.update(i as int, ((old(self).drum_var[i as int] + 1) % 3) as u8));
    }

    /// The editor's step for the lead phrase of block `i`: phrases 0 and 1
    /// in turn.
    pub fn cycle_lead(&mut self, i: usize)
        requires
            i < 8,
            old(self).lead_var[i as int] < 255,
        ensures
            final(self).lead_var@ == old(self).lead_var@.update(i as int, ((old(self).lead_var[i as int] + 1) % 2) as u8),
            final(self).drum_var == old(self).drum_var,
            final(self).lead_tone == old(self).lead_tone,
            final(self).cp_active == old(self).cp_active,
    {
        let v = self.lead_var[i];
        self.lead_var[i] = (v + 1) % 2;
        assert(self.lead_var@ =~= old(self).lead_var@.update(i as int, ((old(self).lead_var[i as int] + 1) % 2) as u8));
    }

    /// The editor's step for the counter-melody of block `i`: on and off in
    /// turn.
    pub fn toggle_counter(&mut self, i: usize)
        requires
            i < 8,
        ensures
            final(self).cp_active@ == old(self).cp_active@.update(i as int, !old(self).cp_active[i as int]),
            final(self).drum_var == old(self).drum_var,
            final(self).lead_var == old(self).lead_var,
            final(self).lead_tone == old(self).lead_tone,
    {
        let v = self.cp_active[i];
        self.cp_active[i] = !v;
        assert(self.cp_active@ =~= old(self).cp_active@.update(i as int, !old(self).cp_active[i as int]));
    }

    /// The arrangement of a track: shuffled by the seed where there is one,
    /// the default arrangement where there is none.
    pub fn for_seed(seed: Option<u32>) -> (r: Arrangement)
        ensures
            match seed {
                Some(s) => r.drum_var@ == shuffled(default_drums(), s, 0, 7) && r.lead_var@ == shuffled(
                    default_leads(),
                    s,
                    1,
                    7,
                ) && r.lead_tone@ == shuffled(default_tones(), s, 2, 7) && r.cp_active@ == shuffled(
                    default_counter(),
                    s,
                    3,
                    7,
                ),
                None => r.drum_var@ == default_drums() && r.lead_var@ == default_leads() && r.lead_tone@
                    == default_tones() && r.cp_active@ == default_counter(),
            },
    {
        match seed {
            Some(s) => Arrangement::from_seed(s),
            None => Arrangement::default_arrangement(),
        }
    }
}

} // verus!
