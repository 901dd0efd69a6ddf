use vstd::prelude::*;
use crate::interpolation::{lemma_total_prefix, total, BAR};
use crate::interpolation_data::dry_wet;
use crate::util::{decided, decider};

verus! {

/// A beat counts as starting during this many samples after its first one.
pub const NR_SAMPLES_FOR_START_OF_BEAT: u64 = 100;

/// Capacity of the ring of pending note-offs.
pub const NOTE_OFF_SLOTS: usize = 4;

/// The lowest pitch sent; a beat of rank `r` sounds `r` semitones above it.
pub const BASE_NOTE: u8 = 60;

/// The entry at `i` of `s`, 0 past its end.
pub open spec fn get_or_zero<T: Copy>(s: Seq<T>, i: int, zero: T) -> T {
    if 0 <= i < s.len() { s[i] } else { zero }
}

/// Duration of beat `i` with A crossfaded into B by `mix` millionths.
pub open spec fn mixed(a: Seq<u64>, b: Seq<u64>, mix: u64, i: int) -> int {
    dry_wet(get_or_zero(a, i, 0u64), get_or_zero(b, i, 0u64), mix)
}

/// The crossfaded durations of beats `0..n`, summed.
pub open spec fn mixed_prefix(a: Seq<u64>, b: Seq<u64>, mix: u64, n: int) -> int
    decreases n,
{
    if n <= 0 {
        0
    } else {
        mixed_prefix(a, b, mix, n - 1) + mixed(a, b, mix, n - 1)
    }
}

/// Beat `i` is the one playing at `position`: the first beat whose end
/// reaches it (or the one past the last beat when none does).
pub open spec fn located(a: Seq<u64>, b: Seq<u64>, mix: u64, position: u64, i: int) -> bool {
    let n = if a.len() >= b.len() { a.len() as int } else { b.len() as int };
    &&& 0 <= i <= n
    &&& (i == n || mixed_prefix(a, b, mix, i + 1) >= position)
    &&& forall|j: int| 0 <= j < i ==> #[trigger] mixed_prefix(a, b, mix, j + 1) < position
}

proof fn lemma_dry_wet_bound(x: u64, y: u64, mix: u64)
    requires
        mix <= BAR,
    ensures
        0 <= dry_wet(x, y, mix) <= x + y,
{
    assert(x * (BAR - mix) + y * mix <= (x + y) * BAR) by (nonlinear_arith)
        requires mix <= BAR;
    assert(x * (BAR - mix) + y * mix >= 0) by (nonlinear_arith)
        requires mix <= BAR;
    assert((x * (BAR - mix) + y * mix) / (BAR as int) <= ((x + y) * BAR) / (BAR as int)) by (nonlinear_arith)
        requires x * (BAR - mix) + y * mix <= (x + y) * BAR;
    assert(((x + y) * BAR) / (BAR as int) == x + y) by (nonlinear_arith);
}

proof fn lemma_total_prefix_step(d: Seq<u64>, i: int)
    requires
        0 <= i < d.len(),
    ensures
        total(d.subrange(0, i + 1)) == total(d.subrange(0, i)) + d[i],
{
    assert(d.subrange(0, i + 1).drop_last() =~= d.subrange(0, i));
}

/// The crossfaded prefix never exceeds the two sides' prefixes together.
proof fn lemma_mixed_prefix_bound(a: Seq<u64>, b: Seq<u64>, mix: u64, n: int)
    requires
        mix <= BAR,
        0 <= n,
    ensures
        0 <= mixed_prefix(a, b, mix, n),
        mixed_prefix(a, b, mix, n) <= total(a.subrange(0, if n <= a.len() { n } else { a.len() as int }))
            + total(b.subrange(0, if n <= b.len() { n } else { b.len() as int })),
    decreases n,
{
    if n > 0 {
        lemma_mixed_prefix_bound(a, b, mix, n - 1);
        lemma_dry_wet_bound(get_or_zero(a, n - 1, 0u64), get_or_zero(b, n - 1, 0u64), mix);
        if n <= a.len() {
            lemma_total_prefix_step(a, n - 1);
        }
        if n <= b.len() {
            lemma_total_prefix_step(b, n - 1);
        }
    }
}

/// Locates the beat playing at `position` (millionths of the bar) with A
/// crossfaded into B by `mix`: its index and its start.
pub fn current_beat(durations_a: &Vec<u64>, durations_b: &Vec<u64>, mix: u64, position: u64) -> (r: (usize, u64))
    requires
        mix <= BAR,
        total(durations_a@) <= BAR,
        total(durations_b@) <= BAR,
    ensures
        located(durations_a@, durations_b@, mix, position, r.0 as int),
        r.1 == mixed_prefix(durations_a@, durations_b@, mix, r.0 as int),
{
    let n = if durations_a.len() >= durations_b.len() { durations_a.len() } else { durations_b.len() };
    let mut idx: usize = 0;
    let mut sum: u64 = 0;
    loop
        invariant
            idx <= n,
            n == if durations_a.len() >= durations_b.len() { durations_a.len() } else { durations_b.len() },
            mix <= BAR,
            total(durations_a@) <= BAR,
            total(durations_b@) <= BAR,
            sum == mixed_prefix(durations_a@, durations_b@, mix, idx as int),
            forall|j: int| 0 <= j < idx ==> #[trigger] mixed_prefix(durations_a@, durations_b@, mix, j + 1) < position,
        decreases n - idx,
    {
        let da = if idx < durations_a.len() { durations_a[idx] } else { 0 };
        let db = if idx < durations_b.len() { durations_b[idx] } else { 0 };
        proof {
            lemma_mixed_prefix_bound(durations_a@, durations_b@, mix, idx + 1);
            lemma_total_prefix(durations_a@, if idx + 1 <= durations_a.len() { idx + 1 } else { durations_a.len() as int });
            lemma_total_prefix(durations_b@, if idx + 1 <= durations_b.len() { idx + 1 } else { durations_b.len() as int });
            if idx < durations_a.len() {
                lemma_total_prefix_step(durations_a@, idx as int);
                lemma_total_prefix(durations_a@, idx as int);
                lemma_total_prefix(durations_a@, idx + 1);
            }
            if idx < durations_b.len() {
                lemma_total_prefix_step(durations_b@, idx as int);
                lemma_total_prefix(durations_b@, idx as int);
                lemma_total_prefix(durations_b@, idx + 1);
            }
            assert(da * (BAR - mix) <= BAR * BAR) by (nonlinear_arith)
                requires da <= BAR, mix <= BAR;
            assert(db * mix <= BAR * BAR) by (nonlinear_arith)
                requires db <= BAR, mix <= BAR;
        }
        let dur = (da * (BAR - mix) + db * mix) / BAR;
        if idx >= n || sum + dur >= position {
            return (idx, sum);
        }
        sum = sum + dur;
        idx += 1;
    }
}

/// The rank of beat `idx` with A crossfaded into B by `mix` millionths:
/// rounded to the nearest integer when `nearest`, else rounded up.
pub open spec fn crossfaded_rank(va: usize, vb: usize, mix: u64, nearest: bool) -> int {
    let x = va * (BAR - mix) + vb * mix;
    if nearest {
        (x + BAR / 2) / (BAR as int)
    } else {
        (x + BAR - 1) / (BAR as int)
    }
}

/// Rank `va` crossfaded into rank `vb` by `mix` millionths.
pub fn crossfade_ranks(va: usize, vb: usize, mix: u64, nearest: bool) -> (r: usize)
    requires
        mix <= BAR,
    ensures
        r == crossfaded_rank(va, vb, mix, nearest),
{
    let m = mix as u128;
    let bar = BAR as u128;
    proof {
        assert(va * (BAR - mix) <= va * BAR) by (nonlinear_arith)
            requires mix <= BAR;
        assert(vb * mix <= vb * BAR) by (nonlinear_arith)
            requires mix <= BAR;
        assert(va * BAR + vb * BAR <= 0x1_0000_0000_0000_0000 * 2 * BAR) by (nonlinear_arith)
            requires va < 0x1_0000_0000_0000_0000, vb < 0x1_0000_0000_0000_0000;
    }
    let x: u128 = va as u128 * (bar - m) + vb as u128 * m;
    let top = if va >= vb { va } else { vb };
    proof {
        assert(x <= top * BAR) by (nonlinear_arith)
            requires x == va * (BAR - mix) + vb * mix, mix <= BAR, top >= va, top >= vb;
    }
    let q: u128 = if nearest { (x + bar / 2) / bar } else { (x + bar - 1) / bar };
    proof {
        assert(q <= top) by (nonlinear_arith)
            requires x <= top * BAR, q == (if nearest { (x + BAR / 2) / (BAR as int) } else { (x + BAR - 1) / (BAR as int) });
    }
    q as usize
}

/// The rank of beat `idx`, A's rank crossfaded into B's (0 past either end).
pub fn crossfaded_indispensability(value_a: &Vec<usize>, value_b: &Vec<usize>, idx: usize, mix: u64, nearest: bool) -> (r: usize)
    requires
        mix <= BAR,
    ensures
        r == crossfaded_rank(get_or_zero(value_a@, idx as int, 0usize), get_or_zero(value_b@, idx as int, 0usize), mix, nearest),
{
    let va = if idx < value_a.len() { value_a[idx] } else { 0 };
    let vb = if idx < value_b.len() { value_b[idx] } else { 0 };
    crossfade_ranks(va, vb, mix, nearest)
}

/// `fraction` millionths of `max`, rounded to the nearest integer.
pub open spec fn round_share(fraction: u64, max: usize) -> int {
    (fraction * max + BAR / 2) / (BAR as int)
}

/// A rank is let through: it lies between the two thresholds' shares of the
/// largest rank, both ends included; inverted thresholds are swapped.
pub open spec fn within_thresholds(rank: usize, lower: u64, upper: u64, max: usize) -> bool {
    let lo = if lower <= upper { lower } else { upper };
    let hi = if lower <= upper { upper } else { lower };
    round_share(lo, max) <= rank <= round_share(hi, max)
}

fn round_share_of(fraction: u64, max: usize) -> (r: u128)
    requires
        fraction <= BAR,
    ensures
        r == round_share(fraction, max),
        r <= max,
{
    proof {
        assert(fraction * max <= BAR * max) by (nonlinear_arith)
            requires fraction <= BAR;
    }
    let x: u128 = fraction as u128 * max as u128;
    let r = (x + (BAR / 2) as u128) / BAR as u128;
    proof {
        assert(r <= max) by (nonlinear_arith)
            requires x <= BAR * max, r == (x + BAR / 2) / (BAR as int);
    }
    r
}

/// Whether `rank` lies within the thresholds (in millionths).
pub fn is_indisp_val_within_thresholds(rank: usize, lower: u64, upper: u64, max: usize) -> (r: bool)
    requires
        lower <= BAR,
        upper <= BAR,
    ensures
        r == within_thresholds(rank, lower, upper, max),
{
    let lo = if lower <= upper { lower } else { upper };
    let hi = if lower <= upper { upper } else { lower };
    let lo_rank = round_share_of(lo, max);
    let hi_rank = round_share_of(hi, max);
    lo_rank <= rank as u128 && rank as u128 <= hi_rank
}

/// The threshold window lets through a rank equal to the upper threshold's share of the
/// largest rank, and refuses the next one.
pub proof fn lemma_upper_threshold_inclusive(lower: u64, upper: u64, max: usize)
    requires
        lower <= upper <= BAR,
    ensures
        within_thresholds(round_share(upper, max) as usize, lower, upper, max),
        round_share(upper, max) + 1 <= usize::MAX ==> !within_thresholds((round_share(upper, max) + 1) as usize, lower, upper, max),
{
    assert(lower * max <= upper * max) by (nonlinear_arith)
        requires lower <= upper;
    assert(round_share(lower, max) <= round_share(upper, max)) by (nonlinear_arith)
        requires lower * max <= upper * max;
    assert(upper * max <= BAR * max) by (nonlinear_arith)
        requires upper <= BAR;
    assert(round_share(upper, max) <= max) by (nonlinear_arith)
        requires upper * max <= BAR * max;
    assert(round_share(upper, max) >= 0) by (nonlinear_arith);
}

/// The decision at one sample: whether to send a note-on for beat `idx`, and
/// the beat last sent afterwards. A note goes out once per beat, during the
/// first samples of the beat and only within the thresholds; past those samples the
/// memory of the last beat is cleared.
pub open spec fn beat_step(last: Option<usize>, idx: usize, nth_sample_of_beat: u64, passes: bool) -> (bool, Option<usize>) {
    if nth_sample_of_beat < NR_SAMPLES_FOR_START_OF_BEAT {
        if last != Some(idx) && passes {
            (true, Some(idx))
        } else {
            (false, last)
        }
    } else {
        (false, None)
    }
}

/// Replaying the same sample does not send the same beat twice.
pub proof fn lemma_no_retrigger(last: Option<usize>, idx: usize, nth_sample_of_beat: u64, passes: bool)
    ensures
        !beat_step(beat_step(last, idx, nth_sample_of_beat, passes).1, idx, nth_sample_of_beat, passes).0,
{
}

/// Within a beat's start window, once it has been sent, no later sample of
/// that window sends it again, whatever the thresholds say.
pub proof fn lemma_no_retrigger_in_window(last: Option<usize>, idx: usize, n1: u64, n2: u64, p1: bool, p2: bool)
    requires
        n2 < NR_SAMPLES_FOR_START_OF_BEAT,
        beat_step(last, idx, n1, p1).0,
    ensures
        !beat_step(beat_step(last, idx, n1, p1).1, idx, n2, p2).0,
{
}

/// A pending note-off: its pitch and the samples left before it is due;
/// a negative delay marks a free slot.
pub type NoteOff = (u8, i64);

/// A note event to send: its sample offset in the buffer and its pitch.
#[derive(Debug, Clone, Copy, PartialEq, Eq, Structural)]
pub struct TimedNote {
    pub timing: u32,
    pub note: u8,
}

/// A note-on the scheduler asks for: when, which pitch, and the rank of the
/// beat (from which the caller derives the velocity).
#[derive(Debug, Clone, Copy, PartialEq, Eq, Structural)]
pub struct BeatNote {
    pub timing: u32,
    pub note: u8,
    pub rank: usize,
}

/// The per-sample inputs of the scheduler in send mode, all positions and
/// parameters in millionths (of a bar, or of the full range).
#[derive(Debug, Clone, Copy)]
pub struct SampleInput {
    /// The sample's offset in the buffer.
    pub sample: u32,
    /// The position in the bar.
    pub position: u64,
    /// How far A is crossfaded into B.
    pub mix: u64,
    pub lower_threshold: u64,
    pub upper_threshold: u64,
    /// The length of a bar in samples.
    pub bar_samples: u64,
    /// Samples from a note-on to its note-off.
    pub note_off_delay: i64,
    pub playing: bool,
}

/// The state the scheduler keeps between samples and buffers.
#[derive(Debug)]
pub struct BeatScheduler {
    pub progress_in_samples: u64,
    pub was_playing: bool,
    pub last_reset_phase_value: bool,
    pub last_sent_beat_idx: Option<usize>,
    /// In pass-through mode, whether the last note-on was let through.
    pub last_note_passed: bool,
    pub note_off_buffer: Vec<NoteOff>,
}

/// The pitch of a beat of rank `rank`, capped at the top of the MIDI range.
pub open spec fn note_for_rank(rank: usize) -> u8 {
    if rank <= 67 { (BASE_NOTE + rank) as u8 } else { 127 }
}

impl BeatScheduler {
    pub open spec fn wf(&self) -> bool {
        self.note_off_buffer.len() == NOTE_OFF_SLOTS
    }

    /// Stopped, at the start, nothing sent and no note-off pending.
    pub fn new() -> (r: Self)
        ensures
            r.wf(),
            r.progress_in_samples == 0,
            !r.was_playing,
            !r.last_reset_phase_value,
            r.last_sent_beat_idx is None,
            r.last_note_passed,
            forall|k: int| 0 <= k < NOTE_OFF_SLOTS ==> (#[trigger] r.note_off_buffer[k]).1 < 0,
    {
        let mut buf: Vec<NoteOff> = Vec::new();
        let mut k: usize = 0;
        while k < NOTE_OFF_SLOTS
            invariant
                k <= NOTE_OFF_SLOTS,
                buf.len() == k,
                forall|q: int| 0 <= q < k ==> (#[trigger] buf[q]).1 < 0,
            decreases NOTE_OFF_SLOTS - k,
        {
            buf.push((0, -1));
            k += 1;
        }
        BeatScheduler {
            progress_in_samples: 0,
            was_playing: false,
            last_reset_phase_value: false,
            last_sent_beat_idx: None,
            last_note_passed: true,
            note_off_buffer: buf,
        }
    }

    /// Pass-through mode: a note-on passes as `verdict` says (the verdict
    /// of `process_event`) and is remembered; a note-off passes exactly when
    /// the last note-on did, so a vetoed note leaves no stray note-off.
    pub fn pass_through(&mut self, is_note_on: bool, verdict: bool) -> (passes: bool)
        ensures
            is_note_on ==> passes == verdict && final(self).last_note_passed == verdict,
            !is_note_on ==> passes == old(self).last_note_passed && final(self).last_note_passed == old(self).last_note_passed,
            final(self).progress_in_samples == old(self).progress_in_samples,
            final(self).was_playing == old(self).was_playing,
            final(self).last_reset_phase_value == old(self).last_reset_phase_value,
            final(self).last_sent_beat_idx == old(self).last_sent_beat_idx,
            final(self).note_off_buffer == old(self).note_off_buffer,
    {
        if is_note_on {
            self.last_note_passed = verdict;
            verdict
        } else {
            self.last_note_passed
        }
    }

    /// Follows the transport: stopping rewinds the progress, starting forgets
    /// the beat last sent.
    pub fn maybe_reset_progress(&mut self, is_playing: bool)
        ensures
            final(self).note_off_buffer == old(self).note_off_buffer,
            final(self).last_reset_phase_value == old(self).last_reset_phase_value,
            final(self).last_note_passed == old(self).last_note_passed,
            final(self).was_playing == is_playing,
            !is_playing && old(self).was_playing ==> final(self).progress_in_samples == 0
                && final(self).last_sent_beat_idx == old(self).last_sent_beat_idx,
            is_playing && !old(self).was_playing ==> final(self).last_sent_beat_idx is None
                && final(self).progress_in_samples == old(self).progress_in_samples,
            is_playing == old(self).was_playing ==> final(self).progress_in_samples == old(self).progress_in_samples
                && final(self).last_sent_beat_idx == old(self).last_sent_beat_idx,
    {
        if !is_playing && self.was_playing {
            self.progress_in_samples = 0;
            self.was_playing = false;
        } else if is_playing && !self.was_playing {
            self.was_playing = true;
            self.last_sent_beat_idx = None;
        }
    }

    /// Handles the phase-reset trigger: its rising edge rewinds the progress.
    /// Returns whether the trigger is to be acknowledged (it is held).
    pub fn reset_phase(&mut self, pressed: bool) -> (ack: bool)
        ensures
            ack == pressed,
            final(self).last_reset_phase_value == pressed,
            pressed && !old(self).last_reset_phase_value ==> final(self).progress_in_samples == 0,
            !(pressed && !old(self).last_reset_phase_value) ==> final(self).progress_in_samples == old(self).progress_in_samples,
            final(self).was_playing == old(self).was_playing,
            final(self).last_sent_beat_idx == old(self).last_sent_beat_idx,
            final(self).note_off_buffer == old(self).note_off_buffer,
            final(self).last_note_passed == old(self).last_note_passed,
    {
        if pressed && !self.last_reset_phase_value {
            self.progress_in_samples = 0;
        }
        self.last_reset_phase_value = pressed;
        pressed
    }

    /// Moves the progress on by `samples` (stopping at the largest count).
    pub fn advance(&mut self, samples: u64)
        ensures
            final(self).progress_in_samples == if old(self).progress_in_samples + samples <= u64::MAX {
                old(self).progress_in_samples + samples
            } else {
                u64::MAX as int
            },
            final(self).was_playing == old(self).was_playing,
            final(self).last_reset_phase_value == old(self).last_reset_phase_value,
            final(self).last_sent_beat_idx == old(self).last_sent_beat_idx,
            final(self).note_off_buffer == old(self).note_off_buffer,
            final(self).last_note_passed == old(self).last_note_passed,
    {
        if self.progress_in_samples <= u64::MAX - samples {
            self.progress_in_samples = self.progress_in_samples + samples;
        } else {
            self.progress_in_samples = u64::MAX;
        }
    }

    /// Queues a note-off in the first free slot; when none is free the
    /// note-off is dropped.
    pub fn push_note_off(&mut self, note: u8, delay: i64)
        requires
            old(self).wf(),
        ensures
            final(self).wf(),
            final(self).progress_in_samples == old(self).progress_in_samples,
            final(self).was_playing == old(self).was_playing,
            final(self).last_reset_phase_value == old(self).last_reset_phase_value,
            final(self).last_sent_beat_idx == old(self).last_sent_beat_idx,
            final(self).last_note_passed == old(self).last_note_passed,
            (forall|k: int| 0 <= k < NOTE_OFF_SLOTS ==> (#[trigger] old(self).note_off_buffer@[k]).1 >= 0)
                ==> final(self).note_off_buffer@ == old(self).note_off_buffer@,
            forall|f: int| 0 <= f < NOTE_OFF_SLOTS && old(self).note_off_buffer@[f].1 < 0
                && (forall|k: int| 0 <= k < f ==> (#[trigger] old(self).note_off_buffer@[k]).1 >= 0)
                ==> #[trigger] final(self).note_off_buffer@ == old(self).note_off_buffer@.update(f, (note, delay)),
    {
        let mut k: usize = 0;
        while k < self.note_off_buffer.len()
            invariant
                k <= self.note_off_buffer.len(),
                self.note_off_buffer.len() == NOTE_OFF_SLOTS,
                self.note_off_buffer@ == old(self).note_off_buffer@,
                self.progress_in_samples == old(self).progress_in_samples,
                self.was_playing == old(self).was_playing,
                self.last_reset_phase_value == old(self).last_reset_phase_value,
                self.last_sent_beat_idx == old(self).last_sent_beat_idx,
                self.last_note_passed == old(self).last_note_passed,
                self.was_playing == old(self).was_playing,
                self.last_reset_phase_value == old(self).last_reset_phase_value,
                forall|q: int| 0 <= q < k ==> (#[trigger] self.note_off_buffer@[q]).1 >= 0,
            decreases self.note_off_buffer.len() - k,
        {
            if self.note_off_buffer[k].1 < 0 {
                self.note_off_buffer.set(k, (note, delay));
                assert(self.note_off_buffer@ == old(self).note_off_buffer@.update(k as int, (note, delay)));
                assert(old(self).note_off_buffer@[k as int].1 < 0);
                return;
            }
            k += 1;
        }
    }

    /// Counts the pending note-offs down by one buffer; those due within it
    /// are returned with their offset, in slot order, and their slots freed.
    pub fn tick_note_offs(&mut self, buffer_len: u32) -> (due: Vec<TimedNote>)
        requires
            old(self).wf(),
        ensures
            final(self).wf(),
            final(self).progress_in_samples == old(self).progress_in_samples,
            final(self).last_sent_beat_idx == old(self).last_sent_beat_idx,
            final(self).last_note_passed == old(self).last_note_passed,
            final(self).was_playing == old(self).was_playing,
            final(self).last_reset_phase_value == old(self).last_reset_phase_value,
            forall|k: int| 0 <= k < NOTE_OFF_SLOTS ==> #[trigger] final(self).note_off_buffer@[k]
                == ticked(old(self).note_off_buffer@[k], buffer_len),
            due@ == due_notes(old(self).note_off_buffer@, buffer_len),
    {
        let mut due: Vec<TimedNote> = Vec::new();
        let ghost start = self.note_off_buffer@;
        let mut k: usize = 0;
        proof {
            assert(start.subrange(0, 0) =~= Seq::<NoteOff>::empty());
        }
        while k < self.note_off_buffer.len()
            invariant
                k <= self.note_off_buffer.len(),
                self.note_off_buffer.len() == NOTE_OFF_SLOTS,
                start.len() == NOTE_OFF_SLOTS,
                self.progress_in_samples == old(self).progress_in_samples,
                self.last_sent_beat_idx == old(self).last_sent_beat_idx,
                self.last_note_passed == old(self).last_note_passed,
                self.was_playing == old(self).was_playing,
                self.last_reset_phase_value == old(self).last_reset_phase_value,
                start == old(self).note_off_buffer@,
                forall|q: int| k <= q < NOTE_OFF_SLOTS ==> #[trigger] self.note_off_buffer@[q] == start[q],
                forall|q: int| 0 <= q < k ==> #[trigger] self.note_off_buffer@[q] == ticked(start[q], buffer_len),
                due@ == due_notes(start.subrange(0, k as int), buffer_len),
            decreases self.note_off_buffer.len() - k,
        {
            let (n, d) = self.note_off_buffer[k];
            proof {
                assert(start.subrange(0, k + 1).drop_last() =~= start.subrange(0, k as int));
                assert(start.subrange(0, k + 1).last() == (n, d));
            }
            if d >= buffer_len as i64 {
                self.note_off_buffer.set(k, (n, d - buffer_len as i64));
            } else if d >= 0 {
                due.push(TimedNote { timing: d as u32, note: n });
                self.note_off_buffer.set(k, (n, -1));
            }
            k += 1;
        }
        proof {
            assert(start.subrange(0, NOTE_OFF_SLOTS as int) =~= start);
        }
        due
    }
}

/// A pending note-off after one buffer of `len` samples: counted down, or
/// freed when it fell due within the buffer.
pub open spec fn ticked(slot: NoteOff, len: u32) -> NoteOff {
    if slot.1 >= len {
        (slot.0, (slot.1 - len) as i64)
    } else if slot.1 >= 0 {
        (slot.0, -1i64)
    } else {
        slot
    }
}

/// The note-offs of `buf` that fall due within a buffer of `len` samples,
/// with their offsets, in slot order.
pub open spec fn due_notes(buf: Seq<NoteOff>, len: u32) -> Seq<TimedNote>
    decreases buf.len(),
{
    if buf.len() == 0 {
        Seq::empty()
    } else {
        let front = due_notes(buf.drop_last(), len);
        let (n, d) = buf.last();
        if 0 <= d < len { front.push(TimedNote { timing: d as u32, note: n }) } else { front }
    }
}

/// `buf` with its first free slot (if any) holding `e`.
pub open spec fn pushed(buf: Seq<NoteOff>, e: NoteOff) -> Seq<NoteOff>
    decreases buf.len(),
{
    if buf.len() == 0 {
        buf
    } else if buf[0].1 < 0 {
        buf.update(0, e)
    } else {
        seq![buf[0]] + pushed(buf.drop_first(), e)
    }
}

proof fn lemma_pushed_at(buf: Seq<NoteOff>, e: NoteOff, f: int)
    requires
        0 <= f < buf.len(),
        buf[f].1 < 0,
        forall|k: int| 0 <= k < f ==> (#[trigger] buf[k]).1 >= 0,
    ensures
        pushed(buf, e) == buf.update(f, e),
    decreases buf.len(),
{
    if f > 0 {
        let rest = buf.drop_first();
        assert forall|k: int| 0 <= k < f - 1 implies (#[trigger] rest[k]).1 >= 0 by {
            assert(rest[k] == buf[k + 1]);
        }
        lemma_pushed_at(rest, e, f - 1);
        assert(seq![buf[0]] + rest.update(f - 1, e) =~= buf.update(f, e));
    }
}

proof fn lemma_pushed_full(buf: Seq<NoteOff>, e: NoteOff)
    requires
        forall|k: int| 0 <= k < buf.len() ==> (#[trigger] buf[k]).1 >= 0,
    ensures
        pushed(buf, e) == buf,
    decreases buf.len(),
{
    if buf.len() > 0 {
        let rest = buf.drop_first();
        assert forall|k: int| 0 <= k < rest.len() implies (#[trigger] rest[k]).1 >= 0 by {
            assert(rest[k] == buf[k + 1]);
        }
        lemma_pushed_full(rest, e);
        assert(seq![buf[0]] + rest =~= buf);
    }
}

proof fn lemma_located_unique(a: Seq<u64>, b: Seq<u64>, mix: u64, position: u64, i: int, j: int)
    requires
        located(a, b, mix, position, i),
        located(a, b, mix, position, j),
    ensures
        i == j,
{
    if i < j {
        assert(mixed_prefix(a, b, mix, i + 1) < position);
    } else if j < i {
        assert(mixed_prefix(a, b, mix, j + 1) < position);
    }
}

/// The beat playing at `position`.
pub open spec fn beat_index(a: Seq<u64>, b: Seq<u64>, mix: u64, position: u64) -> int {
    choose|i: int| located(a, b, mix, position, i)
}

/// Sample `fraction` millionths into a bar of `bar_samples` samples.
pub open spec fn sample_at(fraction: int, bar_samples: u64) -> int {
    fraction * bar_samples / (BAR as int)
}

/// How many samples past the first sample of its beat `input` lies.
pub open spec fn nth_sample_of_beat(a: Seq<u64>, b: Seq<u64>, input: SampleInput) -> int {
    let start = mixed_prefix(a, b, input.mix, beat_index(a, b, input.mix, input.position));
    let first = sample_at(start, input.bar_samples);
    let now = sample_at(input.position as int, input.bar_samples);
    if now >= first { now - first } else { 0 }
}

/// The largest rank of the two structures.
pub open spec fn max_rank(va: Seq<usize>, vb: Seq<usize>) -> usize {
    if va.len() >= vb.len() { (va.len() - 1) as usize } else { (vb.len() - 1) as usize }
}

/// The rank of beat `idx`: rounded to the nearest integer where A and B have
/// equal length, else rounded up.
pub open spec fn rank_at(va: Seq<usize>, vb: Seq<usize>, idx: int, mix: u64) -> int {
    crossfaded_rank(get_or_zero(va, idx, 0usize), get_or_zero(vb, idx, 0usize), mix, va.len() == vb.len())
}

impl BeatScheduler {
    /// Decides, at one sample of a buffer in send mode, whether a note-on is
    /// due: at the start of a beat not sent yet whose rank lies within the thresholds.
    /// A note-on also queues its note-off `note_off_delay` samples later. The
    /// progress moves on by one sample while playing.
    pub fn process_sample(&mut self, durations_a: &Vec<u64>, value_a: &Vec<usize>, durations_b: &Vec<u64>, value_b: &Vec<usize>,
        input: SampleInput) -> (r: Option<BeatNote>)
        requires
            old(self).wf(),
            input.mix <= BAR,
            input.position <= BAR,
            input.lower_threshold <= BAR,
            input.upper_threshold <= BAR,
            total(durations_a@) <= BAR,
            total(durations_b@) <= BAR,
            value_a.len() > 0,
            value_b.len() > 0,
            0 <= input.note_off_delay <= u32::MAX,
        ensures
            ({
                let idx = beat_index(durations_a@, durations_b@, input.mix, input.position);
                let rank = rank_at(value_a@, value_b@, idx, input.mix);
                let passes = within_thresholds(rank as usize, input.lower_threshold, input.upper_threshold, max_rank(value_a@, value_b@));
                let d = beat_step(old(self).last_sent_beat_idx, idx as usize,
                    nth_sample_of_beat(durations_a@, durations_b@, input) as u64, passes);
                &&& located(durations_a@, durations_b@, input.mix, input.position, idx)
                &&& final(self).last_sent_beat_idx == d.1
                &&& (r is Some <==> d.0)
                &&& (r is Some ==> r == Some(BeatNote { timing: input.sample, note: note_for_rank(rank as usize), rank: rank as usize }))
                &&& final(self).note_off_buffer@ == if d.0 {
                    pushed(old(self).note_off_buffer@, (note_for_rank(rank as usize), (input.sample + input.note_off_delay) as i64))
                } else {
                    old(self).note_off_buffer@
                }
            }),
            final(self).wf(),
            final(self).was_playing == old(self).was_playing,
            final(self).last_reset_phase_value == old(self).last_reset_phase_value,
            final(self).last_note_passed == old(self).last_note_passed,
            final(self).progress_in_samples == if input.playing && old(self).progress_in_samples < u64::MAX {
                old(self).progress_in_samples + 1
            } else {
                old(self).progress_in_samples as int
            },
    {
        let (idx, start) = current_beat(durations_a, durations_b, input.mix, input.position);
        proof {
            let i = beat_index(durations_a@, durations_b@, input.mix, input.position);
            lemma_located_unique(durations_a@, durations_b@, input.mix, input.position, i, idx as int);
            lemma_mixed_prefix_bound(durations_a@, durations_b@, input.mix, idx as int);
            let na = if idx <= durations_a.len() { idx as int } else { durations_a.len() as int };
            let nb = if idx <= durations_b.len() { idx as int } else { durations_b.len() as int };
            lemma_total_prefix(durations_a@, na);
            lemma_total_prefix(durations_b@, nb);
            assert(start as int * input.bar_samples <= 2 * BAR * 0x1_0000_0000_0000_0000) by (nonlinear_arith)
                requires start <= 2 * BAR, input.bar_samples < 0x1_0000_0000_0000_0000;
            assert(input.position as int * input.bar_samples <= BAR * input.bar_samples) by (nonlinear_arith)
                requires input.position <= BAR;
        }
        let first: u128 = start as u128 * input.bar_samples as u128 / BAR as u128;
        let now: u128 = input.position as u128 * input.bar_samples as u128 / BAR as u128;
        proof {
            assert(now <= input.bar_samples) by (nonlinear_arith)
                requires now == input.position as int * input.bar_samples / (BAR as int), input.position <= BAR;
        }
        let nth: u128 = if now >= first { now - first } else { 0 };
        let nth_of_beat: u64 = nth as u64;
        let mut result: Option<BeatNote> = None;
        if nth_of_beat < NR_SAMPLES_FOR_START_OF_BEAT {
            if self.last_sent_beat_idx != Some(idx) {
                let nearest = value_a.len() == value_b.len();
                let rank = crossfaded_indispensability(value_a, value_b, idx, input.mix, nearest);
                let max = if value_a.len() >= value_b.len() { value_a.len() - 1 } else { value_b.len() - 1 };
                if is_indisp_val_within_thresholds(rank, input.lower_threshold, input.upper_threshold, max) {
                    let note: u8 = if rank <= 67 { BASE_NOTE + rank as u8 } else { 127 };
                    self.last_sent_beat_idx = Some(idx);
                    let ghost before = self.note_off_buffer@;
                    self.push_note_off(note, input.sample as i64 + input.note_off_delay);
                    proof {
                        if exists|f: int| 0 <= f < NOTE_OFF_SLOTS && before[f].1 < 0 {
                            let f0 = choose|f: int| 0 <= f < NOTE_OFF_SLOTS && before[f].1 < 0;
                            let f = first_free_index(before, f0);
                            lemma_pushed_at(before, (note, (input.sample + input.note_off_delay) as i64), f);
                        } else {
                            lemma_pushed_full(before, (note, (input.sample + input.note_off_delay) as i64));
                        }
                    }
                    result = Some(BeatNote { timing: input.sample, note, rank });
                }
            }
        } else {
            self.last_sent_beat_idx = None;
        }
        if input.playing {
            self.advance(1);
        }
        result
    }
}

/// The first free slot at or before a free slot `f`.
proof fn first_free_index(buf: Seq<NoteOff>, f: int) -> (r: int)
    requires
        0 <= f < buf.len(),
        buf[f].1 < 0,
    ensures
        0 <= r <= f,
        buf[r].1 < 0,
        forall|k: int| 0 <= k < r ==> (#[trigger] buf[k]).1 >= 0,
    decreases f,
{
    if exists|k: int| 0 <= k < f && buf[k].1 < 0 {
        let k = choose|k: int| 0 <= k < f && buf[k].1 < 0;
        first_free_index(buf, k)
    } else {
        f
    }
}

proof fn lemma_decided_unique(sel: int, w: Seq<u64>, i: int, j: int)
    requires
        decided(sel, w, i),
        decided(sel, w, j),
    ensures
        i == j,
{
    if i < j {
        assert(sel >= crate::util::prefix(w, i + 1));
    } else if j < i {
        assert(sel >= crate::util::prefix(w, j + 1));
    }
}

/// The beat of durations `w` at `position` (millionths of the bar), the first
/// one when the durations sum to zero.
pub open spec fn beat_at(position: u64, w: Seq<u64>) -> int {
    if total(w) == 0 {
        0
    } else {
        choose|i: int| #[trigger] decided(position * total(w) / (BAR as int), w, i)
    }
}

/// Looks up the beat at `position` with `decider`, the first one where the
/// weights leave it undecided.
fn beat_at_position(position: u64, durations: &Vec<u64>) -> (r: usize)
    requires
        position <= BAR,
        durations.len() > 0,
        total(durations@) <= BAR,
    ensures
        r == beat_at(position, durations@),
        r < durations.len(),
{
    match decider(position, durations) {
        Ok(i) => {
            proof {
                assert(decided(position * total(durations@) / (BAR as int), durations@, i as int));
                let c = choose|c: int| #[trigger] decided(position * total(durations@) / (BAR as int), durations@, c);
                lemma_decided_unique(position * total(durations@) / (BAR as int), durations@, c, i as int);
                assert(total(durations@) != 0);
                assert(beat_at(position, durations@) == c);
            }
            i
        },
        Err(e) => {
            proof {
                if e == crate::util::RescaleError::OutOfRange {
                    assert(position > BAR);
                }
                assert(total(durations@) == 0);
            }
            0
        },
    }
}

/// Whether an incoming note-on at `position` passes, in pass-through mode,
/// and with which rank: A's beat there when `mix` is 0, B's when it is a
/// full bar, else the two ranks crossfaded (to the nearest integer where A
/// and B have equal length, else rounded up). `None` vetoes the note.
pub fn process_event(durations_a: &Vec<u64>, value_a: &Vec<usize>, durations_b: &Vec<u64>, value_b: &Vec<usize>,
    position: u64, mix: u64, lower_threshold: u64, upper_threshold: u64) -> (r: Option<usize>)
    requires
        durations_a.len() == value_a.len(),
        durations_b.len() == value_b.len(),
        value_a.len() > 0,
        value_b.len() > 0,
        total(durations_a@) <= BAR,
        total(durations_b@) <= BAR,
        position <= BAR,
        mix <= BAR,
        lower_threshold <= BAR,
        upper_threshold <= BAR,
    ensures
        ({
            let ia = beat_at(position, durations_a@);
            let ib = beat_at(position, durations_b@);
            let rank = if mix == 0 {
                value_a@[ia] as int
            } else if mix == BAR {
                value_b@[ib] as int
            } else {
                crossfaded_rank(value_a@[ia], value_b@[ib], mix, value_a.len() == value_b.len())
            };
            let max = if mix == 0 {
                (value_a.len() - 1) as usize
            } else if mix == BAR {
                (value_b.len() - 1) as usize
            } else {
                max_rank(value_a@, value_b@)
            };
            &&& (r is Some <==> within_thresholds(rank as usize, lower_threshold, upper_threshold, max))
            &&& (r is Some ==> r == Some(rank as usize))
        }),
{
    let ia = beat_at_position(position, durations_a);
    let ib = beat_at_position(position, durations_b);
    let rank: usize;
    let max: usize;
    if mix == 0 {
        rank = value_a[ia];
        max = value_a.len() - 1;
    } else if mix == BAR {
        rank = value_b[ib];
        max = value_b.len() - 1;
    } else {
        let nearest = value_a.len() == value_b.len();
        rank = crossfade_ranks(value_a[ia], value_b[ib], mix, nearest);
        max = if value_a.len() >= value_b.len() { value_a.len() - 1 } else { value_b.len() - 1 };
    }
    if is_indisp_val_within_thresholds(rank, lower_threshold, upper_threshold, max) {
        Some(rank)
    } else {
        None
    }
}

} // verus!
