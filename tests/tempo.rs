use tempo::accumulator::FrameAccumulator;
use tempo::bpm::Bpm;
use tempo::octave::adjust_tempo;
use tempo::pipeline::{step, Action, Event, Phase, RunError};

fn bpm(n: u32) -> Bpm {
    Bpm::from_whole(n).unwrap()
}

fn value(b: Bpm) -> f64 {
    b.mantissa as f64 * 2f64.powi(b.exponent)
}

#[test]
fn adjust_doubles_slow_tempo() {
    let r = adjust_tempo(bpm(60), 100, 215);
    assert_eq!(r, Bpm { mantissa: 60, exponent: 1 });
    assert_eq!(value(r), 120.0);
}

#[test]
fn adjust_keeps_tempo_in_range() {
    assert_eq!(adjust_tempo(bpm(130), 100, 215), bpm(130));
    assert_eq!(adjust_tempo(bpm(100), 100, 215), bpm(100));
    assert_eq!(adjust_tempo(bpm(215), 100, 215), bpm(215));
}

#[test]
fn adjust_halves_fast_tempo() {
    // Halving stops as soon as the tempo is no longer above `hi`, which is
    // inclusive: 430 halves once, to 215.
    assert_eq!(value(adjust_tempo(bpm(430), 100, 215)), 215.0);
    assert_eq!(value(adjust_tempo(bpm(431), 100, 215)), 107.75);
    assert_eq!(value(adjust_tempo(bpm(440), 100, 215)), 110.0);
    assert_eq!(value(adjust_tempo(bpm(216), 100, 215)), 108.0);
}

#[test]
fn adjust_narrow_range_can_end_below_lo() {
    // 80 doubles to 160, which overshoots 150, so it is halved back to 80.
    assert_eq!(adjust_tempo(bpm(80), 100, 150), bpm(80));
}

#[test]
fn adjust_fractional_and_extreme_tempos() {
    let slow = Bpm::new(3, -4).unwrap(); // 0.1875
    let r = adjust_tempo(slow, 100, 215);
    assert_eq!(value(r), 192.0);
    let fast = Bpm::new(1, 40).unwrap();
    let r = adjust_tempo(fast, 100, 215);
    assert_eq!(value(r), 128.0);
}

#[test]
fn adjust_result_in_range_and_power_of_two() {
    for n in 1..2000u32 {
        let r = adjust_tempo(bpm(n), 100, 215);
        let v = value(r);
        assert!(v >= 100.0 && v <= 215.0, "{} gave {}", n, v);
        assert_eq!(r.mantissa, n as u64);
    }
}

#[test]
fn adjust_is_idempotent() {
    for n in 1..1000u32 {
        for (lo, hi) in [(100u32, 215u32), (100, 150), (7, 9)] {
            let once = adjust_tempo(bpm(n), lo, hi);
            assert_eq!(adjust_tempo(once, lo, hi), once);
        }
    }
}

#[test]
fn decode_positive_floats() {
    let b = Bpm::from_f32_bits(128.0f32.to_bits()).unwrap();
    assert_eq!(value(b), 128.0);
    let b = Bpm::from_f32_bits(107.5f32.to_bits()).unwrap();
    assert_eq!(value(b), 107.5);
    let b = Bpm::from_f32_bits(1).unwrap();
    assert_eq!(b, Bpm { mantissa: 1, exponent: -149 });
}

#[test]
fn decode_rejects_non_tempos() {
    assert_eq!(Bpm::from_f32_bits(0.0f32.to_bits()), None);
    assert_eq!(Bpm::from_f32_bits((-0.0f32).to_bits()), None);
    assert_eq!(Bpm::from_f32_bits((-120.0f32).to_bits()), None);
    assert_eq!(Bpm::from_f32_bits(f32::NAN.to_bits()), None);
    assert_eq!(Bpm::from_f32_bits(f32::INFINITY.to_bits()), None);
    assert_eq!(Bpm::new(0, 3), None);
    assert_eq!(Bpm::from_whole(0), None);
}

#[test]
fn decoded_float_normalizes() {
    let b = Bpm::from_f32_bits(60.0f32.to_bits()).unwrap();
    assert_eq!(value(adjust_tempo(b, 100, 215)), 120.0);
}

#[test]
fn comparisons_against_whole_tempos() {
    let b = Bpm::new(3, -1).unwrap(); // 1.5
    assert!(b.lt_whole(2));
    assert!(!b.lt_whole(1));
    assert!(b.gt_whole(1));
    assert!(!b.gt_whole(2));
    assert!(b.gt_whole(0));
    let big = Bpm::new(1, 40).unwrap();
    assert!(big.gt_whole(u32::MAX));
    let tiny = Bpm::new(u64::MAX, -200).unwrap();
    assert!(tiny.lt_whole(1));
}

fn stream(n: u32) -> Vec<u32> {
    (0..n).collect()
}

fn feed(sizes: &[u32], w: usize) -> (Vec<Vec<u32>>, usize) {
    let mut acc = FrameAccumulator::new(w);
    let mut next = 0u32;
    let mut out = Vec::new();
    for &size in sizes {
        let chunk: Vec<u32> = (next..next + size).collect();
        next += size;
        out.extend(acc.push_and_drain(chunk));
    }
    (out, acc.pending_len())
}

#[test]
fn accumulator_windows_in_order() {
    let (windows, pending) = feed(&[3, 5, 2, 7], 4);
    assert_eq!(windows.len(), 4);
    for (i, w) in windows.iter().enumerate() {
        let start = 4 * i as u32;
        assert_eq!(*w, (start..start + 4).collect::<Vec<u32>>());
    }
    assert_eq!(pending, 1);
}

#[test]
fn accumulator_chunking_invariance() {
    let all = stream(23);
    let expected: Vec<Vec<u32>> = all.chunks(5).filter(|c| c.len() == 5).map(|c| c.to_vec()).collect();
    for sizes in [vec![23], vec![1; 23], vec![5, 5, 5, 5, 3], vec![4, 6, 13], vec![0, 23, 0]] {
        let (windows, pending) = feed(&sizes, 5);
        assert_eq!(windows, expected);
        assert_eq!(pending, 3);
    }
}

#[test]
fn accumulator_exact_window_drains_immediately() {
    let mut acc = FrameAccumulator::new(4);
    let out = acc.push_and_drain(vec![1u8, 2, 3, 4]);
    assert_eq!(out, vec![vec![1u8, 2, 3, 4]]);
    assert_eq!(acc.pending_len(), 0);
}

#[test]
fn accumulator_empty_and_short_chunks() {
    let mut acc: FrameAccumulator<u8> = FrameAccumulator::new(3);
    assert!(acc.push_and_drain(Vec::new()).is_empty());
    assert!(acc.push_and_drain(vec![9, 8]).is_empty());
    assert_eq!(acc.pending_len(), 2);
    assert_eq!(acc.window_size(), 3);
    assert_eq!(acc.next_window(), None);
    acc.push(vec![7, 6, 5, 4]);
    assert_eq!(acc.next_window(), Some(vec![9, 8, 7]));
    assert_eq!(acc.next_window(), Some(vec![6, 5, 4]));
    assert_eq!(acc.next_window(), None);
}

#[test]
fn accumulator_one_oversized_chunk() {
    let mut acc = FrameAccumulator::new(1024);
    let out = acc.push_and_drain(stream(5000));
    assert_eq!(out.len(), 4);
    assert_eq!(out[3][0], 3072);
    assert_eq!(acc.pending_len(), 5000 - 4096);
}

/// Stands in for the beat tracker: locks on once it has seen enough windows.
struct StubEstimator {
    windows: usize,
    needed: usize,
    bpm: Bpm,
}

impl StubEstimator {
    fn feed(&mut self, window: &[f32]) {
        assert_eq!(window.len(), 1024);
        self.windows += 1;
    }

    fn current(&self) -> Option<Bpm> {
        if self.windows >= self.needed {
            Some(self.bpm)
        } else {
            None
        }
    }
}

fn click_track(sample_rate: usize, bpm: usize, len: usize) -> Vec<f32> {
    let period = sample_rate * 60 / bpm;
    (0..len).map(|i| if i % period < 10 { 1.0 } else { 0.0 }).collect()
}

#[test]
fn end_to_end_click_track() {
    let samples = click_track(44100, 128, 44100 * 4);
    let mut acc = FrameAccumulator::new(1024);
    let mut est = StubEstimator { windows: 0, needed: 8, bpm: bpm(128) };
    let sizes = [300usize, 50, 2000];
    let mut reported = Vec::new();
    let mut at = 0;
    let mut k = 0;
    while at < samples.len() {
        let size = sizes[k % sizes.len()].min(samples.len() - at);
        let chunk = samples[at..at + size].to_vec();
        at += size;
        k += 1;
        for window in acc.push_and_drain(chunk) {
            est.feed(&window);
        }
        reported.push(est.current().map(|b| adjust_tempo(b, 100, 215)));
    }
    assert_eq!(est.windows, samples.len() / 1024);
    assert_eq!(acc.pending_len(), samples.len() % 1024);
    assert_eq!(reported[0], None);
    let last = reported.last().unwrap().unwrap();
    assert_eq!(value(last), 128.0);
    assert!(value(last) >= 100.0 && value(last) <= 215.0);
}

#[test]
fn pipeline_stream_creation_failure_is_fatal() {
    let (p, a) = step(Phase::OpeningStream, Event::StreamFailed);
    assert_eq!(p, Phase::Failed(RunError::StreamCreation));
    assert_eq!(a, Action::Abort(RunError::StreamCreation));
    for e in [Event::StreamOpened, Event::EstimatorReady, Event::ChunkReceived, Event::ChannelClosed] {
        assert_eq!(step(p, e), (p, Action::Idle));
    }
}

#[test]
fn pipeline_normal_run() {
    let (p, a) = step(Phase::OpeningStream, Event::StreamOpened);
    assert_eq!((p, a), (Phase::StartingEstimator, Action::StartEstimator));
    let (p, a) = step(p, Event::EstimatorReady);
    assert_eq!((p, a), (Phase::Streaming, Action::AwaitChunk));
    let (p, a) = step(p, Event::ChunkReceived);
    assert_eq!((p, a), (Phase::Streaming, Action::AnalyseAndReport));
    let (p, a) = step(p, Event::ChannelClosed);
    assert_eq!((p, a), (Phase::Stopped, Action::Finish));
    assert_eq!(step(p, Event::ChunkReceived), (Phase::Stopped, Action::Idle));
}

#[test]
fn pipeline_error_kinds() {
    assert_eq!(
        step(Phase::StartingEstimator, Event::EstimatorFailed),
        (Phase::Failed(RunError::EstimatorInit), Action::Abort(RunError::EstimatorInit))
    );
    assert_eq!(
        step(Phase::Streaming, Event::OutputFailed),
        (Phase::Failed(RunError::OutputIo), Action::Abort(RunError::OutputIo))
    );
    assert_eq!(
        step(Phase::Streaming, Event::OutputBufferReceived),
        (Phase::Failed(RunError::InternalInvariant), Action::Abort(RunError::InternalInvariant))
    );
    assert_eq!(
        step(Phase::OpeningStream, Event::ChunkReceived),
        (Phase::Failed(RunError::InternalInvariant), Action::Abort(RunError::InternalInvariant))
    );
}
