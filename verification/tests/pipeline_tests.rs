use pv_cobra_redux::{
    on_lock_attempt, Admission, ChannelLayout, Cobra, Error, LockAttempt, Pipeline, SetupError,
};

fn silent_engine(frame: &[i16]) -> (u32, f32) {
    if frame.iter().all(|s| *s == 0) {
        (0, 0.0)
    } else {
        (0, 1.0)
    }
}

#[test]
fn one_and_two_channels_are_supported() {
    assert_eq!(ChannelLayout::from_channels(1), Ok(ChannelLayout::Mono));
    assert_eq!(ChannelLayout::from_channels(2), Ok(ChannelLayout::Stereo));
    assert_eq!(ChannelLayout::Mono.channels(), 1);
    assert_eq!(ChannelLayout::Stereo.channels(), 2);
}

#[test]
fn other_channel_counts_are_refused_at_setup() {
    assert_eq!(ChannelLayout::from_channels(0), Err(SetupError::UnsupportedChannels(0)));
    assert_eq!(ChannelLayout::from_channels(3), Err(SetupError::UnsupportedChannels(3)));
    assert_eq!(ChannelLayout::from_channels(6), Err(SetupError::UnsupportedChannels(6)));
    let engine = Cobra::new(0, false, 512).expect("an engine");
    assert!(matches!(
        Pipeline::<f32>::new(&engine, 0),
        Err(SetupError::UnsupportedChannels(0))
    ));
    assert!(matches!(
        Pipeline::<f32>::new(&engine, 3),
        Err(SetupError::UnsupportedChannels(3))
    ));
}

#[test]
fn an_engine_with_empty_frames_is_refused_at_setup() {
    let engine = Cobra::new(0, false, 0).expect("an engine");
    assert!(matches!(Pipeline::<f32>::new(&engine, 1), Err(SetupError::EmptyFrame)));
    assert!(matches!(
        Pipeline::<f32>::new(&engine, 5),
        Err(SetupError::UnsupportedChannels(5))
    ));
}

#[test]
fn a_new_pipeline_has_seen_nothing() {
    let engine = Cobra::new(0, false, 512).expect("an engine");
    let pipeline = Pipeline::<f32>::new(&engine, 2).expect("a pipeline");
    assert_eq!(pipeline.layout(), ChannelLayout::Stereo);
    assert_eq!(pipeline.frame_length(), 512);
    assert_eq!(pipeline.pending(), 0);
    assert_eq!(pipeline.confidence(), None);
}

#[test]
fn the_guard_decides_what_a_delivery_does() {
    assert_eq!(on_lock_attempt(LockAttempt::Acquired), Admission::Enter);
    assert_eq!(on_lock_attempt(LockAttempt::WouldBlock), Admission::Skip);
    assert_eq!(on_lock_attempt(LockAttempt::Poisoned), Admission::Abort);
}

#[test]
fn one_silent_frame_is_scored_once_with_the_score_of_the_engine() {
    let mut engine = Cobra::new(0, false, 512).expect("an engine");
    let mut pipeline = Pipeline::<f32>::new(&engine, 1).expect("a pipeline");
    let block = vec![0i16; engine.frame_length()];
    let mut calls = 0;
    assert_eq!(on_lock_attempt(LockAttempt::Acquired), Admission::Enter);
    if let Some(frame) = pipeline.ingest(&block) {
        assert_eq!(frame, vec![0i16; 512]);
        let (status, score) = silent_engine(&frame);
        calls += 1;
        let outcome = engine.process(&frame, status, score);
        assert_eq!(pipeline.record(outcome), Ok(()));
    }
    assert_eq!(calls, 1);
    assert_eq!(pipeline.confidence(), Some(&0.0f32));
    assert_eq!(pipeline.pending(), 0);
}

#[test]
fn the_latest_score_replaces_the_one_before() {
    let mut engine = Cobra::new(0, false, 2).expect("an engine");
    let mut pipeline = Pipeline::<f32>::new(&engine, 1).expect("a pipeline");
    let first = pipeline.ingest(&[0, 0]).expect("a frame");
    let (status, score) = silent_engine(&first);
    assert_eq!(pipeline.record(engine.process(&first, status, score)), Ok(()));
    assert_eq!(pipeline.confidence(), Some(&0.0f32));
    assert_eq!(pipeline.ingest(&[5]), None);
    assert_eq!(pipeline.confidence(), Some(&0.0f32));
    let second = pipeline.ingest(&[6]).expect("a frame");
    assert_eq!(second, vec![5, 6]);
    let (status, score) = silent_engine(&second);
    assert_eq!(pipeline.record(engine.process(&second, status, score)), Ok(()));
    assert_eq!(pipeline.confidence(), Some(&1.0f32));
}

#[test]
fn a_failure_of_the_engine_is_handed_on_and_keeps_the_latest_score() {
    let mut engine = Cobra::new(0, false, 2).expect("an engine");
    let mut pipeline = Pipeline::<f32>::new(&engine, 1).expect("a pipeline");
    let frame = pipeline.ingest(&[1, 2]).expect("a frame");
    assert_eq!(pipeline.record(engine.process(&frame, 0, 0.5)), Ok(()));
    let frame = pipeline.ingest(&[3, 4]).expect("a frame");
    assert_eq!(
        pipeline.record(engine.process(&frame, 7, 0.9)),
        Err(Error::RuntimeError)
    );
    assert_eq!(pipeline.confidence(), Some(&0.5f32));
    assert_eq!(pipeline.pending(), 0);
}

#[test]
fn a_dropped_block_leaves_the_buffer_as_it_was() {
    let engine = Cobra::new(0, false, 4).expect("an engine");
    let mut with_drop = Pipeline::<f32>::new(&engine, 1).expect("a pipeline");
    let mut without = Pipeline::<f32>::new(&engine, 1).expect("a pipeline");
    assert_eq!(with_drop.ingest(&[1, 2]), None);
    assert_eq!(without.ingest(&[1, 2]), None);
    // A delivery finds the guard held: its block never reaches the state.
    let dropped = [9i16, 9, 9, 9];
    if on_lock_attempt(LockAttempt::WouldBlock) == Admission::Enter {
        let _ = with_drop.ingest(&dropped);
    }
    assert_eq!(with_drop.pending(), without.pending());
    assert_eq!(with_drop.ingest(&[3, 4]), Some(vec![1, 2, 3, 4]));
    assert_eq!(without.ingest(&[3, 4]), Some(vec![1, 2, 3, 4]));
}

#[test]
fn blocks_of_any_size_end_in_frames_of_the_frame_length() {
    let engine = Cobra::new(0, false, 512).expect("an engine");
    for block_len in [1usize, 3, 160, 441, 480, 512, 1024, 4096] {
        let mut pipeline = Pipeline::<f32>::new(&engine, 2).expect("a pipeline");
        let block = vec![1i16; block_len];
        let mut frames = 0;
        let mut delivered = 0;
        while delivered < 512 {
            if let Some(frame) = pipeline.ingest(&block) {
                assert_eq!(frame.len(), 512);
                frames += 1;
            }
            delivered += block_len;
        }
        assert!(frames >= 1);
    }
}

#[test]
fn a_silent_mono_stream_of_one_frame_reports_the_score_of_silence() {
    let mut engine = Cobra::new(0, false, 512).expect("an engine");
    let mut pipeline = Pipeline::<f32>::new(&engine, 1).expect("a pipeline");
    let resampled = vec![0.0f32.to_bits(); engine.frame_length()];
    let mut calls = 0;
    if let Some(frame) = pipeline.ingest_resampled(&resampled) {
        assert_eq!(frame.len(), 512);
        let (status, score) = silent_engine(&frame);
        calls += 1;
        assert_eq!(pipeline.record(engine.process(&frame, status, score)), Ok(()));
    }
    assert_eq!(calls, 1);
    assert_eq!(pipeline.confidence(), Some(&0.0f32));
}

#[test]
fn a_stereo_stream_of_opposite_channels_fills_frames_of_zeros() {
    let engine = Cobra::new(0, false, 4).expect("an engine");
    let mut pipeline = Pipeline::<f32>::new(&engine, 2).expect("a pipeline");
    let mut block = Vec::new();
    for _ in 0..3 {
        block.push(1.0f32.to_bits());
        block.push((-1.0f32).to_bits());
    }
    assert_eq!(pipeline.ingest_resampled(&block), None);
    assert_eq!(pipeline.pending(), 3);
    assert_eq!(pipeline.ingest_resampled(&block), Some(vec![0i16; 4]));
    assert_eq!(pipeline.pending(), 0);
}

#[test]
fn resampled_blocks_are_mixed_by_the_layout_of_the_stream() {
    let engine = Cobra::new(0, false, 2).expect("an engine");
    let block = [1.0f32.to_bits(), 0.0f32.to_bits(), 0.5f32.to_bits(), 0.5f32.to_bits()];
    let mut mono = Pipeline::<f32>::new(&engine, 1).expect("a pipeline");
    assert_eq!(mono.ingest_resampled(&block), Some(vec![32767, 0]));
    let mut stereo = Pipeline::<f32>::new(&engine, 2).expect("a pipeline");
    assert_eq!(stereo.ingest_resampled(&block), Some(vec![16384, 16384]));
}

#[test]
fn enough_audio_in_blocks_of_any_size_gives_a_frame() {
    let engine = Cobra::new(0, false, 512).expect("an engine");
    for channels in [1usize, 2] {
        for block_len in [2usize, 6, 160, 882, 960, 1024, 2048] {
            let mut pipeline = Pipeline::<f32>::new(&engine, channels).expect("a pipeline");
            let block = vec![0.25f32.to_bits(); block_len];
            let mut frames = 0;
            let mut mixed = 0;
            while mixed < 512 {
                if let Some(frame) = pipeline.ingest_resampled(&block) {
                    assert_eq!(frame.len(), 512);
                    assert!(frame.iter().all(|s| *s == 8192));
                    frames += 1;
                }
                mixed += block_len / channels;
            }
            assert!(frames >= 1);
            assert!(pipeline.pending() < 512);
        }
    }
}

#[test]
fn only_the_deliveries_that_got_the_guard_count() {
    let engine = Cobra::new(0, false, 8).expect("an engine");
    let attempts = [
        LockAttempt::Acquired,
        LockAttempt::WouldBlock,
        LockAttempt::WouldBlock,
        LockAttempt::Acquired,
        LockAttempt::Acquired,
        LockAttempt::WouldBlock,
        LockAttempt::Acquired,
        LockAttempt::Acquired,
        LockAttempt::WouldBlock,
        LockAttempt::Acquired,
    ];
    let mut with_drops = Pipeline::<f32>::new(&engine, 2).expect("a pipeline");
    let mut without = Pipeline::<f32>::new(&engine, 2).expect("a pipeline");
    let mut frames_with_drops = Vec::new();
    let mut frames_without = Vec::new();
    for (i, attempt) in attempts.iter().enumerate() {
        let level = (i as f32 + 1.0) / 16.0;
        let block = vec![level.to_bits(); 6];
        if on_lock_attempt(*attempt) == Admission::Enter {
            if let Some(frame) = with_drops.ingest_resampled(&block) {
                frames_with_drops.push(frame);
            }
        }
        if *attempt == LockAttempt::Acquired {
            if let Some(frame) = without.ingest_resampled(&block) {
                frames_without.push(frame);
            }
        }
        assert_eq!(with_drops.pending(), without.pending());
    }
    assert_eq!(frames_with_drops, frames_without);
    assert_eq!(frames_with_drops.len(), 2);
    assert!(frames_with_drops.iter().all(|frame| frame.len() == 8));
}

#[test]
fn setup_failures_are_described_in_words() {
    assert_eq!(
        SetupError::UnsupportedChannels(6).message(),
        "unsupported number of channels: 6"
    );
    assert_eq!(
        SetupError::UnsupportedChannels(0).message(),
        "unsupported number of channels: 0"
    );
    assert_eq!(
        SetupError::EmptyFrame.message(),
        "the engine asks for frames without samples"
    );
}
