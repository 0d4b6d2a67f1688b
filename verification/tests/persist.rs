use cardinal::persist::{
    encoder_threads, load_advance, load_begin, load_failure, save_advance, save_begin,
    save_failure, LoadStep, Progress, SaveStep, COMPRESSION_LEVEL,
};

#[test]
fn save_renames_only_after_a_complete_write() {
    let order = [
        SaveStep::CreateTemp,
        SaveStep::StartEncoder,
        SaveStep::SetThreads,
        SaveStep::Encode,
        SaveStep::Rename,
    ];
    let mut progress = save_begin();
    for step in order {
        assert_eq!(progress, Progress::Next(step));
        progress = save_advance(step, true);
    }
    assert_eq!(progress, Progress::Done);
}

#[test]
fn a_failed_step_ends_the_save_before_the_rename() {
    for failing in [
        SaveStep::CreateTemp,
        SaveStep::StartEncoder,
        SaveStep::SetThreads,
        SaveStep::Encode,
        SaveStep::Rename,
    ] {
        let mut progress = save_begin();
        let mut renamed = false;
        while let Progress::Next(step) = progress {
            if step == SaveStep::Rename && step != failing {
                renamed = true;
            }
            progress = save_advance(step, step != failing);
        }
        assert_eq!(progress, Progress::Failed(failing));
        assert!(!renamed);
    }
}

#[test]
fn load_steps_and_failures() {
    let mut progress = load_begin();
    for step in [LoadStep::Open, LoadStep::StartDecoder, LoadStep::Decode] {
        assert_eq!(progress, Progress::Next(step));
        assert_eq!(load_advance(step, false), Progress::Failed(step));
        progress = load_advance(step, true);
    }
    assert_eq!(progress, Progress::Done);
}

#[test]
fn failures_say_which_step_failed() {
    assert_eq!(save_failure(SaveStep::CreateTemp), "Failed to create cache file");
    assert_eq!(save_failure(SaveStep::StartEncoder), "Failed to create zstd encoder");
    assert_eq!(save_failure(SaveStep::SetThreads), "Failed to create parallel zstd encoder");
    assert_eq!(save_failure(SaveStep::Encode), "Failed to encode cache");
    assert_eq!(save_failure(SaveStep::Rename), "Failed to replace cache file");
    assert_eq!(load_failure(LoadStep::Open), "Failed to open cache file");
    assert_eq!(load_failure(LoadStep::StartDecoder), "Failed to create zstd decoder");
    assert_eq!(load_failure(LoadStep::Decode), "Failed to decode cache");
}

#[test]
fn compression_settings() {
    assert_eq!(COMPRESSION_LEVEL, 6);
    assert_eq!(encoder_threads(None), 4);
    assert_eq!(encoder_threads(Some(8)), 8);
    assert_eq!(encoder_threads(Some(1)), 1);
    assert_eq!(encoder_threads(Some(0x1_0000_0003)), 3);
}
