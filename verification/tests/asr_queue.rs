use sayit::asr_queue::{admission, admission_failure, default_limits, pacing, Admission, Pacing, PACED_QUEUE_BYTES};

#[test]
fn every_queue_limit_refuses_with_its_own_failure() {
    let limits = default_limits();
    assert_eq!(admission(&limits, 0, 0, 0, 65_537, 65_600, true), Admission::TooLarge);
    assert_eq!(admission(&limits, 32_768, 0, 0, 4, 64, true), Admission::TooManyPackets);
    assert_eq!(admission(&limits, 1, 536_870_900, 0, 4, 64, true), Admission::QueueFull);
    assert_eq!(admission(&limits, 1, 0, 67_108_860, 8, 64, true), Admission::ResidentFull);
    assert_eq!(admission(&limits, 1, 0, 2_097_150, 8, 64, true), Admission::Spill);
    assert_eq!(admission(&limits, 1, 0, 2_097_150, 8, 64, false), Admission::Memory);
    assert_eq!(admission(&limits, 1, 0, 0, 8, 64, true), Admission::Memory);
    assert_eq!(
        admission_failure(Admission::QueueFull).unwrap(),
        "音频处理长期落后，音频暂存已达上限，本次任务已停止"
    );
    assert!(admission_failure(Admission::Spill).is_none());
}

#[test]
fn paced_input_waits_for_space_and_refuses_oversized_packets() {
    assert_eq!(pacing(0, PACED_QUEUE_BYTES + 1), Pacing::Refuse);
    assert_eq!(pacing(0, PACED_QUEUE_BYTES), Pacing::Send);
    assert_eq!(pacing(1, PACED_QUEUE_BYTES), Pacing::Wait);
    assert_eq!(pacing(60_000, 5_000), Pacing::Send);
    assert_eq!(pacing(61_000, 5_000), Pacing::Wait);
}
