//! Configuration of the worker pool.

use std::path::Path;
use std::time::Duration;

use whispery::pool::{
    default_timeout_streak_threshold, default_worker_count, timeout_streak_threshold_for,
    worker_count_for,
};
use whispery::WhisperPoolConfig;

#[test]
fn defaults_round_trip() {
    let cfg = WhisperPoolConfig::new("/tmp/model.bin");
    assert_eq!(cfg.use_gpu(), false);
    assert_eq!(cfg.gpu_device(), 0);
    assert_eq!(cfg.flash_attn(), false);
    assert_eq!(cfg.block_on_full_queue(), true);
    assert_eq!(cfg.dispatch_idle_poll(), Duration::from_millis(10));
    assert!(cfg.worker_count() >= 1);
    assert_eq!(cfg.max_queued_chunks(), cfg.worker_count() + 4);
    assert!(cfg.timeout_streak_threshold() >= 1);
    assert_eq!(cfg.model_path(), Path::new("/tmp/model.bin"));
}

#[test]
fn with_setters_round_trip() {
    let cfg = WhisperPoolConfig::new("/tmp/model.bin")
        .with_worker_count(2)
        .with_use_gpu(true)
        .with_gpu_device(7)
        .with_flash_attn(true)
        .with_max_queued_chunks(20)
        .with_block_on_full_queue(false)
        .with_dispatch_idle_poll(Duration::from_millis(25))
        .with_timeout_streak_threshold(5);
    assert_eq!(cfg.worker_count(), 2);
    assert!(cfg.use_gpu());
    assert_eq!(cfg.gpu_device(), 7);
    assert!(cfg.flash_attn());
    assert_eq!(cfg.max_queued_chunks(), 20);
    assert!(!cfg.block_on_full_queue());
    assert_eq!(cfg.dispatch_idle_poll(), Duration::from_millis(25));
    assert_eq!(cfg.timeout_streak_threshold(), 5);
}

#[test]
fn set_setters_round_trip() {
    let mut cfg = WhisperPoolConfig::new("/tmp/model.bin");
    cfg.set_worker_count(3);
    cfg.set_model_path("/var/cache/model.gguf");
    assert_eq!(cfg.worker_count(), 3);
    assert_eq!(cfg.model_path(), Path::new("/var/cache/model.gguf"));
}

#[test]
fn half_the_cores_work_unless_a_gpu_does() {
    assert_eq!(worker_count_for(false, 16), 8);
    assert_eq!(worker_count_for(false, 7), 3);
    assert_eq!(worker_count_for(false, 1), 1);
    assert_eq!(worker_count_for(true, 16), 1);
    assert_eq!(timeout_streak_threshold_for(false), 1);
    assert_eq!(timeout_streak_threshold_for(true), 3);
}

#[test]
fn defaults_follow_the_machine() {
    assert_eq!(default_worker_count(), worker_count_for(false, num_cpus::get_physical()));
    assert_eq!(default_timeout_streak_threshold(), 1);
    let gpu = WhisperPoolConfig::for_machine("/tmp/model.bin", true, 32);
    assert_eq!(gpu.worker_count(), 1);
    assert_eq!(gpu.max_queued_chunks(), 5);
    assert_eq!(gpu.timeout_streak_threshold(), 3);
    assert_eq!(gpu.use_gpu(), false);
    let cpu = WhisperPoolConfig::for_machine("/tmp/model.bin", false, 32);
    assert_eq!(cpu.worker_count(), 16);
    assert_eq!(cpu.max_queued_chunks(), 20);
}

#[test]
fn a_cloned_configuration_keeps_every_field() {
    let cfg = WhisperPoolConfig::for_machine("/srv/models/ggml.bin", false, 8)
        .with_gpu_device(2)
        .with_dispatch_idle_poll(Duration::from_millis(3));
    let copy = cfg.clone();
    assert_eq!(copy.model_path(), Path::new("/srv/models/ggml.bin"));
    assert_eq!(copy.worker_count(), 4);
    assert_eq!(copy.gpu_device(), 2);
    assert_eq!(copy.dispatch_idle_poll(), Duration::from_millis(3));
}
