//! Configuration of the pool of recognition workers.

use core::time::Duration;
use std::path::PathBuf;

use vstd::prelude::*;

verus! {

/// Declares `std::path::PathBuf`, which is carried and never looked into.
#[verifier::external_type_specification]
#[verifier::external_body]
pub struct ExPathBuf(std::path::PathBuf);

/// The duration of a number of milliseconds.
pub uninterp spec fn duration_of_millis(millis: u64) -> Duration;

/// `Duration::from_millis` makes the duration of that many milliseconds.
pub assume_specification[ core::time::Duration::from_millis ](millis: u64) -> (duration: Duration)
    ensures
        duration == duration_of_millis(millis),
;

/// `num_cpus::get_physical` counts the processor cores of the machine. Nothing
/// is claimed of the number.
pub assume_specification[ num_cpus::get_physical ]() -> (cores: usize)
;

/// `PathBuf::clone` makes a copy of the path.
pub assume_specification[ <std::path::PathBuf as Clone>::clone ](path: &PathBuf) -> (copy: PathBuf)
    ensures
        copy == *path,
;

/// Configuration of the pool of recognition workers.
#[derive(Debug)]
pub struct WhisperPoolConfig {
    worker_count: usize,
    model_path: PathBuf,
    use_gpu: bool,
    gpu_device: i32,
    flash_attn: bool,
    max_queued_chunks: usize,
    block_on_full_queue: bool,
    dispatch_idle_poll: Duration,
    timeout_streak_threshold: u32,
}

impl Clone for WhisperPoolConfig {
    fn clone(&self) -> (copy: WhisperPoolConfig)
        ensures
            copy == *self,
    {
        WhisperPoolConfig {
            worker_count: self.worker_count,
            model_path: self.model_path.clone(),
            use_gpu: self.use_gpu,
            gpu_device: self.gpu_device,
            flash_attn: self.flash_attn,
            max_queued_chunks: self.max_queued_chunks,
            block_on_full_queue: self.block_on_full_queue,
            dispatch_idle_poll: self.dispatch_idle_poll,
            timeout_streak_threshold: self.timeout_streak_threshold,
        }
    }
}

/// What a [`WhisperPoolConfig`] says.
#[verifier::ext_equal]
pub struct WhisperPoolConfigView {
    /// Number of worker threads.
    pub worker_count: usize,
    /// Path of the model file.
    pub model_path: PathBuf,
    /// Whether the model runs on a GPU.
    pub use_gpu: bool,
    /// Index of the GPU.
    pub gpu_device: i32,
    /// Whether the model uses flash attention.
    pub flash_attn: bool,
    /// Chunks that may be queued for the workers.
    pub max_queued_chunks: usize,
    /// Whether a full queue blocks the caller; else it is told to wait.
    pub block_on_full_queue: bool,
    /// Longest wait on a full queue before it is looked at again.
    pub dispatch_idle_poll: Duration,
    /// Consecutive timeouts after which a worker's state is renewed.
    pub timeout_streak_threshold: u32,
}

impl View for WhisperPoolConfig {
    type V = WhisperPoolConfigView;

    closed spec fn view(&self) -> WhisperPoolConfigView {
        WhisperPoolConfigView {
            worker_count: self.worker_count,
            model_path: self.model_path,
            use_gpu: self.use_gpu,
            gpu_device: self.gpu_device,
            flash_attn: self.flash_attn,
            max_queued_chunks: self.max_queued_chunks,
            block_on_full_queue: self.block_on_full_queue,
            dispatch_idle_poll: self.dispatch_idle_poll,
            timeout_streak_threshold: self.timeout_streak_threshold,
        }
    }
}

/// Default number of workers: half the cores but at least one, or one where a
/// GPU does the work, because a GPU serialises it anyway.
pub open spec fn worker_count_of(gpu: bool, physical: usize) -> usize {
    if gpu || physical < 2 {
        1
    } else {
        physical / 2
    }
}

/// Default streak of timeouts: three on a GPU, where renewing a state is dear,
/// else one.
pub open spec fn timeout_streak_of(gpu: bool) -> u32 {
    if gpu {
        3
    } else {
        1
    }
}

/// The defaults for a model, a backend and a number of cores.
pub open spec fn defaults_for(model_path: PathBuf, gpu: bool, physical: usize) -> WhisperPoolConfigView {
    WhisperPoolConfigView {
        worker_count: worker_count_of(gpu, physical),
        model_path,
        use_gpu: false,
        gpu_device: 0,
        flash_attn: false,
        max_queued_chunks: (worker_count_of(gpu, physical) + 4) as usize,
        block_on_full_queue: true,
        dispatch_idle_poll: duration_of_millis(10),
        timeout_streak_threshold: timeout_streak_of(gpu),
    }
}

/// There is always a worker. On a GPU there is one; elsewhere there are half as
/// many as there are cores, rounded down.
pub proof fn workers_take_half_the_cores(gpu: bool, physical: usize)
    ensures
        worker_count_of(gpu, physical) >= 1,
        gpu ==> worker_count_of(gpu, physical) == 1,
        !gpu && physical >= 2 ==> 2 * worker_count_of(gpu, physical) <= physical < 2
            * worker_count_of(gpu, physical) + 2,
        !gpu && physical < 2 ==> worker_count_of(gpu, physical) == 1,
        timeout_streak_of(gpu) == if gpu {
            3u32
        } else {
            1u32
        },
{
}

/// Whatever the machine, the queue holds four chunks more than there are workers,
/// a full queue blocks, and the model runs without a GPU unless told otherwise.
pub proof fn defaults_follow_the_workers(model_path: PathBuf, gpu: bool, physical: usize)
    ensures
        ({
            let config = defaults_for(model_path, gpu, physical);
            &&& config.model_path == model_path
            &&& gpu ==> config.worker_count == 1
            &&& !gpu && physical >= 2 ==> 2 * config.worker_count <= physical < 2
                * config.worker_count + 2
            &&& !gpu && physical < 2 ==> config.worker_count == 1
            &&& config.max_queued_chunks == config.worker_count + 4
            &&& config.block_on_full_queue
            &&& !config.use_gpu
            &&& config.gpu_device == 0
            &&& !config.flash_attn
            &&& config.dispatch_idle_poll == duration_of_millis(10)
            &&& config.timeout_streak_threshold == 3 <==> gpu
            &&& config.timeout_streak_threshold == 1 <==> !gpu
        }),
{
}

/// Whether the crate was built for a GPU. It has no GPU backend.
fn is_gpu_backend_active() -> (active: bool)
    ensures
        !active,
{
    false
}

/// Default number of workers for a backend and a number of cores.
pub fn worker_count_for(gpu: bool, physical: usize) -> (workers: usize)
    ensures
        workers == worker_count_of(gpu, physical),
        workers >= 1,
{
    if gpu || physical < 2 {
        1
    } else {
        physical / 2
    }
}

/// Default number of workers on this machine.
pub fn default_worker_count() -> (workers: usize)
    ensures
        exists|physical: usize| #[trigger] worker_count_of(false, physical) == workers,
        workers >= 1,
{
    let physical: usize = num_cpus::get_physical();
    worker_count_for(is_gpu_backend_active(), physical)
}

/// Default streak of timeouts for a backend.
pub fn timeout_streak_threshold_for(gpu: bool) -> (streak: u32)
    ensures
        streak == timeout_streak_of(gpu),
{
    if gpu {
        3
    } else {
        1
    }
}

/// Default streak of timeouts.
pub fn default_timeout_streak_threshold() -> (streak: u32)
    ensures
        streak == 1,
{
    timeout_streak_threshold_for(is_gpu_backend_active())
}

impl WhisperPoolConfig {
    /// The defaults for a model, a backend and a number of cores.
    pub fn for_machine<P: Into<PathBuf>>(model_path: P, gpu: bool, physical: usize) -> (config:
        WhisperPoolConfig)
        ensures
            config@ == defaults_for(config@.model_path, gpu, physical),
            call_ensures(<P as Into<PathBuf>>::into, (model_path,), config@.model_path),
    {
        let worker_count: usize = worker_count_for(gpu, physical);
        WhisperPoolConfig {
            worker_count,
            model_path: model_path.into(),
            use_gpu: false,
            gpu_device: 0,
            flash_attn: false,
            max_queued_chunks: worker_count + 4,
            block_on_full_queue: true,
            dispatch_idle_poll: Duration::from_millis(10),
            timeout_streak_threshold: timeout_streak_threshold_for(gpu),
        }
    }

    /// The defaults for a model on this machine.
    pub fn new<P: Into<PathBuf>>(model_path: P) -> (config: WhisperPoolConfig)
        ensures
            exists|physical: usize| #[trigger]
                defaults_for(config@.model_path, false, physical) == config@,
            config@.worker_count >= 1,
            call_ensures(<P as Into<PathBuf>>::into, (model_path,), config@.model_path),
    {
        let physical: usize = num_cpus::get_physical();
        let config: WhisperPoolConfig = WhisperPoolConfig::for_machine(
            model_path,
            is_gpu_backend_active(),
            physical,
        );
        assert(defaults_for(config@.model_path, false, physical) == config@);
        config
    }

    /// Number of worker threads.
    pub fn worker_count(&self) -> (value: usize)
        ensures
            value == self@.worker_count,
    {
        self.worker_count
    }

    /// Path of the model file.
    pub fn model_path(&self) -> (value: &PathBuf)
        ensures
            *value == self@.model_path,
    {
        &self.model_path
    }

    /// Whether the model runs on a GPU.
    pub fn use_gpu(&self) -> (value: bool)
        ensures
            value == self@.use_gpu,
    {
        self.use_gpu
    }

    /// Index of the GPU.
    pub fn gpu_device(&self) -> (value: i32)
        ensures
            value == self@.gpu_device,
    {
        self.gpu_device
    }

    /// Whether the model uses flash attention.
    pub fn flash_attn(&self) -> (value: bool)
        ensures
            value == self@.flash_attn,
    {
        self.flash_attn
    }

    /// Chunks that may be queued for the workers.
    pub fn max_queued_chunks(&self) -> (value: usize)
        ensures
            value == self@.max_queued_chunks,
    {
        self.max_queued_chunks
    }

    /// Whether a full queue blocks the caller; else it is told to wait.
    pub fn block_on_full_queue(&self) -> (value: bool)
        ensures
            value == self@.block_on_full_queue,
    {
        self.block_on_full_queue
    }

    /// Longest wait on a full queue before it is looked at again.
    pub fn dispatch_idle_poll(&self) -> (value: Duration)
        ensures
            value == self@.dispatch_idle_poll,
    {
        self.dispatch_idle_poll
    }

    /// Consecutive timeouts after which a worker's state is renewed.
    pub fn timeout_streak_threshold(&self) -> (value: u32)
        ensures
            value == self@.timeout_streak_threshold,
    {
        self.timeout_streak_threshold
    }

    /// Set [`Self::worker_count`].
    pub fn set_worker_count(&mut self, value: usize)
        ensures
            final(self)@ == (WhisperPoolConfigView { worker_count: value, ..old(self)@ }),
    {
        self.worker_count = value;
    }

    /// Set the path of the model file.
    pub fn set_model_path<P: Into<PathBuf>>(&mut self, value: P)
        ensures
            final(self)@ == (WhisperPoolConfigView {
                model_path: final(self)@.model_path,
                ..old(self)@
            }),
            call_ensures(<P as Into<PathBuf>>::into, (value,), final(self)@.model_path),
    {
        self.model_path = value.into();
    }

    /// Set [`Self::use_gpu`].
    pub fn set_use_gpu(&mut self, value: bool)
        ensures
            final(self)@ == (WhisperPoolConfigView { use_gpu: value, ..old(self)@ }),
    {
        self.use_gpu = value;
    }

    /// Set [`Self::gpu_device`].
    pub fn set_gpu_device(&mut self, value: i32)
        ensures
            final(self)@ == (WhisperPoolConfigView { gpu_device: value, ..old(self)@ }),
    {
        self.gpu_device = value;
    }

    /// Set [`Self::flash_attn`].
    pub fn set_flash_attn(&mut self, value: bool)
        ensures
            final(self)@ == (WhisperPoolConfigView { flash_attn: value, ..old(self)@ }),
    {
        self.flash_attn = value;
    }

    /// Set [`Self::max_queued_chunks`].
    pub fn set_max_queued_chunks(&mut self, value: usize)
        ensures
            final(self)@ == (WhisperPoolConfigView { max_queued_chunks: value, ..old(self)@ }),
    {
        self.max_queued_chunks = value;
    }

    /// Set [`Self::block_on_full_queue`].
    pub fn set_block_on_full_queue(&mut self, value: bool)
        ensures
            final(self)@ == (WhisperPoolConfigView { block_on_full_queue: value, ..old(self)@ }),
    {
        self.block_on_full_queue = value;
    }

    /// Set [`Self::dispatch_idle_poll`].
    pub fn set_dispatch_idle_poll(&mut self, value: Duration)
        ensures
            final(self)@ == (WhisperPoolConfigView { dispatch_idle_poll: value, ..old(self)@ }),
    {
        self.dispatch_idle_poll = value;
    }

    /// Set [`Self::timeout_streak_threshold`].
    pub fn set_timeout_streak_threshold(&mut self, value: u32)
        ensures
            final(self)@ == (WhisperPoolConfigView { timeout_streak_threshold: value, ..old(self)@ }),
    {
        self.timeout_streak_threshold = value;
    }

    /// Set [`Self::worker_count`], consuming the configuration.
    pub fn with_worker_count(self, value: usize) -> (config: WhisperPoolConfig)
        ensures
            config@ == (WhisperPoolConfigView { worker_count: value, ..self@ }),
    {
        let mut config: WhisperPoolConfig = self;
        config.worker_count = value;
        config
    }

    /// Set the path of the model file, consuming the configuration.
    pub fn with_model_path<P: Into<PathBuf>>(self, value: P) -> (config: WhisperPoolConfig)
        ensures
            config@ == (WhisperPoolConfigView { model_path: config@.model_path, ..self@ }),
            call_ensures(<P as Into<PathBuf>>::into, (value,), config@.model_path),
    {
        let mut config: WhisperPoolConfig = self;
        config.model_path = value.into();
        config
    }

    /// Set [`Self::use_gpu`], consuming the configuration.
    pub fn with_use_gpu(self, value: bool) -> (config: WhisperPoolConfig)
        ensures
            config@ == (WhisperPoolConfigView { use_gpu: value, ..self@ }),
    {
        let mut config: WhisperPoolConfig = self;
        config.use_gpu = value;
        config
    }

    /// Set [`Self::gpu_device`], consuming the configuration.
    pub fn with_gpu_device(self, value: i32) -> (config: WhisperPoolConfig)
        ensures
            config@ == (WhisperPoolConfigView { gpu_device: value, ..self@ }),
    {
        let mut config: WhisperPoolConfig = self;
        config.gpu_device = value;
        config
    }

    /// Set [`Self::flash_attn`], consuming the configuration.
    pub fn with_flash_attn(self, value: bool) -> (config: WhisperPoolConfig)
        ensures
            config@ == (WhisperPoolConfigView { flash_attn: value, ..self@ }),
    {
        let mut config: WhisperPoolConfig = self;
        config.flash_attn = value;
        config
    }

    /// Set [`Self::max_queued_chunks`], consuming the configuration.
    pub fn with_max_queued_chunks(self, value: usize) -> (config: WhisperPoolConfig)
        ensures
            config@ == (WhisperPoolConfigView { max_queued_chunks: value, ..self@ }),
    {
        let mut config: WhisperPoolConfig = self;
        config.max_queued_chunks = value;
        config
    }

    /// Set [`Self::block_on_full_queue`], consuming the configuration.
    pub fn with_block_on_full_queue(self, value: bool) -> (config: WhisperPoolConfig)
        ensures
            config@ == (WhisperPoolConfigView { block_on_full_queue: value, ..self@ }),
    {
        let mut config: WhisperPoolConfig = self;
        config.block_on_full_queue = value;
        config
    }

    /// Set [`Self::dispatch_idle_poll`], consuming the configuration.
    pub fn with_dispatch_idle_poll(self, value: Duration) -> (config: WhisperPoolConfig)
        ensures
            config@ == (WhisperPoolConfigView { dispatch_idle_poll: value, ..self@ }),
    {
        let mut config: WhisperPoolConfig = self;
        config.dispatch_idle_poll = value;
        config
    }

    /// Set [`Self::timeout_streak_threshold`], consuming the configuration.
    pub fn with_timeout_streak_threshold(self, value: u32) -> (config: WhisperPoolConfig)
        ensures
            config@ == (WhisperPoolConfigView { timeout_streak_threshold: value, ..self@ }),
    {
        let mut config: WhisperPoolConfig = self;
        config.timeout_streak_threshold = value;
        config
    }
}

} // verus!
