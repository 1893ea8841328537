//! Which batched segmentation export each execution mode looks for, who is allowed to carry
//! on without one, and how a segmentation model is put together.
use crate::device::{may_reach_openvino_gpu, may_reach_plugin, openvino_gpu_plugin, reaches_plugin};
use crate::grid::ScoreGrid;
use crate::mode::{BuildFeatures, ExecutionMode, ExecutionModeError, Feature};
use crate::runtime::{ModelLoadError, OrtRuntimeError};
use crate::score::{scaled_count, scaled_count_of};
use crate::text::{decimal, decimal_of, strip_suffix, strip_suffix_of};
use crate::text_laws::law_a_suffix_comes_off;
use vstd::prelude::*;

verus! {

/// The file name of the segmentation export.
pub const SEGMENTATION_ONNX: &'static str = "segmentation-3.0.onnx";

/// How many windows the batched export takes at once.
pub const PRIMARY_BATCH_SIZE: usize = 32;

/// How many windows the large native model takes at once.
pub const LARGE_BATCH_SIZE: usize = 64;

/// How many audio samples make a second.
pub const SAMPLE_RATE: usize = 16000;

/// How many audio samples make a window of ten seconds.
pub const WINDOW_SAMPLES: usize = 160000;

/// The most threads that a segmentation session works with.
pub const MOST_THREADS: usize = 6;

/// Errors that can occur during segmentation inference
///
/// `E` is the error that ONNX Runtime itself gives.
#[derive(Debug, PartialEq, Eq)]
#[non_exhaustive]
pub enum SegmentationError<E> {
    /// ONNX Runtime error
    Ort(E),
    /// Streaming channel was closed before all windows were sent
    Disconnected(ScoreGrid),
    /// Internal segmentation invariant was violated
    Invariant {
        /// Which step failed
        context: &'static str,
        /// Invariant failure details
        message: String,
    },
    /// Model output was missing or had an unexpected shape
    MalformedOutput {
        /// Which output extraction step failed
        context: &'static str,
        /// Output validation details
        message: String,
    },
    /// Background worker panicked
    WorkerPanic {
        /// Worker or thread name
        worker: String,
    },
}

impl SegmentationError<String> {
    /// What is said of the error.
    pub open spec fn text(self) -> Seq<char> {
        match self {
            SegmentationError::Ort(message) => message@,
            SegmentationError::Disconnected(_) => "receiver disconnected"@,
            SegmentationError::Invariant { context, message } => context@ + ": "@ + message@,
            SegmentationError::MalformedOutput { context, message } => context@ + ": "@ + message@,
            SegmentationError::WorkerPanic { worker } => worker@ + " thread panicked"@,
        }
    }

    /// What is said of the error.
    pub fn to_string(&self) -> (r: String)
        ensures
            r@ == self.text(),
    {
        match self {
            SegmentationError::Ort(message) => message.clone(),
            SegmentationError::Disconnected(_) => "receiver disconnected".to_owned(),
            SegmentationError::Invariant { context, message }
            | SegmentationError::MalformedOutput { context, message } => {
                let mut text: String = (*context).to_owned();
                text.append(": ");
                text.append(message.as_str());
                text
            },
            SegmentationError::WorkerPanic { worker } => {
                let mut text: String = worker.clone();
                text.append(" thread panicked");
                text
            },
        }
    }
}

/// The stock export for a batch, next to a model: its name with the batch size before the
/// ending. A name without the ending has none.
pub open spec fn batched_of(file_name: Seq<char>, batch_size: nat) -> Option<Seq<char>> {
    match strip_suffix_of(file_name, ".onnx"@) {
        Some(stem) => Some(stem + "-b"@ + decimal_of(batch_size) + ".onnx"@),
        None => None,
    }
}

/// The name of the segmentation export without its ending.
pub open spec fn export_stem() -> Seq<char> {
    "segmentation-3.0"@
}

/// The file name of the stock batched export.
pub open spec fn stock_name() -> Seq<char> {
    export_stem() + "-b"@ + decimal_of(PRIMARY_BATCH_SIZE as nat) + ".onnx"@
}

/// The file name of the derived batched model that OpenVINO's GPU plugin can compile.
pub open spec fn derived_name() -> Seq<char> {
    export_stem() + "-b"@ + decimal_of(PRIMARY_BATCH_SIZE as nat) + "-dynseq.onnx"@
}

/// The batched model that a mode looks for next to a model.
pub open spec fn primary_of(file_name: Seq<char>, mode: ExecutionMode) -> Option<Seq<char>> {
    if !reaches_plugin(mode) {
        batched_of(file_name, PRIMARY_BATCH_SIZE as nat)
    } else if strip_suffix_of(file_name, ".onnx"@) is Some {
        Some(derived_name())
    } else {
        None
    }
}

/// The batched model that a mode is reported to look for.
pub open spec fn reported_of(mode: ExecutionMode) -> Seq<char> {
    if reaches_plugin(mode) {
        derived_name()
    } else {
        stock_name()
    }
}

/// A stem with a batch size and an ending.
fn with_batch(stem: &str, batch_size: usize, ending: &str) -> (r: String)
    ensures
        r@ == stem@ + "-b"@ + decimal_of(batch_size as nat) + ending@,
{
    let mut name: String = stem.to_owned();
    name.append("-b");
    let size: String = decimal(batch_size);
    name.append(size.as_str());
    name.append(ending);
    name
}

/// The file name of the stock export for a batch, next to a model.
pub fn batched_model_file(file_name: &str, batch_size: usize) -> (r: Option<String>)
    ensures
        match r {
            Some(name) => batched_of(file_name@, batch_size as nat) == Some(name@),
            None => batched_of(file_name@, batch_size as nat) is None,
        },
{
    match strip_suffix(file_name, ".onnx") {
        Some(stem) => Some(with_batch(stem, batch_size, ".onnx")),
        None => None,
    }
}

/// The file name of the batched segmentation model this mode should load, if any.
///
/// On OpenVINO's GPU plugin this is a different file, not the stock export. What that avoids:
/// the plugin generates an LSTM kernel that the OpenCL compiler rejects, and the session fails
/// to build -- taking the pipeline with it. The trigger is a static sequence length rather
/// than the batch; the unbatched model survives because its sample count is dynamic, not
/// because it is smaller.
pub fn primary_batched_file(file_name: &str, mode: ExecutionMode) -> (r: Option<String>)
    ensures
        match r {
            Some(name) => primary_of(file_name@, mode) == Some(name@),
            None => primary_of(file_name@, mode) is None,
        },
{
    if openvino_gpu_plugin(mode) {
        return dynamic_sequence_batched_file(file_name);
    }
    batched_model_file(file_name, PRIMARY_BATCH_SIZE)
}

/// Whether a batched segmentation model that is present and will not build costs this mode
/// only its batching, rather than its load.
///
/// True for OpenVINO alone, because there the file is written by the consumer at startup
/// from whatever export is in the cache: a new export shape can pass onnx's checker and still
/// be refused by the plugin, and propagating that stops every installation that derives it
/// the next time the weights change, over a feature whose absence costs speed. Every other
/// backend gets the export with its weights, so present-and-unbuildable is a damaged download
/// and the load should stop on it.
///
/// Narrowed to the devices that can actually refuse: OpenVINO on the processor or the NPU
/// loads the stock export that ships with the weights.
///
/// Bare `AUTO` is in, and has to be. It takes the stock export -- see `openvino_gpu_plugin`
/// for why -- and may still land on a GPU that refuses it.
pub fn tolerates_unbuildable_batched(mode: ExecutionMode) -> (r: bool)
    ensures
        r == may_reach_plugin(mode),
{
    may_reach_openvino_gpu(mode)
}

/// The batched segmentation model this mode looks for, which is not the same file for all of
/// them.
///
/// Asked rather than spelled, and asked per mode, because a consumer that reports whether
/// batching took has to name the file it looked for -- and naming the OpenVINO one on a CUDA
/// deployment tells the reader to go find a file nothing there wants.
pub fn batched_segmentation_file_name_for(mode: ExecutionMode) -> (r: String)
    ensures
        r@ == reported_of(mode),
{
    if openvino_gpu_plugin(mode) {
        return batched_segmentation_file_name();
    }
    with_batch(segmentation_stem(), PRIMARY_BATCH_SIZE, ".onnx")
}

/// The file name OpenVINO's **GPU plugin** looks for when it batches segmentation.
///
/// Not the file every OpenVINO device looks for. On the processor and the NPU the loader takes
/// the stock export that ships with the weights, and `batched_segmentation_file_name_for` is
/// the one that answers per mode.
///
/// Built from SEGMENTATION_ONNX and PRIMARY_BATCH_SIZE rather than spelled out. Anything that
/// spells it out instead goes quietly wrong the moment either constant changes, in a direction
/// whose only symptom is batching being off.
pub fn batched_segmentation_file_name() -> (r: String)
    ensures
        r@ == derived_name(),
{
    with_batch(segmentation_stem(), PRIMARY_BATCH_SIZE, "-dynseq.onnx")
}

/// What is left of the export's name without its ending.
proof fn lemma_export_stem()
    ensures
        strip_suffix_of(SEGMENTATION_ONNX@, ".onnx"@) == Some(export_stem()),
{
    reveal_strlit("segmentation-3.0.onnx");
    reveal_strlit("segmentation-3.0");
    reveal_strlit(".onnx");
    assert(SEGMENTATION_ONNX@ =~= export_stem() + ".onnx"@);
    assert(SEGMENTATION_ONNX@.take(export_stem().len() as int) =~= export_stem());
    assert(SEGMENTATION_ONNX@.skip(export_stem().len() as int) =~= ".onnx"@);
}

/// The name of the segmentation export without its ending.
fn segmentation_stem() -> (r: &'static str)
    ensures
        r@ == export_stem(),
{
    proof {
        lemma_export_stem();
    }
    match strip_suffix(SEGMENTATION_ONNX, ".onnx") {
        Some(stem) => stem,
        None => SEGMENTATION_ONNX,
    }
}

/// The file name of the batched segmentation model OpenVINO can compile, named apart from the
/// stock one.
///
/// A different filename rather than the same one, because the two are not interchangeable
/// and the stock one is what crashes. Absent, batching is simply off, which is the safe
/// direction to fall.
fn dynamic_sequence_batched_file(file_name: &str) -> (r: Option<String>)
    ensures
        match r {
            Some(name) => strip_suffix_of(file_name@, ".onnx"@) is Some && name@ == derived_name(),
            None => strip_suffix_of(file_name@, ".onnx"@) is None,
        },
{
    // The name is fixed rather than derived from what was passed, so that the one string a
    // provisioning step has to produce has exactly one definition. The stem is still checked,
    // because a caller handing this something that is not a model should get None.
    match strip_suffix(file_name, ".onnx") {
        Some(_) => Some(batched_segmentation_file_name()),
        None => None,
    }
}

/// How many threads a segmentation session works with, of those that the machine has.
pub fn intra_threads(available: usize) -> (r: usize)
    ensures
        r == if available < MOST_THREADS {
            available
        } else {
            MOST_THREADS
        },
{
    if available < MOST_THREADS {
        available
    } else {
        MOST_THREADS
    }
}

/// Sliding-window segmentation model (pyannote segmentation-3.0)
///
/// `S` is a session that runs a model.
#[derive(Debug, PartialEq, Eq)]
pub struct SegmentationModel<S> {
    /// The execution mode this model was loaded with.
    pub mode: ExecutionMode,
    /// The session that takes one window.
    pub session: S,
    /// The session that takes a batch of windows, where there is one.
    pub primary_batched_session: Option<S>,
    /// How far the window advances each step.
    pub step_samples: usize,
}

impl<S> SegmentationModel<S> {
    /// Whether segmentation runs batched, which is the session and not the file.
    ///
    /// A consumer that reports this had to ask whether the prepared model exists, and that
    /// answer is one step short of the truth: the file can be there and its session can have
    /// been declined.
    pub fn is_batched(&self) -> (r: bool)
        ensures
            r == (self.primary_batched_session is Some),
    {
        self.primary_batched_session.is_some()
    }

    /// Audio sample rate in Hz (16000)
    pub fn sample_rate(&self) -> (r: usize)
        ensures
            r == SAMPLE_RATE,
    {
        SAMPLE_RATE
    }

    /// Number of audio samples per sliding window
    pub fn window_samples(&self) -> (r: usize)
        ensures
            r == WINDOW_SAMPLES,
    {
        WINDOW_SAMPLES
    }

    /// Number of audio samples the window advances each step
    pub fn step_samples(&self) -> (r: usize)
        ensures
            r == self.step_samples,
    {
        self.step_samples
    }

    /// Execution mode this model was loaded with
    pub fn mode(&self) -> (r: ExecutionMode)
        ensures
            r == self.mode,
    {
        self.mode
    }

    /// Starts loading a segmentation-3.0 ONNX model on the processor.
    pub fn new<E>(step_duration: u32, features: BuildFeatures) -> (r: Result<
        SegmentationLoad<S>,
        ModelLoadError<E>,
    >)
        ensures
            r == Ok::<SegmentationLoad<S>, ModelLoadError<E>>(
                started(ExecutionMode::Cpu, step_duration),
            ),
    {
        SegmentationModel::with_mode(step_duration, ExecutionMode::Cpu, features)
    }

    /// Starts loading a segmentation-3.0 ONNX model with the requested execution mode, whose
    /// windows are `step_duration` seconds apart.
    pub fn with_mode<E>(
        step_duration: u32,
        mode: ExecutionMode,
        features: BuildFeatures,
    ) -> (r: Result<SegmentationLoad<S>, ModelLoadError<E>>)
        ensures
            match mode.refusal(features) {
                Some(reason) => r == Err::<SegmentationLoad<S>, ModelLoadError<E>>(
                    ModelLoadError::UnsupportedExecutionMode(ExecutionModeError { mode, reason }),
                ),
                None => r == Ok::<SegmentationLoad<S>, ModelLoadError<E>>(
                    started(mode, step_duration),
                ),
            },
    {
        match mode.validate(features) {
            Ok(_) => Ok(
                SegmentationLoad {
                    mode,
                    step_samples: scaled_count(step_duration, SAMPLE_RATE as u32),
                    stage: LoadStage::Runtime,
                    session: None,
                    batched: None,
                    missing: None,
                },
            ),
            Err(error) => Err(ModelLoadError::UnsupportedExecutionMode(error)),
        }
    }
}

/// A compiled CoreML bundle.
#[derive(Debug, Clone, Copy, PartialEq, Eq, Structural)]
pub enum NativeAsset {
    /// The model that takes one window
    Single,
    /// The model that takes a batch of windows
    Batched,
    /// The model that takes a large batch of windows
    LargeBatched,
}

impl NativeAsset {
    /// How many windows the model takes at once.
    pub fn batch_size(self) -> (r: usize)
        ensures
            r == match self {
                NativeAsset::Single => 1,
                NativeAsset::Batched => PRIMARY_BATCH_SIZE,
                NativeAsset::LargeBatched => LARGE_BATCH_SIZE,
            },
    {
        match self {
            NativeAsset::Single => 1,
            NativeAsset::Batched => PRIMARY_BATCH_SIZE,
            NativeAsset::LargeBatched => LARGE_BATCH_SIZE,
        }
    }
}

/// What loading a segmentation model has to do next.
#[derive(Debug, Clone, Copy, PartialEq, Eq, Structural)]
pub enum LoadStage {
    /// Prepare ONNX Runtime.
    Runtime,
    /// Check that the native assets are there.
    Assets,
    /// Build the session that takes one window.
    Session,
    /// Look for the batched model, and build its session if it is there.
    Batched,
    /// Load a native asset.
    Native(NativeAsset),
    /// Nothing: the model is loaded.
    Loaded,
}

/// A segmentation model that is being loaded.
pub struct SegmentationLoad<S> {
    /// The execution mode that was asked for.
    pub mode: ExecutionMode,
    /// How far the window advances each step.
    pub step_samples: usize,
    /// What has to be done next.
    pub stage: LoadStage,
    /// The session that takes one window, once it is built.
    pub session: Option<S>,
    /// The session that takes a batch of windows, where one was built.
    pub batched: Option<S>,
    /// The path of the first native asset that was found missing.
    pub missing: Option<String>,
}

/// What was done for a stage, and what it came to.
pub enum LoadEvent<S, E> {
    /// ONNX Runtime was prepared.
    Runtime(Result<(), OrtRuntimeError>),
    /// The native assets were checked.
    Assets(Result<(), ModelLoadError<E>>),
    /// The session that takes one window was built.
    Session(Result<S, E>),
    /// The batched model was not there, or its session was built.
    Batched(Option<Result<S, E>>),
    /// A native asset was loaded, or was not there, at a path.
    Native(Result<bool, ModelLoadError<E>>, String),
}

/// How loading starts, in a mode that the build carries.
pub open spec fn started<S>(mode: ExecutionMode, step_duration: u32) -> SegmentationLoad<S> {
    SegmentationLoad {
        mode,
        step_samples: scaled_count_of(step_duration, SAMPLE_RATE as u32),
        stage: LoadStage::Runtime,
        session: None,
        batched: None,
        missing: None,
    }
}

/// Whether an event is what a stage asked for.
pub open spec fn answers<S, E>(event: LoadEvent<S, E>, stage: LoadStage) -> bool {
    match stage {
        LoadStage::Runtime => event is Runtime,
        LoadStage::Assets => event is Assets,
        LoadStage::Session => event is Session,
        LoadStage::Batched => event is Batched,
        LoadStage::Native(_) => event is Native,
        LoadStage::Loaded => false,
    }
}

/// Whether a mode runs on native CoreML.
pub open spec fn native(mode: ExecutionMode) -> bool {
    mode.feature() == Some(Feature::CoreMl)
}

/// What a mode makes of an attempt to build the batched session: `None` where batching is
/// off, and an error where the load has to stop.
pub open spec fn batched_outcome<S, E>(
    mode: ExecutionMode,
    attempt: Option<Result<S, E>>,
) -> Result<Option<S>, E> {
    match attempt {
        None => Ok(None),
        Some(Ok(session)) => Ok(Some(session)),
        Some(Err(error)) => if may_reach_plugin(mode) {
            Ok(None)
        } else {
            Err(error)
        },
    }
}

/// What the stage after a native asset is.
pub open spec fn after_native(asset: NativeAsset) -> LoadStage {
    match asset {
        NativeAsset::Single => LoadStage::Native(NativeAsset::Batched),
        NativeAsset::Batched => LoadStage::Native(NativeAsset::LargeBatched),
        NativeAsset::LargeBatched => LoadStage::Loaded,
    }
}

/// The first missing asset, after one more was looked for.
pub open spec fn first_missing(
    missing: Option<String>,
    found: bool,
    path: String,
) -> Option<String> {
    match missing {
        Some(earlier) => Some(earlier),
        None => if found {
            None
        } else {
            Some(path)
        },
    }
}

/// What a stage's event makes of a load.
pub open spec fn advanced<S, E>(
    load: SegmentationLoad<S>,
    event: LoadEvent<S, E>,
) -> Result<SegmentationLoad<S>, ModelLoadError<E>> {
    match event {
        LoadEvent::Runtime(Ok(_)) => Ok(
            SegmentationLoad {
                stage: if native(load.mode) {
                    LoadStage::Assets
                } else {
                    LoadStage::Session
                },
                ..load
            },
        ),
        LoadEvent::Runtime(Err(error)) => Err(ModelLoadError::Runtime(error)),
        LoadEvent::Assets(Ok(_)) => Ok(SegmentationLoad { stage: LoadStage::Session, ..load }),
        LoadEvent::Assets(Err(error)) => Err(error),
        LoadEvent::Session(Ok(session)) => Ok(
            SegmentationLoad { stage: LoadStage::Batched, session: Some(session), ..load },
        ),
        LoadEvent::Session(Err(error)) => Err(ModelLoadError::Ort(error)),
        LoadEvent::Batched(attempt) => match batched_outcome(load.mode, attempt) {
            Ok(batched) => Ok(
                SegmentationLoad {
                    stage: if native(load.mode) {
                        LoadStage::Native(NativeAsset::Single)
                    } else {
                        LoadStage::Loaded
                    },
                    batched,
                    ..load
                },
            ),
            Err(error) => Err(ModelLoadError::Ort(error)),
        },
        LoadEvent::Native(Ok(found), path) => {
            let missing = first_missing(load.missing, found, path);
            let stage = after_native(load.stage->Native_0);
            match missing {
                Some(path) if stage == LoadStage::Loaded => Err(
                    ModelLoadError::MissingNativeAsset { mode: load.mode, path },
                ),
                _ => Ok(SegmentationLoad { stage, missing, ..load }),
            }
        },
        LoadEvent::Native(Err(error), _) => Err(error),
    }
}

/// What a mode makes of an attempt to build the batched session.
///
/// On OpenVINO a batched model that will not build turns batching off; it does not stop the
/// pipeline loading. Absence was already the safe direction to fall, and this is the same
/// outcome discovered one step later. Every other backend stops: its batched export ships with
/// the weights, so one that is present and will not build is a damaged download, and stopping
/// on it says so where falling back would not.
pub fn batched_session<S, E>(mode: ExecutionMode, attempt: Option<Result<S, E>>) -> (r: Result<
    Option<S>,
    E,
>)
    ensures
        r == batched_outcome(mode, attempt),
{
    match attempt {
        None => Ok(None),
        Some(Ok(session)) => Ok(Some(session)),
        Some(Err(error)) => {
            if tolerates_unbuildable_batched(mode) {
                Ok(None)
            } else {
                Err(error)
            }
        },
    }
}

impl<S> SegmentationLoad<S> {
    /// Once the session that takes one window is built, the load has it. Nothing is missing
    /// before the native assets are looked for, nor of a loaded model.
    pub open spec fn well_formed(&self) -> bool {
        match self.stage {
            LoadStage::Runtime => self.missing is None,
            LoadStage::Assets => self.missing is None,
            LoadStage::Session => self.missing is None,
            LoadStage::Batched => self.session is Some && self.missing is None,
            LoadStage::Native(_) => self.session is Some,
            LoadStage::Loaded => self.session is Some && self.missing is None,
        }
    }

    /// Takes what a stage came to, and moves on to the next.
    pub fn advance<E>(self, event: LoadEvent<S, E>) -> (r: Result<Self, ModelLoadError<E>>)
        requires
            self.well_formed(),
            answers(event, self.stage),
        ensures
            r == advanced(self, event),
            r matches Ok(next) ==> next.well_formed(),
    {
        match event {
            LoadEvent::Runtime(Ok(_)) => {
                let stage: LoadStage = if self.mode.is_coreml() {
                    LoadStage::Assets
                } else {
                    LoadStage::Session
                };
                Ok(SegmentationLoad { stage, ..self })
            },
            LoadEvent::Runtime(Err(error)) => Err(ModelLoadError::Runtime(error)),
            LoadEvent::Assets(Ok(_)) => Ok(SegmentationLoad { stage: LoadStage::Session, ..self }),
            LoadEvent::Assets(Err(error)) => Err(error),
            LoadEvent::Session(Ok(session)) => Ok(
                SegmentationLoad { stage: LoadStage::Batched, session: Some(session), ..self },
            ),
            LoadEvent::Session(Err(error)) => Err(ModelLoadError::Ort(error)),
            LoadEvent::Batched(attempt) => {
                let stage: LoadStage = if self.mode.is_coreml() {
                    LoadStage::Native(NativeAsset::Single)
                } else {
                    LoadStage::Loaded
                };
                match batched_session(self.mode, attempt) {
                    Ok(batched) => Ok(SegmentationLoad { stage, batched, ..self }),
                    Err(error) => Err(ModelLoadError::Ort(error)),
                }
            },
            LoadEvent::Native(Ok(found), path) => self.native_loaded(found, path),
            LoadEvent::Native(Err(error), _path) => Err(error),
        }
    }

    /// Moves on from a native asset that was loaded or was not there.
    fn native_loaded<E>(self, found: bool, path: String) -> (r: Result<Self, ModelLoadError<E>>)
        requires
            self.well_formed(),
            self.stage is Native,
        ensures
            r == advanced(self, LoadEvent::<S, E>::Native(Ok(found), path)),
            r matches Ok(next) ==> next.well_formed(),
    {
        let mode: ExecutionMode = self.mode;
        let stage: LoadStage = match self.stage {
            LoadStage::Native(NativeAsset::Single) => LoadStage::Native(NativeAsset::Batched),
            LoadStage::Native(NativeAsset::Batched) => LoadStage::Native(NativeAsset::LargeBatched),
            _ => LoadStage::Loaded,
        };
        let missing: Option<String> = match self.missing {
            Some(earlier) => Some(earlier),
            None => {
                if found {
                    None
                } else {
                    Some(path)
                }
            },
        };
        match missing {
            Some(path) => {
                if stage == LoadStage::Loaded {
                    Err(ModelLoadError::MissingNativeAsset { mode, path })
                } else {
                    Ok(
                        SegmentationLoad {
                            mode,
                            step_samples: self.step_samples,
                            stage,
                            session: self.session,
                            batched: self.batched,
                            missing: Some(path),
                        },
                    )
                }
            },
            None => Ok(
                SegmentationLoad {
                    mode,
                    step_samples: self.step_samples,
                    stage,
                    session: self.session,
                    batched: self.batched,
                    missing: None,
                },
            ),
        }
    }

    /// The model that was loaded, or the load as it is where it has not come to its end.
    pub fn finish(self) -> (r: Result<SegmentationModel<S>, Self>)
        requires
            self.well_formed(),
        ensures
            match r {
                Ok(model) => {
                    &&& self.stage == LoadStage::Loaded
                    &&& model == (SegmentationModel {
                        mode: self.mode,
                        session: self.session->0,
                        primary_batched_session: self.batched,
                        step_samples: self.step_samples,
                    })
                },
                Err(load) => self.stage != LoadStage::Loaded && load == self,
            },
    {
        if self.stage != LoadStage::Loaded {
            return Err(self);
        }
        match self.session {
            Some(session) => Ok(
                SegmentationModel {
                    mode: self.mode,
                    session,
                    primary_batched_session: self.batched,
                    step_samples: self.step_samples,
                },
            ),
            None => Err(self),
        }
    }
}

/// The file name that is reported for a mode is the one that the loader looks for next to the
/// segmentation export.
pub proof fn law_reported_name_is_the_one_looked_for(mode: ExecutionMode)
    ensures
        primary_of(SEGMENTATION_ONNX@, mode) == Some(reported_of(mode)),
{
    lemma_export_stem();
}

/// Nothing that certainly reaches OpenVINO's GPU plugin is ever handed the stock export, and
/// nothing else looks for the derived model.
pub proof fn law_the_plugin_never_takes_the_stock_export(mode: ExecutionMode)
    ensures
        stock_name() != derived_name(),
        primary_of(SEGMENTATION_ONNX@, mode) == Some(stock_name()) <==> !reaches_plugin(mode),
        primary_of(SEGMENTATION_ONNX@, mode) == Some(derived_name()) <==> reaches_plugin(mode),
{
    lemma_export_stem();
    reveal_strlit(".onnx");
    reveal_strlit("-dynseq.onnx");
    assert(stock_name().len() + 7 == derived_name().len());
}

/// A file that is no model has no batched model beside it, in any mode.
pub proof fn law_no_batched_model_beside_what_is_no_model(
    file_name: Seq<char>,
    mode: ExecutionMode,
)
    ensures
        primary_of(file_name, mode) is None <==> strip_suffix_of(file_name, ".onnx"@) is None,
{
}

/// Every mode that looks for the derived model survives one that will not build, and so does
/// a choice left to OpenVINO; no mode but OpenVINO does.
pub proof fn law_who_survives_a_batched_model_that_will_not_build<S, E>(
    mode: ExecutionMode,
    error: E,
)
    ensures
        reaches_plugin(mode) ==> batched_outcome::<S, E>(mode, Some(Err(error))) == Ok::<
            Option<S>,
            E,
        >(None),
        mode !is OpenVino ==> batched_outcome::<S, E>(mode, Some(Err(error))) == Err::<
            Option<S>,
            E,
        >(error),
        batched_outcome::<S, E>(mode, None) == Ok::<Option<S>, E>(None),
{
}

/// A load that goes well ends with a model that has the sessions that were built, in the mode
/// that was asked for: native assets are asked of CoreML modes and of no others.
pub proof fn law_a_load_that_goes_well<S, E>(
    mode: ExecutionMode,
    step_duration: u32,
    session: S,
    batched: Option<S>,
    path: String,
)
    ensures
        ({
            let attempt = match batched {
                Some(session) => Some(Ok::<S, E>(session)),
                None => None,
            };
            let ready = advanced::<S, E>(started(mode, step_duration), LoadEvent::Runtime(Ok(())));
            let assured = if native(mode) {
                advanced::<S, E>(ready->Ok_0, LoadEvent::Assets(Ok(())))
            } else {
                ready
            };
            let built = advanced::<S, E>(assured->Ok_0, LoadEvent::Session(Ok(session)));
            let both = advanced::<S, E>(built->Ok_0, LoadEvent::Batched(attempt));
            let found = LoadEvent::<S, E>::Native(Ok(true), path);
            let end = if native(mode) {
                advanced::<S, E>(
                    advanced::<S, E>(advanced::<S, E>(both->Ok_0, found)->Ok_0, found)->Ok_0,
                    found,
                )
            } else {
                both
            };
            end == Ok::<SegmentationLoad<S>, ModelLoadError<E>>(
                SegmentationLoad {
                    mode,
                    step_samples: scaled_count_of(step_duration, SAMPLE_RATE as u32),
                    stage: LoadStage::Loaded,
                    session: Some(session),
                    batched,
                    missing: None,
                },
            )
        }),
{
}

/// The stock export for a batch has the model's name with the batch size before the ending,
/// and only what has the ending has one; what reaches the GPU plugin takes a name of its own.
pub proof fn law_the_batch_size_goes_before_the_ending(
    stem: Seq<char>,
    other: Seq<char>,
    batch_size: nat,
    mode: ExecutionMode,
)
    requires
        forall|head: Seq<char>| other != #[trigger] (head + ".onnx"@),
    ensures
        batched_of(stem + ".onnx"@, batch_size) == Some(
            stem + "-b"@ + decimal_of(batch_size) + ".onnx"@,
        ),
        batched_of(other, batch_size) is None,
        !reaches_plugin(mode) ==> primary_of(stem + ".onnx"@, mode) == Some(
            stem + "-b"@ + decimal_of(32) + ".onnx"@,
        ),
        reaches_plugin(mode) ==> primary_of(stem + ".onnx"@, mode) == Some(
            "segmentation-3.0"@ + "-b"@ + decimal_of(32) + "-dynseq.onnx"@,
        ),
        primary_of(other, mode) is None,
{
    law_a_suffix_comes_off(other, stem, ".onnx"@);
    if strip_suffix_of(other, ".onnx"@) is Some {
        let head = strip_suffix_of(other, ".onnx"@)->0;
        assert(other == head + ".onnx"@);
    }
}

/// A session that is built or a batched model that is not there never stops a load; one that
/// will not build stops it exactly where the mode cannot reach the GPU plugin.
pub proof fn law_what_a_batched_attempt_comes_to<S, E>(mode: ExecutionMode, session: S, error: E)
    ensures
        batched_outcome::<S, E>(mode, None) == Ok::<Option<S>, E>(None),
        batched_outcome::<S, E>(mode, Some(Ok(session))) == Ok::<Option<S>, E>(Some(session)),
        may_reach_plugin(mode) ==> batched_outcome::<S, E>(mode, Some(Err(error))) == Ok::<
            Option<S>,
            E,
        >(None),
        !may_reach_plugin(mode) ==> batched_outcome::<S, E>(mode, Some(Err(error))) == Err::<
            Option<S>,
            E,
        >(error),
{
}

/// A stage that fails ends the load with its own error, whatever came before it; only a
/// batched model that will not build may be passed over.
pub proof fn law_a_failed_stage_ends_the_load<S, E>(
    load: SegmentationLoad<S>,
    runtime: OrtRuntimeError,
    error: E,
    reason: ModelLoadError<E>,
    path: String,
)
    ensures
        advanced::<S, E>(load, LoadEvent::Runtime(Err(runtime))) == Err::<
            SegmentationLoad<S>,
            ModelLoadError<E>,
        >(ModelLoadError::Runtime(runtime)),
        advanced::<S, E>(load, LoadEvent::Assets(Err(reason))) == Err::<
            SegmentationLoad<S>,
            ModelLoadError<E>,
        >(reason),
        advanced::<S, E>(load, LoadEvent::Session(Err(error))) == Err::<
            SegmentationLoad<S>,
            ModelLoadError<E>,
        >(ModelLoadError::Ort(error)),
        !may_reach_plugin(load.mode) ==> advanced::<S, E>(
            load,
            LoadEvent::Batched(Some(Err(error))),
        ) == Err::<SegmentationLoad<S>, ModelLoadError<E>>(ModelLoadError::Ort(error)),
        may_reach_plugin(load.mode) ==> advanced::<S, E>(
            load,
            LoadEvent::Batched(Some(Err(error))),
        ) == advanced::<S, E>(load, LoadEvent::Batched(None)),
        advanced::<S, E>(load, LoadEvent::Native(Err(reason), path)) == Err::<
            SegmentationLoad<S>,
            ModelLoadError<E>,
        >(reason),
{
}

/// The three native assets are looked for one after the other, and a load that misses any of
/// them ends with the path of the first that it missed.
pub proof fn law_the_first_missing_asset_is_named<S, E>(
    load: SegmentationLoad<S>,
    single: bool,
    batched: bool,
    large: bool,
    one: String,
    two: String,
    three: String,
)
    requires
        load.stage == LoadStage::Native(NativeAsset::Single),
        load.missing is None,
    ensures
        ({
            let first = advanced::<S, E>(load, LoadEvent::Native(Ok(single), one));
            let second = advanced::<S, E>(first->Ok_0, LoadEvent::Native(Ok(batched), two));
            let third = advanced::<S, E>(second->Ok_0, LoadEvent::Native(Ok(large), three));
            &&& first is Ok && first->Ok_0.stage == LoadStage::Native(NativeAsset::Batched)
            &&& second is Ok && second->Ok_0.stage == LoadStage::Native(NativeAsset::LargeBatched)
            &&& third is Ok <==> single && batched && large
            &&& third is Ok ==> third->Ok_0.stage == LoadStage::Loaded
            &&& third is Ok ==> third->Ok_0.session == load.session
            &&& third is Ok ==> third->Ok_0.batched == load.batched
            &&& third matches Err(error) ==> error == ModelLoadError::<E>::MissingNativeAsset {
                mode: load.mode,
                path: if !single {
                    one
                } else if !batched {
                    two
                } else {
                    three
                },
            }
        }),
{
}

} // verus!
