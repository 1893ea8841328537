//! Which execution provider ONNX Runtime is asked for, and how it is set up.
use crate::mode::{BuildFeatures, ExecutionMode, ExecutionModeError, Feature};
use ort::ep::ExecutionProviderDispatch;
use ort::session::builder::SessionBuilder;
use vstd::prelude::*;

verus! {

/// How a convolution algorithm is searched for.
#[derive(Debug, Clone, Copy, PartialEq, Eq, Structural)]
pub enum ConvolutionSearch {
    /// Every algorithm is measured.
    Exhaustive,
    /// Algorithms are sorted by how fast they are expected to be.
    Heuristic,
    /// The default algorithm is taken.
    Default,
}

/// How a memory arena grows.
#[derive(Debug, Clone, Copy, PartialEq, Eq, Structural)]
pub enum ArenaGrowth {
    /// By powers of two.
    NextPowerOfTwo,
    /// By what was asked for.
    SameAsRequested,
}

/// How the CUDA provider is set up.
#[derive(Debug, Clone, Copy, PartialEq, Eq, Structural)]
pub struct CudaOptions {
    /// Which device is used.
    pub device_id: i32,
    /// Whether TF32 may be used.
    pub tf32: bool,
    /// How a convolution algorithm is searched for.
    pub search: ConvolutionSearch,
    /// Whether convolutions may use as much memory as they need.
    pub max_workspace: bool,
    /// How the memory arena grows.
    pub arena: ArenaGrowth,
    /// Whether channels come last.
    pub prefer_nhwc: bool,
}

/// An execution provider, and how it is set up.
#[derive(Debug, PartialEq, Eq)]
pub enum Provider {
    /// The processor
    Cpu {
        /// Whether memory comes from an arena.
        arena: bool,
    },
    /// NVIDIA GPUs
    Cuda {
        /// How the provider is set up.
        options: CudaOptions,
    },
    /// NVIDIA GPUs, with runs captured as a CUDA graph
    CudaGraph {
        /// How the provider is set up.
        options: CudaOptions,
    },
    /// AMD GPUs
    MiGraphX {
        /// Which device is used.
        device_id: i32,
        /// How the memory arena grows.
        growth: ArenaGrowth,
    },
    /// Intel devices
    OpenVino {
        /// The device string.
        device_type: String,
        /// The precision of inference, where it is not the device's own.
        precision: Option<String>,
    },
}

/// What an execution provider is, with its texts as sequences of characters.
pub enum Setup {
    /// The processor, with or without an arena
    Cpu(bool),
    /// NVIDIA GPUs, and whether runs are captured as a CUDA graph
    Cuda(CudaOptions, bool),
    /// AMD GPUs: which device, and how the memory arena grows
    MiGraphX(i32, ArenaGrowth),
    /// Intel devices: the device string, and the precision where one is given
    OpenVino(Seq<char>, Option<Seq<char>>),
}

/// An execution provider that a session is asked to run on.
pub struct Registration {
    /// What the provider is.
    pub setup: Setup,
    /// Whether it is an error if the provider cannot be had.
    pub required: bool,
}

impl View for Provider {
    type V = Setup;

    open spec fn view(&self) -> Setup {
        match *self {
            Provider::Cpu { arena } => Setup::Cpu(arena),
            Provider::Cuda { options } => Setup::Cuda(options, false),
            Provider::CudaGraph { options } => Setup::Cuda(options, true),
            Provider::MiGraphX { device_id, growth } => Setup::MiGraphX(device_id, growth),
            Provider::OpenVino { device_type, precision } => Setup::OpenVino(
                device_type@,
                match precision {
                    Some(text) => Some(text@),
                    None => None,
                },
            ),
        }
    }
}

/// The registration of a provider: only the processor is optional, because a session falls
/// back to it anyway.
pub open spec fn registration_of(setup: Setup) -> Registration {
    Registration { setup, required: !(setup is Cpu) }
}

/// The CUDA options of every session.
pub open spec fn cuda_options() -> CudaOptions {
    CudaOptions {
        device_id: 0,
        tf32: true,
        search: ConvolutionSearch::Exhaustive,
        max_workspace: true,
        arena: ArenaGrowth::SameAsRequested,
        prefer_nhwc: true,
    }
}

/// The provider of a mode. CoreML modes use the processor for the sessions that still go
/// through ONNX Runtime, and a precision is for OpenVINO alone.
pub open spec fn setup_of(mode: ExecutionMode, precision: Option<Seq<char>>) -> Setup {
    match mode {
        ExecutionMode::Cpu => Setup::Cpu(false),
        ExecutionMode::CoreMl => Setup::Cpu(false),
        ExecutionMode::CoreMlFast => Setup::Cpu(false),
        ExecutionMode::Cuda => Setup::Cuda(cuda_options(), false),
        ExecutionMode::CudaFast => Setup::Cuda(cuda_options(), false),
        ExecutionMode::MiGraphX => Setup::MiGraphX(0, ArenaGrowth::SameAsRequested),
        ExecutionMode::OpenVino { device_type } => Setup::OpenVino(device_type@, precision),
    }
}

/// A text that may be left out, as a sequence of characters.
pub open spec fn text_of(text: Option<&str>) -> Option<Seq<char>> {
    match text {
        Some(text) => Some(text@),
        None => None,
    }
}

/// Whether a text can be handed to C, which ends strings at a zero.
pub open spec fn passable(text: Seq<char>) -> bool {
    !text.contains('\0')
}

/// Whether every text of a provider can be handed to C.
pub open spec fn all_passable(setup: Setup) -> bool {
    match setup {
        Setup::OpenVino(device, precision) => passable(device) && (precision matches Some(text)
            ==> passable(text)),
        _ => true,
    }
}

/// Whether a text can be handed to C.
pub fn is_passable(text: &str) -> (r: bool)
    ensures
        r == passable(text@),
{
    let n: usize = text.unicode_len();
    let mut i: usize = 0;
    while i < n
        invariant
            n == text@.len(),
            i <= n,
            forall|j: int| 0 <= j < i ==> #[trigger] text@[j] != '\0',
        decreases n - i,
    {
        if text.get_char(i) == '\0' {
            proof {
                assert(text@[i as int] == '\0');
            }
            return false;
        }
        i = i + 1;
    }
    true
}

/// Why a session could not be set up.
pub enum SessionError {
    /// Requested execution mode is not supported by this build
    UnsupportedExecutionMode(ExecutionModeError),
    /// ONNX Runtime refused the provider
    Ort(ort::Error),
}

/// `ort`'s session builder. What it has been asked to run on is `requested`.
#[verifier::external_type_specification]
#[verifier::external_body]
pub struct ExSessionBuilder(SessionBuilder);

/// `ort`'s execution provider, ready to be registered. What it was set up as is `configured`.
#[verifier::external_type_specification]
#[verifier::external_body]
pub struct ExExecutionProviderDispatch(ExecutionProviderDispatch);

/// `ort`'s error, carried through as it is.
#[verifier::external_type_specification]
#[verifier::external_body]
#[verifier::reject_recursive_types(R)]
pub struct ExError<R>(ort::Error<R>);

/// The providers that a session builder has been asked to register, in order.
pub uninterp spec fn requested(builder: SessionBuilder) -> Seq<Registration>;

/// The options that an execution provider holds.
pub uninterp spec fn configured(dispatch: ExecutionProviderDispatch) -> Registration;

/// `ort::ep::CPU`: the processor, with or without an arena. A provider is not required unless
/// it is told to be.
#[verifier::external_body]
fn cpu_dispatch(arena: bool) -> (r: ExecutionProviderDispatch)
    ensures
        configured(r) == (Registration { setup: Setup::Cpu(arena), required: false }),
{
    ort::ep::CPU::default().with_arena_allocator(arena).build()
}

/// `ort::ep::CUDA` with every option that is handed over, and `error_on_failure`, which makes
/// it required.
#[verifier::external_body]
fn cuda_dispatch(options: CudaOptions) -> (r: ExecutionProviderDispatch)
    ensures
        configured(r) == (Registration { setup: Setup::Cuda(options, false), required: true }),
{
    let search = match options.search {
        ConvolutionSearch::Exhaustive => ort::ep::cuda::ConvAlgorithmSearch::Exhaustive,
        ConvolutionSearch::Heuristic => ort::ep::cuda::ConvAlgorithmSearch::Heuristic,
        ConvolutionSearch::Default => ort::ep::cuda::ConvAlgorithmSearch::Default,
    };
    let arena = match options.arena {
        ArenaGrowth::NextPowerOfTwo => ort::ep::ArenaExtendStrategy::NextPowerOfTwo,
        ArenaGrowth::SameAsRequested => ort::ep::ArenaExtendStrategy::SameAsRequested,
    };
    let cuda = ort::ep::CUDA::default().with_device_id(options.device_id).with_tf32(options.tf32)
        .with_conv_algorithm_search(search).with_conv_max_workspace(options.max_workspace)
        .with_arena_extend_strategy(arena).with_prefer_nhwc(options.prefer_nhwc);
    cuda.build().error_on_failure()
}

/// `ort::ep::CUDA` as above, with `with_cuda_graph` as well.
#[verifier::external_body]
fn cuda_graph_dispatch(options: CudaOptions, graph: bool) -> (r: ExecutionProviderDispatch)
    ensures
        configured(r) == (Registration { setup: Setup::Cuda(options, graph), required: true }),
{
    let search = match options.search {
        ConvolutionSearch::Exhaustive => ort::ep::cuda::ConvAlgorithmSearch::Exhaustive,
        ConvolutionSearch::Heuristic => ort::ep::cuda::ConvAlgorithmSearch::Heuristic,
        ConvolutionSearch::Default => ort::ep::cuda::ConvAlgorithmSearch::Default,
    };
    let arena = match options.arena {
        ArenaGrowth::NextPowerOfTwo => ort::ep::ArenaExtendStrategy::NextPowerOfTwo,
        ArenaGrowth::SameAsRequested => ort::ep::ArenaExtendStrategy::SameAsRequested,
    };
    let cuda = ort::ep::CUDA::default().with_device_id(options.device_id).with_tf32(options.tf32)
        .with_conv_algorithm_search(search).with_conv_max_workspace(options.max_workspace)
        .with_arena_extend_strategy(arena).with_prefer_nhwc(options.prefer_nhwc);
    cuda.with_cuda_graph(graph).build().error_on_failure()
}

/// `ort::ep::MIGraphX` on a device, with a way for its memory arena to grow, and required.
#[verifier::external_body]
fn migraphx_dispatch(device_id: i32, arena: ArenaGrowth) -> (r: ExecutionProviderDispatch)
    ensures
        configured(r) == (Registration {
            setup: Setup::MiGraphX(device_id, arena),
            required: true,
        }),
{
    let strategy = match arena {
        ArenaGrowth::NextPowerOfTwo => ort::ep::ArenaExtendStrategy::NextPowerOfTwo,
        ArenaGrowth::SameAsRequested => ort::ep::ArenaExtendStrategy::SameAsRequested,
    };
    let migraphx = ort::ep::MIGraphX::default().with_device_id(device_id);
    migraphx.with_arena_extend_strategy(strategy).build().error_on_failure()
}

/// `ort::ep::OpenVINO` on the device that a string names, and required. It panics on a string
/// with a zero in it.
#[verifier::external_body]
fn openvino_dispatch(device_type: &str) -> (r: ExecutionProviderDispatch)
    requires
        passable(device_type@),
    ensures
        configured(r) == (Registration {
            setup: Setup::OpenVino(device_type@, None),
            required: true,
        }),
{
    ort::ep::OpenVINO::default().with_device_type(device_type).build().error_on_failure()
}

/// `ort::ep::OpenVINO` as above, with `with_precision` as well.
#[verifier::external_body]
fn openvino_precision_dispatch(device_type: &str, precision: &str) -> (r:
    ExecutionProviderDispatch)
    requires
        passable(device_type@),
        passable(precision@),
    ensures
        configured(r) == (Registration {
            setup: Setup::OpenVino(device_type@, Some(precision@)),
            required: true,
        }),
{
    let provider = ort::ep::OpenVINO::default().with_device_type(device_type);
    provider.with_precision(precision).build().error_on_failure()
}

/// `SessionBuilder::with_execution_providers` with one provider. A provider that is not
/// required is never an error, and a required one that cannot be registered is. Whether it can
/// be is the machine's business: nothing is said of that.
#[verifier::external_body]
fn register(builder: SessionBuilder, dispatch: ExecutionProviderDispatch) -> (r: Result<
    SessionBuilder,
    ort::Error,
>)
    ensures
        !configured(dispatch).required ==> r is Ok,
        r matches Ok(session) ==> requested(session) == requested(builder).push(
            configured(dispatch),
        ),
{
    Ok(builder.with_execution_providers([dispatch])?)
}

/// The CUDA options of every session.
fn usual_cuda_options() -> (r: CudaOptions)
    ensures
        r == cuda_options(),
{
    CudaOptions {
        device_id: 0,
        tf32: true,
        search: ConvolutionSearch::Exhaustive,
        max_workspace: true,
        arena: ArenaGrowth::SameAsRequested,
        prefer_nhwc: true,
    }
}

/// A text that may be left out, copied.
fn owned(text: Option<&str>) -> (r: Option<String>)
    ensures
        match r {
            Some(copy) => text_of(text) == Some(copy@),
            None => text is None,
        },
{
    match text {
        Some(text) => Some(text.to_owned()),
        None => None,
    }
}

/// The provider that a mode runs on, unless the build does not carry it.
pub fn provider_for(mode: ExecutionMode, precision: Option<&str>, features: BuildFeatures) -> (r:
    Result<Provider, ExecutionModeError>)
    ensures
        match mode.refusal(features) {
            Some(reason) => r == Err::<Provider, ExecutionModeError>(
                ExecutionModeError { mode, reason },
            ),
            None => r matches Ok(provider) && provider@ == setup_of(mode, text_of(precision)),
        },
{
    match mode.validate(features) {
        Err(error) => {
            return Err(error);
        },
        Ok(_) => {},
    }
    Ok(
        match mode {
            ExecutionMode::Cpu | ExecutionMode::CoreMl | ExecutionMode::CoreMlFast => {
                Provider::Cpu { arena: false }
            },
            ExecutionMode::Cuda | ExecutionMode::CudaFast => {
                Provider::Cuda { options: usual_cuda_options() }
            },
            ExecutionMode::MiGraphX => {
                Provider::MiGraphX { device_id: 0, growth: ArenaGrowth::SameAsRequested }
            },
            ExecutionMode::OpenVino { device_type } => {
                Provider::OpenVino { device_type: device_type.to_owned(), precision: owned(precision) }
            },
        },
    )
}

/// The provider of the embedding models when their runs are captured as a CUDA graph: the
/// processor in a build without CUDA.
pub fn graph_provider(features: BuildFeatures) -> (r: Provider)
    ensures
        r@ == if features.cuda {
            Setup::Cuda(cuda_options(), true)
        } else {
            Setup::Cpu(false)
        },
{
    if features.cuda {
        Provider::CudaGraph { options: usual_cuda_options() }
    } else {
        Provider::Cpu { arena: false }
    }
}

/// A provider set up for ONNX Runtime.
pub fn dispatch(provider: &Provider) -> (r: ExecutionProviderDispatch)
    requires
        all_passable(provider@),
    ensures
        configured(r) == registration_of(provider@),
{
    match provider {
        Provider::Cpu { arena } => cpu_dispatch(*arena),
        Provider::Cuda { options } => cuda_dispatch(*options),
        Provider::CudaGraph { options } => cuda_graph_dispatch(*options, true),
        Provider::MiGraphX { device_id, growth } => migraphx_dispatch(*device_id, *growth),
        Provider::OpenVino { device_type, precision } => match precision {
            Some(text) => openvino_precision_dispatch(device_type.as_str(), text.as_str()),
            None => openvino_dispatch(device_type.as_str()),
        },
    }
}

/// A session asked to run on a provider.
pub fn with_provider(builder: SessionBuilder, provider: &Provider) -> (r: Result<
    SessionBuilder,
    SessionError,
>)
    requires
        all_passable(provider@),
    ensures
        provider@ is Cpu ==> r is Ok,
        match r {
            Ok(session) => requested(session) == requested(builder).push(
                registration_of(provider@),
            ),
            Err(error) => error is Ort,
        },
{
    match register(builder, dispatch(provider)) {
        Ok(session) => Ok(session),
        Err(error) => Err(SessionError::Ort(error)),
    }
}

/// Map an execution mode to ORT execution providers
///
/// CoreML modes use ORT CPU for any sessions that still go through ORT such as FBANK,
/// While segmentation and embedding tail sessions use native CoreML directly
pub fn with_execution_mode(
    builder: SessionBuilder,
    mode: ExecutionMode,
    features: BuildFeatures,
) -> (r: Result<SessionBuilder, SessionError>)
    requires
        mode.refusal(features) is None ==> all_passable(setup_of(mode, None)),
    ensures
        asked(builder, mode, None, features, r),
{
    with_execution_mode_precision(builder, mode, None, features)
}

/// What asking a session to run in a mode comes to: an error before anything is registered
/// where the build refuses the mode, and otherwise the mode's provider, which the processor
/// always is and ONNX Runtime may refuse to be.
pub open spec fn asked(
    builder: SessionBuilder,
    mode: ExecutionMode,
    precision: Option<Seq<char>>,
    features: BuildFeatures,
    outcome: Result<SessionBuilder, SessionError>,
) -> bool {
    let setup = setup_of(mode, precision);
    match mode.refusal(features) {
        Some(reason) => outcome == Err::<SessionBuilder, SessionError>(
            SessionError::UnsupportedExecutionMode(ExecutionModeError { mode, reason }),
        ),
        None => {
            &&& setup is Cpu ==> outcome is Ok
            &&& match outcome {
                Ok(session) => requested(session) == requested(builder).push(
                    registration_of(setup),
                ),
                Err(error) => error is Ort,
            }
        },
    }
}

/// As `with_execution_mode`, with an OpenVINO inference precision for this one session.
///
/// Per session, not per pipeline, because no single precision works for the whole of it: the
/// embedding models fail on a discrete card at the default precision and run correctly at
/// FP32, while segmentation is the other way round -- FP32 slows it down and stops the batched
/// graph compiling at all.
///
/// Per session but NOT per device, and that is a limit rather than a decision: nothing here
/// can tell a discrete card from an integrated one -- `GPU`, `GPU.0` and `GPU.1` are
/// positions, not kinds.
///
/// `precision` is ignored by every mode but OpenVINO, which is why it is a parameter here
/// rather than a field on the mode: it describes how one session is built, not what the
/// pipeline was asked to run on.
pub fn with_execution_mode_precision(
    builder: SessionBuilder,
    mode: ExecutionMode,
    precision: Option<&str>,
    features: BuildFeatures,
) -> (r: Result<SessionBuilder, SessionError>)
    requires
        mode.refusal(features) is None ==> all_passable(setup_of(mode, text_of(precision))),
    ensures
        asked(builder, mode, text_of(precision), features, r),
{
    match provider_for(mode, precision, features) {
        Ok(provider) => with_provider(builder, &provider),
        Err(error) => Err(SessionError::UnsupportedExecutionMode(error)),
    }
}

/// Only OpenVINO heeds a precision.
pub proof fn law_only_openvino_heeds_a_precision(
    mode: ExecutionMode,
    one: Option<Seq<char>>,
    other: Option<Seq<char>>,
)
    requires
        mode !is OpenVino,
    ensures
        setup_of(mode, one) == setup_of(mode, other),
{
}

/// No mode that runs on an accelerator falls back to the processor without an error, and the
/// device string reaches the provider unchanged.
pub proof fn law_accelerators_are_required(mode: ExecutionMode, precision: Option<Seq<char>>)
    ensures
        registration_of(setup_of(mode, precision)).required <==> mode.feature() is Some
            && mode.feature() != Some(Feature::CoreMl),
        mode matches ExecutionMode::OpenVino { device_type } ==> setup_of(mode, precision)
            == Setup::OpenVino(device_type@, precision),
{
}

/// Which provider a mode runs on: the processor without an arena for the processor and the
/// CoreML modes, the first card with one set of options for both CUDA modes, the first card
/// for MIGraphX, and the device string for OpenVINO.
pub proof fn law_modes_run_on_their_providers(
    mode: ExecutionMode,
    precision: Option<Seq<char>>,
)
    ensures
        setup_of(mode, precision) is Cpu <==> mode is Cpu || mode is CoreMl || mode is CoreMlFast,
        setup_of(mode, precision) is Cuda <==> mode is Cuda || mode is CudaFast,
        setup_of(mode, precision) is MiGraphX <==> mode is MiGraphX,
        setup_of(mode, precision) is OpenVino <==> mode is OpenVino,
        setup_of(mode, precision) matches Setup::Cpu(arena) ==> !arena,
        setup_of(mode, precision) matches Setup::Cuda(options, graph) ==> {
            &&& !graph
            &&& options.device_id == 0
            &&& options.tf32 && options.max_workspace && options.prefer_nhwc
            &&& options.search is Exhaustive
            &&& options.arena is SameAsRequested
        },
        setup_of(mode, precision) matches Setup::MiGraphX(device, growth) ==> device == 0
            && growth is SameAsRequested,
        !registration_of(setup_of(ExecutionMode::Cpu, None)).required,
        registration_of(setup_of(mode, precision)).setup == setup_of(mode, precision),
{
}

} // verus!
