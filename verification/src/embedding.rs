//! How the sessions of the embedding models are set up.
use crate::device::{may_reach_openvino_gpu, may_reach_plugin, target_of, OvTarget};
use crate::mode::{BuildFeatures, ExecutionMode, Feature};
use crate::provider::{
    all_passable, asked, cuda_options, graph_provider, registration_of, requested, setup_of,
    with_execution_mode_precision, with_provider, SessionError, Setup,
};
use ort::session::builder::SessionBuilder;
use vstd::prelude::*;

verus! {

/// The most threads that the filter bank works with.
pub const MOST_FBANK_THREADS: usize = 4;

/// The precision that the embedding models are given.
pub open spec fn precision_of(mode: ExecutionMode) -> Option<Seq<char>> {
    if may_reach_plugin(mode) {
        Some("FP32"@)
    } else {
        None
    }
}

/// FP32 for the embedding models on the OpenVINO devices that reach the GPU plugin, nothing
/// for anyone else.
///
/// On a discrete card these models fail at the default precision and run correctly at FP32.
///
/// It reaches every GPU, not only the discrete one, and that is a limit rather than a
/// choice: `GPU`, `GPU.0` and `GPU.1` are positions in a list, not kinds of hardware, so
/// nothing here can tell an integrated part from a card. OpenVINO on the processor and the NPU
/// do not get it: neither generates the kernel the discrete card failed in.
pub fn openvino_precision(mode: ExecutionMode) -> (r: Option<&'static str>)
    ensures
        match r {
            Some(precision) => precision_of(mode) == Some(precision@),
            None => precision_of(mode) is None,
        },
{
    if may_reach_openvino_gpu(mode) {
        Some("FP32")
    } else {
        None
    }
}

/// How many threads the filter bank works with, where the machine says how many it has.
pub open spec fn fbank_threads_of(available: Option<usize>) -> usize {
    match available {
        Some(count) => if count < MOST_FBANK_THREADS {
            count
        } else {
            MOST_FBANK_THREADS
        },
        None => 1,
    }
}

/// How many threads the filter bank works with.
pub fn fbank_threads(available: Option<usize>) -> (r: usize)
    ensures
        r == fbank_threads_of(available),
{
    match available {
        Some(count) => {
            if count < MOST_FBANK_THREADS {
                count
            } else {
                MOST_FBANK_THREADS
            }
        },
        None => 1,
    }
}

/// The embedding models.
pub struct EmbeddingModel;

/// The mode of the sessions that go through ONNX Runtime.
pub open spec fn single_mode_of(mode: ExecutionMode) -> ExecutionMode {
    if mode.feature() == Some(Feature::CoreMl) {
        ExecutionMode::Cpu
    } else {
        mode
    }
}

/// What a session captured as a CUDA graph runs on.
pub open spec fn graph_setup(features: BuildFeatures) -> Setup {
    if features.cuda {
        Setup::Cuda(cuda_options(), true)
    } else {
        Setup::Cpu(false)
    }
}

/// Whether a session's runs are captured as a CUDA graph: where that is asked for, of CUDA.
pub open spec fn captured(mode: ExecutionMode, cuda_graph: bool) -> bool {
    cuda_graph && mode.feature() == Some(Feature::Cuda)
}

impl EmbeddingModel {
    /// The mode of the sessions that go through ONNX Runtime: native CoreML leaves them to the
    /// processor.
    pub fn single_execution_mode(mode: ExecutionMode) -> (r: ExecutionMode)
        ensures
            r == single_mode_of(mode),
    {
        match mode {
            ExecutionMode::CoreMl | ExecutionMode::CoreMlFast => ExecutionMode::Cpu,
            _ => mode,
        }
    }

    /// Asks an embedding session to run in a mode, with its runs captured as a CUDA graph
    /// where that is asked for.
    pub fn with_graph(
        builder: SessionBuilder,
        mode: ExecutionMode,
        cuda_graph: bool,
        features: BuildFeatures,
    ) -> (r: Result<SessionBuilder, SessionError>)
        requires
            mode.refusal(features) is None ==> all_passable(setup_of(mode, None)),
        ensures
            if captured(mode, cuda_graph) {
                &&& !features.cuda ==> r is Ok
                &&& match r {
                    Ok(session) => requested(session) == requested(builder).push(
                        registration_of(graph_setup(features)),
                    ),
                    Err(error) => error is Ort,
                }
            } else {
                asked(builder, mode, precision_of(mode), features, r)
            },
    {
        if cuda_graph && mode.is_cuda() {
            with_provider(builder, &graph_provider(features))
        } else {
            // FP32 here and nowhere else. Segmentation must NOT be given the same treatment:
            // FP32 makes it slower and stops its batched graph compiling. Every other mode
            // ignores the argument.
            proof {
                reveal_strlit("FP32");
                if may_reach_plugin(mode) {
                    assert(!"FP32"@.contains('\0'));
                }
            }
            with_execution_mode_precision(builder, mode, openvino_precision(mode), features)
        }
    }

    /// Asks a batched embedding session to run in a mode.
    pub fn with_batched(builder: SessionBuilder, mode: ExecutionMode, features: BuildFeatures) -> (r:
        Result<SessionBuilder, SessionError>)
        requires
            mode.refusal(features) is None ==> all_passable(setup_of(mode, None)),
        ensures
            asked(
                builder,
                single_mode_of(mode),
                precision_of(single_mode_of(mode)),
                features,
                r,
            ),
    {
        EmbeddingModel::with_graph(
            builder,
            EmbeddingModel::single_execution_mode(mode),
            false,
            features,
        )
    }
}

/// The precision goes to what may reach OpenVINO's GPU plugin, bare `AUTO` among it, and to
/// nobody else.
pub proof fn law_who_gets_fp32(mode: ExecutionMode)
    ensures
        precision_of(mode) is Some <==> may_reach_plugin(mode),
        mode !is OpenVino ==> precision_of(mode) is None,
{
}

/// The sessions that go through ONNX Runtime never run in a CoreML mode, and in a mode that
/// stays what it is otherwise.
pub proof fn law_single_mode_is_final(mode: ExecutionMode)
    ensures
        single_mode_of(single_mode_of(mode)) == single_mode_of(mode),
        single_mode_of(mode).feature() != Some(Feature::CoreMl),
        setup_of(single_mode_of(mode), None) == setup_of(mode, None),
{
}

/// The precision is single precision by its name in ONNX Runtime, for any device but those that
/// cannot reach OpenVINO's GPU plugin.
pub proof fn law_the_precision_is_fp32(device_type: &'static str)
    ensures
        ({
            let mode = ExecutionMode::OpenVino { device_type };
            let target = target_of(device_type@);
            let safe = target == OvTarget::Cpu || target == OvTarget::Npu || target
                == OvTarget::NonGpuComposite;
            precision_of(mode) == if safe {
                None
            } else {
                Some(seq!['F', 'P', '3', '2'])
            }
        }),
{
    reveal_strlit("FP32");
    assert("FP32"@ =~= seq!['F', 'P', '3', '2']);
}

/// The filter bank takes every thread that the machine has, up to four, and one where the
/// machine does not say.
pub proof fn law_the_filter_bank_takes_up_to_four_threads(available: usize)
    ensures
        fbank_threads_of(Some(available)) <= 4,
        fbank_threads_of(Some(available)) <= available,
        fbank_threads_of(Some(available)) == 4 || fbank_threads_of(Some(available)) == available,
        fbank_threads_of(None) == 1,
{
}

/// Runs are captured as a graph where that is asked for and the mode is a CUDA mode, and then
/// on CUDA with the usual options where the build has it.
pub proof fn law_only_cuda_runs_are_captured(mode: ExecutionMode, features: BuildFeatures)
    ensures
        !captured(mode, false),
        captured(mode, true) <==> mode is Cuda || mode is CudaFast,
        features.cuda ==> (graph_setup(features) matches Setup::Cuda(options, graph) && graph
            && setup_of(ExecutionMode::Cuda, None) == Setup::Cuda(options, false)),
        !features.cuda ==> graph_setup(features) == setup_of(ExecutionMode::Cpu, None),
        mode is CoreMl || mode is CoreMlFast ==> single_mode_of(mode) == ExecutionMode::Cpu,
        mode !is CoreMl && mode !is CoreMlFast ==> single_mode_of(mode) == mode,
{
}

} // verus!
