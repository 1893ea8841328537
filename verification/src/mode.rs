//! Which backend inference runs on, and which of them a build can serve.
use crate::text::{equal, joined, trim, trim_of};
use vstd::prelude::*;

verus! {

/// CoreML compute unit selection for chunk embedding
#[derive(Debug, Clone, Copy, PartialEq, Eq, Structural)]
pub enum CoreMlComputeUnits {
    /// Use all available compute units: CPU + GPU + Neural Engine (default)
    All,
    /// Use CPU + Neural Engine only (skip GPU)
    CpuAndNeuralEngine,
}

impl Default for CoreMlComputeUnits {
    fn default() -> (r: Self)
        ensures
            r == CoreMlComputeUnits::All,
    {
        CoreMlComputeUnits::All
    }
}

/// Which backend and acceleration to use for inference
#[derive(Debug, Clone, Copy, PartialEq, Eq)]
#[non_exhaustive]
pub enum ExecutionMode {
    /// CPU-only via ORT (portable, slowest)
    Cpu,
    /// Native CoreML with FP32 precision and ~1s step
    CoreMl,
    /// Native CoreML with W8A16 segmentation and ~2s step
    CoreMlFast,
    /// NVIDIA GPU with concurrent fused seg+emb via crossbeam
    Cuda,
    /// NVIDIA GPU with concurrent fused seg+emb and ~2s step
    CudaFast,
    /// AMD GPU via ONNX Runtime's MIGraphX execution provider
    MiGraphX,
    /// Intel CPU, integrated GPU, discrete GPU or NPU via ONNX Runtime's OpenVINO
    /// execution provider
    ///
    /// `device_type` reaches OpenVINO verbatim: `CPU`, `GPU`, `GPU.0`, `GPU.1`, `NPU`, or a
    /// heterogeneous combination such as `HETERO:NPU,GPU`. It is a field rather than one
    /// variant per device because a machine carrying both an integrated and a discrete Intel
    /// GPU does not guarantee which of them is `GPU.0` -- only the caller, on the machine, can
    /// resolve that.
    OpenVino {
        /// OpenVINO device string, passed through unchanged
        device_type: &'static str,
    },
}

/// A backend that a build may or may not carry.
#[derive(Debug, Clone, Copy, PartialEq, Eq, Structural)]
pub enum Feature {
    /// Native CoreML
    CoreMl,
    /// ONNX Runtime's CUDA execution provider
    Cuda,
    /// ONNX Runtime's MIGraphX execution provider
    MiGraphX,
    /// ONNX Runtime's OpenVINO execution provider
    OpenVino,
}

impl Feature {
    /// The name of the Cargo feature that adds the backend.
    pub open spec fn name(self) -> Seq<char> {
        match self {
            Feature::CoreMl => "coreml"@,
            Feature::Cuda => "cuda"@,
            Feature::MiGraphX => "migraphx"@,
            Feature::OpenVino => "openvino"@,
        }
    }

    /// The name of the Cargo feature that adds the backend.
    pub fn as_str(self) -> (r: &'static str)
        ensures
            r@ == self.name(),
    {
        match self {
            Feature::CoreMl => "coreml",
            Feature::Cuda => "cuda",
            Feature::MiGraphX => "migraphx",
            Feature::OpenVino => "openvino",
        }
    }
}

/// The backends that a build carries besides the processor.
#[derive(Debug, Clone, Copy, PartialEq, Eq, Structural)]
pub struct BuildFeatures {
    /// Native CoreML
    pub coreml: bool,
    /// ONNX Runtime's CUDA execution provider
    pub cuda: bool,
    /// ONNX Runtime's MIGraphX execution provider
    pub migraphx: bool,
    /// ONNX Runtime's OpenVINO execution provider
    pub openvino: bool,
}

impl BuildFeatures {
    /// Whether the build carries a backend.
    pub open spec fn carries(self, feature: Feature) -> bool {
        match feature {
            Feature::CoreMl => self.coreml,
            Feature::Cuda => self.cuda,
            Feature::MiGraphX => self.migraphx,
            Feature::OpenVino => self.openvino,
        }
    }

    /// A build with no backend besides the processor.
    pub fn none() -> (r: Self)
        ensures
            forall|feature: Feature| !r.carries(feature),
    {
        BuildFeatures { coreml: false, cuda: false, migraphx: false, openvino: false }
    }

    /// Whether the build carries a backend.
    pub fn has(self, feature: Feature) -> (r: bool)
        ensures
            r == self.carries(feature),
    {
        match feature {
            Feature::CoreMl => self.coreml,
            Feature::Cuda => self.cuda,
            Feature::MiGraphX => self.migraphx,
            Feature::OpenVino => self.openvino,
        }
    }
}

/// Why an execution mode is refused.
#[derive(Debug, Clone, Copy, PartialEq, Eq, Structural)]
pub enum Refusal {
    /// The build does not carry the backend.
    MissingFeature(Feature),
    /// The device string names no device at all.
    NoDevice,
}

/// Errors from requesting an execution mode that is not supported in the current build
#[derive(Debug, Clone, Copy, PartialEq, Eq)]
#[non_exhaustive]
pub struct ExecutionModeError {
    /// The mode that was requested.
    pub mode: ExecutionMode,
    /// Why it is refused.
    pub reason: Refusal,
}

impl ExecutionModeError {
    /// What is said of the refusal.
    pub open spec fn text(self) -> Seq<char> {
        match self.reason {
            Refusal::MissingFeature(feature) => self.mode.name() + " requires the `"@
                + feature.name() + "` Cargo feature"@,
            Refusal::NoDevice => self.mode.name()
                + " was given a device string naming no device"@,
        }
    }

    /// What is said of the refusal.
    pub fn to_string(&self) -> (r: String)
        ensures
            r@ == self.text(),
    {
        let mut text: String = self.mode.as_str().to_owned();
        match self.reason {
            Refusal::MissingFeature(feature) => {
                text.append(" requires the `");
                text.append(feature.as_str());
                text.append("` Cargo feature");
            },
            Refusal::NoDevice => {
                text.append(" was given a device string naming no device");
            },
        }
        text
    }
}

/// Whether a device string names a device at all.
pub open spec fn names_something(device: Seq<char>) -> bool {
    trim_of(device).len() > 0
}

/// Whether a device string names a device at all.
///
/// The one thing this library refuses on its own. Everything else is ONNX Runtime's to accept:
/// the set of legal names lives in its C++ side and in OpenVINO, and it grows. Empty is
/// different -- it names nothing, and the provider's answer to it surfaces a long way from
/// the call that caused it.
pub fn names_a_device(device: &str) -> (r: bool)
    ensures
        r == names_something(device@),
{
    trim(device).unicode_len() > 0
}

impl ExecutionMode {
    /// The backend that a mode needs, if it needs one besides the processor.
    pub open spec fn feature(self) -> Option<Feature> {
        match self {
            ExecutionMode::Cpu => None,
            ExecutionMode::CoreMl => Some(Feature::CoreMl),
            ExecutionMode::CoreMlFast => Some(Feature::CoreMl),
            ExecutionMode::Cuda => Some(Feature::Cuda),
            ExecutionMode::CudaFast => Some(Feature::Cuda),
            ExecutionMode::MiGraphX => Some(Feature::MiGraphX),
            ExecutionMode::OpenVino { device_type } => Some(Feature::OpenVino),
        }
    }

    /// Why a build refuses a mode, if it does: a device string that names nothing is refused
    /// whatever the build carries.
    pub open spec fn refusal(self, features: BuildFeatures) -> Option<Refusal> {
        match self {
            ExecutionMode::OpenVino { device_type } if !names_something(device_type@) => Some(
                Refusal::NoDevice,
            ),
            _ => match self.feature() {
                Some(feature) => if features.carries(feature) {
                    None
                } else {
                    Some(Refusal::MissingFeature(feature))
                },
                None => None,
            },
        }
    }

    /// The backend's name.
    pub open spec fn name(self) -> Seq<char> {
        match self {
            ExecutionMode::Cpu => "cpu"@,
            ExecutionMode::CoreMl => "coreml"@,
            ExecutionMode::CoreMlFast => "coreml-fast"@,
            ExecutionMode::Cuda => "cuda"@,
            ExecutionMode::CudaFast => "cuda-fast"@,
            ExecutionMode::MiGraphX => "migraphx"@,
            ExecutionMode::OpenVino { device_type } => "openvino"@,
        }
    }

    /// The mode's name, with its device where it has one.
    pub open spec fn full_name(self) -> Seq<char> {
        match self {
            ExecutionMode::OpenVino { device_type } => "openvino:"@ + device_type@,
            _ => self.name(),
        }
    }

    /// Returns true when this mode uses native CoreML execution
    pub fn is_coreml(self) -> (r: bool)
        ensures
            r == (self.feature() == Some(Feature::CoreMl)),
    {
        matches!(self, ExecutionMode::CoreMl | ExecutionMode::CoreMlFast)
    }

    /// Returns true when this mode uses CUDA execution
    pub fn is_cuda(self) -> (r: bool)
        ensures
            r == (self.feature() == Some(Feature::Cuda)),
    {
        matches!(self, ExecutionMode::Cuda | ExecutionMode::CudaFast)
    }

    /// Returns true when this mode uses the MIGraphX execution provider
    pub fn is_migraphx(self) -> (r: bool)
        ensures
            r == (self.feature() == Some(Feature::MiGraphX)),
    {
        matches!(self, ExecutionMode::MiGraphX)
    }

    /// Returns true when this mode uses the OpenVINO execution provider
    pub fn is_openvino(self) -> (r: bool)
        ensures
            r == (self.feature() == Some(Feature::OpenVino)),
    {
        matches!(self, ExecutionMode::OpenVino { .. })
    }

    /// Refuses a mode that a build does not carry, and a device string that names nothing.
    pub fn validate(self, features: BuildFeatures) -> (r: Result<(), ExecutionModeError>)
        ensures
            match self.refusal(features) {
                None => r is Ok,
                Some(reason) => r == Err::<(), ExecutionModeError>(
                    ExecutionModeError { mode: self, reason },
                ),
            },
    {
        let feature: Feature = match self {
            ExecutionMode::Cpu => {
                return Ok(());
            },
            ExecutionMode::CoreMl | ExecutionMode::CoreMlFast => Feature::CoreMl,
            ExecutionMode::Cuda | ExecutionMode::CudaFast => Feature::Cuda,
            ExecutionMode::MiGraphX => Feature::MiGraphX,
            ExecutionMode::OpenVino { device_type } => {
                // Only the empty string. The set of legal names lives in ONNX Runtime's C++
                // side and in OpenVINO, where it grows, and refusing what is not recognised
                // here would refuse a syntax that arrives later, where nobody can work around
                // it.
                if !names_a_device(device_type) {
                    return Err(ExecutionModeError { mode: self, reason: Refusal::NoDevice });
                }
                Feature::OpenVino
            },
        };
        if features.has(feature) {
            Ok(())
        } else {
            Err(ExecutionModeError { mode: self, reason: Refusal::MissingFeature(feature) })
        }
    }

    /// An OpenVINO mode for a device this process discovered at runtime.
    ///
    /// The device a machine has is not known until the process is on it -- `GPU.0` and
    /// `GPU.1` are positions, and which one is the discrete card is the machine's business --
    /// so the string usually arrives from argv, an environment variable, or a probe. The
    /// variant holds a `&'static str` because `ExecutionMode` is `Copy`, which leaves a caller
    /// with a runtime string no way in except to leak one.
    ///
    /// This leaks too, once per distinct device string, and never frees. A process uses one
    /// or two, so the total is bounded by how many different devices it is asked for rather
    /// than by how many times it asks. Repeated calls with the same string reuse the first.
    pub fn openvino(device: &str, names: &mut DeviceNames) -> (r: Self)
        ensures
            r matches ExecutionMode::OpenVino { device_type } && {
                &&& device_type@ == device@
                &&& final(names).kept().contains(device_type)
                &&& final(names).kept() == if old(names)@.contains(device@) {
                    old(names).kept()
                } else {
                    old(names).kept().push(device_type)
                }
            },
            final(names)@ == interned(old(names)@, device@),
            old(names).well_formed() ==> final(names).well_formed(),
    {
        ExecutionMode::OpenVino { device_type: names.intern(device) }
    }

    /// This mode named for a human, with the device when there is one: `openvino:GPU.1`.
    ///
    /// Separate from `as_str` rather than replacing it. `as_str` is the backend's name, and
    /// consumers branch on it and key caches by it. This is the string a log line wants.
    pub fn label(self) -> (r: String)
        ensures
            r@ == self.full_name(),
    {
        match self {
            ExecutionMode::OpenVino { device_type } => joined("openvino:", device_type),
            _ => self.as_str().to_owned(),
        }
    }

    /// Lowercase identifier used in logs, docs, and user-facing errors
    pub fn as_str(self) -> (r: &'static str)
        ensures
            r@ == self.name(),
    {
        match self {
            ExecutionMode::Cpu => "cpu",
            ExecutionMode::CoreMl => "coreml",
            ExecutionMode::CoreMlFast => "coreml-fast",
            ExecutionMode::Cuda => "cuda",
            ExecutionMode::CudaFast => "cuda-fast",
            ExecutionMode::MiGraphX => "migraphx",
            ExecutionMode::OpenVino { .. } => "openvino",
        }
    }

    /// The backend's name, as it is displayed.
    pub fn to_string(&self) -> (r: String)
        ensures
            r@ == self.name(),
    {
        self.as_str().to_owned()
    }
}

/// The device strings that a process has asked for, each kept for as long as it runs.
pub struct DeviceNames {
    seen: Vec<&'static str>,
}

impl View for DeviceNames {
    type V = Seq<Seq<char>>;

    open spec fn view(&self) -> Seq<Seq<char>> {
        Seq::new(self.kept().len(), |i: int| self.kept()[i]@)
    }
}

/// Names after one has been asked for: a new one is added at the end.
pub open spec fn interned(names: Seq<Seq<char>>, device: Seq<char>) -> Seq<Seq<char>> {
    if names.contains(device) {
        names
    } else {
        names.push(device)
    }
}

/// `String::leak`: the string's contents, kept for as long as the process runs.
#[verifier::external_body]
fn leak(text: String) -> (r: &'static str)
    ensures
        r@ == text@,
{
    text.leak()
}

impl DeviceNames {
    /// The strings that are kept, in the order in which they were first asked for.
    pub closed spec fn kept(&self) -> Seq<&'static str> {
        self.seen@
    }

    /// No name is kept twice.
    pub open spec fn well_formed(&self) -> bool {
        self@.no_duplicates()
    }

    /// No names.
    pub fn new() -> (r: Self)
        ensures
            r.kept() == Seq::<&'static str>::empty(),
            r@ == Seq::<Seq<char>>::empty(),
            r.well_formed(),
    {
        let names: DeviceNames = DeviceNames { seen: Vec::new() };
        proof {
            assert(names@ =~= Seq::<Seq<char>>::empty());
        }
        names
    }

    /// How many names are kept.
    pub fn count(&self) -> (r: usize)
        ensures
            r == self@.len(),
    {
        self.seen.len()
    }

    /// A name that lasts, which is the one kept before where it was asked for before.
    pub fn intern(&mut self, device: &str) -> (r: &'static str)
        ensures
            r@ == device@,
            final(self).kept().contains(r),
            final(self).kept() == if old(self)@.contains(device@) {
                old(self).kept()
            } else {
                old(self).kept().push(r)
            },
            final(self)@ == interned(old(self)@, device@),
            old(self).well_formed() ==> final(self).well_formed(),
    {
        let mut i: usize = 0;
        while i < self.seen.len()
            invariant
                *self == *old(self),
                i <= self.seen@.len(),
                forall|j: int| 0 <= j < i ==> (#[trigger] self.seen@[j])@ != device@,
            decreases self.seen@.len() - i,
        {
            if equal(self.seen[i], device) {
                proof {
                    assert(self@[i as int] == device@);
                    assert(self@.contains(device@));
                    assert(self.kept()[i as int] == self.seen@[i as int]);
                }
                return self.seen[i];
            }
            i = i + 1;
        }
        let ghost before = self@;
        proof {
            assert(!before.contains(device@)) by {
                if before.contains(device@) {
                    let j = choose|j: int| 0 <= j < before.len() && before[j] == device@;
                    assert(self.seen@[j]@ == device@);
                }
            }
        }
        let name: &'static str = leak(device.to_owned());
        self.seen.push(name);
        proof {
            assert(self@ =~= before.push(device@));
            assert(self.kept()[before.len() as int] == name);
        }
        name
    }
}

/// Asking again for a device string keeps nothing more, and no string is kept twice.
pub proof fn law_asking_again_keeps_nothing_more(names: Seq<Seq<char>>, device: Seq<char>)
    ensures
        interned(interned(names, device), device) == interned(names, device),
        names.no_duplicates() ==> interned(names, device).no_duplicates(),
        interned(names, device).contains(device),
{
    let after = interned(names, device);
    if !names.contains(device) {
        assert(after[names.len() as int] == device);
    }
    assert(after.contains(device));
}

/// A string that was handed out is handed out again when the same text is asked for later,
/// whatever was asked for in between: what is kept only grows at its end, and holds both.
pub proof fn law_the_same_text_is_the_same_string(
    earlier: DeviceNames,
    later: DeviceNames,
    first: &'static str,
    second: &'static str,
)
    requires
        later.well_formed(),
        earlier.kept().is_prefix_of(later.kept()),
        earlier.kept().contains(first),
        later.kept().contains(second),
        first@ == second@,
    ensures
        first == second,
        (ExecutionMode::OpenVino { device_type: first }) == (ExecutionMode::OpenVino {
            device_type: second,
        }),
{
    let i = choose|i: int| 0 <= i < earlier.kept().len() && earlier.kept()[i] == first;
    let j = choose|j: int| 0 <= j < later.kept().len() && later.kept()[j] == second;
    assert(later.kept()[i] == first);
    assert(later@[i] == later@[j]);
}

/// A device string that names nothing is refused for that by every build, and never blamed on
/// a missing backend; any other is refused only where the backend is missing.
pub proof fn law_only_an_empty_device_string_is_refused(
    device_type: &'static str,
    features: BuildFeatures,
)
    ensures
        ({
            let refusal = (ExecutionMode::OpenVino { device_type }).refusal(features);
            &&& trim_of(device_type@).len() == 0 ==> refusal == Some(Refusal::NoDevice)
            &&& trim_of(device_type@).len() > 0 && features.openvino ==> refusal is None
            &&& trim_of(device_type@).len() > 0 && !features.openvino ==> refusal == Some(
                Refusal::MissingFeature(Feature::OpenVino),
            )
        }),
{
}

/// The processor serves every build, and every other mode some build.
pub proof fn law_every_mode_is_served_by_some_build(mode: ExecutionMode)
    requires
        mode matches ExecutionMode::OpenVino { device_type } ==> names_something(device_type@),
    ensures
        forall|features: BuildFeatures| (#[trigger] ExecutionMode::Cpu.refusal(features)) is None,
        mode.refusal(BuildFeatures { coreml: true, cuda: true, migraphx: true, openvino: true })
            is None,
{
}

/// The names of the modes tell the modes apart, but for the device of OpenVINO; with the
/// device in the name they tell all of them apart that differ in the device's text.
pub proof fn law_names_tell_modes_apart(a: ExecutionMode, b: ExecutionMode)
    ensures
        a.name() == b.name() ==> a == b || (a is OpenVino && b is OpenVino),
        a.full_name() == b.full_name() ==> a == b || (a matches ExecutionMode::OpenVino {
            device_type: one,
        } && b matches ExecutionMode::OpenVino { device_type: other } && one@ == other@),
        a !is OpenVino ==> a.full_name() == a.name(),
        a matches ExecutionMode::OpenVino { device_type } ==> a.full_name() == a.name() + seq![':']
            + device_type@,
{
    reveal_strlit("cpu");
    reveal_strlit("coreml");
    reveal_strlit("coreml-fast");
    reveal_strlit("cuda");
    reveal_strlit("cuda-fast");
    reveal_strlit("migraphx");
    reveal_strlit("openvino");
    reveal_strlit("openvino:");
    assert("openvino:"@ =~= "openvino"@ + seq![':']);
    let x = a.name();
    let y = b.name();
    assert(x == y ==> x.len() == y.len() && x[0] == y[0] && x[1] == y[1]);
    let p = a.full_name();
    let q = b.full_name();
    assert(p == q ==> p.len() == q.len() && p[0] == q[0] && p[1] == q[1]);
    match (a, b) {
        (
            ExecutionMode::OpenVino { device_type: one },
            ExecutionMode::OpenVino { device_type: other },
        ) => {
            assert(p.skip(9) =~= one@);
            assert(q.skip(9) =~= other@);
        },
        _ => {},
    }
}

/// A mode that needs no backend is never refused, and one that needs a backend is refused
/// exactly where the build lacks it; the backend of a mode is the one that its name starts
/// with.
pub proof fn law_builds_refuse_what_they_lack(features: BuildFeatures)
    ensures
        ExecutionMode::Cpu.refusal(features) is None,
        ExecutionMode::CoreMl.refusal(features) == if features.coreml {
            None
        } else {
            Some(Refusal::MissingFeature(Feature::CoreMl))
        },
        ExecutionMode::CoreMlFast.refusal(features) == ExecutionMode::CoreMl.refusal(features),
        ExecutionMode::Cuda.refusal(features) == if features.cuda {
            None
        } else {
            Some(Refusal::MissingFeature(Feature::Cuda))
        },
        ExecutionMode::CudaFast.refusal(features) == ExecutionMode::Cuda.refusal(features),
        ExecutionMode::MiGraphX.refusal(features) == if features.migraphx {
            None
        } else {
            Some(Refusal::MissingFeature(Feature::MiGraphX))
        },
{
}

} // verus!
