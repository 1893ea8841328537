//! What an OpenVINO device string means: the one place `AUTO`, `MULTI`, `HETERO`, `BATCH` and
//! a device index are interpreted.
use crate::mode::ExecutionMode;
use crate::text::{
    equal, split, split_of, split_once, split_once_of, trim, trim_end, trim_end_of, trim_of,
    trim_start_of, white_space,
};
use vstd::prelude::*;

verus! {

/// What an OpenVINO device string resolves to, as far as decisions here are concerned.
///
/// The split is by decision, not by kind of hardware. `HETERO:NPU,GPU` and `MULTI:CPU,NPU`
/// are both "several devices", and they want opposite answers: the first reaches the GPU
/// plugin and the second cannot. What every caller here actually asks is whether the GPU
/// plugin is in play.
///
/// It cannot tell a discrete card from an integrated one. `GPU`, `GPU.0` and `GPU.1` are
/// positions in a list, not kinds of hardware, and only a caller standing on the machine knows
/// which is which. Anything that needs the distinction -- the precision the embedding models
/// are given, for one -- is answered for every GPU or for none.
#[derive(Debug, Clone, Copy, PartialEq, Eq, Structural)]
pub enum OvTarget {
    /// `GPU`, `GPU.1`
    GpuOnly,
    /// A device list that may reach the GPU plugin: `HETERO:NPU,GPU`, `AUTO:GPU,CPU`,
    /// `BATCH:GPU(4)`
    ///
    /// Also where anything unreadable lands -- an unknown prefix, a name that cannot be
    /// parsed -- because that is the cheaper way to be wrong. So this says "may reach the GPU
    /// plugin", not "names a GPU": `NonGpuComposite` is the one that makes a claim.
    GpuComposite,
    /// A device list whose every name was read, and none of them a GPU: `MULTI:CPU,NPU`
    NonGpuComposite,
    /// `CPU`
    Cpu,
    /// `NPU`
    Npu,
    /// Bare `AUTO` or bare `MULTI`: a decision OpenVINO makes at runtime, on a machine this
    /// library cannot see. Kept as its own value rather than folded into either side, because
    /// what to do about it is a judgement written down at each call site, not a fact.
    UnresolvedAuto,
}

/// A kind of device that a device string can name.
#[derive(Debug, Clone, Copy, PartialEq, Eq, Structural)]
pub enum OvDevice {
    /// A graphics processor, integrated or discrete
    Gpu,
    /// The processor
    Cpu,
    /// The neural processor
    Npu,
}

/// A device name without the batch size in brackets that may follow it.
pub open spec fn without_batch(token: Seq<char>) -> Seq<char> {
    match split_once_of(token, '(') {
        Some((head, tail)) => if tail.len() > 0 && tail.last() == ')' {
            trim_end_of(head)
        } else {
            token
        },
        None => token,
    }
}

/// A device name without the position that may follow it.
pub open spec fn without_position(token: Seq<char>) -> Seq<char> {
    match split_once_of(token, '.') {
        Some((head, _)) => head,
        None => token,
    }
}

/// The device that a bare name stands for.
pub open spec fn named(name: Seq<char>) -> Option<OvDevice> {
    if name == "GPU"@ {
        Some(OvDevice::Gpu)
    } else if name == "CPU"@ {
        Some(OvDevice::Cpu)
    } else if name == "NPU"@ {
        Some(OvDevice::Npu)
    } else {
        None
    }
}

/// The device that one entry of a device string names, if it can be read.
pub open spec fn device_of(token: Seq<char>) -> Option<OvDevice> {
    named(without_position(without_batch(trim_of(token))))
}

/// Whether a prefix is one that a list of devices follows.
pub open spec fn list_prefix(prefix: Seq<char>) -> bool {
    prefix == "AUTO"@ || prefix == "MULTI"@ || prefix == "HETERO"@ || prefix == "BATCH"@
}

/// Whether some entry of a list names a GPU.
pub open spec fn names_a_gpu(tokens: Seq<Seq<char>>) -> bool {
    exists|i: int|
        0 <= i < tokens.len() && device_of(#[trigger] tokens[i]) == Some(OvDevice::Gpu)
}

/// Whether every entry of a list can be read.
pub open spec fn all_read(tokens: Seq<Seq<char>>) -> bool {
    forall|i: int| 0 <= i < tokens.len() ==> device_of(#[trigger] tokens[i]) is Some
}

/// What a prefix and the list behind it resolve to.
pub open spec fn list_target(prefix: Seq<char>, list: Seq<char>) -> OvTarget {
    if !list_prefix(prefix) {
        OvTarget::GpuComposite
    } else if trim_of(list).len() == 0 {
        OvTarget::UnresolvedAuto
    } else if !names_a_gpu(split_of(list, ',')) && all_read(split_of(list, ',')) {
        OvTarget::NonGpuComposite
    } else {
        OvTarget::GpuComposite
    }
}

/// What a string without a list resolves to.
pub open spec fn single_target(name: Seq<char>) -> OvTarget {
    match device_of(name) {
        Some(OvDevice::Gpu) => OvTarget::GpuOnly,
        Some(OvDevice::Cpu) => OvTarget::Cpu,
        Some(OvDevice::Npu) => OvTarget::Npu,
        None => if name == "AUTO"@ || name == "MULTI"@ {
            OvTarget::UnresolvedAuto
        } else {
            OvTarget::GpuComposite
        },
    }
}

/// What a device string resolves to.
pub open spec fn target_of(device: Seq<char>) -> OvTarget {
    let trimmed = trim_of(device);
    match split_once_of(trimmed, ':') {
        Some((prefix, list)) => list_target(trim_of(prefix), list),
        None => single_target(trimmed),
    }
}

/// Whether a mode certainly reaches OpenVINO's GPU plugin.
pub open spec fn reaches_plugin(mode: ExecutionMode) -> bool {
    match mode {
        ExecutionMode::OpenVino { device_type } => {
            let target = target_of(device_type@);
            target == OvTarget::GpuOnly || target == OvTarget::GpuComposite
        },
        _ => false,
    }
}

/// Whether a mode may reach OpenVINO's GPU plugin, counting the case nobody can resolve.
pub open spec fn may_reach_plugin(mode: ExecutionMode) -> bool {
    match mode {
        ExecutionMode::OpenVino { device_type } => {
            let target = target_of(device_type@);
            target == OvTarget::GpuOnly || target == OvTarget::GpuComposite || target
                == OvTarget::UnresolvedAuto
        },
        _ => false,
    }
}

/// Whether a string ends in `c`.
fn ends_with(s: &str, c: char) -> (r: bool)
    ensures
        r == (s@.len() > 0 && s@.last() == c),
{
    let n: usize = s.unicode_len();
    n > 0 && s.get_char(n - 1) == c
}

/// The device that one entry of a device string names, if it can be read.
pub fn ov_device_token(token: &str) -> (r: Option<OvDevice>)
    ensures
        r == device_of(token@),
{
    // The batch size comes off first. `BATCH:GPU(4)` sets the batch explicitly -- OpenVINO's
    // own documentation gives `BATCH:GPU(16)` and `BATCH:CPU(16)` as examples -- so a token
    // compared whole reads `GPU(4)` as some device that is not a GPU, and the one form whose
    // whole purpose is batching would be the one that loses it.
    let trimmed: &str = trim(token);
    let name: &str = match split_once(trimmed, '(') {
        Some((head, tail)) => {
            if ends_with(tail, ')') {
                trim_end(head)
            } else {
                trimmed
            }
        },
        None => trimmed,
    };
    let base: &str = match split_once(name, '.') {
        Some((head, _tail)) => head,
        None => name,
    };
    if equal(base, "GPU") {
        Some(OvDevice::Gpu)
    } else if equal(base, "CPU") {
        Some(OvDevice::Cpu)
    } else if equal(base, "NPU") {
        Some(OvDevice::Npu)
    } else {
        None
    }
}

/// Whether every name in a list can be read and none is a GPU.
fn reads_without_gpu(list: &str) -> (r: bool)
    ensures
        r == (!names_a_gpu(split_of(list@, ',')) && all_read(split_of(list@, ','))),
{
    let tokens: Vec<&str> = split(list, ',');
    let ghost pieces = split_of(list@, ',');
    let mut i: usize = 0;
    while i < tokens.len()
        invariant
            i <= tokens@.len(),
            pieces == split_of(list@, ','),
            tokens@.len() == pieces.len(),
            forall|j: int| 0 <= j < tokens@.len() ==> (#[trigger] tokens@[j])@ == pieces[j],
            forall|j: int|
                0 <= j < i ==> {
                    let device = device_of(#[trigger] pieces[j]);
                    device is Some && device != Some(OvDevice::Gpu)
                },
        decreases tokens@.len() - i,
    {
        match ov_device_token(tokens[i]) {
            Some(OvDevice::Cpu) | Some(OvDevice::Npu) => {},
            _ => {
                proof {
                    assert(tokens@[i as int]@ == pieces[i as int]);
                }
                return false;
            },
        }
        i = i + 1;
    }
    true
}

/// Resolve a device string once, so that every decision below reads the same answer.
///
/// The one place `AUTO` / `MULTI` / `HETERO` / `BATCH` / `GPU.1` / a batch size in brackets are
/// interpreted. A device syntax that arrives later is a change here and nowhere else.
pub fn ov_target(device_type: &str) -> (r: OvTarget)
    ensures
        r == target_of(device_type@),
{
    let trimmed: &str = trim(device_type);
    match split_once(trimmed, ':') {
        Some((head, list)) => {
            let prefix: &str = trim(head);
            if !(equal(prefix, "AUTO") || equal(prefix, "MULTI") || equal(prefix, "HETERO")
                || equal(prefix, "BATCH")) {
                // Not a form that is known here. Treated as reaching the plugin: that
                // direction costs batching when the substitute is missing, the other costs a
                // session that will not build.
                return OvTarget::GpuComposite;
            }
            if trim(list).unicode_len() == 0 {
                return OvTarget::UnresolvedAuto;
            }
            // `NonGpuComposite` is claimed only when every name in the list was read. Reaching
            // it by finding no GPU folds together two lists that look identical from here: one
            // that names no GPU, and one carrying a name that cannot be read. `AUTO:-CPU` is
            // the second -- OpenVINO's documented way to say "choose automatically, minus the
            // CPU", which on an Intel machine is how you ask for the card.
            if reads_without_gpu(list) {
                OvTarget::NonGpuComposite
            } else {
                OvTarget::GpuComposite
            }
        },
        None => match ov_device_token(trimmed) {
            Some(OvDevice::Gpu) => OvTarget::GpuOnly,
            Some(OvDevice::Cpu) => OvTarget::Cpu,
            Some(OvDevice::Npu) => OvTarget::Npu,
            None => {
                if equal(trimmed, "AUTO") || equal(trimmed, "MULTI") {
                    OvTarget::UnresolvedAuto
                } else {
                    // Same reasoning as the unknown prefix above.
                    OvTarget::GpuComposite
                }
            },
        },
    }
}

/// Whether this mode certainly reaches OpenVINO's GPU plugin.
///
/// Bare `AUTO` is deliberately not here, and `may_reach_openvino_gpu` is the one that says
/// it might be. Which way to guess about `AUTO` depends on what the answer is used for, and the
/// two callers here want opposite guesses:
///
/// - **Which model file to load** uses this one. Guessing "GPU" sends a machine with no GPU to
///   a derived model nobody provisioned, costing it its batching. Guessing "not GPU" hands a
///   GPU the stock export, which it refuses -- and that refusal is survivable, because
///   `tolerates_unbuildable_batched` includes `AUTO`.
/// - **Whether the embedding models get FP32** uses the other one. Guessing "not GPU" sends a
///   discrete card back to the default precision, where these models fail -- the failure FP32
///   exists to answer. Guessing "GPU" costs a processor a precision it did not need.
///
/// One costs speed, the other costs the load. They are not the same question and cannot share
/// an answer.
pub fn openvino_gpu_plugin(mode: ExecutionMode) -> (r: bool)
    ensures
        r == reaches_plugin(mode),
{
    match mode {
        ExecutionMode::OpenVino { device_type } => {
            matches!(ov_target(device_type), OvTarget::GpuOnly | OvTarget::GpuComposite)
        },
        _ => false,
    }
}

/// Whether this mode may reach OpenVINO's GPU plugin, counting the case nobody can resolve.
///
/// `openvino_gpu_plugin` plus bare `AUTO`. For decisions whose wrong answer costs a session
/// rather than its speed -- see the note there for why the two directions differ.
pub fn may_reach_openvino_gpu(mode: ExecutionMode) -> (r: bool)
    ensures
        r == may_reach_plugin(mode),
{
    match mode {
        ExecutionMode::OpenVino { device_type } => {
            matches!(
                ov_target(device_type),
                OvTarget::GpuOnly | OvTarget::GpuComposite | OvTarget::UnresolvedAuto
            )
        },
        _ => false,
    }
}

/// Only a list whose every name was read, none of them a GPU, is claimed to reach no GPU.
pub proof fn law_a_list_without_a_gpu_was_read_whole(device: Seq<char>)
    ensures
        target_of(device) == OvTarget::NonGpuComposite <==> {
            let split = split_once_of(trim_of(device), ':');
            split matches Some((prefix, list)) && list_prefix(trim_of(prefix)) && trim_of(
                list,
            ).len() > 0 && forall|i: int|
                0 <= i < split_of(list, ',').len() ==> {
                    let named = device_of(#[trigger] split_of(list, ',')[i]);
                    named == Some(OvDevice::Cpu) || named == Some(OvDevice::Npu)
                }
        },
{
    match split_once_of(trim_of(device), ':') {
        Some((prefix, list)) => {
            let tokens = split_of(list, ',');
            if target_of(device) == OvTarget::NonGpuComposite {
                assert forall|i: int| 0 <= i < tokens.len() implies {
                    let named = device_of(#[trigger] tokens[i]);
                    named == Some(OvDevice::Cpu) || named == Some(OvDevice::Npu)
                } by {
                    assert(device_of(tokens[i]) is Some);
                }
            }
        },
        None => {},
    }
}

/// A device string that is not recognised is assumed to reach the plugin: one with a prefix
/// that no list follows, one with a list that holds a name that cannot be read, and a single
/// name that is neither a device nor a choice left to OpenVINO.
pub proof fn law_what_is_not_recognised_may_be_a_gpu(device_type: &'static str)
    requires
        match split_once_of(trim_of(device_type@), ':') {
            Some((prefix, list)) => !list_prefix(trim_of(prefix)) || (trim_of(list).len() > 0
                && !all_read(split_of(list, ','))),
            None => device_of(trim_of(device_type@)) is None && trim_of(device_type@) != "AUTO"@
                && trim_of(device_type@) != "MULTI"@,
        },
    ensures
        reaches_plugin(ExecutionMode::OpenVino { device_type }),
{
}

/// What certainly reaches the plugin may reach it, and the only other thing that may is a
/// choice left to OpenVINO. No mode but OpenVINO reaches it.
pub proof fn law_reaching_the_plugin(mode: ExecutionMode)
    ensures
        may_reach_plugin(mode) <==> reaches_plugin(mode) || (mode matches ExecutionMode::OpenVino {
            device_type,
        } && target_of(device_type@) == OvTarget::UnresolvedAuto),
        mode !is OpenVino ==> !may_reach_plugin(mode),
        mode matches ExecutionMode::OpenVino { device_type } && target_of(device_type@)
            == OvTarget::UnresolvedAuto ==> !reaches_plugin(mode),
{
}

/// White space around a device string changes nothing.
pub proof fn law_white_space_around_a_device_is_ignored(device: Seq<char>)
    ensures
        target_of(trim_of(device)) == target_of(device),
        device_of(trim_of(device)) == device_of(device),
{
    lemma_trim_is_final(device);
}

/// A trimmed string has nothing left to trim.
proof fn lemma_trim_is_final(s: Seq<char>)
    ensures
        trim_of(trim_of(s)) == trim_of(s),
{
    let started = trim_start_of(s);
    lemma_trimmed_start(s);
    lemma_trimmed_end(started);
    let ended = trim_end_of(started);
    if ended.len() > 0 {
        assert(ended[0] == started[0]);
    }
}

/// What is trimmed at the start begins with no white space.
proof fn lemma_trimmed_start(s: Seq<char>)
    ensures
        trim_start_of(s).len() > 0 ==> !white_space(trim_start_of(s)[0]),
    decreases s.len(),
{
    if s.len() > 0 && white_space(s[0]) {
        lemma_trimmed_start(s.drop_first());
    }
}

/// What is trimmed at the end is a prefix that ends in no white space.
proof fn lemma_trimmed_end(s: Seq<char>)
    ensures
        trim_end_of(s).len() > 0 ==> !white_space(trim_end_of(s).last()),
        trim_end_of(s).len() <= s.len(),
        forall|i: int| 0 <= i < trim_end_of(s).len() ==> #[trigger] trim_end_of(s)[i] == s[i],
    decreases s.len(),
{
    if s.len() > 0 && white_space(s.last()) {
        lemma_trimmed_end(s.drop_last());
    }
}

} // verus!
