//! Finding the ONNX Runtime library, and judging whether it will do.
use crate::mode::{ExecutionMode, ExecutionModeError};
use crate::text::{decimal, decimal_of, is_digit, parse_u32, parse_u32_of, split, split_of};
use crate::text_laws::{
    law_decimals_write_their_number, law_numbers_are_read_as_written,
    law_pieces_give_the_text_again, law_split_once_finds_the_parts, law_split_once_is_at_the_first,
};
use vstd::prelude::*;
use vstd::std_specs::cmp::PartialEqSpec;

verus! {

/// Errors from locating or validating the dynamic ONNX Runtime library
#[derive(Debug, Clone, PartialEq, Eq)]
#[non_exhaustive]
pub enum DynamicRuntimeError {
    /// No candidate runtime library was found
    Missing {
        /// The platform-specific dynamic library filename
        library_name: &'static str,
        /// The candidate paths checked before giving up
        searched: String,
    },
    /// Loading the requested runtime library failed
    Load {
        /// The path that failed to load
        path: String,
        /// The dynamic loader error
        message: String,
    },
    /// The requested runtime library does not export `OrtGetApiBase`
    MissingApiBase {
        /// The path that was missing the required symbol
        path: String,
    },
    /// The requested runtime library returned a null API base pointer
    NullApiBase {
        /// The path that returned a null API pointer
        path: String,
    },
    /// The requested runtime library is older than the `ort` crate expects
    IncompatibleVersion {
        /// The incompatible runtime library path
        path: String,
        /// The minimum ONNX Runtime minor version required by `ort`
        required_minor: u32,
        /// The version reported by the discovered runtime library
        found_version: String,
    },
}

/// Errors that can occur while preparing the process-wide ONNX Runtime environment
#[derive(Debug, Clone, PartialEq, Eq)]
#[non_exhaustive]
pub enum OrtRuntimeError {
    /// Dynamic runtime discovery or validation failed before `ort` could initialize
    Dynamic(DynamicRuntimeError),
    /// `ort::init_from` failed after runtime validation succeeded
    Initialization {
        /// The initialization error returned by `ort`
        message: String,
    },
}

/// Errors that can occur while loading a model or initializing ONNX Runtime
///
/// `E` is the error that ONNX Runtime itself gives.
#[derive(Debug, PartialEq, Eq)]
#[non_exhaustive]
pub enum ModelLoadError<E> {
    /// Requested execution mode is not supported by this build
    UnsupportedExecutionMode(ExecutionModeError),
    /// ONNX Runtime could not be prepared for this process
    Runtime(OrtRuntimeError),
    /// ONNX Runtime returned an error after initialization completed
    Ort(E),
    /// A required native model asset is missing for the selected execution mode
    MissingNativeAsset {
        /// The execution mode that requires the asset
        mode: ExecutionMode,
        /// The missing compiled CoreML bundle path
        path: String,
    },
    /// A required native model asset exists but failed to load
    NativeAssetLoad {
        /// The execution mode that requires the asset
        mode: ExecutionMode,
        /// The compiled CoreML bundle path that failed to load
        path: String,
        /// The backend load error
        message: String,
    },
}

impl DynamicRuntimeError {
    /// What is said of the error.
    pub open spec fn text(self) -> Seq<char> {
        match self {
            DynamicRuntimeError::Missing { library_name, searched } =>
                "missing ONNX Runtime dynamic library `"@ + library_name@
                + "`; set `ORT_DYLIB_PATH` or place it next to the test/binary\nsearched: "@
                + searched@,
            DynamicRuntimeError::Load { path, message } =>
                "failed to load ONNX Runtime dynamic library at `"@ + path@ + "`: "@ + message@,
            DynamicRuntimeError::MissingApiBase { path } => "ONNX Runtime dynamic library at `"@
                + path@ + "` does not export `OrtGetApiBase`"@,
            DynamicRuntimeError::NullApiBase { path } => "ONNX Runtime dynamic library at `"@
                + path@ + "` returned a null `OrtApiBase`"@,
            DynamicRuntimeError::IncompatibleVersion { path, required_minor, found_version } =>
                "ONNX Runtime dynamic library at `"@ + path@ + "` is too old; expected >= 1."@
                + decimal_of(required_minor as nat) + ".x, got `"@ + found_version@ + "`"@,
        }
    }

    /// What is said of the error.
    pub fn to_string(&self) -> (r: String)
        ensures
            r@ == self.text(),
    {
        let mut text: String = String::new();
        match self {
            DynamicRuntimeError::Missing { library_name, searched } => {
                text = "missing ONNX Runtime dynamic library `".to_owned();
                text.append(library_name);
                text.append(
                    "`; set `ORT_DYLIB_PATH` or place it next to the test/binary\nsearched: ",
                );
                text.append(searched.as_str());
            },
            DynamicRuntimeError::Load { path, message } => {
                text = "failed to load ONNX Runtime dynamic library at `".to_owned();
                text.append(path.as_str());
                text.append("`: ");
                text.append(message.as_str());
            },
            DynamicRuntimeError::MissingApiBase { path } => {
                text = "ONNX Runtime dynamic library at `".to_owned();
                text.append(path.as_str());
                text.append("` does not export `OrtGetApiBase`");
            },
            DynamicRuntimeError::NullApiBase { path } => {
                text = "ONNX Runtime dynamic library at `".to_owned();
                text.append(path.as_str());
                text.append("` returned a null `OrtApiBase`");
            },
            DynamicRuntimeError::IncompatibleVersion { path, required_minor, found_version } => {
                text = "ONNX Runtime dynamic library at `".to_owned();
                text.append(path.as_str());
                text.append("` is too old; expected >= 1.");
                let minor: String = decimal(*required_minor as usize);
                text.append(minor.as_str());
                text.append(".x, got `");
                text.append(found_version.as_str());
                text.append("`");
            },
        }
        text
    }
}

impl OrtRuntimeError {
    /// What is said of the error.
    pub open spec fn text(self) -> Seq<char> {
        match self {
            OrtRuntimeError::Dynamic(error) => error.text(),
            OrtRuntimeError::Initialization { message } =>
                "failed to initialize ONNX Runtime: "@ + message@,
        }
    }

    /// What is said of the error.
    pub fn to_string(&self) -> (r: String)
        ensures
            r@ == self.text(),
    {
        match self {
            OrtRuntimeError::Dynamic(error) => error.to_string(),
            OrtRuntimeError::Initialization { message } => {
                let mut text: String = "failed to initialize ONNX Runtime: ".to_owned();
                text.append(message.as_str());
                text
            },
        }
    }
}

impl ModelLoadError<String> {
    /// What is said of the error.
    pub open spec fn text(self) -> Seq<char> {
        match self {
            ModelLoadError::UnsupportedExecutionMode(error) => error.text(),
            ModelLoadError::Runtime(error) => error.text(),
            ModelLoadError::Ort(message) => message@,
            ModelLoadError::MissingNativeAsset { mode, path } => mode.name()
                + " requires native asset `"@ + path@ + "`"@,
            ModelLoadError::NativeAssetLoad { mode, path, message } => mode.name()
                + " failed to load native asset `"@ + path@ + "`: "@ + message@,
        }
    }

    /// What is said of the error.
    pub fn to_string(&self) -> (r: String)
        ensures
            r@ == self.text(),
    {
        match self {
            ModelLoadError::UnsupportedExecutionMode(error) => error.to_string(),
            ModelLoadError::Runtime(error) => error.to_string(),
            ModelLoadError::Ort(message) => message.clone(),
            ModelLoadError::MissingNativeAsset { mode, path } => {
                let mut text: String = mode.as_str().to_owned();
                text.append(" requires native asset `");
                text.append(path.as_str());
                text.append("`");
                text
            },
            ModelLoadError::NativeAssetLoad { mode, path, message } => {
                let mut text: String = mode.as_str().to_owned();
                text.append(" failed to load native asset `");
                text.append(path.as_str());
                text.append("`: ");
                text.append(message.as_str());
                text
            },
        }
    }
}

/// A family of operating systems that name libraries alike.
#[derive(Debug, Clone, Copy, PartialEq, Eq, Structural)]
pub enum Platform {
    /// Windows
    Windows,
    /// Linux and Android
    Linux,
    /// macOS and iOS
    Apple,
}

/// The name of the runtime library on a platform.
pub open spec fn library_of(platform: Platform) -> Seq<char> {
    match platform {
        Platform::Windows => "onnxruntime.dll"@,
        Platform::Linux => "libonnxruntime.so"@,
        Platform::Apple => "libonnxruntime.dylib"@,
    }
}

/// The name of the runtime library on a platform.
pub fn default_library_name(platform: Platform) -> (r: &'static str)
    ensures
        r@ == library_of(platform),
{
    match platform {
        Platform::Windows => "onnxruntime.dll",
        Platform::Linux => "libonnxruntime.so",
        Platform::Apple => "libonnxruntime.dylib",
    }
}

/// A directory that a search starts from.
#[derive(Debug, Clone, Copy, PartialEq, Eq, Structural)]
pub enum SearchRoot {
    /// The directory of the executable
    Executable,
    /// The directory above the executable's
    AboveExecutable,
    /// The working directory
    Working,
}

/// A directory to search: one below a root, or the root itself where `below` is empty.
#[derive(Debug, Clone, Copy, PartialEq, Eq)]
pub struct SearchPlace {
    /// Where the path starts.
    pub root: SearchRoot,
    /// How it goes on from there.
    pub below: &'static str,
}

/// The directories to search, in order, of those whose root is known: next to the executable
/// and above it, then where a build in the working directory leaves its libraries.
pub open spec fn places(
    executable: bool,
    above: bool,
    working: bool,
) -> Seq<(SearchRoot, Seq<char>)> {
    let near = if !executable {
        seq![]
    } else if above {
        seq![(SearchRoot::Executable, ""@), (SearchRoot::AboveExecutable, ""@)]
    } else {
        seq![(SearchRoot::Executable, ""@)]
    };
    let built = if working {
        seq![
            (SearchRoot::Working, ""@),
            (SearchRoot::Working, "target/debug"@),
            (SearchRoot::Working, "target/debug/deps"@),
            (SearchRoot::Working, "target/release"@),
            (SearchRoot::Working, "target/release/deps"@),
        ]
    } else {
        seq![]
    };
    near + built
}

/// The directories to search, in order.
///
/// `executable` tells whether the executable's directory is known, `above` whether it has a
/// parent, and `working` whether the working directory is known.
pub fn candidate_places(executable: bool, above: bool, working: bool) -> (r: Vec<SearchPlace>)
    ensures
        r@.map(|i: int, place: SearchPlace| (place.root, place.below@)) == places(
            executable,
            above,
            working,
        ),
{
    let mut found: Vec<SearchPlace> = Vec::new();
    if executable {
        found.push(SearchPlace { root: SearchRoot::Executable, below: "" });
        if above {
            found.push(SearchPlace { root: SearchRoot::AboveExecutable, below: "" });
        }
    }
    if working {
        found.push(SearchPlace { root: SearchRoot::Working, below: "" });
        found.push(SearchPlace { root: SearchRoot::Working, below: "target/debug" });
        found.push(SearchPlace { root: SearchRoot::Working, below: "target/debug/deps" });
        found.push(SearchPlace { root: SearchRoot::Working, below: "target/release" });
        found.push(SearchPlace { root: SearchRoot::Working, below: "target/release/deps" });
    }
    proof {
        assert(found@.map(|i: int, place: SearchPlace| (place.root, place.below@)) =~= places(
            executable,
            above,
            working,
        ));
    }
    found
}

/// Whether a sequence holds something equal to `path`, as `==` has it.
pub open spec fn holds<P: PartialEq>(paths: Seq<P>, path: P) -> bool {
    exists|i: int| 0 <= i < paths.len() && (#[trigger] paths[i]).eq_spec(&path)
}

/// The paths that are equal to none before them, in order.
pub open spec fn first_of_equals<P: PartialEq>(paths: Seq<P>) -> Seq<P>
    decreases paths.len(),
{
    if paths.len() == 0 {
        paths
    } else {
        let before = first_of_equals(paths.drop_last());
        if holds(before, paths.last()) {
            before
        } else {
            before.push(paths.last())
        }
    }
}

/// Whether some element of `paths` equals `path`.
fn contains<P: PartialEq>(paths: &Vec<P>, path: &P) -> (r: bool)
    requires
        P::obeys_eq_spec(),
    ensures
        r == holds(paths@, *path),
{
    let mut i: usize = 0;
    while i < paths.len()
        invariant
            P::obeys_eq_spec(),
            i <= paths@.len(),
            forall|j: int| 0 <= j < i ==> !(#[trigger] paths@[j]).eq_spec(path),
        decreases paths@.len() - i,
    {
        if paths[i] == *path {
            return true;
        }
        i = i + 1;
    }
    false
}

/// Drops every path that equals an earlier one.
pub fn dedup_paths<P: PartialEq>(paths: Vec<P>) -> (r: Vec<P>)
    requires
        P::obeys_eq_spec(),
    ensures
        r@ == first_of_equals(paths@),
{
    let mut rest: Vec<P> = paths;
    let ghost all = rest@;
    let mut unique: Vec<P> = Vec::new();
    let ghost mut n: int = 0;
    proof {
        assert(all.take(0) =~= Seq::<P>::empty());
        assert(all.skip(0) =~= all);
    }
    while rest.len() > 0
        invariant
            P::obeys_eq_spec(),
            0 <= n <= all.len(),
            rest@ == all.skip(n),
            unique@ == first_of_equals(all.take(n)),
        decreases rest@.len(),
    {
        let path: P = rest.remove(0);
        proof {
            assert(all.take(n + 1).drop_last() =~= all.take(n));
            assert(all.take(n + 1).last() == path);
            assert(rest@ =~= all.skip(n + 1));
            n = n + 1;
        }
        if !contains(&unique, &path) {
            unique.push(path);
        }
    }
    proof {
        assert(all.take(n) =~= all);
    }
    unique
}

/// The paths in one line, with a comma and a space between one and the next.
pub open spec fn listed(paths: Seq<Seq<char>>) -> Seq<char>
    decreases paths.len(),
{
    if paths.len() == 0 {
        seq![]
    } else if paths.len() == 1 {
        paths[0]
    } else {
        listed(paths.drop_last()) + ", "@ + paths.last()
    }
}

/// A candidate library: its path as it is displayed, and whether there is a file.
#[derive(Debug, PartialEq, Eq)]
pub struct Candidate {
    /// The path.
    pub path: String,
    /// Whether there is a file at the path.
    pub exists: bool,
}

/// The paths of candidates.
pub open spec fn paths_of(candidates: Seq<Candidate>) -> Seq<Seq<char>> {
    candidates.map(|i: int, candidate: Candidate| candidate.path@)
}

/// The paths of candidates in one line.
pub fn format_paths(candidates: &Vec<Candidate>) -> (r: String)
    ensures
        r@ == listed(paths_of(candidates@)),
{
    let mut line: String = String::new();
    let ghost paths = paths_of(candidates@);
    let mut i: usize = 0;
    proof {
        assert(line@ =~= listed(paths.take(0)));
    }
    while i < candidates.len()
        invariant
            i <= candidates@.len(),
            paths == paths_of(candidates@),
            line@ == listed(paths.take(i as int)),
        decreases candidates@.len() - i,
    {
        let ghost before = line@;
        if i > 0 {
            line.append(", ");
        }
        line.append(candidates[i].path.as_str());
        proof {
            assert(paths.take(i + 1).drop_last() =~= paths.take(i as int));
            assert(paths.take(i + 1).last() == paths[i as int]);
            if i == 0 {
                assert(before =~= Seq::<char>::empty());
                assert(line@ =~= paths[0]);
            } else {
                assert(line@ =~= before + ", "@ + paths[i as int]);
            }
        }
        i = i + 1;
    }
    proof {
        assert(paths.take(i as int) =~= paths);
    }
    line
}

/// The library that was settled on.
#[derive(Debug, Clone, Copy, PartialEq, Eq, Structural)]
pub enum Resolved {
    /// The one that was asked for
    Requested,
    /// One of the candidates
    Candidate(usize),
}

/// Whether a candidate is the first that exists.
pub open spec fn first_existing(candidates: Seq<Candidate>, i: int) -> bool {
    &&& 0 <= i < candidates.len()
    &&& candidates[i].exists
    &&& forall|j: int| 0 <= j < i ==> !(#[trigger] candidates[j]).exists
}

/// The first candidate that exists.
fn find_existing(candidates: &Vec<Candidate>) -> (r: Option<usize>)
    ensures
        match r {
            Some(i) => first_existing(candidates@, i as int),
            None => forall|i: int|
                0 <= i < candidates@.len() ==> !(#[trigger] candidates@[i]).exists,
        },
{
    let mut i: usize = 0;
    while i < candidates.len()
        invariant
            i <= candidates@.len(),
            forall|j: int| 0 <= j < i ==> !(#[trigger] candidates@[j]).exists,
        decreases candidates@.len() - i,
    {
        if candidates[i].exists {
            return Some(i);
        }
        i = i + 1;
    }
    None
}

/// Settles on the library that was asked for, where one was: a path that is not empty. Where
/// none was, settles on the first candidate that exists.
pub fn resolve_library_path(
    library_name: &'static str,
    requested: Option<Candidate>,
    candidates: &Vec<Candidate>,
) -> (r: Result<Resolved, DynamicRuntimeError>)
    ensures
        match requested {
            Some(path) if path.path@.len() > 0 => if path.exists {
                r == Ok::<Resolved, DynamicRuntimeError>(Resolved::Requested)
            } else {
                r matches Err(DynamicRuntimeError::Missing { library_name: name, searched })
                    && name == library_name && searched@ == path.path@
            },
            _ => match r {
                Ok(Resolved::Candidate(i)) => first_existing(candidates@, i as int),
                Ok(Resolved::Requested) => false,
                Err(error) => {
                    &&& forall|i: int|
                        0 <= i < candidates@.len() ==> !(#[trigger] candidates@[i]).exists
                    &&& error matches DynamicRuntimeError::Missing { library_name: name, searched }
                        && name == library_name && searched@ == listed(paths_of(candidates@))
                },
            },
        },
{
    if let Some(path) = requested {
        if path.path.as_str().unicode_len() > 0 {
            return if path.exists {
                Ok(Resolved::Requested)
            } else {
                Err(DynamicRuntimeError::Missing { library_name, searched: path.path })
            };
        }
    }
    match find_existing(candidates) {
        Some(i) => Ok(Resolved::Candidate(i)),
        None => Err(
            DynamicRuntimeError::Missing { library_name, searched: format_paths(candidates) },
        ),
    }
}

/// What opening a library and asking it for its version came to.
#[derive(Debug, PartialEq, Eq)]
pub enum LibraryProbe {
    /// It could not be loaded.
    NotLoaded {
        /// The loader's error.
        message: String,
    },
    /// It does not export `OrtGetApiBase`.
    NoApiBase,
    /// `OrtGetApiBase` returned a null pointer.
    NullApiBase,
    /// It reports a version.
    Version(String),
}

/// The minor version that a version string writes: the number after the first full stop, or
/// zero where there is none.
pub open spec fn minor_of(version: Seq<char>) -> u32 {
    let parts = split_of(version, '.');
    if parts.len() > 1 {
        match parse_u32_of(parts[1]) {
            Some(minor) => minor,
            None => 0,
        }
    } else {
        0
    }
}

/// The minor version that a version string writes.
pub fn minor_version(version: &str) -> (r: u32)
    ensures
        r == minor_of(version@),
{
    let parts: Vec<&str> = split(version, '.');
    if parts.len() > 1 {
        match parse_u32(parts[1]) {
            Some(minor) => minor,
            None => 0,
        }
    } else {
        0
    }
}

/// Judges a library by what it answered.
pub fn validate_library(path: String, probe: LibraryProbe, required_minor: u32) -> (r: Result<
    (),
    DynamicRuntimeError,
>)
    ensures
        match probe {
            LibraryProbe::NotLoaded { message } => r == Err::<(), DynamicRuntimeError>(
                DynamicRuntimeError::Load { path, message },
            ),
            LibraryProbe::NoApiBase => r == Err::<(), DynamicRuntimeError>(
                DynamicRuntimeError::MissingApiBase { path },
            ),
            LibraryProbe::NullApiBase => r == Err::<(), DynamicRuntimeError>(
                DynamicRuntimeError::NullApiBase { path },
            ),
            LibraryProbe::Version(found_version) => if minor_of(found_version@) < required_minor {
                r == Err::<(), DynamicRuntimeError>(
                    DynamicRuntimeError::IncompatibleVersion {
                        path,
                        required_minor,
                        found_version,
                    },
                )
            } else {
                r is Ok
            },
        },
{
    match probe {
        LibraryProbe::NotLoaded { message } => Err(DynamicRuntimeError::Load { path, message }),
        LibraryProbe::NoApiBase => Err(DynamicRuntimeError::MissingApiBase { path }),
        LibraryProbe::NullApiBase => Err(DynamicRuntimeError::NullApiBase { path }),
        LibraryProbe::Version(found_version) => {
            if minor_version(found_version.as_str()) < required_minor {
                Err(DynamicRuntimeError::IncompatibleVersion { path, required_minor, found_version })
            } else {
                Ok(())
            }
        },
    }
}

/// What preparing the runtime has come to.
#[derive(Debug, PartialEq, Eq)]
pub enum Preparation {
    /// The library that was settled on has to be opened and asked.
    Probe(Resolved),
    /// The library has been judged and has to be initialized.
    Initialize,
    /// The runtime is ready.
    Ready,
    /// The runtime cannot be had.
    Failed(OrtRuntimeError),
}

/// What happened while the runtime was being prepared.
pub enum RuntimeEvent {
    /// A library was looked for.
    Searched(Result<Resolved, DynamicRuntimeError>),
    /// The library was judged.
    Validated(Result<(), DynamicRuntimeError>),
    /// The library was initialized, or said why not.
    Initialized(Result<(), String>),
}

/// What comes after an event: looking for a library, judging it and initializing it follow
/// one another, and the first failure ends the preparation.
pub open spec fn prepared_of(event: RuntimeEvent) -> Preparation {
    match event {
        RuntimeEvent::Searched(Ok(resolved)) => Preparation::Probe(resolved),
        RuntimeEvent::Searched(Err(error)) => Preparation::Failed(OrtRuntimeError::Dynamic(error)),
        RuntimeEvent::Validated(Ok(_)) => Preparation::Initialize,
        RuntimeEvent::Validated(Err(error)) => Preparation::Failed(
            OrtRuntimeError::Dynamic(error),
        ),
        RuntimeEvent::Initialized(Ok(_)) => Preparation::Ready,
        RuntimeEvent::Initialized(Err(message)) => Preparation::Failed(
            OrtRuntimeError::Initialization { message },
        ),
    }
}

/// What comes after an event.
pub fn prepare(event: RuntimeEvent) -> (r: Preparation)
    ensures
        r == prepared_of(event),
{
    match event {
        RuntimeEvent::Searched(Ok(resolved)) => Preparation::Probe(resolved),
        RuntimeEvent::Searched(Err(error)) => Preparation::Failed(OrtRuntimeError::Dynamic(error)),
        RuntimeEvent::Validated(Ok(_)) => Preparation::Initialize,
        RuntimeEvent::Validated(Err(error)) => Preparation::Failed(
            OrtRuntimeError::Dynamic(error),
        ),
        RuntimeEvent::Initialized(Ok(_)) => Preparation::Ready,
        RuntimeEvent::Initialized(Err(message)) => Preparation::Failed(
            OrtRuntimeError::Initialization { message },
        ),
    }
}

/// The runtime of a process, which is prepared once.
pub struct OrtRuntime {
    outcome: Option<Result<(), OrtRuntimeError>>,
}

impl View for OrtRuntime {
    type V = Option<Result<(), OrtRuntimeError>>;

    closed spec fn view(&self) -> Option<Result<(), OrtRuntimeError>> {
        self.outcome
    }
}

/// What stands after an attempt to prepare the runtime: the first outcome there was.
pub open spec fn settled(
    outcome: Option<Result<(), OrtRuntimeError>>,
    attempt: Result<(), OrtRuntimeError>,
) -> Option<Result<(), OrtRuntimeError>> {
    match outcome {
        Some(first) => Some(first),
        None => Some(attempt),
    }
}

impl OrtRuntime {
    /// A runtime that has not been prepared yet.
    pub fn new() -> (r: Self)
        ensures
            r@ is None,
    {
        OrtRuntime { outcome: None }
    }

    /// What preparing the runtime came to, once that has been tried.
    pub fn outcome(&self) -> (r: Option<&Result<(), OrtRuntimeError>>)
        ensures
            match r {
                Some(outcome) => self@ == Some(*outcome),
                None => self@ is None,
            },
    {
        self.outcome.as_ref()
    }

    /// Takes what an attempt to prepare the runtime came to. The first outcome stays.
    pub fn settle(&mut self, attempt: Result<(), OrtRuntimeError>)
        ensures
            final(self)@ == settled(old(self)@, attempt),
    {
        if self.outcome.is_none() {
            self.outcome = Some(attempt);
        }
    }
}

/// A library that was looked for in vain leaves the process without a runtime: that is what
/// preparing it came to, and no later attempt changes it.
pub proof fn law_a_missing_library_is_missing_for_good(
    error: DynamicRuntimeError,
    later: Result<(), OrtRuntimeError>,
)
    requires
        error is Missing,
    ensures
        prepared_of(RuntimeEvent::Searched(Err(error))) == Preparation::Failed(
            OrtRuntimeError::Dynamic(error),
        ),
        settled(settled(None, Err(OrtRuntimeError::Dynamic(error))), later) == Some(
            Err::<(), OrtRuntimeError>(OrtRuntimeError::Dynamic(error)),
        ),
{
}

/// The first outcome of preparing the runtime stays, whatever comes later.
pub proof fn law_the_first_outcome_stays(
    first: Result<(), OrtRuntimeError>,
    later: Result<(), OrtRuntimeError>,
)
    ensures
        settled(settled(None, first), later) == Some(first),
{
}

/// No two of the paths that are kept are equal, and every path has its equal among them.
pub proof fn law_first_of_equals<P: PartialEq>(paths: Seq<P>)
    requires
        forall|a: P| #[trigger] a.eq_spec(&a),
    ensures
        forall|i: int, j: int|
            0 <= i < j < first_of_equals(paths).len() ==> !(#[trigger] first_of_equals(
                paths,
            )[i]).eq_spec(#[trigger] &first_of_equals(paths)[j]),
        forall|i: int| 0 <= i < paths.len() ==> holds(first_of_equals(paths), #[trigger] paths[i]),
    decreases paths.len(),
{
    if paths.len() > 0 {
        law_first_of_equals(paths.drop_last());
        let before = first_of_equals(paths.drop_last());
        let after = first_of_equals(paths);
        assert forall|i: int, j: int| 0 <= i < j < after.len() implies !(#[trigger] after[i])
            .eq_spec(#[trigger] &after[j]) by {
            assert(after[i] == before[i]);
            if j < before.len() {
                assert(after[j] == before[j]);
            }
        }
        assert forall|i: int| 0 <= i < paths.len() implies holds(after, #[trigger] paths[i]) by {
            if i < paths.len() - 1 {
                assert(paths.drop_last()[i] == paths[i]);
                assert(holds(before, paths[i]));
                let k = choose|k: int|
                    0 <= k < before.len() && (#[trigger] before[k]).eq_spec(&paths[i]);
                assert(after[k] == before[k]);
            } else if !holds(before, paths.last()) {
                assert(after[before.len() as int].eq_spec(&paths.last()));
            } else {
                assert(after == before);
            }
        }
    }
}

/// A library whose version cannot be read counts as too old.
pub proof fn law_an_unreadable_version_is_too_old(version: Seq<char>, required: u32)
    requires
        split_of(version, '.').len() < 2 || parse_u32_of(split_of(version, '.')[1]) is None,
        required > 0,
    ensures
        minor_of(version) < required,
{
}

/// The minor version is the number between the first full stop and the next, or the end.
pub proof fn law_minor_version_is_between_the_full_stops(
    major: Seq<char>,
    minor: nat,
    rest: Seq<char>,
)
    requires
        minor <= u32::MAX,
        !major.contains('.'),
    ensures
        minor_of(major + seq!['.'] + decimal_of(minor)) == minor,
        minor_of(major + seq!['.'] + (decimal_of(minor) + seq!['.'] + rest)) == minor,
        minor_of(major) == 0,
{
    let digits = decimal_of(minor);
    law_decimals_write_their_number(minor);
    law_numbers_are_read_as_written(minor);
    assert(!digits.contains('.')) by {
        if digits.contains('.') {
            let i = choose|i: int| 0 <= i < digits.len() && digits[i] == '.';
            assert(is_digit(digits[i]));
        }
    }
    law_split_once_is_at_the_first(major, '.');
    law_split_once_is_at_the_first(digits, '.');
    law_split_once_finds_the_parts(major, '.', digits);
    law_split_once_finds_the_parts(major, '.', digits + seq!['.'] + rest);
    law_split_once_finds_the_parts(digits, '.', rest);
    assert(split_of(digits, '.')[0] == digits);
    assert(split_of(major + seq!['.'] + digits, '.')[1] == digits);
    let longer = digits + seq!['.'] + rest;
    assert(split_of(longer, '.')[0] == digits);
    let whole = major + seq!['.'] + longer;
    assert(split_of(whole, '.') == seq![major] + split_of(longer, '.'));
    law_pieces_give_the_text_again(longer, '.');
    law_pieces_give_the_text_again(digits, '.');
    assert(split_of(whole, '.')[1] == digits);
}

/// One more path goes at the end of the line, after a comma and a space unless it is the
/// first; no paths are an empty line.
pub proof fn law_one_more_path_goes_at_the_end(paths: Seq<Seq<char>>, path: Seq<char>)
    ensures
        listed(Seq::<Seq<char>>::empty()) == Seq::<char>::empty(),
        listed(seq![path]) == path,
        paths.len() > 0 ==> listed(paths.push(path)) == listed(paths) + seq![',', ' '] + path,
{
    reveal_strlit(", ");
    assert(", "@ =~= seq![',', ' ']);
    assert(paths.push(path).drop_last() =~= paths);
    assert(listed(Seq::<Seq<char>>::empty()) =~= Seq::<char>::empty());
}

/// One more path is added at the end unless an earlier path equals it; then nothing changes.
pub proof fn law_one_more_path_is_kept_unless_it_was_there<P: PartialEq>(paths: Seq<P>, path: P)
    requires
        forall|a: P| #[trigger] a.eq_spec(&a),
        forall|a: P, b: P, c: P|
            #[trigger] a.eq_spec(&b) && #[trigger] b.eq_spec(&c) ==> a.eq_spec(&c),
    ensures
        first_of_equals(Seq::<P>::empty()) == Seq::<P>::empty(),
        (exists|i: int| 0 <= i < paths.len() && (#[trigger] paths[i]).eq_spec(&path))
            ==> first_of_equals(paths.push(path)) == first_of_equals(paths),
        (forall|i: int| 0 <= i < paths.len() ==> !(#[trigger] paths[i]).eq_spec(&path))
            ==> first_of_equals(paths.push(path)) == first_of_equals(paths).push(path),
{
    let before = first_of_equals(paths);
    assert(paths.push(path).drop_last() =~= paths);
    law_first_of_equals(paths);
    lemma_kept_were_there(paths);
    if exists|i: int| 0 <= i < paths.len() && (#[trigger] paths[i]).eq_spec(&path) {
        let i = choose|i: int| 0 <= i < paths.len() && (#[trigger] paths[i]).eq_spec(&path);
        assert(holds(before, paths[i]));
        let k = choose|k: int| 0 <= k < before.len() && (#[trigger] before[k]).eq_spec(&paths[i]);
        assert(before[k].eq_spec(&path));
        assert(holds(before, path));
    }
    if forall|i: int| 0 <= i < paths.len() ==> !(#[trigger] paths[i]).eq_spec(&path) {
        if holds(before, path) {
            let k = choose|k: int| 0 <= k < before.len() && (#[trigger] before[k]).eq_spec(&path);
            assert(paths.contains(before[k]));
            let i = choose|i: int| 0 <= i < paths.len() && paths[i] == before[k];
            assert(paths[i].eq_spec(&path));
        }
    }
}

/// Whatever is kept was there.
proof fn lemma_kept_were_there<P: PartialEq>(paths: Seq<P>)
    ensures
        forall|k: int|
            0 <= k < first_of_equals(paths).len() ==> paths.contains(
                #[trigger] first_of_equals(paths)[k],
            ),
    decreases paths.len(),
{
    if paths.len() > 0 {
        let rest = paths.drop_last();
        lemma_kept_were_there(rest);
        let before = first_of_equals(rest);
        let after = first_of_equals(paths);
        assert forall|k: int| 0 <= k < after.len() implies paths.contains(#[trigger] after[k]) by {
            if k < before.len() {
                assert(after[k] == before[k]);
                assert(rest.contains(before[k]));
                let i = choose|i: int| 0 <= i < rest.len() && rest[i] == before[k];
                assert(paths[i] == after[k]);
            } else {
                assert(after[k] == paths[paths.len() - 1]);
            }
        }
    }
}

/// The runtime is ready once the library was initialized and not before; a step that goes well
/// leads to the next, and one that fails ends the preparation with its own error.
pub proof fn law_only_an_initialized_library_is_ready(event: RuntimeEvent)
    ensures
        prepared_of(event) is Ready <==> event matches RuntimeEvent::Initialized(Ok(_)),
        prepared_of(event) is Initialize <==> event matches RuntimeEvent::Validated(Ok(_)),
        event matches RuntimeEvent::Searched(Ok(resolved)) ==> prepared_of(event)
            == Preparation::Probe(resolved),
        event matches RuntimeEvent::Searched(Err(error)) ==> prepared_of(event)
            == Preparation::Failed(OrtRuntimeError::Dynamic(error)),
        event matches RuntimeEvent::Validated(Err(error)) ==> prepared_of(event)
            == Preparation::Failed(OrtRuntimeError::Dynamic(error)),
        event matches RuntimeEvent::Initialized(Err(message)) ==> prepared_of(event)
            == Preparation::Failed(OrtRuntimeError::Initialization { message }),
{
}

/// What is next to the executable is searched before what is in the working directory, each
/// only where its root is known; the directory above goes with the executable's.
pub proof fn law_places_follow_their_roots(executable: bool, above: bool, working: bool)
    ensures
        places(executable, above, working) == places(executable, above, false) + places(
            false,
            false,
            working,
        ),
        forall|i: int|
            0 <= i < places(executable, above, working).len() ==> {
                let root = (#[trigger] places(executable, above, working)[i]).0;
                &&& root == SearchRoot::Executable ==> executable && i == 0
                &&& root == SearchRoot::AboveExecutable ==> executable && above && i == 1
                &&& root == SearchRoot::Working ==> working
            },
        places(executable, above, working).len() == (if executable {
            1int
        } else {
            0
        }) + (if executable && above {
            1int
        } else {
            0
        }) + (if working {
            5int
        } else {
            0
        }),
{
    assert(places(executable, above, working) =~= places(executable, above, false) + places(
        false,
        false,
        working,
    ));
}

} // verus!
