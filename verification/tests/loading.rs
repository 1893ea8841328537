//! Finding the runtime library, and putting a segmentation model together.

use speakrs::mode::{BuildFeatures, ExecutionMode, Feature, Refusal};
use speakrs::runtime::{
    candidate_places, dedup_paths, default_library_name, format_paths, minor_version, prepare,
    resolve_library_path, validate_library, Candidate, DynamicRuntimeError, LibraryProbe,
    ModelLoadError, OrtRuntime, OrtRuntimeError, Platform, Preparation, Resolved, RuntimeEvent, SearchRoot,
};
use speakrs::grid::ScoreGrid;
use speakrs::segmentation::{
    LoadEvent, LoadStage, NativeAsset, SegmentationError, SegmentationLoad, SegmentationModel,
};

const APPLE: BuildFeatures = BuildFeatures {
    coreml: true,
    cuda: false,
    migraphx: false,
    openvino: true,
};

fn candidate(path: &str, exists: bool) -> Candidate {
    Candidate {
        path: path.to_string(),
        exists,
    }
}

/// Asking for a library that is not there ends in an error that says so.
#[test]
fn dynamic_runtime_preflight_fails_instead_of_hanging() {
    let missing = "missing-ort-runtime/libonnxruntime.dylib";
    let searched = resolve_library_path(
        "libonnxruntime.dylib",
        Some(candidate(missing, false)),
        &vec![candidate("elsewhere/libonnxruntime.dylib", true)],
    );
    let error = match prepare(RuntimeEvent::Searched(searched)) {
        Preparation::Failed(error) => error,
        other => panic!("{other:?}"),
    };
    assert!(matches!(
        error,
        OrtRuntimeError::Dynamic(DynamicRuntimeError::Missing { .. })
    ));

    // And it stays that way for the process.
    let mut runtime = OrtRuntime::new();
    assert_eq!(runtime.outcome(), None);
    runtime.settle(Err(error.clone()));
    runtime.settle(Ok(()));
    assert_eq!(runtime.outcome(), Some(&Err(error)));
}

#[test]
fn the_first_library_there_is_wins() {
    let name = default_library_name(Platform::Linux);
    let candidates = vec![
        candidate("a/libonnxruntime.so", false),
        candidate("b/libonnxruntime.so", true),
        candidate("c/libonnxruntime.so", true),
    ];
    assert_eq!(
        resolve_library_path(name, None, &candidates),
        Ok(Resolved::Candidate(1))
    );
    // An empty request is no request.
    assert_eq!(
        resolve_library_path(name, Some(candidate("", false)), &candidates),
        Ok(Resolved::Candidate(1))
    );
    assert_eq!(
        resolve_library_path(name, Some(candidate("mine.so", true)), &candidates),
        Ok(Resolved::Requested)
    );
    let nothing = vec![candidate("a/x", false), candidate("b/x", false)];
    let error = resolve_library_path(name, None, &nothing).unwrap_err();
    assert_eq!(
        error.to_string(),
        "missing ONNX Runtime dynamic library `libonnxruntime.so`; set `ORT_DYLIB_PATH` or place \
         it next to the test/binary\nsearched: a/x, b/x"
    );
    assert_eq!(format_paths(&nothing), "a/x, b/x");
    assert_eq!(format_paths(&vec![]), "");
}

#[test]
fn libraries_are_named_by_platform() {
    assert_eq!(default_library_name(Platform::Windows), "onnxruntime.dll");
    assert_eq!(default_library_name(Platform::Linux), "libonnxruntime.so");
    assert_eq!(default_library_name(Platform::Apple), "libonnxruntime.dylib");
}

#[test]
fn the_search_goes_outward() {
    let all: Vec<(SearchRoot, &str)> = candidate_places(true, true, true)
        .iter()
        .map(|place| (place.root, place.below))
        .collect();
    assert_eq!(
        all,
        vec![
            (SearchRoot::Executable, ""),
            (SearchRoot::AboveExecutable, ""),
            (SearchRoot::Working, ""),
            (SearchRoot::Working, "target/debug"),
            (SearchRoot::Working, "target/debug/deps"),
            (SearchRoot::Working, "target/release"),
            (SearchRoot::Working, "target/release/deps"),
        ]
    );
    assert_eq!(candidate_places(true, false, false).len(), 1);
    assert_eq!(candidate_places(false, true, false).len(), 0);
}

#[test]
fn the_first_of_equal_paths_is_kept() {
    assert_eq!(dedup_paths(vec![3, 1, 3, 2, 1]), vec![3, 1, 2]);
    assert_eq!(dedup_paths(Vec::<u8>::new()), Vec::<u8>::new());
}

#[test]
fn versions_are_read_after_the_first_full_stop() {
    assert_eq!(minor_version("1.24.0"), 24);
    assert_eq!(minor_version("1.24"), 24);
    assert_eq!(minor_version("1"), 0);
    assert_eq!(minor_version("1.x.0"), 0);
    assert_eq!(minor_version(""), 0);
}

#[test]
fn a_library_is_judged_by_its_answers() {
    let judge = |probe| validate_library("lib.so".to_string(), probe, 24);
    assert_eq!(judge(LibraryProbe::Version("1.24.1".to_string())), Ok(()));
    assert_eq!(judge(LibraryProbe::Version("1.25.0".to_string())), Ok(()));
    for (probe, message) in [
        (
            LibraryProbe::Version("1.23.9".to_string()),
            "ONNX Runtime dynamic library at `lib.so` is too old; expected >= 1.24.x, got `1.23.9`",
        ),
        (
            LibraryProbe::NotLoaded {
                message: "no such file".to_string(),
            },
            "failed to load ONNX Runtime dynamic library at `lib.so`: no such file",
        ),
        (
            LibraryProbe::NoApiBase,
            "ONNX Runtime dynamic library at `lib.so` does not export `OrtGetApiBase`",
        ),
        (
            LibraryProbe::NullApiBase,
            "ONNX Runtime dynamic library at `lib.so` returned a null `OrtApiBase`",
        ),
    ] {
        assert_eq!(judge(probe).unwrap_err().to_string(), message);
    }
}

#[test]
fn preparing_goes_from_search_to_judgement_to_initialization() {
    assert_eq!(
        prepare(RuntimeEvent::Searched(Ok(Resolved::Requested))),
        Preparation::Probe(Resolved::Requested)
    );
    assert_eq!(
        prepare(RuntimeEvent::Validated(Ok(()))),
        Preparation::Initialize
    );
    assert_eq!(
        prepare(RuntimeEvent::Validated(Err(
            DynamicRuntimeError::NullApiBase {
                path: "x".to_string()
            }
        ))),
        Preparation::Failed(OrtRuntimeError::Dynamic(DynamicRuntimeError::NullApiBase {
            path: "x".to_string()
        }))
    );
    assert_eq!(
        prepare(RuntimeEvent::Initialized(Ok(()))),
        Preparation::Ready
    );
    match prepare(RuntimeEvent::Initialized(Err("bad".to_string()))) {
        Preparation::Failed(error) => {
            assert_eq!(error.to_string(), "failed to initialize ONNX Runtime: bad")
        }
        other => panic!("{other:?}"),
    }
}

fn start(mode: ExecutionMode) -> SegmentationLoad<u8> {
    SegmentationModel::with_mode::<String>(1.0f32.to_bits(), mode, APPLE)
        .unwrap_or_else(|error| panic!("{error:?}"))
}

fn step(load: SegmentationLoad<u8>, event: LoadEvent<u8, String>) -> SegmentationLoad<u8> {
    load.advance(event)
        .unwrap_or_else(|error| panic!("{error:?}"))
}

fn fails(load: SegmentationLoad<u8>, event: LoadEvent<u8, String>) -> ModelLoadError<String> {
    match load.advance(event) {
        Ok(load) => panic!("went on to {:?}", load.stage),
        Err(error) => error,
    }
}

fn model(load: SegmentationLoad<u8>) -> SegmentationModel<u8> {
    match load.finish() {
        Ok(model) => model,
        Err(load) => panic!("stopped at {:?}", load.stage),
    }
}

#[test]
fn a_model_is_loaded_with_and_without_batching() {
    for (attempt, batched) in [(Some(Ok(2)), true), (None, false)] {
        let load = SegmentationModel::new::<String>(0.1f32.to_bits(), BuildFeatures::none())
            .unwrap_or_else(|error| panic!("{error:?}"));
        assert_eq!(load.stage, LoadStage::Runtime);
        let load = step(load, LoadEvent::Runtime(Ok(())));
        assert_eq!(load.stage, LoadStage::Session);
        let load = step(load, LoadEvent::Session(Ok(1)));
        assert_eq!(load.stage, LoadStage::Batched);
        let loaded = model(step(load, LoadEvent::Batched(attempt)));
        assert_eq!(loaded.is_batched(), batched);
        assert_eq!(loaded.session, 1);
        assert_eq!(loaded.mode(), ExecutionMode::Cpu);
        assert_eq!(loaded.sample_rate(), 16000);
        assert_eq!(loaded.window_samples(), 160000);
        assert_eq!(loaded.step_samples(), 1600);
    }
}

#[test]
fn a_load_stops_on_the_first_error() {
    match SegmentationModel::<u8>::with_mode::<String>(0, ExecutionMode::Cuda, APPLE) {
        Err(ModelLoadError::UnsupportedExecutionMode(error)) => {
            assert_eq!(error.reason, Refusal::MissingFeature(Feature::Cuda))
        }
        _ => panic!("cuda is not carried"),
    }
    let cpu = ExecutionMode::Cpu;
    assert_eq!(
        fails(
            start(cpu),
            LoadEvent::Runtime(Err(OrtRuntimeError::Initialization {
                message: "bad".to_string()
            }))
        )
        .to_string(),
        "failed to initialize ONNX Runtime: bad"
    );
    let ready = step(start(cpu), LoadEvent::Runtime(Ok(())));
    assert_eq!(
        fails(ready, LoadEvent::Session(Err("no model".to_string()))).to_string(),
        "no model"
    );
    let ready = step(start(cpu), LoadEvent::Runtime(Ok(())));
    let built = step(ready, LoadEvent::Session(Ok(1)));
    assert_eq!(
        fails(built, LoadEvent::Batched(Some(Err("damaged".to_string())))).to_string(),
        "damaged"
    );
    // A load that has not come to its end is handed back.
    assert!(start(cpu).finish().is_err());
}

#[test]
fn openvino_goes_on_without_a_batched_model_that_will_not_build() {
    for (device_type, survives) in [("GPU", true), ("AUTO", true), ("CPU", false)] {
        let mode = ExecutionMode::OpenVino { device_type };
        let ready = step(start(mode), LoadEvent::Runtime(Ok(())));
        let built = step(ready, LoadEvent::Session(Ok(1)));
        match built.advance(LoadEvent::Batched(Some(Err("refused".to_string())))) {
            Ok(load) => {
                assert!(survives, "{device_type}");
                assert!(!model(load).is_batched());
            }
            Err(error) => {
                assert!(!survives, "{device_type}");
                assert_eq!(error, ModelLoadError::Ort("refused".to_string()));
            }
        }
    }
}

fn native_ready() -> SegmentationLoad<u8> {
    let load = step(start(ExecutionMode::CoreMl), LoadEvent::Runtime(Ok(())));
    assert_eq!(load.stage, LoadStage::Assets);
    let load = step(load, LoadEvent::Assets(Ok(())));
    let load = step(load, LoadEvent::Session(Ok(1)));
    step(load, LoadEvent::Batched(None))
}

fn native(found: bool, path: &str) -> LoadEvent<u8, String> {
    LoadEvent::Native(Ok(found), path.to_string())
}

#[test]
fn coreml_needs_all_its_native_assets() {
    let load = native_ready();
    assert_eq!(load.stage, LoadStage::Native(NativeAsset::Single));
    let load = step(load, native(true, "one"));
    assert_eq!(load.stage, LoadStage::Native(NativeAsset::Batched));
    let load = step(load, native(true, "many"));
    assert_eq!(load.stage, LoadStage::Native(NativeAsset::LargeBatched));
    let load = step(load, native(true, "more"));
    assert_eq!(model(load).mode(), ExecutionMode::CoreMl);

    // The first that is missing is the one that is named.
    let load = step(native_ready(), native(true, "one"));
    let load = step(load, native(false, "many"));
    assert_eq!(
        fails(load, native(false, "more")).to_string(),
        "coreml requires native asset `many`"
    );

    // One that will not load is told before one that is missing.
    let load = step(native_ready(), native(false, "one"));
    let broken = ModelLoadError::NativeAssetLoad {
        mode: ExecutionMode::CoreMl,
        path: "many".to_string(),
        message: "broken".to_string(),
    };
    assert_eq!(
        fails(load, LoadEvent::Native(Err(broken), "many".to_string())).to_string(),
        "coreml failed to load native asset `many`: broken"
    );
    assert_eq!(NativeAsset::Single.batch_size(), 1);
    assert_eq!(NativeAsset::Batched.batch_size(), 32);
    assert_eq!(NativeAsset::LargeBatched.batch_size(), 64);
}

#[test]
fn segmentation_errors_say_what_failed() {
    let errors: [(SegmentationError<String>, &str); 5] = [
        (SegmentationError::Ort("bad".to_string()), "bad"),
        (
            SegmentationError::Disconnected(ScoreGrid::filled(1, 1, 0)),
            "receiver disconnected",
        ),
        (
            SegmentationError::Invariant {
                context: "windows",
                message: "none".to_string(),
            },
            "windows: none",
        ),
        (
            SegmentationError::MalformedOutput {
                context: "logits",
                message: "two axes".to_string(),
            },
            "logits: two axes",
        ),
        (
            SegmentationError::WorkerPanic {
                worker: "seg".to_string(),
            },
            "seg thread panicked",
        ),
    ];
    for (error, message) in errors {
        assert_eq!(error.to_string(), message);
    }
}
