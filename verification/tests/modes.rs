//! Execution modes: what a build refuses, what a device string means, which provider a session
//! is asked to run on, and which model file it is given.

use speakrs::device::{
    may_reach_openvino_gpu, openvino_gpu_plugin, ov_device_token, ov_target, OvDevice, OvTarget,
};
use speakrs::embedding::{fbank_threads, openvino_precision, EmbeddingModel};
use speakrs::mode::{
    names_a_device, BuildFeatures, CoreMlComputeUnits, DeviceNames, ExecutionMode, Feature,
    Refusal,
};
use speakrs::provider::{
    dispatch, graph_provider, is_passable, provider_for, ArenaGrowth, ConvolutionSearch,
    CudaOptions, Provider,
};
use speakrs::segmentation::{
    batched_model_file, batched_segmentation_file_name, batched_segmentation_file_name_for,
    batched_session, intra_threads, primary_batched_file, tolerates_unbuildable_batched,
    PRIMARY_BATCH_SIZE, SEGMENTATION_ONNX,
};

const EVERYTHING: BuildFeatures = BuildFeatures {
    coreml: true,
    cuda: true,
    migraphx: true,
    openvino: true,
};

const CUDA: CudaOptions = CudaOptions {
    device_id: 0,
    tf32: true,
    search: ConvolutionSearch::Exhaustive,
    max_workspace: true,
    arena: ArenaGrowth::SameAsRequested,
    prefer_nhwc: true,
};

fn refused(mode: ExecutionMode) -> String {
    mode.validate(BuildFeatures::none())
        .unwrap_err()
        .to_string()
}

#[test]
fn inference_only_an_empty_device_string_is_refused() {
    for device in ["", " ", "\t"] {
        assert!(
            ExecutionMode::OpenVino {
                device_type: device
            }
            .validate(BuildFeatures::none())
            .is_err(),
            "{device:?} names no device",
        );
    }

    for device in ["GPU", "AUTO", "BATCH:GPU(4)", "FUTURE:GPU", "gpu"] {
        assert!(
            ExecutionMode::OpenVino {
                device_type: device
            }
            .validate(EVERYTHING)
            .is_ok(),
            "{device:?} is ONNX Runtime's to accept or refuse, not this crate's",
        );
    }
}

#[test]
fn inference_the_same_device_string_is_leaked_once() {
    let mut names = DeviceNames::new();
    let a = ExecutionMode::openvino("GPU.1", &mut names);
    let b = ExecutionMode::openvino(&String::from("GPU.1"), &mut names);
    match (a, b) {
        (
            ExecutionMode::OpenVino { device_type: x },
            ExecutionMode::OpenVino { device_type: y },
        ) => {
            assert_eq!(x, "GPU.1");
            assert!(std::ptr::eq(x, y), "asking twice must not leak twice");
        }
        other => panic!("{other:?} is not an OpenVINO mode"),
    }
}

#[test]
fn inference_the_label_carries_the_device_and_as_str_does_not() {
    let mode = ExecutionMode::openvino("GPU.1", &mut DeviceNames::new());
    assert_eq!(mode.label(), "openvino:GPU.1");
    assert_eq!(mode.as_str(), "openvino");
    assert_eq!(ExecutionMode::Cuda.label(), "cuda");
    assert_eq!(ExecutionMode::Cuda.to_string(), "cuda");
}

#[test]
fn coreml_modes_require_feature() {
    assert_eq!(
        refused(ExecutionMode::CoreMl),
        "coreml requires the `coreml` Cargo feature"
    );
    assert_eq!(
        refused(ExecutionMode::CoreMlFast),
        "coreml-fast requires the `coreml` Cargo feature"
    );
}

#[test]
fn cuda_modes_require_feature() {
    assert_eq!(
        refused(ExecutionMode::Cuda),
        "cuda requires the `cuda` Cargo feature"
    );
    assert_eq!(
        refused(ExecutionMode::CudaFast),
        "cuda-fast requires the `cuda` Cargo feature"
    );
}

#[test]
fn migraphx_mode_requires_feature() {
    assert_eq!(
        refused(ExecutionMode::MiGraphX),
        "migraphx requires the `migraphx` Cargo feature"
    );
}

#[test]
fn inference_openvino_mode_requires_feature() {
    assert_eq!(
        refused(ExecutionMode::OpenVino { device_type: "GPU" }),
        "openvino requires the `openvino` Cargo feature"
    );
}

/// Empty names no device; anything else is left to ONNX Runtime, whose set of legal strings is
/// larger than this library's and still growing.
#[test]
fn inference_openvino_tests_only_an_empty_device_string_is_refused() {
    for device in ["", " ", "\t"] {
        assert!(!names_a_device(device), "{device:?} names no device");
        assert!(
            ExecutionMode::OpenVino {
                device_type: device
            }
            .validate(BuildFeatures::none())
            .is_err(),
            "{device:?} names no device",
        );
    }

    for device in ["GPU", "AUTO", "BATCH:GPU(4)", "FUTURE:GPU", "gpu"] {
        assert!(
            names_a_device(device),
            "{device:?} is ONNX Runtime's to accept or refuse, not this crate's",
        );
    }
}

/// Which of the two refusals it is has to survive into the message.
#[test]
fn an_empty_device_string_is_not_blamed_on_a_missing_feature() {
    for features in [BuildFeatures::none(), EVERYTHING] {
        let error = ExecutionMode::OpenVino { device_type: "" }
            .validate(features)
            .unwrap_err();
        assert_eq!(
            error.to_string(),
            "openvino was given a device string naming no device",
        );
        assert_eq!(error.reason, Refusal::NoDevice);
    }
}

#[test]
fn inference_openvino_tests_the_same_device_string_is_leaked_once() {
    let mut names = DeviceNames::new();
    let a = ExecutionMode::openvino("GPU.1", &mut names);
    let b = ExecutionMode::openvino(&String::from("GPU.1"), &mut names);
    match (a, b) {
        (
            ExecutionMode::OpenVino { device_type: x },
            ExecutionMode::OpenVino { device_type: y },
        ) => {
            assert_eq!(x, "GPU.1");
            assert!(std::ptr::eq(x, y), "asking twice must not leak twice");
        }
        other => panic!("{other:?} is not an OpenVINO mode"),
    }
    assert_eq!(names.count(), 1);
    ExecutionMode::openvino("NPU", &mut names);
    let c = ExecutionMode::openvino("GPU.1", &mut names);
    assert_eq!(names.count(), 2);
    match (a, c) {
        (
            ExecutionMode::OpenVino { device_type: x },
            ExecutionMode::OpenVino { device_type: y },
        ) => assert!(std::ptr::eq(x, y), "asking later must not leak again"),
        other => panic!("{other:?} is not an OpenVINO mode"),
    }
}

/// A log line wants the device; `as_str` cannot carry it and must not start to.
#[test]
fn inference_openvino_tests_the_label_carries_the_device_and_as_str_does_not() {
    let mode = ExecutionMode::openvino("GPU.1", &mut DeviceNames::new());
    assert_eq!(mode.label(), "openvino:GPU.1");
    assert_eq!(mode.as_str(), "openvino");
    assert_eq!(ExecutionMode::Cuda.label(), "cuda");
    assert_eq!(ExecutionMode::Cuda.to_string(), "cuda");
}

#[test]
fn inference_openvino_tests_openvino_mode_requires_feature() {
    assert_eq!(
        refused(ExecutionMode::OpenVino { device_type: "GPU" }),
        "openvino requires the `openvino` Cargo feature"
    );
}

#[test]
fn every_mode_has_its_name_and_one_backend() {
    let modes = [
        (ExecutionMode::Cpu, "cpu", None),
        (ExecutionMode::CoreMl, "coreml", Some(Feature::CoreMl)),
        (
            ExecutionMode::CoreMlFast,
            "coreml-fast",
            Some(Feature::CoreMl),
        ),
        (ExecutionMode::Cuda, "cuda", Some(Feature::Cuda)),
        (ExecutionMode::CudaFast, "cuda-fast", Some(Feature::Cuda)),
        (ExecutionMode::MiGraphX, "migraphx", Some(Feature::MiGraphX)),
        (
            ExecutionMode::OpenVino { device_type: "CPU" },
            "openvino",
            Some(Feature::OpenVino),
        ),
    ];
    for (mode, name, backend) in modes {
        assert_eq!(mode.as_str(), name);
        assert_eq!(mode.is_coreml(), backend == Some(Feature::CoreMl));
        assert_eq!(mode.is_cuda(), backend == Some(Feature::Cuda));
        assert_eq!(mode.is_migraphx(), backend == Some(Feature::MiGraphX));
        assert_eq!(mode.is_openvino(), backend == Some(Feature::OpenVino));
        assert_eq!(mode.validate(EVERYTHING), Ok(()));
        match mode.validate(BuildFeatures::none()) {
            Ok(()) => assert_eq!(backend, None),
            Err(error) => {
                assert_eq!(error.mode, mode);
                assert_eq!(Some(error.reason), backend.map(Refusal::MissingFeature));
            }
        }
    }
    assert_eq!(CoreMlComputeUnits::default(), CoreMlComputeUnits::All);
}

#[test]
fn only_openvino_asks_for_a_precision() {
    for device in ["GPU", "GPU.1", "HETERO:NPU,GPU", "BATCH:GPU(4)"] {
        assert_eq!(
            openvino_precision(ExecutionMode::OpenVino {
                device_type: device
            }),
            Some("FP32"),
            "{device:?} reaches the plugin the measurement came from",
        );
    }

    // Bare AUTO is in, and the file selection excludes it: the two guesses go opposite ways on
    // purpose.
    assert_eq!(
        openvino_precision(ExecutionMode::OpenVino {
            device_type: "AUTO"
        }),
        Some("FP32"),
    );

    for device in ["CPU", "NPU", "MULTI:CPU,NPU"] {
        assert_eq!(
            openvino_precision(ExecutionMode::OpenVino {
                device_type: device
            }),
            None,
            "{device:?} was never measured to need FP32 and does not use that plugin",
        );
    }

    for mode in [
        ExecutionMode::Cpu,
        ExecutionMode::Cuda,
        ExecutionMode::CudaFast,
        ExecutionMode::MiGraphX,
    ] {
        assert_eq!(openvino_precision(mode), None, "{mode:?} must be untouched");
    }
}

#[test]
fn the_prepared_model_is_named_after_the_export_and_the_batch() {
    assert_eq!(
        batched_segmentation_file_name(),
        "segmentation-3.0-b32-dynseq.onnx"
    );
}

/// The batched model that a mode takes from a directory that holds these files.
fn taken(present: &[String], mode: ExecutionMode) -> Option<String> {
    primary_batched_file("segmentation-3.0.onnx", mode).filter(|name| present.contains(name))
}

fn stock() -> String {
    format!("segmentation-3.0-b{PRIMARY_BATCH_SIZE}.onnx")
}

#[test]
fn the_reported_file_name_is_the_one_the_loader_looks_for() {
    let present = [stock(), batched_segmentation_file_name()];
    for mode in [
        ExecutionMode::Cpu,
        ExecutionMode::Cuda,
        ExecutionMode::MiGraphX,
        ExecutionMode::OpenVino { device_type: "GPU" },
        ExecutionMode::OpenVino { device_type: "CPU" },
    ] {
        let looked_for = taken(&present, mode)
            .unwrap_or_else(|| panic!("{mode:?} found no batched model with both files present"));
        assert_eq!(
            looked_for,
            batched_segmentation_file_name_for(mode),
            "{mode:?} reports a different file from the one it loads",
        );
    }
}

/// Every device string there is a rule for, and what it resolves to.
#[test]
fn a_device_string_resolves_to_one_answer() {
    for (device, want) in [
        ("GPU", OvTarget::GpuOnly),
        ("GPU.0", OvTarget::GpuOnly),
        ("GPU.1", OvTarget::GpuOnly),
        ("CPU", OvTarget::Cpu),
        ("NPU", OvTarget::Npu),
        ("HETERO:NPU,GPU", OvTarget::GpuComposite),
        ("AUTO:GPU,CPU", OvTarget::GpuComposite),
        ("AUTO:CPU,GPU", OvTarget::GpuComposite),
        ("BATCH:GPU", OvTarget::GpuComposite),
        ("BATCH:GPU(4)", OvTarget::GpuComposite),
        ("BATCH:GPU(16)", OvTarget::GpuComposite),
        ("MULTI:GPU.1,GPU.0", OvTarget::GpuComposite),
        ("BATCH:CPU(16)", OvTarget::NonGpuComposite),
        ("MULTI:CPU,NPU", OvTarget::NonGpuComposite),
        ("AUTO", OvTarget::UnresolvedAuto),
        ("MULTI", OvTarget::UnresolvedAuto),
        (" GPU ", OvTarget::GpuOnly),
        // A list carrying a name that cannot be read is not a list without a GPU.
        ("AUTO:-CPU", OvTarget::GpuComposite),
        ("MULTI:-CPU", OvTarget::GpuComposite),
        ("AUTO:BATCH:GPU(4)", OvTarget::GpuComposite),
    ] {
        assert_eq!(ov_target(device), want, "{device:?}");
    }
}

#[test]
fn a_device_string_at_the_edges() {
    for (device, want) in [
        ("", OvTarget::GpuComposite),
        ("AUTO:", OvTarget::UnresolvedAuto),
        ("AUTO: ", OvTarget::UnresolvedAuto),
        ("HETERO:", OvTarget::UnresolvedAuto),
        ("HETERO", OvTarget::GpuComposite),
        (" MULTI : CPU , NPU ", OvTarget::NonGpuComposite),
        ("AUTO:CPU,", OvTarget::GpuComposite),
        ("\u{a0}CPU\u{3000}", OvTarget::Cpu),
        ("CPU.7", OvTarget::Cpu),
        ("CPU (8)", OvTarget::Cpu),
        ("CPU(8", OvTarget::GpuComposite),
        (":GPU", OvTarget::GpuComposite),
    ] {
        assert_eq!(ov_target(device), want, "{device:?}");
    }
    for (token, want) in [
        ("GPU", Some(OvDevice::Gpu)),
        (" GPU.1 ", Some(OvDevice::Gpu)),
        ("GPU(4)", Some(OvDevice::Gpu)),
        ("GPU.0(4)", Some(OvDevice::Gpu)),
        ("NPU()", Some(OvDevice::Npu)),
        ("CPU", Some(OvDevice::Cpu)),
        ("GPU(", None),
        ("-CPU", None),
        ("cpu", None),
        ("", None),
    ] {
        assert_eq!(ov_device_token(token), want, "{token:?}");
    }
}

#[test]
fn a_device_list_this_cannot_read_is_not_a_list_without_a_gpu() {
    for device in ["AUTO:-CPU", "MULTI:-CPU", "AUTO:BATCH:GPU(4)", "AUTO:GPU("] {
        let mode = ExecutionMode::OpenVino {
            device_type: device,
        };
        assert!(
            openvino_gpu_plugin(mode),
            "{device:?} holds a name that cannot be read, so it must be assumed to reach the \
             plugin",
        );
        assert!(
            tolerates_unbuildable_batched(mode),
            "{device:?} must survive a batched model the plugin refuses, not fail the load",
        );
    }

    for device in ["MULTI:CPU,NPU", "BATCH:CPU(16)"] {
        let mode = ExecutionMode::OpenVino {
            device_type: device,
        };
        assert!(
            !openvino_gpu_plugin(mode),
            "{device:?} names only devices this crate read, and none is a GPU",
        );
    }
}

#[test]
fn an_unrecognised_device_string_is_assumed_to_reach_the_gpu() {
    for device in ["gpu", "Gpu", "foobar", "VPU", "FUTURE:GPU"] {
        assert!(
            openvino_gpu_plugin(ExecutionMode::OpenVino {
                device_type: device
            }),
            "{device:?} should be assumed to reach the plugin",
        );
    }
}

#[test]
fn bare_auto_takes_the_stock_export_and_survives_a_refusal() {
    let mode = ExecutionMode::OpenVino {
        device_type: "AUTO",
    };
    assert!(
        !openvino_gpu_plugin(mode),
        "bare AUTO must not be sent to the derived model",
    );
    assert!(
        tolerates_unbuildable_batched(mode),
        "bare AUTO may still land on a GPU, so a refusal must cost batching, not the load",
    );
    assert!(may_reach_openvino_gpu(mode));
}

#[test]
fn only_openvino_survives_a_batched_model_that_will_not_build() {
    for mode in [
        ExecutionMode::OpenVino { device_type: "GPU" },
        ExecutionMode::OpenVino {
            device_type: "GPU.1",
        },
        ExecutionMode::OpenVino {
            device_type: "HETERO:NPU,GPU",
        },
        ExecutionMode::OpenVino {
            device_type: "BATCH:GPU(4)",
        },
        ExecutionMode::OpenVino {
            device_type: "AUTO",
        },
    ] {
        assert!(
            tolerates_unbuildable_batched(mode),
            "{mode:?} must degrade rather than fail: its batched model is derived, not shipped",
        );
        assert_eq!(
            batched_session::<u8, &str>(mode, Some(Err("unbuildable"))),
            Ok(None)
        );
    }

    for mode in [
        ExecutionMode::OpenVino { device_type: "CPU" },
        ExecutionMode::OpenVino { device_type: "NPU" },
        ExecutionMode::OpenVino {
            device_type: "MULTI:CPU,NPU",
        },
    ] {
        assert!(
            !tolerates_unbuildable_batched(mode),
            "{mode:?} is handed the export that ships with the weights; it must not degrade",
        );
    }

    for mode in [
        ExecutionMode::Cpu,
        ExecutionMode::Cuda,
        ExecutionMode::CudaFast,
        ExecutionMode::MiGraphX,
        ExecutionMode::CoreMl,
        ExecutionMode::CoreMlFast,
    ] {
        assert!(
            !tolerates_unbuildable_batched(mode),
            "{mode:?}: a batched export that ships with the weights and will not build is a \
             damaged download",
        );
        assert_eq!(
            batched_session::<u8, &str>(mode, Some(Err("unbuildable"))),
            Err("unbuildable")
        );
        assert_eq!(batched_session::<u8, &str>(mode, Some(Ok(7))), Ok(Some(7)));
        assert_eq!(batched_session::<u8, &str>(mode, None), Ok(None));
    }
}

#[test]
fn openvino_never_takes_the_stock_batched_model() {
    let present = [stock()];

    // The control: every other accelerated mode takes it, so a None below is the mode talking
    // and not a missing file or a mangled name.
    assert!(taken(&present, ExecutionMode::Cuda).is_some());
    assert!(taken(&present, ExecutionMode::MiGraphX).is_some());

    for device in ["GPU", "GPU.0", "GPU.1", "HETERO:NPU,GPU", "AUTO:GPU,CPU"] {
        assert_eq!(
            taken(
                &present,
                ExecutionMode::OpenVino {
                    device_type: device
                }
            ),
            None,
            "{device} reaches the GPU plugin and must not take the stock export",
        );
    }

    for device in ["CPU", "NPU"] {
        assert_eq!(
            taken(
                &present,
                ExecutionMode::OpenVino {
                    device_type: device,
                }
            ),
            Some(format!("segmentation-3.0-b{PRIMARY_BATCH_SIZE}.onnx")),
            "{device} does not reach the GPU plugin and should take the stock export",
        );
    }
}

#[test]
fn openvino_takes_the_prepared_model_when_it_is_there() {
    let prepared = format!("segmentation-3.0-b{PRIMARY_BATCH_SIZE}-dynseq.onnx");
    let present = [stock(), prepared.clone()];

    assert_eq!(
        taken(&present, ExecutionMode::OpenVino { device_type: "GPU" }),
        Some(prepared),
    );

    // And nobody else goes looking for it: the stock export is what they can compile.
    let cuda = taken(&present, ExecutionMode::Cuda).unwrap();
    assert!(
        cuda.ends_with(&format!("-b{PRIMARY_BATCH_SIZE}.onnx")),
        "cuda took {cuda:?}"
    );
}

#[test]
fn a_missing_batched_model_is_still_none_for_everyone() {
    assert_eq!(taken(&[], ExecutionMode::Cuda), None);
    assert_eq!(
        taken(&[], ExecutionMode::OpenVino { device_type: "GPU" }),
        None,
    );
}

#[test]
fn batched_names_follow_the_model() {
    assert_eq!(SEGMENTATION_ONNX, "segmentation-3.0.onnx");
    assert_eq!(
        batched_model_file("wespeaker.onnx", 64),
        Some("wespeaker-b64.onnx".to_string())
    );
    assert_eq!(
        batched_model_file(".onnx", 7),
        Some("-b7.onnx".to_string())
    );
    assert_eq!(batched_model_file("wespeaker.ort", 64), None);
    assert_eq!(batched_model_file("onnx", 64), None);
    for mode in [
        ExecutionMode::Cuda,
        ExecutionMode::OpenVino { device_type: "GPU" },
    ] {
        assert_eq!(primary_batched_file("weights.bin", mode), None);
    }
    assert_eq!(
        primary_batched_file("mine.onnx", ExecutionMode::Cuda),
        Some("mine-b32.onnx".to_string())
    );
    assert_eq!(
        primary_batched_file("mine.onnx", ExecutionMode::OpenVino { device_type: "GPU" }),
        Some("segmentation-3.0-b32-dynseq.onnx".to_string())
    );
}

#[test]
fn every_mode_has_its_provider() {
    let cpu = Provider::Cpu { arena: false };
    for mode in [
        ExecutionMode::Cpu,
        ExecutionMode::CoreMl,
        ExecutionMode::CoreMlFast,
    ] {
        assert_eq!(
            provider_for(mode, Some("FP32"), EVERYTHING),
            Ok(Provider::Cpu { arena: false })
        );
    }
    for mode in [ExecutionMode::Cuda, ExecutionMode::CudaFast] {
        assert_eq!(
            provider_for(mode, Some("FP32"), EVERYTHING),
            Ok(Provider::Cuda { options: CUDA })
        );
    }
    assert_eq!(
        provider_for(ExecutionMode::MiGraphX, None, EVERYTHING),
        Ok(Provider::MiGraphX {
            device_id: 0,
            growth: ArenaGrowth::SameAsRequested,
        })
    );
    let gpu = ExecutionMode::OpenVino {
        device_type: "GPU.1",
    };
    assert_eq!(
        provider_for(gpu, None, EVERYTHING),
        Ok(Provider::OpenVino {
            device_type: "GPU.1".to_string(),
            precision: None,
        })
    );
    assert_eq!(
        provider_for(gpu, Some("FP32"), EVERYTHING),
        Ok(Provider::OpenVino {
            device_type: "GPU.1".to_string(),
            precision: Some("FP32".to_string()),
        })
    );
    assert_eq!(
        provider_for(gpu, None, BuildFeatures::none())
            .unwrap_err()
            .reason,
        Refusal::MissingFeature(Feature::OpenVino)
    );
    assert_eq!(graph_provider(BuildFeatures::none()), cpu);
    assert_eq!(
        graph_provider(EVERYTHING),
        Provider::CudaGraph { options: CUDA }
    );
}

#[test]
fn providers_reach_onnx_runtime_as_they_were_set_up() {
    let cpu = dispatch(&Provider::Cpu { arena: false });
    assert_eq!(
        format!("{cpu:?}"),
        "CPUExecutionProvider { error_on_failure: false }"
    );
    let inner = cpu.downcast_ref::<ort::ep::CPU>().unwrap();
    assert_eq!(format!("{inner:?}"), "CPU { use_arena: false }");
    let arena = dispatch(&Provider::Cpu { arena: true });
    let inner = arena.downcast_ref::<ort::ep::CPU>().unwrap();
    assert_eq!(format!("{inner:?}"), "CPU { use_arena: true }");

    let cuda = dispatch(&Provider::Cuda { options: CUDA });
    assert_eq!(
        format!("{cuda:?}"),
        "CUDAExecutionProvider { error_on_failure: true }"
    );
    let plain = format!("{:?}", cuda.downcast_ref::<ort::ep::CUDA>().unwrap());
    for (name, value) in [
        ("device_id", "0"),
        ("use_tf32", "1"),
        ("cudnn_conv_algo_search", "EXHAUSTIVE"),
        ("cudnn_conv_use_max_workspace", "1"),
        ("arena_extend_strategy", "kSameAsRequested"),
        ("prefer_nhwc", "1"),
    ] {
        assert!(plain.contains(name), "{name} in {plain}");
        assert!(plain.contains(value), "{name} = {value} in {plain}");
    }
    assert!(!plain.contains("enable_cuda_graph"), "{plain}");

    let other = CudaOptions {
        device_id: 3,
        search: ConvolutionSearch::Heuristic,
        arena: ArenaGrowth::NextPowerOfTwo,
        ..CUDA
    };
    let graph = dispatch(&Provider::CudaGraph { options: other });
    let captured = format!("{:?}", graph.downcast_ref::<ort::ep::CUDA>().unwrap());
    for part in ["enable_cuda_graph", "\"3\"", "HEURISTIC", "kNextPowerOfTwo"] {
        assert!(captured.contains(part), "{part} in {captured}");
    }
    assert_eq!(
        format!("{graph:?}"),
        "CUDAExecutionProvider { error_on_failure: true }"
    );

    let migraphx = dispatch(&Provider::MiGraphX {
        device_id: 2,
        growth: ArenaGrowth::SameAsRequested,
    });
    assert_eq!(
        format!("{migraphx:?}"),
        "MIGraphXExecutionProvider { error_on_failure: true }"
    );
    let inner = format!("{:?}", migraphx.downcast_ref::<ort::ep::MIGraphX>().unwrap());
    assert!(inner.contains("device_id: 2"), "{inner}");
    assert!(inner.contains("SameAsRequested"), "{inner}");

    let openvino = dispatch(&Provider::OpenVino {
        device_type: "GPU.1".to_string(),
        precision: None,
    });
    assert_eq!(
        format!("{openvino:?}"),
        "OpenVINOExecutionProvider { error_on_failure: true }"
    );
    let inner = format!("{:?}", openvino.downcast_ref::<ort::ep::OpenVINO>().unwrap());
    assert!(inner.contains("GPU.1"), "{inner}");
    assert!(!inner.contains("precision"), "{inner}");

    let precise = dispatch(&Provider::OpenVino {
        device_type: "AUTO".to_string(),
        precision: Some("FP32".to_string()),
    });
    let inner = format!("{:?}", precise.downcast_ref::<ort::ep::OpenVINO>().unwrap());
    assert!(inner.contains("AUTO"), "{inner}");
    assert!(inner.contains("FP32"), "{inner}");
    assert_eq!(
        format!("{precise:?}"),
        "OpenVINOExecutionProvider { error_on_failure: true }"
    );
}

#[test]
fn a_zero_cannot_be_handed_over() {
    assert!(is_passable("GPU.1"));
    assert!(is_passable(""));
    assert!(!is_passable("GPU\0"));
}

#[test]
fn onnx_runtime_sessions_never_run_in_a_coreml_mode() {
    for mode in [ExecutionMode::CoreMl, ExecutionMode::CoreMlFast] {
        assert_eq!(
            EmbeddingModel::single_execution_mode(mode),
            ExecutionMode::Cpu
        );
    }
    for mode in [
        ExecutionMode::Cpu,
        ExecutionMode::Cuda,
        ExecutionMode::OpenVino { device_type: "NPU" },
    ] {
        assert_eq!(EmbeddingModel::single_execution_mode(mode), mode);
    }
}

#[test]
fn sessions_take_a_few_threads() {
    assert_eq!(intra_threads(1), 1);
    assert_eq!(intra_threads(6), 6);
    assert_eq!(intra_threads(64), 6);
    assert_eq!(fbank_threads(None), 1);
    assert_eq!(fbank_threads(Some(3)), 3);
    assert_eq!(fbank_threads(Some(64)), 4);
}
