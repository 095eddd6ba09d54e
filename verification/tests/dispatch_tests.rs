use mmm_core::arch::Kind;
use mmm_core::dispatch::{pick, plug, select_kernel, DispatchError, Ops};
use mmm_core::kernel::{DType, FusedSpec, KernelStatus, MicroKernel};
use mmm_core::model::CostModel;

fn b(s: &str) -> Vec<u8> {
    s.as_bytes().to_vec()
}

fn kernel(name: &str, dtype: DType) -> MicroKernel {
    MicroKernel { name: b(name), mr: 8, nr: 8, alignment: 32, dtype }
}

fn flat_model(ps: i64) -> CostModel {
    CostModel { mr: 8, nr: 8, intercept: ps * 1_000_000, coef: vec![0, 0, 0, 0] }
}

#[test]
fn dispatcher_returns_the_cheaper_kernel() {
    let kernels = vec![kernel("ten", DType::F32), kernel("twelve", DType::F32)];
    let models = vec![(b("ten"), flat_model(10_000_000)), (b("twelve"), flat_model(12_000_000))];
    assert_eq!(select_kernel(&kernels, &models, DType::F32, 8, 32, 8), Ok(0));
    let models2 = vec![(b("ten"), flat_model(12_000_000)), (b("twelve"), flat_model(10_000_000))];
    assert_eq!(select_kernel(&kernels, &models2, DType::F32, 8, 32, 8), Ok(1));
}

#[test]
fn ties_go_to_the_first_registered() {
    let kernels = vec![kernel("first", DType::F32), kernel("second", DType::F32)];
    let models =
        vec![(b("first"), flat_model(10_000_000)), (b("second"), flat_model(10_000_000))];
    assert_eq!(select_kernel(&kernels, &models, DType::F32, 8, 32, 8), Ok(0));
}

#[test]
fn datatype_filter_applies_before_cost() {
    let kernels = vec![kernel("int", DType::I32), kernel("float", DType::F32)];
    let models = vec![(b("int"), flat_model(1)), (b("float"), flat_model(1_000_000))];
    assert_eq!(select_kernel(&kernels, &models, DType::F32, 8, 32, 8), Ok(1));
    assert_eq!(
        select_kernel(&kernels, &models, DType::I8, 8, 32, 8),
        Err(DispatchError::NoKernelForDType)
    );
}

#[test]
fn missing_model_is_a_configuration_error() {
    let kernels = vec![kernel("lone", DType::F32)];
    let models: Vec<(Vec<u8>, CostModel)> = vec![];
    assert_eq!(
        select_kernel(&kernels, &models, DType::F32, 8, 32, 8),
        Err(DispatchError::MissingModel)
    );
}

#[test]
fn pick_chooses_among_f32_kernels() {
    let impls = vec![kernel("a", DType::F32), kernel("c", DType::F32)];
    let models = vec![(b("a"), flat_model(9_000_000)), (b("c"), flat_model(2_000_000))];
    assert_eq!(pick(&models, &impls, 16, 64, 16), Ok(1));
}

#[test]
fn baseline_registration_always_has_a_choice() {
    let ops = Ops::new();
    assert_eq!(ops.mmm_f32_impls.len(), 1);
    assert_eq!(ops.mmm_f32_impls[0].name, b("generic_f32_4x4"));
    assert_eq!(ops.mmm_f32(8, 32, 8), Ok(0));
}

#[test]
fn plug_installs_the_arm64_kernel_set() {
    let mut ops = Ops::new();
    plug(&mut ops, Kind::CortexA53);
    assert_eq!(ops.mmm_f32_impls.len(), 9);
    assert_eq!(ops.mmm_f32_impls[0].name, b("arm64simd_mmm_f32_12x8_a53"));
    assert_eq!(ops.mmm_f32_impls[0].mr, 12);
    assert_eq!(ops.mmm_f32_impls[0].nr, 8);
    assert_eq!(ops.mmm_f32_impls[8].name, b("generic_f32_4x4"));
    assert_eq!(ops.mmv_f32.name, b("arm64simd_mmm_f32_64x1_a53"));
    assert_eq!(ops.qmmm_i32.name, b("arm64simd_mmm_i32_8x8"));
    assert_eq!(ops.qmmv_i32.name, b("arm64simd_mmm_i32_64x1"));
    assert_eq!(ops.cost_models.len(), 9);
    for (i, (name, model)) in ops.cost_models.iter().enumerate() {
        assert_eq!(name, &ops.mmm_f32_impls[i].name);
        assert_eq!(model.mr, ops.mmm_f32_impls[i].mr);
        assert_eq!(model.nr, ops.mmm_f32_impls[i].nr);
    }
    assert!(ops.mmm_f32(24, 128, 24).is_ok());
}

#[test]
fn other_profiles_fall_back_to_plain_kernels() {
    let mut ops = Ops::new();
    plug(&mut ops, Kind::Generic);
    assert_eq!(ops.mmv_f32.name, b("arm64simd_mmm_f32_64x1"));
    let mut ops2 = Ops::new();
    plug(&mut ops2, Kind::CortexA72);
    assert_eq!(ops2.mmv_f32.name, b("arm64simd_mmm_f32_64x1"));
}

#[test]
fn kernel_packing_formats_follow_the_tile() {
    let kr = kernel("k", DType::F32);
    assert_eq!(kr.a_pack().panel_rows, 8);
    assert_eq!(kr.b_pack().panel_rows, 8);
    assert_eq!(kr.a_pack().alignment, 32);
}

#[test]
fn kernel_status_zero_is_success() {
    assert!(KernelStatus(0).ok());
    assert!(!KernelStatus(-1).ok());
    assert!(!KernelStatus(7).ok());
}

#[test]
fn fused_stream_is_accumulate_then_store() {
    let stream = vec![FusedSpec::AddMatMul { k: 32 }, FusedSpec::Store];
    assert_eq!(stream, vec![FusedSpec::AddMatMul { k: 32 }, FusedSpec::Store]);
}
