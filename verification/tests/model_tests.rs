use mmm_core::dataset::{Dataset, Sample};
use mmm_core::kernel::{DType, MicroKernel};
use mmm_core::model::{features, render_models, train, CostModel, TrainError};

fn kernel(name: &str, mr: usize, nr: usize) -> MicroKernel {
    MicroKernel { name: name.as_bytes().to_vec(), mr, nr, alignment: 32, dtype: DType::F32 }
}

fn sample(name: &str, m: usize, k: usize, n: usize, y: i64) -> Sample {
    Sample { name: name.as_bytes().to_vec(), m, k, n, y }
}

#[test]
fn feature_vector_is_shape_plus_tile_work() {
    let f = features(8, 8, 8, 32, 8);
    assert_eq!(f, vec![8i64, 32, 8, 32]);
    let f2 = features(8, 8, 64, 32, 8);
    assert_eq!(f2, vec![64i64, 32, 8, 256]);
    let f3 = features(12, 8, 13, 32, 9);
    assert_eq!(f3, vec![13i64, 32, 9, 2 * 2 * 32]);
}

#[test]
fn predict_is_fixed_point_affine() {
    let model = CostModel { mr: 8, nr: 8, intercept: 10_000_000_000_000, coef: vec![0, 0, 0, 0] };
    assert_eq!(model.predict(8, 32, 8), 10_000_000);
    let model2 = CostModel { mr: 8, nr: 8, intercept: 0, coef: vec![1_000_000, 0, 0, 0] };
    assert_eq!(model2.predict(64, 32, 8), 64);
}

#[test]
fn predict_twice_is_identical() {
    let model = CostModel {
        mr: 8,
        nr: 8,
        intercept: 123_456_789,
        coef: vec![55_000, -22_000, 48_000, 8_500],
    };
    let a = model.predict(33, 100, 17);
    let b = model.predict(33, 100, 17);
    assert_eq!(a, b);
}

fn linear_m_dataset() -> Dataset {
    Dataset(vec![
        sample("K8x8", 8, 32, 8, 1_000_000),
        sample("K8x8", 64, 32, 8, 4_000_000),
        sample("K8x8", 16, 32, 8, 1_430_000),
        sample("K8x8", 32, 32, 8, 2_300_000),
        sample("K8x8", 8, 64, 8, 1_500_000),
        sample("K8x8", 8, 32, 16, 1_200_000),
        sample("K8x8", 16, 64, 16, 2_000_000),
    ])
}

#[test]
fn training_interpolates_between_observations() {
    let ds = linear_m_dataset();
    let model = train(&ds, &kernel("K8x8", 8, 8)).unwrap();
    assert_eq!(model.mr, 8);
    assert_eq!(model.nr, 8);
    let p8 = model.predict(8, 32, 8);
    let p32 = model.predict(32, 32, 8);
    let p64 = model.predict(64, 32, 8);
    assert!(1_000_000 < p32 && p32 < 4_000_000);
    assert_eq!(p32, 2_289_652);
    assert_eq!(p8, 1_003_826);
    assert_eq!(p64, 4_004_086);
}

#[test]
fn training_filters_by_kernel_name() {
    let mut samples = linear_m_dataset().0;
    samples.push(sample("other", 8, 32, 8, 999_999_999));
    samples.push(sample("other", 9, 32, 8, 999_999_999));
    let ds = Dataset(samples);
    let model = train(&ds, &kernel("K8x8", 8, 8)).unwrap();
    assert_eq!(model.predict(32, 32, 8), 2_289_652);
}

#[test]
fn too_few_samples_is_an_error() {
    let ds = Dataset(vec![
        sample("K8x8", 8, 32, 8, 1_000_000),
        sample("K8x8", 64, 32, 8, 4_000_000),
        sample("K8x8", 16, 32, 8, 1_430_000),
        sample("K8x8", 32, 32, 8, 2_300_000),
    ]);
    assert_eq!(train(&ds, &kernel("K8x8", 8, 8)), Err(TrainError::NotEnoughSamples));
}

#[test]
fn repeated_shape_is_singular() {
    let ds = Dataset(vec![
        sample("K8x8", 8, 32, 8, 1_000_000),
        sample("K8x8", 8, 32, 8, 1_000_100),
        sample("K8x8", 8, 32, 8, 1_000_200),
        sample("K8x8", 8, 32, 8, 1_000_300),
        sample("K8x8", 8, 32, 8, 1_000_400),
        sample("K8x8", 8, 32, 8, 1_000_500),
    ]);
    assert_eq!(train(&ds, &kernel("K8x8", 8, 8)), Err(TrainError::Singular));
}

#[test]
fn oversized_shape_is_rejected() {
    let mut samples = linear_m_dataset().0;
    samples.push(sample("K8x8", 5000, 32, 8, 1_000_000));
    let ds = Dataset(samples);
    assert_eq!(train(&ds, &kernel("K8x8", 8, 8)), Err(TrainError::SampleOutOfRange));
}

#[test]
fn rendered_model_table_is_rust_source() {
    let entries = vec![(
        "K".as_bytes().to_vec(),
        CostModel { mr: 8, nr: 8, intercept: -5, coef: vec![1, 2, 3, 4] },
    )];
    let out = render_models(&entries);
    let expect = "use crate::mmm::cost_model::CostModel;\n\
                  pub fn models() -> Vec<(&'static str, CostModel)> {\n\
                  vec!(\n\
                  (\"K\", CostModel { mr: 8, nr: 8,\n\
                  intercept: -5,\n\
                  coef: vec!(1, 2, 3, 4),\n\
                  }),\n\
                  )}\n";
    assert_eq!(out, expect.as_bytes().to_vec());
}

#[test]
fn training_twice_gives_the_same_model() {
    let ds = linear_m_dataset();
    let kr = kernel("K8x8", 8, 8);
    assert_eq!(train(&ds, &kr), train(&ds, &kr));
}
