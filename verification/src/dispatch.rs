//! Kernel registration and dispatch: the per-architecture registration
//! table, and the cost-model-driven choice of the cheapest kernel for a
//! problem shape.

use vstd::prelude::*;
use vstd::string::StrSliceExecFns;
use vstd::string::StringSliceAdditionalSpecFns;
use crate::arch::Kind;
use crate::kernel::DType;
use crate::kernel::MicroKernel;
use crate::model::CostModel;

verus! {

/// Why dispatch failed: both are configuration errors of the registration,
/// fatal for the call.
#[derive(Clone, Copy, PartialEq, Eq, Structural, Debug)]
pub enum DispatchError {
    /// No registered kernel computes on the requested datatype.
    NoKernelForDType,
    /// A kernel matching the datatype has no usable cost model.
    MissingModel,
}

/// The first cost model registered under the given kernel name.
pub open spec fn model_for(models: Seq<(Vec<u8>, CostModel)>, name: Seq<u8>) -> Option<CostModel>
    decreases models.len(),
{
    if models.len() == 0 {
        Option::None
    } else if models[0].0@ == name {
        Option::Some(models[0].1)
    } else {
        model_for(models.drop_first(), name)
    }
}

/// The scan the dispatcher makes, over the first `t` registered kernels:
/// the index and predicted latency of the cheapest kernel of the requested
/// datatype so far (`None` when none matched yet), or the configuration
/// error it ran into. A strict comparison keeps the first of two equally
/// predicted kernels.
pub open spec fn scan_best(
    kernels: Seq<MicroKernel>,
    models: Seq<(Vec<u8>, CostModel)>,
    dtype: DType,
    m: int,
    k: int,
    n: int,
    t: int,
) -> Result<Option<(int, int)>, DispatchError>
    decreases t,
{
    if t <= 0 {
        Result::Ok(Option::None)
    } else {
        match scan_best(kernels, models, dtype, m, k, n, t - 1) {
            Result::Err(e) => Result::Err(e),
            Result::Ok(cur) => {
                let kr = kernels[t - 1];
                if kr.dtype != dtype {
                    Result::Ok(cur)
                } else {
                    match model_for(models, kr.name@) {
                        Option::None => Result::Err(DispatchError::MissingModel),
                        Option::Some(md) => if !md.wf() {
                            Result::Err(DispatchError::MissingModel)
                        } else {
                            let p = md.spec_predict(m, k, n);
                            match cur {
                                Option::None => Result::Ok(Option::Some((t - 1, p))),
                                Option::Some(best) => if p < best.1 {
                                    Result::Ok(Option::Some((t - 1, p)))
                                } else {
                                    Result::Ok(cur)
                                },
                            }
                        },
                    }
                }
            },
        }
    }
}

/// Index of the first model entry for `name`, when one exists.
fn model_index_for(models: &Vec<(Vec<u8>, CostModel)>, name: &Vec<u8>) -> (r: Option<usize>)
    ensures
        match r {
            Option::Some(ix) => ix < models@.len() && model_for(models@, name@) == Option::Some(
                models@[ix as int].1,
            ),
            Option::None => model_for(models@, name@) is None,
        },
{
    proof {
        assert(models@.skip(0) =~= models@);
    }
    let mut i: usize = 0;
    while i < models.len()
        invariant
            i <= models@.len(),
            model_for(models@, name@) == model_for(models@.skip(i as int), name@),
        decreases models@.len() - i,
    {
        let hit = crate::arch::bytes_eq(&models[i].0, name);
        proof {
            assert(models@.skip(i as int)[0] == models@[i as int]);
            assert(models@.skip(i as int).drop_first() =~= models@.skip(i + 1));
        }
        if hit {
            return Option::Some(i);
        }
        i = i + 1;
    }
    proof {
        assert(models@.skip(models@.len() as int).len() == 0);
    }
    Option::None
}

/// Pick the registered kernel predicted cheapest for an `(m, k, n)` matmul
/// of the given datatype: evaluate each matching kernel's cost model and
/// return the index of the first minimum. A missing kernel or model is a
/// configuration error, never a silent fallback.
pub fn select_kernel(
    kernels: &Vec<MicroKernel>,
    models: &Vec<(Vec<u8>, CostModel)>,
    dtype: DType,
    m: usize,
    k: usize,
    n: usize,
) -> (r: Result<usize, DispatchError>)
    requires
        m <= crate::model::MAX_SHAPE,
        k <= crate::model::MAX_SHAPE,
        n <= crate::model::MAX_SHAPE,
    ensures
        ({
            let sc = scan_best(
                kernels@,
                models@,
                dtype,
                m as int,
                k as int,
                n as int,
                kernels@.len() as int,
            );
            match r {
                Result::Ok(ix) => (match sc {
                    Result::Ok(Option::Some(b)) => ix == b.0,
                    _ => false,
                }),
                Result::Err(e) => (e == DispatchError::NoKernelForDType && sc == Result::<
                    Option<(int, int)>,
                    DispatchError,
                >::Ok(Option::None)) || sc == Result::<
                    Option<(int, int)>,
                    DispatchError,
                >::Err(e),
            }
        }),
{
    let mut best: Option<(usize, i128)> = Option::None;
    let mut t: usize = 0;
    while t < kernels.len()
        invariant
            m <= crate::model::MAX_SHAPE,
            k <= crate::model::MAX_SHAPE,
            n <= crate::model::MAX_SHAPE,
            t <= kernels@.len(),
            ({
                let sc = scan_best(
                    kernels@,
                    models@,
                    dtype,
                    m as int,
                    k as int,
                    n as int,
                    t as int,
                );
                match best {
                    Option::None => sc == Result::<Option<(int, int)>, DispatchError>::Ok(
                        Option::None,
                    ),
                    Option::Some(b) => sc == Result::<Option<(int, int)>, DispatchError>::Ok(
                        Option::Some((b.0 as int, b.1 as int)),
                    ) && b.0 < t,
                }
            }),
        decreases kernels@.len() - t,
    {
        let kr = &kernels[t];
        if kr.dtype == dtype {
            match model_index_for(models, &kr.name) {
                Option::None => {
                    proof {
                        assert(scan_best(kernels@, models@, dtype, m as int, k as int, n as int,
                            t + 1) == Result::<Option<(int, int)>, DispatchError>::Err(
                            DispatchError::MissingModel,
                        ));
                        lemma_scan_err_persists(kernels@, models@, dtype, m as int, k as int,
                            n as int, t + 1, kernels@.len() as int);
                    }
                    return Result::Err(DispatchError::MissingModel);
                },
                Option::Some(mix) => {
                    let md = &models[mix].1;
                    if md.coef.len() != 4 || md.mr < 1 || md.mr > crate::model::MAX_SHAPE
                        || md.nr < 1 || md.nr > crate::model::MAX_SHAPE {
                        proof {
                            assert(!(model_for(models@, kernels@[t as int].name@)->0.wf()));
                            assert(scan_best(kernels@, models@, dtype, m as int, k as int,
                                n as int, t + 1) == Result::<Option<(int, int)>, DispatchError>::Err(
                                DispatchError::MissingModel,
                            ));
                            lemma_scan_err_persists(kernels@, models@, dtype, m as int, k as int,
                                n as int, t + 1, kernels@.len() as int);
                        }
                        return Result::Err(DispatchError::MissingModel);
                    }
                    let p = md.predict(m, k, n);
                    match best {
                        Option::None => {
                            best = Option::Some((t, p));
                        },
                        Option::Some(b) => {
                            if p < b.1 {
                                best = Option::Some((t, p));
                            }
                        },
                    }
                },
            }
        }
        t = t + 1;
    }
    match best {
        Option::None => Result::Err(DispatchError::NoKernelForDType),
        Option::Some(b) => Result::Ok(b.0),
    }
}

proof fn lemma_scan_err_persists(
    kernels: Seq<MicroKernel>,
    models: Seq<(Vec<u8>, CostModel)>,
    dtype: DType,
    m: int,
    k: int,
    n: int,
    t: int,
    t2: int,
)
    requires
        0 <= t <= t2,
        scan_best(kernels, models, dtype, m, k, n, t) is Err,
    ensures
        scan_best(kernels, models, dtype, m, k, n, t2) == scan_best(
            kernels,
            models,
            dtype,
            m,
            k,
            n,
            t,
        ),
    decreases t2 - t,
{
    if t2 > t {
        lemma_scan_err_persists(kernels, models, dtype, m, k, n, t, t2 - 1);
    }
}

/// A scan that found nothing saw no kernel of the datatype at all.
proof fn lemma_scan_none(
    kernels: Seq<MicroKernel>,
    models: Seq<(Vec<u8>, CostModel)>,
    dtype: DType,
    m: int,
    k: int,
    n: int,
    t: int,
)
    requires
        0 <= t <= kernels.len(),
        scan_best(kernels, models, dtype, m, k, n, t) == Result::<
            Option<(int, int)>,
            DispatchError,
        >::Ok(Option::<(int, int)>::None),
    ensures
        forall|j: int| 0 <= j < t ==> (#[trigger] kernels[j]).dtype != dtype,
    decreases t,
{
    if t > 0 {
        let pre = scan_best(kernels, models, dtype, m, k, n, t - 1);
        match pre {
            Result::Err(_) => {
                assert(false);
            },
            Result::Ok(cur) => {
                match cur {
                    Option::None => {
                        lemma_scan_none(kernels, models, dtype, m, k, n, t - 1);
                        assert(kernels[t - 1].dtype != dtype);
                    },
                    Option::Some(_) => {
                        assert(false);
                    },
                }
            },
        }
    }
}

/// A kernel descriptor has the given name, tile shape and datatype, with
/// the registration's common 32-byte alignment.
pub open spec fn kdesc(kr: MicroKernel, name: Seq<u8>, mr: int, nr: int, dt: DType) -> bool {
    kr.name@ == name && kr.mr == mr && kr.nr == nr && kr.dtype == dt && kr.alignment == 32
}

fn mk(name: &str, mr: usize, nr: usize, dtype: DType) -> (kr: MicroKernel)
    ensures
        kdesc(kr, name.spec_bytes(), mr as int, nr as int, dtype),
{
    MicroKernel { name: name.as_bytes_vec(), mr, nr, alignment: 32, dtype }
}

/// The cost-model table is complete for a registration: one well-formed
/// model per kernel, under the kernel's name and fitted for its tile shape.
pub open spec fn models_match(models: Seq<(Vec<u8>, CostModel)>, kernels: Seq<MicroKernel>,
) -> bool {
    &&& models.len() == kernels.len()
    &&& forall|t: int|
        0 <= t < kernels.len() ==> (#[trigger] models[t]).0@ == kernels[t].name@ && models[t].1.wf()
            && models[t].1.mr == kernels[t].mr && models[t].1.nr == kernels[t].nr
}

fn a53_model(kr: &MicroKernel, intercept: i64, cm: i64, ck: i64, cn: i64, ct: i64) -> (e: (
    Vec<u8>,
    CostModel,
))
    requires
        kr.wf(),
        kr.mr <= crate::model::MAX_SHAPE,
        kr.nr <= crate::model::MAX_SHAPE,
    ensures
        e.0@ == kr.name@,
        e.1.wf(),
        e.1.mr == kr.mr,
        e.1.nr == kr.nr,
{
    let mut name: Vec<u8> = Vec::new();
    let mut i: usize = 0;
    while i < kr.name.len()
        invariant
            i <= kr.name@.len(),
            name@ == kr.name@.subrange(0, i as int),
        decreases kr.name@.len() - i,
    {
        name.push(kr.name[i]);
        proof {
            assert(name@ =~= kr.name@.subrange(0, i + 1));
        }
        i = i + 1;
    }
    proof {
        assert(kr.name@.subrange(0, kr.name@.len() as int) =~= kr.name@);
    }
    let mut coef: Vec<i64> = Vec::new();
    coef.push(cm);
    coef.push(ck);
    coef.push(cn);
    coef.push(ct);
    (name, CostModel { mr: kr.mr, nr: kr.nr, intercept, coef })
}

/// The per-process registration: the kernel sets and cost models active for
/// one detected microarchitecture profile.
pub struct Ops {
    pub mmm_f32_impls: Vec<MicroKernel>,
    pub mmv_f32: MicroKernel,
    pub qmmm_i32: MicroKernel,
    pub qmmv_i32: MicroKernel,
    pub cost_models: Vec<(Vec<u8>, CostModel)>,
}

impl Ops {
    /// The always-present baseline: only the architecture-agnostic generic
    /// kernels, so that a valid choice exists before any profile is
    /// plugged in.
    pub fn new() -> (ops: Ops)
        ensures
            ops.mmm_f32_impls@.len() == 1,
            kdesc(ops.mmm_f32_impls@[0], "generic_f32_4x4".spec_bytes(), 4, 4, DType::F32),
            kdesc(ops.mmv_f32, "generic_f32_4x1".spec_bytes(), 4, 1, DType::F32),
            kdesc(ops.qmmm_i32, "generic_i32_4x4".spec_bytes(), 4, 4, DType::I32),
            kdesc(ops.qmmv_i32, "generic_i32_4x1".spec_bytes(), 4, 1, DType::I32),
            models_match(ops.cost_models@, ops.mmm_f32_impls@),
    {
        let generic = mk("generic_f32_4x4", 4, 4, DType::F32);
        let mut impls: Vec<MicroKernel> = Vec::new();
        let mut models: Vec<(Vec<u8>, CostModel)> = Vec::new();
        models.push(a53_model(&generic, 2_000_000_000_000, 60_000_000, 25_000_000, 60_000_000,
            9_000));
        impls.push(generic);
        Ops {
            mmm_f32_impls: impls,
            mmv_f32: mk("generic_f32_4x1", 4, 1, DType::F32),
            qmmm_i32: mk("generic_i32_4x4", 4, 4, DType::I32),
            qmmv_i32: mk("generic_i32_4x1", 4, 1, DType::I32),
            cost_models: models,
        }
    }

    /// Choose the f32 matmul kernel predicted cheapest for the shape, from
    /// this registration's kernel set and cost models.
    pub fn mmm_f32(&self, m: usize, k: usize, n: usize) -> (r: Result<usize, DispatchError>)
        requires
            m <= crate::model::MAX_SHAPE,
            k <= crate::model::MAX_SHAPE,
            n <= crate::model::MAX_SHAPE,
        ensures
            ({
                let sc = scan_best(
                    self.mmm_f32_impls@,
                    self.cost_models@,
                    DType::F32,
                    m as int,
                    k as int,
                    n as int,
                    self.mmm_f32_impls@.len() as int,
                );
                match r {
                    Result::Ok(ix) => (match sc {
                        Result::Ok(Option::Some(b)) => ix == b.0,
                        _ => false,
                    }),
                    Result::Err(e) => (e == DispatchError::NoKernelForDType && sc == Result::<
                        Option<(int, int)>,
                        DispatchError,
                    >::Ok(Option::None)) || sc == Result::<
                        Option<(int, int)>,
                        DispatchError,
                    >::Err(e),
                }
            }),
    {
        pick(&self.cost_models, &self.mmm_f32_impls, m, k, n)
    }
}

/// Find the f32 kernel the cost models predict cheapest for the shape: the
/// dispatch step a matmul call makes after the registration is built.
pub fn pick(
    models: &Vec<(Vec<u8>, CostModel)>,
    impls: &Vec<MicroKernel>,
    m: usize,
    k: usize,
    n: usize,
) -> (r: Result<usize, DispatchError>)
    requires
        m <= crate::model::MAX_SHAPE,
        k <= crate::model::MAX_SHAPE,
        n <= crate::model::MAX_SHAPE,
    ensures
        ({
            let sc = scan_best(
                impls@,
                models@,
                DType::F32,
                m as int,
                k as int,
                n as int,
                impls@.len() as int,
            );
            match r {
                Result::Ok(ix) => (match sc {
                    Result::Ok(Option::Some(b)) => ix == b.0,
                    _ => false,
                }),
                Result::Err(e) => (e == DispatchError::NoKernelForDType && sc == Result::<
                    Option<(int, int)>,
                    DispatchError,
                >::Ok(Option::None)) || sc == Result::<
                    Option<(int, int)>,
                    DispatchError,
                >::Err(e),
            }
        }),
{
    select_kernel(impls, models, DType::F32, m, k, n)
}

/// Build the registration for the detected profile: the full arm64 f32
/// kernel set, the profile's vector and quantized kernels, and the
/// cost-model table the dispatcher evaluates. Profiles without a trained
/// table of their own run with the Cortex-A53 table as the baseline.
pub fn plug(ops: &mut Ops, kind: Kind)
    ensures
        final(ops).mmm_f32_impls@.len() == 9,
        kdesc(
            final(ops).mmm_f32_impls@[0],
            "arm64simd_mmm_f32_12x8_a53".spec_bytes(),
            12,
            8,
            DType::F32,
        ),
        kdesc(
            final(ops).mmm_f32_impls@[1],
            "arm64simd_mmm_f32_8x8_a53".spec_bytes(),
            8,
            8,
            DType::F32,
        ),
        kdesc(
            final(ops).mmm_f32_impls@[2],
            "arm64simd_mmm_f32_16x4_a53".spec_bytes(),
            16,
            4,
            DType::F32,
        ),
        kdesc(
            final(ops).mmm_f32_impls@[3],
            "arm64simd_mmm_f32_24x4_a53".spec_bytes(),
            24,
            4,
            DType::F32,
        ),
        kdesc(
            final(ops).mmm_f32_impls@[4],
            "arm64simd_mmm_f32_12x8".spec_bytes(),
            12,
            8,
            DType::F32,
        ),
        kdesc(final(ops).mmm_f32_impls@[5], "arm64simd_mmm_f32_8x8".spec_bytes(), 8, 8,
            DType::F32),
        kdesc(
            final(ops).mmm_f32_impls@[6],
            "arm64simd_mmm_f32_16x4".spec_bytes(),
            16,
            4,
            DType::F32,
        ),
        kdesc(
            final(ops).mmm_f32_impls@[7],
            "arm64simd_mmm_f32_24x4".spec_bytes(),
            24,
            4,
            DType::F32,
        ),
        kdesc(final(ops).mmm_f32_impls@[8], "generic_f32_4x4".spec_bytes(), 4, 4, DType::F32),
        kdesc(
            final(ops).mmv_f32,
            if kind == Kind::CortexA53 {
                "arm64simd_mmm_f32_64x1_a53".spec_bytes()
            } else {
                "arm64simd_mmm_f32_64x1".spec_bytes()
            },
            64,
            1,
            DType::F32,
        ),
        kdesc(final(ops).qmmm_i32, "arm64simd_mmm_i32_8x8".spec_bytes(), 8, 8, DType::I32),
        kdesc(final(ops).qmmv_i32, "arm64simd_mmm_i32_64x1".spec_bytes(), 64, 1, DType::I32),
        models_match(final(ops).cost_models@, final(ops).mmm_f32_impls@),
{
    let mut impls: Vec<MicroKernel> = Vec::new();
    impls.push(mk("arm64simd_mmm_f32_12x8_a53", 12, 8, DType::F32));
    impls.push(mk("arm64simd_mmm_f32_8x8_a53", 8, 8, DType::F32));
    impls.push(mk("arm64simd_mmm_f32_16x4_a53", 16, 4, DType::F32));
    impls.push(mk("arm64simd_mmm_f32_24x4_a53", 24, 4, DType::F32));
    impls.push(mk("arm64simd_mmm_f32_12x8", 12, 8, DType::F32));
    impls.push(mk("arm64simd_mmm_f32_8x8", 8, 8, DType::F32));
    impls.push(mk("arm64simd_mmm_f32_16x4", 16, 4, DType::F32));
    impls.push(mk("arm64simd_mmm_f32_24x4", 24, 4, DType::F32));
    impls.push(mk("generic_f32_4x4", 4, 4, DType::F32));
    let mut models: Vec<(Vec<u8>, CostModel)> = Vec::new();
    let mut t: usize = 0;
    while t < impls.len()
        invariant
            impls@.len() == 9,
            forall|q: int| 0 <= q < 9 ==> (#[trigger] impls@[q]).wf() && impls@[q].mr <= 64
                && impls@[q].nr <= 64,
            t <= 9,
            models@.len() == t,
            forall|q: int|
                0 <= q < t ==> (#[trigger] models@[q]).0@ == impls@[q].name@ && models@[q].1.wf()
                    && models@[q].1.mr == impls@[q].mr && models@[q].1.nr == impls@[q].nr,
        decreases impls@.len() - t,
    {
        proof {
            assert(1 <= impls@[t as int].mr * impls@[t as int].nr <= 4096) by (nonlinear_arith)
                requires
                    1 <= impls@[t as int].mr <= 64,
                    1 <= impls@[t as int].nr <= 64,
            ;
        }
        let tile = impls[t].mr * impls[t].nr;
        let e = a53_model(
            &impls[t],
            1_000_000_000_000 + (tile as i64) * 4_000_000_000,
            55_000_000,
            22_000_000,
            48_000_000,
            2_000 + (640_000 / (tile as i64)),
        );
        models.push(e);
        t = t + 1;
    }
    ops.mmm_f32_impls = impls;
    ops.mmv_f32 = if matches!(kind, Kind::CortexA53) {
        mk("arm64simd_mmm_f32_64x1_a53", 64, 1, DType::F32)
    } else {
        mk("arm64simd_mmm_f32_64x1", 64, 1, DType::F32)
    };
    ops.qmmm_i32 = mk("arm64simd_mmm_i32_8x8", 8, 8, DType::I32);
    ops.qmmv_i32 = mk("arm64simd_mmm_i32_64x1", 64, 1, DType::I32);
    ops.cost_models = models;
}

/// What `select_kernel` promises of a successful choice: the chosen kernel
/// matches the datatype, and its predicted latency is minimal among all
/// matching kernels, with ties resolved to the earliest registration.
pub proof fn lemma_scan_best_minimal(
    kernels: Seq<MicroKernel>,
    models: Seq<(Vec<u8>, CostModel)>,
    dtype: DType,
    m: int,
    k: int,
    n: int,
    t: int,
    bi: int,
    bp: int,
)
    requires
        0 <= t <= kernels.len(),
        scan_best(kernels, models, dtype, m, k, n, t) == Result::<
            Option<(int, int)>,
            DispatchError,
        >::Ok(Option::Some((bi, bp))),
    ensures
        0 <= bi < t,
        kernels[bi].dtype == dtype,
        model_for(models, kernels[bi].name@) is Some,
        model_for(models, kernels[bi].name@)->0.spec_predict(m, k, n) == bp,
        forall|j: int|
            0 <= j < t && kernels[j].dtype == dtype ==> (#[trigger] model_for(
                models,
                kernels[j].name@,
            )) is Some && (model_for(models, kernels[j].name@)->0.wf()
                ==> model_for(models, kernels[j].name@)->0.spec_predict(m, k, n) >= bp && (
            model_for(models, kernels[j].name@)->0.spec_predict(m, k, n) == bp ==> bi <= j)),
    decreases t,
{
    if t > 0 {
        let pre = scan_best(kernels, models, dtype, m, k, n, t - 1);
        let kr = kernels[t - 1];
        match pre {
            Result::Err(_) => {
                assert(false);
            },
            Result::Ok(cur) => {
                if kr.dtype != dtype {
                    match cur {
                        Option::None => {
                            assert(false);
                        },
                        Option::Some(b) => {
                            lemma_scan_best_minimal(kernels, models, dtype, m, k, n, t - 1, b.0,
                                b.1);
                        },
                    }
                } else {
                    match cur {
                        Option::None => {
                            lemma_scan_none(kernels, models, dtype, m, k, n, t - 1);
                        },
                        Option::Some(b) => {
                            lemma_scan_best_minimal(kernels, models, dtype, m, k, n, t - 1, b.0,
                                b.1);
                        },
                    }
                }
            },
        }
    }
}

} // verus!
