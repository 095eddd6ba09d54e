use mmm_core::dataset::{
    fresh_rng, sampling_inputs, shuffle_requests, Dataset, ParseError, Sample,
};
use mmm_core::kernel::{DType, MicroKernel};
use mmm_core::model::train;

fn b(s: &str) -> Vec<u8> {
    s.as_bytes().to_vec()
}

fn sample(name: &str, m: usize, k: usize, n: usize, y: i64) -> Sample {
    Sample { name: b(name), m, k, n, y }
}

#[test]
fn parse_plain_records() {
    let ds = Dataset::parse(&b("K8x8 8 32 8 0.000001\nK8x8 64 32 8 0.000004\n")).unwrap();
    assert_eq!(ds.0.len(), 2);
    assert_eq!(ds.0[0], sample("K8x8", 8, 32, 8, 1_000_000));
    assert_eq!(ds.0[1], sample("K8x8", 64, 32, 8, 4_000_000));
}

#[test]
fn parse_tolerates_whitespace_runs_and_blank_lines() {
    let ds = Dataset::parse(&b("\n  \nK8x8\t\t8   32\t8  1e-6\r\n\n")).unwrap();
    assert_eq!(ds.0.len(), 1);
    assert_eq!(ds.0[0], sample("K8x8", 8, 32, 8, 1_000_000));
}

#[test]
fn parse_scientific_and_fraction_forms() {
    let ds = Dataset::parse(&b(
        "a 1 1 1 1e-6\nb 1 1 1 1.43e-6\nc 1 1 1 .5\nd 1 1 1 5.\ne 1 1 1 2E-6\nf 1 1 1 1e+1\n",
    ))
    .unwrap();
    assert_eq!(ds.0[0].y, 1_000_000);
    assert_eq!(ds.0[1].y, 1_430_000);
    assert_eq!(ds.0[2].y, 500_000_000_000);
    assert_eq!(ds.0[3].y, 5_000_000_000_000);
    assert_eq!(ds.0[4].y, 2_000_000);
    assert_eq!(ds.0[5].y, 10_000_000_000_000);
}

#[test]
fn parse_negative_latency() {
    let ds = Dataset::parse(&b("k 1 2 3 -2.5e-7\n")).unwrap();
    assert_eq!(ds.0[0].y, -250_000);
}

#[test]
fn parse_zero_with_huge_exponent_is_zero() {
    let ds = Dataset::parse(&b("k 1 2 3 0e400\n")).unwrap();
    assert_eq!(ds.0[0].y, 0);
}

#[test]
fn parse_rejects_malformed_records() {
    assert_eq!(Dataset::parse(&b("only four fields 1\n")), Err(ParseError::MalformedRecord));
    assert_eq!(Dataset::parse(&b("a 1 2 3 4 extra\n")), Err(ParseError::MalformedRecord));
    assert_eq!(Dataset::parse(&b("a x 2 3 1e-6\n")), Err(ParseError::MalformedRecord));
    assert_eq!(Dataset::parse(&b("a 1 2 3 1ee-6\n")), Err(ParseError::MalformedRecord));
    assert_eq!(Dataset::parse(&b("a 1 2 3 1e400\n")), Err(ParseError::MalformedRecord));
    assert_eq!(Dataset::parse(&b("a 1 2 3 -\n")), Err(ParseError::MalformedRecord));
}

#[test]
fn empty_text_is_an_empty_dataset() {
    assert_eq!(Dataset::parse(&b("")).unwrap().0.len(), 0);
}

#[test]
fn render_writes_seconds_with_fixed_fraction() {
    let ds = Dataset(vec![sample("K", 8, 32, 8, 1_000_000)]);
    assert_eq!(ds.render(), b("K 8 32 8 0.000001000000\n"));
    let neg = Dataset(vec![sample("K", 1, 2, 3, -1_500_000_000_000)]);
    assert_eq!(neg.render(), b("K 1 2 3 -1.500000000000\n"));
}

#[test]
fn render_then_parse_round_trips() {
    let ds = Dataset(vec![
        sample("K8x8", 8, 32, 8, 1_000_000),
        sample("K12x8", 64, 1024, 129, -42),
        sample("gen", 1, 1, 1, 5_000_000_000_000),
    ]);
    let text = ds.render();
    let back = Dataset::parse(&text).unwrap();
    assert_eq!(back, ds);
}

#[test]
fn parsed_text_trains_like_built_data() {
    let text = b("K8x8 8 32 8 1e-6\nK8x8 64 32 8 4e-6\nK8x8 16 32 8 1.43e-6\n\
                  K8x8 32 32 8 2.3e-6\nK8x8 8 64 8 1.5e-6\nK8x8 8 32 16 1.2e-6\n\
                  K8x8 16 64 16 2e-6\n");
    let ds = Dataset::parse(&text).unwrap();
    assert_eq!(ds.0.len(), 7);
    let kr = MicroKernel { name: b("K8x8"), mr: 8, nr: 8, alignment: 32, dtype: DType::F32 };
    let model = train(&ds, &kr).unwrap();
    let p = model.predict(32, 32, 8);
    assert!(1_000_000 < p && p < 4_000_000);
}

#[test]
fn sampling_grid_covers_the_tile_multiples() {
    let kr = MicroKernel { name: b("K8x8"), mr: 8, nr: 8, alignment: 32, dtype: DType::F32 };
    let reqs = sampling_inputs(&vec![kr]);
    assert_eq!(reqs.len(), 675);
    assert_eq!((reqs[0].m, reqs[0].k, reqs[0].n), (7, 32, 7));
    assert_eq!(reqs[0].name, b("K8x8"));
    let last = &reqs[674];
    assert_eq!((last.m, last.k, last.n), (1025, 1024, 1025));
    assert!(reqs.iter().any(|r| r.m == 8 && r.n == 8 && r.k == 128));
}

#[test]
fn shuffling_keeps_every_request() {
    let kr = MicroKernel { name: b("K8x8"), mr: 8, nr: 8, alignment: 32, dtype: DType::F32 };
    let mut reqs = sampling_inputs(&vec![kr]);
    let mut before: Vec<(usize, usize, usize)> =
        reqs.iter().map(|r| (r.m, r.k, r.n)).collect();
    let mut rng = fresh_rng();
    shuffle_requests(&mut reqs, &mut rng);
    let mut after: Vec<(usize, usize, usize)> = reqs.iter().map(|r| (r.m, r.k, r.n)).collect();
    before.sort();
    after.sort();
    assert_eq!(before, after);
}
