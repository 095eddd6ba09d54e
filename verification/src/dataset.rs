//! Benchmark datasets: one sample per measured kernel execution, with the
//! problem shape and the measured latency, and the flat text format the
//! datasets are persisted in.
//!
//! Latencies are integer picoseconds inside the library; the text format
//! carries them in seconds, as a decimal number with optional fraction and
//! scientific exponent. A sample's latency may be negative: the harness
//! subtracts a noise-floor baseline from every measurement.

use vstd::prelude::*;
use rand::seq::SliceRandom;
use crate::arch::is_ws;
use crate::kernel::MicroKernel;
use crate::arch::first_nl;
use crate::arch::lemma_first_nl_bounds;
use crate::arch::lemma_first_nl_at;

verus! {

/// One measured sample: kernel name, problem shape `(m, k, n)`, and the
/// measured latency in picoseconds.
#[derive(Clone, PartialEq, Eq, Debug)]
pub struct Sample {
    pub name: Vec<u8>,
    pub m: usize,
    pub k: usize,
    pub n: usize,
    pub y: i64,
}

/// A labeled dataset: the samples, in the order they were produced.
#[derive(Clone, PartialEq, Eq, Debug)]
pub struct Dataset(pub Vec<Sample>);

/// A sample, as the text format describes it: name bytes, shape, latency.
pub open spec fn sample_rec(s: Sample) -> (Seq<u8>, int, int, int, int) {
    (s.name@, s.m as int, s.k as int, s.n as int, s.y as int)
}

/// Why a dataset text was rejected: a record line with the wrong number of
/// fields, a field that is not a number of the accepted shape, or a value
/// outside what a sample can carry.
#[derive(Clone, Copy, PartialEq, Eq, Structural, Debug)]
pub enum ParseError {
    MalformedRecord,
}

pub open spec fn is_digit(b: u8) -> bool {
    48 <= b && b <= 57
}

/// Value of a digit string, most significant first.
pub open spec fn digits_val(s: Seq<u8>) -> int
    decreases s.len(),
{
    if s.len() == 0 {
        0
    } else {
        digits_val(s.drop_last()) * 10 + (s.last() - 48)
    }
}

pub open spec fn all_digits(s: Seq<u8>) -> bool {
    forall|i: int| 0 <= i < s.len() ==> is_digit(#[trigger] s[i])
}

pub open spec fn pow10(e: int) -> int
    decreases e,
{
    if e <= 0 {
        1
    } else {
        10 * pow10(e - 1)
    }
}

pub proof fn lemma_pow10_mono(a: int, b: int)
    requires
        a <= b,
    ensures
        1 <= pow10(a) <= pow10(b),
    decreases b,
{
    if b > 0 {
        if a == b {
            lemma_pow10_mono(a - 1, b - 1);
        } else {
            lemma_pow10_mono(a, b - 1);
        }
    }
}

pub proof fn lemma_digits_val_bound(s: Seq<u8>)
    requires
        all_digits(s),
    ensures
        0 <= digits_val(s) < pow10(s.len() as int),
    decreases s.len(),
{
    if s.len() > 0 {
        assert(all_digits(s.drop_last())) by {
            assert(forall|i: int| 0 <= i < s.len() - 1 ==> s.drop_last()[i] == s[i]);
        }
        lemma_digits_val_bound(s.drop_last());
        assert(is_digit(s.last()));
    }
}

proof fn lemma_pow10_25()
    ensures
        pow10(25) == 10_000_000_000_000_000_000_000_000,
{
    assert(pow10(0) == 1);
    assert(pow10(1) == 10);
    assert(pow10(2) == 100);
    assert(pow10(3) == 1000);
    assert(pow10(4) == 10000);
    assert(pow10(5) == 100000);
    assert(pow10(6) == 1000000);
    assert(pow10(7) == 10000000);
    assert(pow10(8) == 100000000);
    assert(pow10(9) == 1000000000);
    assert(pow10(10) == 10000000000);
    assert(pow10(11) == 100000000000);
    assert(pow10(12) == 1000000000000);
    assert(pow10(13) == 10000000000000);
    assert(pow10(14) == 100000000000000);
    assert(pow10(15) == 1000000000000000);
    assert(pow10(16) == 10000000000000000);
    assert(pow10(17) == 100000000000000000);
    assert(pow10(18) == 1000000000000000000);
    assert(pow10(19) == 10000000000000000000);
    assert(pow10(20) == 100000000000000000000);
    assert(pow10(21) == 1000000000000000000000);
    assert(pow10(22) == 10000000000000000000000);
    assert(pow10(23) == 100000000000000000000000);
    assert(pow10(24) == 1000000000000000000000000);
    assert(pow10(25) == 10000000000000000000000000);
}

/// An unsigned decimal field: plain digits, at most 19 of them, with a
/// value that fits the machine's size type.
pub open spec fn parse_usize_spec(tok: Seq<u8>) -> Option<int> {
    if tok.len() == 0 || tok.len() > 19 || !all_digits(tok) {
        Option::None
    } else if digits_val(tok) > usize::MAX {
        Option::None
    } else {
        Option::Some(digits_val(tok))
    }
}

/// First position at or after `i` that holds no digit.
pub open spec fn digits_end(s: Seq<u8>, i: int) -> int
    decreases s.len() - i,
{
    if i < 0 || i >= s.len() {
        i
    } else if is_digit(s[i]) {
        digits_end(s, i + 1)
    } else {
        i
    }
}


/// If everything in `[i, d)` is a digit and `d` is the end or no digit,
/// then `d` is where the digits end.
pub proof fn lemma_digits_end_at(s: Seq<u8>, i: int, d: int)
    requires
        0 <= i <= d <= s.len(),
        forall|j: int| i <= j < d ==> is_digit(#[trigger] s[j]),
        d == s.len() || !is_digit(s[d]),
    ensures
        digits_end(s, i) == d,
    decreases d - i,
{
    if i < d {
        lemma_digits_end_at(s, i + 1, d);
    }
}

/// `v * 10^s`, each step checked against the `u128` range.
pub open spec fn scale_up_c(v: int, s: int) -> Option<int>
    decreases s,
{
    if s <= 0 {
        Option::Some(v)
    } else {
        match scale_up_c(v, s - 1) {
            Option::None => Option::None,
            Option::Some(x) => if x * 10 > u128::MAX {
                Option::None
            } else {
                Option::Some(x * 10)
            },
        }
    }
}

/// `v / 10^s`, dividing step by step with truncation, as the machine does.
pub open spec fn scale_down(v: int, s: int) -> int
    decreases s,
{
    if s <= 0 {
        v
    } else {
        scale_down(v, s - 1) / 10
    }
}

/// A latency field, in seconds: optional minus sign, digits with an
/// optional fraction (at most 25 digits in all), and an optional scientific
/// exponent of at most three digits. The value is converted to picoseconds
/// with truncation toward zero; values beyond the stored range, or scalings
/// past the `u128` range, are rejected.
pub open spec fn parse_latency_spec(tok: Seq<u8>) -> Option<int> {
    let neg = tok.len() > 0 && tok[0] == 45;
    let i1: int = if neg {
        1
    } else {
        0
    };
    let de = digits_end(tok, i1);
    let ints = tok.subrange(i1, de);
    let hasdot = de < tok.len() && tok[de] == 46;
    let fe = if hasdot {
        digits_end(tok, de + 1)
    } else {
        de
    };
    let fracs = if hasdot {
        tok.subrange(de + 1, fe)
    } else {
        Seq::empty()
    };
    let hasexp = fe < tok.len() && (tok[fe] == 101 || tok[fe] == 69);
    let es0 = fe + 1;
    let eneg = hasexp && es0 < tok.len() && tok[es0] == 45;
    let esgn = hasexp && es0 < tok.len() && (tok[es0] == 45 || tok[es0] == 43);
    let es = if esgn {
        es0 + 1
    } else {
        es0
    };
    let ee = if hasexp {
        digits_end(tok, es)
    } else {
        fe
    };
    let expd = if hasexp {
        tok.subrange(es, ee)
    } else {
        Seq::empty()
    };
    let endpos = if hasexp {
        ee
    } else {
        fe
    };
    if endpos != tok.len() {
        Option::None
    } else if ints.len() + fracs.len() < 1 || ints.len() + fracs.len() > 25 {
        Option::None
    } else if hasexp && (expd.len() < 1 || expd.len() > 3) {
        Option::None
    } else {
        let dval = digits_val(ints + fracs);
        let e = if eneg {
            -digits_val(expd)
        } else {
            digits_val(expd)
        };
        let scale = 12 + e - fracs.len();
        let mag = if scale >= 0 {
            scale_up_c(dval, scale)
        } else {
            Option::Some(scale_down(dval, -scale))
        };
        match mag {
            Option::None => Option::None,
            Option::Some(v) => if v > i64::MAX {
                Option::None
            } else {
                Option::Some(
                    if neg {
                        -v
                    } else {
                        v
                    },
                )
            },
        }
    }
}

/// First position at or after `i` that holds whitespace.
pub open spec fn ws_end(s: Seq<u8>, i: int) -> int
    decreases s.len() - i,
{
    if i < 0 || i >= s.len() {
        i
    } else if !is_ws(s[i]) {
        ws_end(s, i + 1)
    } else {
        i
    }
}

pub proof fn lemma_ws_end_bounds(s: Seq<u8>, i: int)
    requires
        0 <= i <= s.len(),
    ensures
        i <= ws_end(s, i) <= s.len(),
        forall|j: int| i <= j < ws_end(s, i) ==> !is_ws(#[trigger] s[j]),
        ws_end(s, i) < s.len() ==> is_ws(s[ws_end(s, i)]),
    decreases s.len() - i,
{
    if i < s.len() && !is_ws(s[i]) {
        lemma_ws_end_bounds(s, i + 1);
    }
}

pub proof fn lemma_ws_end_at(s: Seq<u8>, i: int, d: int)
    requires
        0 <= i <= d <= s.len(),
        forall|j: int| i <= j < d ==> !is_ws(#[trigger] s[j]),
        d == s.len() || is_ws(s[d]),
    ensures
        ws_end(s, i) == d,
    decreases d - i,
{
    if i < d {
        lemma_ws_end_at(s, i + 1, d);
    }
}

/// The whitespace-separated tokens of a line, in order: any whitespace run
/// separates fields.
pub open spec fn tokens_of(line: Seq<u8>) -> Seq<Seq<u8>>
    decreases line.len(),
    via tokens_of_decreases
{
    if line.len() == 0 {
        Seq::empty()
    } else if is_ws(line[0]) {
        tokens_of(line.drop_first())
    } else {
        let e = ws_end(line, 0);
        seq![line.subrange(0, e)] + tokens_of(line.subrange(e, line.len() as int))
    }
}

#[via_fn]
proof fn tokens_of_decreases(line: Seq<u8>) {
    if line.len() > 0 && !is_ws(line[0]) {
        lemma_ws_end_bounds(line, 0);
    }
}

/// One line of the dataset text: nothing (only whitespace), or a record of
/// exactly five fields: kernel name, `m`, `k`, `n`, latency in seconds.
pub open spec fn parse_line_spec(line: Seq<u8>) -> Result<
    Option<(Seq<u8>, int, int, int, int)>,
    ParseError,
> {
    let toks = tokens_of(line);
    if toks.len() == 0 {
        Result::Ok(Option::None)
    } else if toks.len() != 5 {
        Result::Err(ParseError::MalformedRecord)
    } else {
        match (parse_usize_spec(toks[1]), parse_usize_spec(toks[2]), parse_usize_spec(toks[3]),
        parse_latency_spec(toks[4])) {
            (
                Option::Some(m),
                Option::Some(k),
                Option::Some(n),
                Option::Some(y),
            ) => Result::Ok(Option::Some((toks[0], m, k, n, y))),
            _ => Result::Err(ParseError::MalformedRecord),
        }
    }
}

/// The records of the dataset text, line by line; whitespace-only lines are
/// passed over.
pub open spec fn parse_records(s: Seq<u8>) -> Result<
    Seq<(Seq<u8>, int, int, int, int)>,
    ParseError,
>
    decreases s.len(),
    via parse_records_decreases
{
    if s.len() == 0 {
        Result::Ok(Seq::empty())
    } else {
        let d = first_nl(s);
        let line = s.subrange(0, d);
        let rest = if d < s.len() {
            s.subrange(d + 1, s.len() as int)
        } else {
            Seq::empty()
        };
        match parse_line_spec(line) {
            Result::Err(e) => Result::Err(e),
            Result::Ok(opt) => match parse_records(rest) {
                Result::Err(e2) => Result::Err(e2),
                Result::Ok(tail) => Result::Ok(
                    match opt {
                        Option::None => tail,
                        Option::Some(rec) => seq![rec] + tail,
                    },
                ),
            },
        }
    }
}

#[via_fn]
proof fn parse_records_decreases(s: Seq<u8>) {
    if s.len() > 0 {
        lemma_first_nl_bounds(s);
    }
}

proof fn lemma_pow10_vals()
    ensures
        pow10(3) == 1000,
        pow10(19) == 10_000_000_000_000_000_000,
        pow10(25) == 10_000_000_000_000_000_000_000_000,
{
    lemma_pow10_25();
    assert(pow10(0) == 1);
    assert(pow10(1) == 10);
    assert(pow10(2) == 100);
    assert(pow10(3) == 1000);
    assert(pow10(4) == 10000);
    assert(pow10(5) == 100000);
    assert(pow10(6) == 1000000);
    assert(pow10(7) == 10000000);
    assert(pow10(8) == 100000000);
    assert(pow10(9) == 1000000000);
    assert(pow10(10) == 10000000000);
    assert(pow10(11) == 100000000000);
    assert(pow10(12) == 1000000000000);
    assert(pow10(13) == 10000000000000);
    assert(pow10(14) == 100000000000000);
    assert(pow10(15) == 1000000000000000);
    assert(pow10(16) == 10000000000000000);
    assert(pow10(17) == 100000000000000000);
    assert(pow10(18) == 1000000000000000000);
    assert(pow10(19) == 10000000000000000000);
}

/// Accumulate the value of the digit bytes `tok[from..to]` onto `acc`,
/// which already holds the value of `pre`.
fn digits_accum(tok: &Vec<u8>, from: usize, to: usize, acc: u128, Ghost(pre): Ghost<Seq<u8>>) -> (r:
    u128)
    requires
        from <= to <= tok@.len(),
        forall|j: int| from <= j < to ==> is_digit(#[trigger] tok@[j]),
        all_digits(pre),
        acc == digits_val(pre),
        pre.len() + (to - from) <= 25,
    ensures
        r == digits_val(pre + tok@.subrange(from as int, to as int)),
{
    let ghost whole = pre + tok@.subrange(from as int, to as int);
    let mut acc = acc;
    let mut i: usize = from;
    while i < to
        invariant
            from <= i <= to <= tok@.len(),
            forall|j: int| from <= j < to ==> is_digit(#[trigger] tok@[j]),
            all_digits(pre),
            pre.len() + (to - from) <= 25,
            acc == digits_val(pre + tok@.subrange(from as int, i as int)),
        decreases to - i,
    {
        let ghost cur = pre + tok@.subrange(from as int, i as int);
        proof {
            assert(all_digits(cur));
            lemma_digits_val_bound(cur);
            lemma_pow10_mono(cur.len() as int, 24);
            lemma_pow10_vals();
            lemma_pow10_mono(24, 25);
            assert(acc < 10_000_000_000_000_000_000_000_000);
            assert((pre + tok@.subrange(from as int, i + 1)).drop_last() =~= cur);
            assert((pre + tok@.subrange(from as int, i + 1)).last() == tok@[i as int]);
        }
        acc = acc * 10 + ((tok[i] - 48) as u128);
        i = i + 1;
    }
    proof {
        assert(pre + tok@.subrange(from as int, to as int) =~= whole);
    }
    acc
}

proof fn lemma_scale_up_none_persists(v: int, s: int, s2: int)
    requires
        0 <= s <= s2,
        scale_up_c(v, s) is None,
    ensures
        scale_up_c(v, s2) is None,
    decreases s2 - s,
{
    if s2 > s {
        lemma_scale_up_none_persists(v, s, s2 - 1);
    }
}

/// Parse one latency field into picoseconds.
#[verifier::rlimit(80)]
fn parse_latency_tok(tok: &Vec<u8>) -> (r: Option<i64>)
    ensures
        match r {
            Option::Some(v) => parse_latency_spec(tok@) == Option::Some(v as int),
            Option::None => parse_latency_spec(tok@) is None,
        },
{
    let len = tok.len();
    let neg = len > 0 && tok[0] == 45;
    let i1: usize = if neg {
        1
    } else {
        0
    };
    let mut de: usize = i1;
    while de < len && 48 <= tok[de] && tok[de] <= 57
        invariant
            i1 <= de <= len,
            len == tok@.len(),
            forall|j: int| i1 <= j < de ==> is_digit(#[trigger] tok@[j]),
        decreases len - de,
    {
        de = de + 1;
    }
    proof {
        lemma_digits_end_at(tok@, i1 as int, de as int);
    }
    let hasdot = de < len && tok[de] == 46;
    let fs: usize = if hasdot {
        de + 1
    } else {
        de
    };
    let mut fe: usize = fs;
    while fe < len && 48 <= tok[fe] && tok[fe] <= 57
        invariant
            fs <= fe <= len,
            len == tok@.len(),
            forall|j: int| fs <= j < fe ==> is_digit(#[trigger] tok@[j]),
        decreases len - fe,
    {
        fe = fe + 1;
    }
    proof {
        if hasdot {
            lemma_digits_end_at(tok@, de + 1, fe as int);
        }
    }
    let fe = if hasdot {
        fe
    } else {
        de
    };
    let hasexp = fe < len && (tok[fe] == 101 || tok[fe] == 69);
    let es0 = if hasexp {
        fe + 1
    } else {
        fe
    };
    let eneg = hasexp && es0 < len && tok[es0] == 45;
    let esgn = hasexp && es0 < len && (tok[es0] == 45 || tok[es0] == 43);
    let es: usize = if esgn {
        es0 + 1
    } else {
        es0
    };
    let mut ee: usize = if hasexp {
        es
    } else {
        fe
    };
    if hasexp {
        while ee < len && 48 <= tok[ee] && tok[ee] <= 57
            invariant
                es <= ee <= len,
                len == tok@.len(),
                forall|j: int| es <= j < ee ==> is_digit(#[trigger] tok@[j]),
            decreases len - ee,
        {
            ee = ee + 1;
        }
        proof {
            lemma_digits_end_at(tok@, es as int, ee as int);
        }
    }
    let endpos = if hasexp {
        ee
    } else {
        fe
    };
    if endpos != len {
        return Option::None;
    }
    let ilen = de - i1;
    let flen = if hasdot {
        fe - (de + 1)
    } else {
        0
    };
    if ilen + flen < 1 || ilen + flen > 25 {
        return Option::None;
    }
    if hasexp && (ee - es < 1 || ee - es > 3) {
        return Option::None;
    }
    let ghost ints = tok@.subrange(i1 as int, de as int);
    let ghost fracs = if hasdot {
        tok@.subrange(de + 1, fe as int)
    } else {
        Seq::<u8>::empty()
    };
    proof {
        assert(Seq::<u8>::empty() + ints =~= ints);
        assert(digits_val(Seq::<u8>::empty()) == 0);
        assert(all_digits(Seq::<u8>::empty()));
    }
    let d1 = digits_accum(tok, i1, de, 0, Ghost(Seq::empty()));
    let dval = if hasdot {
        digits_accum(tok, de + 1, fe, d1, Ghost(ints))
    } else {
        proof {
            assert(ints + fracs =~= ints);
        }
        d1
    };
    proof {
        assert(dval == digits_val(ints + fracs));
        assert(all_digits(ints + fracs));
        assert((ints + fracs).len() <= 25);
        lemma_digits_val_bound(ints + fracs);
        lemma_pow10_mono((ints + fracs).len() as int, 25);
        lemma_pow10_vals();
        assert(dval < 10_000_000_000_000_000_000_000_000);
    }
    let expv: u128 = if hasexp {
        proof {
            assert(Seq::<u8>::empty() + tok@.subrange(es as int, ee as int) =~= tok@.subrange(
                es as int,
                ee as int,
            ));
            let ed = tok@.subrange(es as int, ee as int);
            assert(all_digits(ed));
            lemma_digits_val_bound(ed);
            lemma_pow10_mono(ed.len() as int, 3);
            lemma_pow10_vals();
        }
        digits_accum(tok, es, ee, 0, Ghost(Seq::empty()))
    } else {
        0
    };
    proof {
        if hasexp {
            let ed = tok@.subrange(es as int, ee as int);
            lemma_digits_val_bound(ed);
            lemma_pow10_mono(ed.len() as int, 3);
            lemma_pow10_vals();
            assert(expv <= 999);
        }
    }
    let e_i: i32 = if eneg {
        -(expv as i32)
    } else {
        expv as i32
    };
    let scale: i32 = 12 + e_i - (flen as i32);
    let ghost gs = 12 + (if eneg {
        -digits_val(tok@.subrange(es as int, ee as int))
    } else if hasexp {
        digits_val(tok@.subrange(es as int, ee as int))
    } else {
        0
    }) - fracs.len();
    proof {
        assert(scale as int == gs);
        assert(digits_val(Seq::<u8>::empty()) == 0);
    }
    let mag: Option<u128> = if scale >= 0 {
        let mut acc: u128 = dval;
        let mut t: i32 = 0;
        let mut failed = false;
        while t < scale && !failed
            invariant
                0 <= t <= scale,
                !failed ==> scale_up_c(dval as int, t as int) == Option::Some(acc as int),
                failed ==> scale_up_c(dval as int, t as int) is None,
            decreases scale - t + (if failed {
                0int
            } else {
                1int
            }),
        {
            match acc.checked_mul(10) {
                Option::Some(v2) => {
                    acc = v2;
                },
                Option::None => {
                    failed = true;
                },
            }
            t = t + 1;
        }
        if failed {
            proof {
                lemma_scale_up_none_persists(dval as int, t as int, scale as int);
            }
            Option::None
        } else {
            Option::Some(acc)
        }
    } else {
        let mut acc: u128 = dval;
        let mut t: i32 = 0;
        let steps = -scale;
        while t < steps
            invariant
                0 <= t <= steps,
                steps == -(scale as int),
                acc == scale_down(dval as int, t as int),
            decreases steps - t,
        {
            acc = acc / 10;
            t = t + 1;
        }
        Option::Some(acc)
    };
    match mag {
        Option::None => Option::None,
        Option::Some(v) => {
            if v > 0x7fff_ffff_ffff_ffffu128 {
                Option::None
            } else {
                let m64 = v as i64;
                if neg {
                    Option::Some(-m64)
                } else {
                    Option::Some(m64)
                }
            }
        },
    }
}

/// Parse one unsigned decimal field.
fn parse_usize_tok(tok: &Vec<u8>) -> (r: Option<usize>)
    ensures
        match r {
            Option::Some(v) => parse_usize_spec(tok@) == Option::Some(v as int),
            Option::None => parse_usize_spec(tok@) is None,
        },
{
    let len = tok.len();
    if len == 0 || len > 19 {
        return Option::None;
    }
    let mut i: usize = 0;
    while i < len
        invariant
            i <= len,
            len == tok@.len(),
            forall|j: int| 0 <= j < i ==> is_digit(#[trigger] tok@[j]),
        decreases len - i,
    {
        let b = tok[i];
        if b < 48 || b > 57 {
            return Option::None;
        }
        i = i + 1;
    }
    proof {
        assert(all_digits(tok@));
        assert(Seq::<u8>::empty() + tok@.subrange(0, len as int) =~= tok@);
        assert(digits_val(Seq::<u8>::empty()) == 0);
    }
    let v = digits_accum(tok, 0, len, 0, Ghost(Seq::empty()));
    proof {
        assert(v == digits_val(tok@));
    }
    if v > usize::MAX as u128 {
        Option::None
    } else {
        Option::Some(v as usize)
    }
}

/// The token views of a token list.
pub open spec fn views_of(toks: Seq<Vec<u8>>) -> Seq<Seq<u8>> {
    Seq::new(toks.len(), |i: int| toks[i]@)
}

/// Split a line into its whitespace-separated tokens.
fn tokenize(line: &Vec<u8>) -> (toks: Vec<Vec<u8>>)
    ensures
        views_of(toks@) == tokens_of(line@),
{
    let len = line.len();
    let mut toks: Vec<Vec<u8>> = Vec::new();
    proof {
        assert(line@.skip(0) =~= line@);
        assert(views_of(toks@) =~= Seq::<Seq<u8>>::empty());
    }
    let mut pos: usize = 0;
    while pos < len
        invariant
            pos <= len,
            len == line@.len(),
            tokens_of(line@) == views_of(toks@) + tokens_of(line@.skip(pos as int)),
        decreases len - pos,
    {
        let b = line[pos];
        if b == 32 || (9 <= b && b <= 13) {
            proof {
                assert(line@.skip(pos as int)[0] == line@[pos as int]);
                assert(line@.skip(pos as int).drop_first() =~= line@.skip(pos + 1));
            }
            pos = pos + 1;
        } else {
            let mut e: usize = pos;
            while e < len && !(line[e] == 32 || (9 <= line[e] && line[e] <= 13))
                invariant
                    pos <= e <= len,
                    len == line@.len(),
                    forall|j: int| pos <= j < e ==> !is_ws(#[trigger] line@[j]),
                decreases len - e,
            {
                e = e + 1;
            }
            let tokv = crate::arch::copy_range(line, pos, e);
            let ghost suf = line@.skip(pos as int);
            proof {
                assert(forall|j: int| 0 <= j < e - pos ==> suf[j] == line@[pos + j]);
                lemma_ws_end_at(suf, 0, e - pos);
                assert(!is_ws(suf[0]));
                assert(suf.subrange(0, e - pos) =~= line@.subrange(pos as int, e as int));
                assert(suf.subrange(e - pos, suf.len() as int) =~= line@.skip(e as int));
                assert(tokens_of(suf) == seq![line@.subrange(pos as int, e as int)] + tokens_of(
                    line@.skip(e as int),
                ));
            }
            let ghost pretoks = toks@;
            toks.push(tokv);
            proof {
                assert(views_of(toks@) =~= views_of(pretoks).push(
                    line@.subrange(pos as int, e as int),
                ));
                assert(views_of(pretoks).push(line@.subrange(pos as int, e as int)) + tokens_of(
                    line@.skip(e as int),
                ) =~= views_of(pretoks) + (seq![line@.subrange(pos as int, e as int)] + tokens_of(
                    line@.skip(e as int),
                )));
            }
            pos = e;
        }
    }
    proof {
        assert(line@.skip(len as int).len() == 0);
        assert(views_of(toks@) + tokens_of(line@.skip(len as int)) =~= views_of(toks@));
    }
    toks
}

/// One line: nothing, or one parsed sample.
fn parse_line_exec(line: &Vec<u8>) -> (r: Result<Option<Sample>, ParseError>)
    ensures
        match r {
            Result::Ok(Option::None) => parse_line_spec(line@) == Result::<
                Option<(Seq<u8>, int, int, int, int)>,
                ParseError,
            >::Ok(Option::None),
            Result::Ok(Option::Some(s)) => parse_line_spec(line@) == Result::<
                Option<(Seq<u8>, int, int, int, int)>,
                ParseError,
            >::Ok(Option::Some(sample_rec(s))),
            Result::Err(e) => parse_line_spec(line@) == Result::<
                Option<(Seq<u8>, int, int, int, int)>,
                ParseError,
            >::Err(e),
        },
{
    let mut toks = tokenize(line);
    if toks.len() == 0 {
        return Result::Ok(Option::None);
    }
    if toks.len() != 5 {
        return Result::Err(ParseError::MalformedRecord);
    }
    let m = match parse_usize_tok(&toks[1]) {
        Option::Some(v) => v,
        Option::None => {
            return Result::Err(ParseError::MalformedRecord);
        },
    };
    let k = match parse_usize_tok(&toks[2]) {
        Option::Some(v) => v,
        Option::None => {
            return Result::Err(ParseError::MalformedRecord);
        },
    };
    let n = match parse_usize_tok(&toks[3]) {
        Option::Some(v) => v,
        Option::None => {
            return Result::Err(ParseError::MalformedRecord);
        },
    };
    let y = match parse_latency_tok(&toks[4]) {
        Option::Some(v) => v,
        Option::None => {
            return Result::Err(ParseError::MalformedRecord);
        },
    };
    let name = toks.remove(0);
    proof {
        assert(name@ == tokens_of(line@)[0]);
    }
    Result::Ok(Option::Some(Sample { name, m, k, n, y }))
}

/// The record views of a sample list.
pub open spec fn recs_of(ss: Seq<Sample>) -> Seq<(Seq<u8>, int, int, int, int)> {
    ss.map_values(|s: Sample| sample_rec(s))
}

/// One planned measurement: which kernel to run, at which problem shape.
#[derive(Clone, PartialEq, Eq, Debug)]
pub struct ShapeRequest {
    pub name: Vec<u8>,
    pub m: usize,
    pub k: usize,
    pub n: usize,
}

/// The tile multiples the sampling grid walks: 1, 2, 4, 32 and 128 tiles.
pub open spec fn grid_base(j: int) -> int {
    if j == 0 {
        1
    } else if j == 1 {
        2
    } else if j == 2 {
        4
    } else if j == 3 {
        32
    } else {
        128
    }
}

/// Axis value `i` of the grid for tile dimension `r`: each base multiple of
/// the tile dimension, and its two neighbours.
pub open spec fn grid_ax(r: int, i: int) -> int {
    grid_base(i / 3) * r + (i % 3) - 1
}

/// The reduction depths the grid samples.
pub open spec fn grid_k(i: int) -> int {
    if i == 0 {
        32
    } else if i == 1 {
        128
    } else {
        1024
    }
}

/// Request `e` of a kernel's 675-point grid (15 m-values by 15 n-values by
/// 3 k-values) asks for that kernel at the decoded shape.
pub open spec fn req_ok(req: ShapeRequest, kr: MicroKernel, e: int) -> bool {
    &&& req.name@ == kr.name@
    &&& req.m == grid_ax(kr.mr as int, e / 45)
    &&& req.n == grid_ax(kr.nr as int, (e % 45) / 3)
    &&& req.k == grid_k(e % 3)
}

fn grid_base_exec(j: usize) -> (b: usize)
    requires
        j < 5,
    ensures
        b == grid_base(j as int),
        1 <= b <= 128,
{
    if j == 0 {
        1
    } else if j == 1 {
        2
    } else if j == 2 {
        4
    } else if j == 3 {
        32
    } else {
        128
    }
}

fn grid_k_exec(i: usize) -> (v: usize)
    requires
        i < 3,
    ensures
        v == grid_k(i as int),
{
    if i == 0 {
        32
    } else if i == 1 {
        128
    } else {
        1024
    }
}

/// The shapes to measure for a kernel set: for each kernel, every grid
/// point of tile multiples (and their off-by-one neighbours) against the
/// sampled reduction depths, in grid order.
pub fn sampling_inputs(kernels: &Vec<MicroKernel>) -> (r: Vec<ShapeRequest>)
    requires
        forall|c: int|
            0 <= c < kernels@.len() ==> 1 <= (#[trigger] kernels@[c]).mr <= 4096 && 1
                <= kernels@[c].nr <= 4096,
    ensures
        r@.len() == kernels@.len() * 675,
        forall|q: int|
            0 <= q < r@.len() ==> req_ok(#[trigger] r@[q], kernels@[q / 675], q % 675),
{
    let mut r: Vec<ShapeRequest> = Vec::new();
    let mut c: usize = 0;
    while c < kernels.len()
        invariant
            forall|c2: int|
                0 <= c2 < kernels@.len() ==> 1 <= (#[trigger] kernels@[c2]).mr <= 4096 && 1
                    <= kernels@[c2].nr <= 4096,
            c <= kernels@.len(),
            r@.len() == c * 675,
            forall|q: int|
                0 <= q < r@.len() ==> req_ok(#[trigger] r@[q], kernels@[q / 675], q % 675),
        decreases kernels@.len() - c,
    {
        proof {
            assert(c * 675 + 675 <= kernels@.len() * 675 && (c + 1) * 675 == c * 675 + 675) by (
            nonlinear_arith)
                requires
                    0 <= c < kernels@.len(),
            ;
        }
        let kr = &kernels[c];
        let mut im: usize = 0;
        while im < 15
            invariant
                forall|c2: int|
                    0 <= c2 < kernels@.len() ==> 1 <= (#[trigger] kernels@[c2]).mr <= 4096 && 1
                        <= kernels@[c2].nr <= 4096,
                c < kernels@.len(),
                kr == kernels@[c as int],
                im <= 15,
                r@.len() == c * 675 + im * 45,
                c * 675 + 675 <= kernels@.len() * 675,
                forall|q: int|
                    0 <= q < r@.len() ==> req_ok(#[trigger] r@[q], kernels@[q / 675], q % 675),
            decreases 15 - im,
        {
            let mut inn: usize = 0;
            while inn < 15
                invariant
                    forall|c2: int|
                        0 <= c2 < kernels@.len() ==> 1 <= (#[trigger] kernels@[c2]).mr <= 4096 && 1
                            <= kernels@[c2].nr <= 4096,
                    c < kernels@.len(),
                    kr == kernels@[c as int],
                    im < 15,
                    inn <= 15,
                    r@.len() == c * 675 + im * 45 + inn * 3,
                    c * 675 + 675 <= kernels@.len() * 675,
                    forall|q: int|
                        0 <= q < r@.len() ==> req_ok(#[trigger] r@[q], kernels@[q / 675], q % 675),
                decreases 15 - inn,
            {
                let mut ik: usize = 0;
                while ik < 3
                    invariant
                        forall|c2: int|
                            0 <= c2 < kernels@.len() ==> 1 <= (#[trigger] kernels@[c2]).mr <= 4096
                                && 1 <= kernels@[c2].nr <= 4096,
                        c < kernels@.len(),
                        kr == kernels@[c as int],
                        im < 15,
                        inn < 15,
                        ik <= 3,
                        r@.len() == c * 675 + im * 45 + inn * 3 + ik,
                        c * 675 + 675 <= kernels@.len() * 675,
                        forall|q: int|
                            0 <= q < r@.len() ==> req_ok(#[trigger] r@[q], kernels@[q / 675], q
                                % 675),
                    decreases 3 - ik,
                {
                    let bm = grid_base_exec(im / 3);
                    let bn = grid_base_exec(inn / 3);
                    let mv = bm * kr.mr + (im % 3) - 1;
                    let nv = bn * kr.nr + (inn % 3) - 1;
                    let kv = grid_k_exec(ik);
                    let name = crate::arch::copy_range(&kr.name, 0, kr.name.len());
                    let req = ShapeRequest { name, m: mv, k: kv, n: nv };
                    let ghost q = r@.len() as int;
                    proof {
                        assert(kr.name@.subrange(0, kr.name@.len() as int) =~= kr.name@);
                        let e = (im * 45 + inn * 3 + ik) as int;
                        crate::packing::lemma_panel_coords(im as int, inn as int, ik as int, 3, 15);
                        assert(q == c * (3 * 15) * 15 + (im * 45 + inn * 3 + ik)) by (
                        nonlinear_arith)
                            requires
                                q == c * 675 + im * 45 + inn * 3 + ik,
                        ;
                        assert(q / 675 == c && q % 675 == e) by {
                            crate::packing::lemma_panel_coords(
                                c as int,
                                (im * 45 + inn * 3 + ik) as int,
                                0,
                                1,
                                675,
                            );
                            assert(c * (1 * 675) + (im * 45 + inn * 3 + ik) * 1 + 0 == q);
                        }
                        assert(e / 45 == im && (e % 45) / 3 == inn && (e % 45) % 3 == ik) by {
                            crate::packing::lemma_panel_coords(im as int, inn as int, ik as int, 3,
                                15);
                            assert(im * (3 * 15) + inn * 3 + ik == e);
                        }
                        assert(req_ok(req, kernels@[c as int], e));
                    }
                    r.push(req);
                    ik = ik + 1;
                }
                inn = inn + 1;
            }
            im = im + 1;
        }
        proof {
            assert(c * 675 + 15 * 45 == (c + 1) * 675) by (nonlinear_arith);
        }
        c = c + 1;
    }
    r
}

/// Relies on rand::thread_rng of the rand crate: a handle to the
/// thread-local random generator. Nothing is promised of its state.
#[verifier::external_body]
pub fn fresh_rng() -> rand::rngs::ThreadRng {
    rand::thread_rng()
}

#[verifier::external_type_specification]
#[verifier::external_body]
pub struct ExThreadRng(rand::rngs::ThreadRng);

/// Relies on rand's SliceRandom::shuffle: a Fisher-Yates pass that only
/// swaps elements in place, so the requests come back as a permutation —
/// the same multiset. Which permutation depends on the generator's state,
/// so nothing more is promised.
#[verifier::external_body]
pub fn shuffle_requests(v: &mut Vec<ShapeRequest>, rng: &mut rand::rngs::ThreadRng)
    ensures
        final(v)@.to_multiset() == old(v)@.to_multiset(),
{
    v.shuffle(rng)
}

/// Relies on i64::unsigned_abs of the standard library: the absolute value
/// of the argument, computed without wrapping or panicking, also for the
/// smallest representable value.
pub assume_specification[ i64::unsigned_abs ](x: i64) -> (r: u64)
    ensures
        r as int == (if x >= 0 {
            x as int
        } else {
            -(x as int)
        }),
;

/// One second, in picoseconds, as the render arithmetic uses it.
pub const TRILLION: u64 = 1_000_000_000_000;

/// Decimal digits of a nonnegative number, most significant first.
pub open spec fn dec_digits(n: int) -> Seq<u8>
    decreases n,
{
    if n < 10 {
        seq![(48 + if n >= 0 {
            n
        } else {
            0
        }) as u8]
    } else {
        dec_digits(n / 10).push((48 + n % 10) as u8)
    }
}

/// The digit string left-padded with zeros to twelve places.
pub open spec fn zero_pad12(s: Seq<u8>) -> Seq<u8> {
    if s.len() >= 12 {
        s
    } else {
        Seq::new((12 - s.len()) as nat, |_i: int| 48u8) + s
    }
}

/// A latency in picoseconds rendered as seconds: sign, whole seconds, and
/// exactly twelve fractional digits.
pub open spec fn lat_text(y: int) -> Seq<u8> {
    let a = if y >= 0 {
        y
    } else {
        -y
    };
    let sign: Seq<u8> = if y < 0 {
        seq![45u8]
    } else {
        Seq::empty()
    };
    sign + dec_digits(a / (TRILLION as int)) + seq![46u8] + zero_pad12(
        dec_digits(a % (TRILLION as int)),
    )
}

/// One record line: the five fields separated by single spaces, closed by
/// a line break.
pub open spec fn record_text(rec: (Seq<u8>, int, int, int, int)) -> Seq<u8> {
    rec.0 + seq![32u8] + dec_digits(rec.1) + seq![32u8] + dec_digits(rec.2) + seq![32u8]
        + dec_digits(rec.3) + seq![32u8] + lat_text(rec.4) + seq![10u8]
}

/// The whole dataset text: one record line per sample, in order.
pub open spec fn render_records(recs: Seq<(Seq<u8>, int, int, int, int)>) -> Seq<u8>
    decreases recs.len(),
{
    if recs.len() == 0 {
        Seq::empty()
    } else {
        render_records(recs.drop_last()) + record_text(recs.last())
    }
}

/// Append `src` to `dst`.
pub fn append_bytes(dst: &mut Vec<u8>, src: &Vec<u8>)
    ensures
        final(dst)@ == old(dst)@ + src@,
{
    let mut i: usize = 0;
    while i < src.len()
        invariant
            i <= src@.len(),
            dst@ == old(dst)@ + src@.subrange(0, i as int),
        decreases src@.len() - i,
    {
        dst.push(src[i]);
        proof {
            assert(old(dst)@ + src@.subrange(0, i + 1) =~= (old(dst)@ + src@.subrange(
                0,
                i as int,
            )).push(src@[i as int]));
        }
        i = i + 1;
    }
    proof {
        assert(src@.subrange(0, src@.len() as int) =~= src@);
    }
}

/// Decimal rendering of a nonnegative number.
pub fn dec_exec(n: u64) -> (r: Vec<u8>)
    ensures
        r@ == dec_digits(n as int),
    decreases n,
{
    if n < 10 {
        let mut r: Vec<u8> = Vec::new();
        r.push(48 + (n as u8));
        proof {
            assert(r@ =~= dec_digits(n as int));
        }
        r
    } else {
        let mut r = dec_exec(n / 10);
        r.push(48 + ((n % 10) as u8));
        r
    }
}

fn pad12(v: Vec<u8>) -> (r: Vec<u8>)
    ensures
        r@ == zero_pad12(v@),
{
    if v.len() >= 12 {
        return v;
    }
    let need = 12 - v.len();
    let mut r: Vec<u8> = Vec::new();
    let mut i: usize = 0;
    while i < need
        invariant
            i <= need,
            need == 12 - v@.len(),
            r@ =~= Seq::new(i as nat, |_q: int| 48u8),
        decreases need - i,
    {
        r.push(48u8);
        proof {
            assert(r@ =~= Seq::new((i + 1) as nat, |_q: int| 48u8));
        }
        i = i + 1;
    }
    append_bytes(&mut r, &v);
    r
}

fn lat_exec(y: i64) -> (r: Vec<u8>)
    ensures
        r@ == lat_text(y as int),
{
    let a: u64 = y.unsigned_abs();
    let mut r: Vec<u8> = Vec::new();
    if y < 0 {
        r.push(45u8);
        proof {
            assert(r@ =~= seq![45u8]);
        }
    } else {
        proof {
            assert(r@ =~= Seq::<u8>::empty());
        }
    }
    let whole = dec_exec(a / TRILLION);
    append_bytes(&mut r, &whole);
    r.push(46u8);
    let frac = pad12(dec_exec(a % TRILLION));
    append_bytes(&mut r, &frac);
    proof {
        let ghost sign: Seq<u8> = if y < 0 {
            seq![45u8]
        } else {
            Seq::empty()
        };
        assert(r@ =~= sign + dec_digits(a as int / (TRILLION as int)) + seq![46u8] + zero_pad12(
            dec_digits(a as int % (TRILLION as int)),
        ));
    }
    r
}

impl Dataset {
    /// Render the dataset as its flat text: `kernel_name m k n
    /// latency_seconds`, one sample per line.
    #[verifier::rlimit(80)]
    pub fn render(&self) -> (r: Vec<u8>)
        ensures
            r@ == render_records(recs_of(self.0@)),
    {
        let mut out: Vec<u8> = Vec::new();
        proof {
            assert(recs_of(self.0@.subrange(0, 0)) =~= Seq::<(
                Seq<u8>,
                int,
                int,
                int,
                int,
            )>::empty());
        }
        let mut i: usize = 0;
        while i < self.0.len()
            invariant
                i <= self.0@.len(),
                out@ == render_records(recs_of(self.0@.subrange(0, i as int))),
            decreases self.0@.len() - i,
        {
            let s = &self.0[i];
            append_bytes(&mut out, &s.name);
            out.push(32u8);
            let mv = dec_exec(s.m as u64);
            append_bytes(&mut out, &mv);
            out.push(32u8);
            let kv = dec_exec(s.k as u64);
            append_bytes(&mut out, &kv);
            out.push(32u8);
            let nv = dec_exec(s.n as u64);
            append_bytes(&mut out, &nv);
            out.push(32u8);
            let yv = lat_exec(s.y);
            append_bytes(&mut out, &yv);
            out.push(10u8);
            proof {
                let pre = recs_of(self.0@.subrange(0, i as int));
                let cur = recs_of(self.0@.subrange(0, i + 1));
                assert(cur.drop_last() =~= pre);
                assert(cur.last() == sample_rec(self.0@[i as int]));
                assert(out@ =~= render_records(pre) + record_text(sample_rec(self.0@[i as int])));
            }
            i = i + 1;
        }
        proof {
            assert(self.0@.subrange(0, self.0@.len() as int) =~= self.0@);
        }
        out
    }
}

impl Dataset {
    /// Parse a dataset text: one sample per line, whitespace-separated
    /// fields `kernel_name m k n latency_seconds`, any whitespace run as
    /// the separator, scientific notation accepted for the latency.
    pub fn parse(text: &Vec<u8>) -> (r: Result<Dataset, ParseError>)
        ensures
            match r {
                Result::Ok(ds) => parse_records(text@) == Result::<
                    Seq<(Seq<u8>, int, int, int, int)>,
                    ParseError,
                >::Ok(recs_of(ds.0@)),
                Result::Err(e) => parse_records(text@) == Result::<
                    Seq<(Seq<u8>, int, int, int, int)>,
                    ParseError,
                >::Err(e),
            },
    {
        let len = text.len();
        let mut acc: Vec<Sample> = Vec::new();
        proof {
            assert(text@.skip(0) =~= text@);
            assert(recs_of(acc@) =~= Seq::<(Seq<u8>, int, int, int, int)>::empty());
        }
        let mut pos: usize = 0;
        while pos < len
            invariant
                pos <= len,
                len == text@.len(),
                ({
                    let full = parse_records(text@);
                    match parse_records(text@.skip(pos as int)) {
                        Result::Ok(tail) => full == Result::<
                            Seq<(Seq<u8>, int, int, int, int)>,
                            ParseError,
                        >::Ok(recs_of(acc@) + tail),
                        Result::Err(e) => full == Result::<
                            Seq<(Seq<u8>, int, int, int, int)>,
                            ParseError,
                        >::Err(e),
                    }
                }),
            decreases len - pos,
        {
            let ghost suf = text@.skip(pos as int);
            let mut j: usize = pos;
            while j < len && text[j] != 10
                invariant
                    pos <= j <= len,
                    len == text@.len(),
                    forall|p: int| pos <= p < j ==> text@[p] != 10,
                decreases len - j,
            {
                j = j + 1;
            }
            proof {
                assert(forall|p: int| 0 <= p < j - pos ==> suf[p] == text@[pos + p]);
                lemma_first_nl_at(suf, j - pos);
                assert(suf.subrange(0, j - pos) =~= text@.subrange(pos as int, j as int));
                if j < len {
                    assert(suf.subrange(j - pos + 1, suf.len() as int) =~= text@.skip(j + 1));
                }
            }
            let line = crate::arch::copy_range(text, pos, j);
            let ghost rest = if j < len {
                text@.skip(j + 1)
            } else {
                Seq::<u8>::empty()
            };
            proof {
                assert(suf.len() > 0);
                assert(line@ == suf.subrange(0, j - pos));
                if j < len {
                    assert(rest == suf.subrange(j - pos + 1, suf.len() as int));
                }
            }
            match parse_line_exec(&line) {
                Result::Err(e) => {
                    proof {
                        assert(parse_records(suf) == Result::<
                            Seq<(Seq<u8>, int, int, int, int)>,
                            ParseError,
                        >::Err(e));
                    }
                    return Result::Err(e);
                },
                Result::Ok(Option::None) => {
                    proof {
                        assert(parse_records(suf) == parse_records(rest));
                    }
                },
                Result::Ok(Option::Some(smp)) => {
                    let ghost preacc = acc@;
                    let ghost rec = sample_rec(smp);
                    acc.push(smp);
                    proof {
                        assert(recs_of(acc@) =~= recs_of(preacc).push(rec));
                        match parse_records(rest) {
                            Result::Ok(tail) => {
                                assert(parse_records(suf) == Result::<
                                    Seq<(Seq<u8>, int, int, int, int)>,
                                    ParseError,
                                >::Ok(seq![rec] + tail));
                                assert(recs_of(preacc) + (seq![rec] + tail) =~= recs_of(acc@)
                                    + tail);
                            },
                            Result::Err(_) => {
                                assert(parse_records(suf) == parse_records(rest));
                            },
                        }
                    }
                },
            }
            if j == len {
                pos = len;
                proof {
                    assert(text@.skip(len as int).len() == 0);
                    assert(parse_records(rest) == Result::<
                        Seq<(Seq<u8>, int, int, int, int)>,
                        ParseError,
                    >::Ok(Seq::empty()));
                }
            } else {
                pos = j + 1;
            }
        }
        proof {
            assert(text@.skip(len as int).len() == 0);
            assert(recs_of(acc@) + Seq::<(Seq<u8>, int, int, int, int)>::empty() =~= recs_of(
                acc@,
            ));
        }
        Result::Ok(Dataset(acc))
    }
}

} // verus!
