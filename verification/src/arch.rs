//! CPU microarchitecture profile detection.
//!
//! The profile is chosen once per process from three inputs tried in priority
//! order: a free-text kind override, a raw CPU-part override, and the host's
//! CPU metadata text. All matching is done over bytes; unknown or missing
//! inputs degrade to the generic profile.

use vstd::prelude::*;

verus! {

/// The closed set of recognized microarchitecture profiles.
#[derive(Clone, Copy, PartialEq, Eq, Structural, Debug)]
pub enum Kind {
    Generic,
    CortexA53,
    CortexA55,
    CortexA72,
    CortexA73,
    CortexA75,
}

/// ASCII lower-casing of a single byte; bytes outside 'A'..='Z' are kept.
pub open spec fn lower_byte(b: u8) -> u8 {
    if 65 <= b && b <= 90 {
        (b + 32) as u8
    } else {
        b
    }
}

/// ASCII lower-casing of a byte string.
pub open spec fn lower_seq(s: Seq<u8>) -> Seq<u8> {
    s.map_values(|b: u8| lower_byte(b))
}

/// The needle occurs in the haystack starting at position `i`.
pub open spec fn matches_at(hay: Seq<u8>, needle: Seq<u8>, i: int) -> bool {
    0 <= i && i + needle.len() <= hay.len() && hay.subrange(i, i + needle.len()) == needle
}

/// The needle occurs somewhere in the haystack.
pub open spec fn contains_seq(hay: Seq<u8>, needle: Seq<u8>) -> bool {
    exists|i: int| matches_at(hay, needle, i)
}

/// ASCII lower-casing, byte for byte.
pub fn to_lower(s: &Vec<u8>) -> (r: Vec<u8>)
    ensures
        r@ == lower_seq(s@),
{
    let mut r: Vec<u8> = Vec::new();
    let mut i: usize = 0;
    while i < s.len()
        invariant
            i <= s.len(),
            r@ == lower_seq(s@.subrange(0, i as int)),
        decreases s.len() - i,
    {
        let b = s[i];
        if 65 <= b && b <= 90 {
            r.push(b + 32);
        } else {
            r.push(b);
        }
        proof {
            assert(s@.subrange(0, i + 1) =~= s@.subrange(0, i as int).push(s@[i as int]));
            assert(r@ =~= lower_seq(s@.subrange(0, i + 1)));
        }
        i = i + 1;
    }
    proof {
        assert(s@.subrange(0, s@.len() as int) =~= s@);
    }
    r
}

/// Byte-string search for a (short) needle.
pub fn contains_sub(hay: &Vec<u8>, needle: &Vec<u8>) -> (r: bool)
    ensures
        r == contains_seq(hay@, needle@),
{
    if needle.len() > hay.len() {
        proof {
            assert(forall|i: int| !matches_at(hay@, needle@, i));
        }
        return false;
    }
    if needle.len() == 0 {
        proof {
            assert(hay@.subrange(0, 0) =~= needle@);
            assert(matches_at(hay@, needle@, 0));
        }
        return true;
    }
    let mut i: usize = 0;
    while i <= hay.len() - needle.len()
        invariant
            1 <= needle.len() <= hay.len(),
            i <= hay.len() - needle.len() + 1,
            forall|p: int| 0 <= p < i ==> !matches_at(hay@, needle@, p),
        decreases hay.len() - i,
    {
        let mut j: usize = 0;
        let mut ok = true;
        while j < needle.len()
            invariant
                ok ==> hay@.subrange(i as int, i + j) =~= needle@.subrange(0, j as int),
                !ok ==> !matches_at(hay@, needle@, i as int),
                i + needle.len() <= hay.len(),
                j <= needle.len(),
            decreases needle.len() - j,
        {
            if hay[i + j] != needle[j] {
                proof {
                    if matches_at(hay@, needle@, i as int) {
                        assert(hay@.subrange(i as int, i + needle@.len())[j as int]
                            == needle@[j as int]);
                    }
                }
                ok = false;
                j = needle.len();
            } else {
                proof {
                    if ok {
                        assert(hay@.subrange(i as int, i + j + 1) =~= hay@.subrange(
                            i as int,
                            i + j,
                        ).push(hay@[i + j]));
                        assert(needle@.subrange(0, j + 1) =~= needle@.subrange(0, j as int).push(
                            needle@[j as int],
                        ));
                    }
                }
                j = j + 1;
            }
        }
        if ok {
            proof {
                assert(needle@.subrange(0, needle@.len() as int) =~= needle@);
                assert(matches_at(hay@, needle@, i as int));
            }
            return true;
        }
        i = i + 1;
    }
    proof {
        assert(forall|p: int| matches_at(hay@, needle@, p) ==> 0 <= p <= hay@.len()
            - needle@.len());
    }
    false
}

/// An ASCII whitespace byte, the field separator of the host metadata text.
pub open spec fn is_ws(b: u8) -> bool {
    b == 32 || (9 <= b && b <= 13)
}

/// Index of the first line break in `s`, or `s.len()` if there is none.
pub open spec fn first_nl(s: Seq<u8>) -> int
    decreases s.len(),
{
    if s.len() == 0 {
        0
    } else if s[0] == 10 {
        0
    } else {
        1 + first_nl(s.drop_first())
    }
}

pub proof fn lemma_first_nl_bounds(s: Seq<u8>)
    ensures
        0 <= first_nl(s) <= s.len(),
        first_nl(s) < s.len() ==> s[first_nl(s)] == 10,
        forall|p: int| 0 <= p < first_nl(s) ==> s[p] != 10,
    decreases s.len(),
{
    if s.len() != 0 && s[0] != 10 {
        lemma_first_nl_bounds(s.drop_first());
        assert(forall|p: int| 0 <= p < first_nl(s) ==> s[p] != 10) by {
            assert(forall|p: int| 1 <= p < first_nl(s) ==> s.drop_first()[p - 1] == s[p]);
        }
    }
}

/// If no line break occurs before `d`, and `d` is a break or the end, then
/// `d` is the first break.
pub proof fn lemma_first_nl_at(s: Seq<u8>, d: int)
    requires
        0 <= d <= s.len(),
        forall|p: int| 0 <= p < d ==> s[p] != 10,
        d == s.len() || s[d] == 10,
    ensures
        first_nl(s) == d,
    decreases s.len(),
{
    if s.len() != 0 && s[0] != 10 {
        assert(forall|p: int| 0 <= p < d - 1 ==> s.drop_first()[p] == s[p + 1]);
        lemma_first_nl_at(s.drop_first(), d - 1);
    }
}

/// The line with its trailing whitespace removed.
pub open spec fn trim_ws(line: Seq<u8>) -> Seq<u8>
    decreases line.len(),
{
    if line.len() == 0 || !is_ws(line.last()) {
        line
    } else {
        trim_ws(line.drop_last())
    }
}

pub proof fn lemma_trim_at(line: Seq<u8>, e: int)
    requires
        0 <= e <= line.len(),
        forall|p: int| e <= p < line.len() ==> is_ws(line[p]),
        e == 0 || !is_ws(line[e - 1]),
    ensures
        trim_ws(line) =~= line.subrange(0, e),
    decreases line.len(),
{
    if e == line.len() {
        if line.len() == 0 || !is_ws(line.last()) {
            assert(trim_ws(line) =~= line.subrange(0, e));
        }
    } else {
        assert(is_ws(line.last()));
        assert(forall|p: int|
            e <= p < line.drop_last().len() ==> line.drop_last()[p] == line[p]);
        lemma_trim_at(line.drop_last(), e);
        assert(line.drop_last().subrange(0, e) =~= line.subrange(0, e));
    }
}

/// The maximal run of non-whitespace bytes at the end of the line.
pub open spec fn tail_run(line: Seq<u8>) -> Seq<u8>
    decreases line.len(),
{
    if line.len() == 0 || is_ws(line.last()) {
        Seq::empty()
    } else {
        tail_run(line.drop_last()).push(line.last())
    }
}

pub proof fn lemma_tail_run_at(line: Seq<u8>, s: int)
    requires
        0 <= s <= line.len(),
        forall|p: int| s <= p < line.len() ==> !is_ws(line[p]),
        s == 0 || is_ws(line[s - 1]),
    ensures
        tail_run(line) =~= line.subrange(s, line.len() as int),
    decreases line.len(),
{
    if s == line.len() {
        if line.len() != 0 {
            assert(is_ws(line.last()));
        }
        assert(tail_run(line) =~= line.subrange(s, line.len() as int));
    } else {
        assert(!is_ws(line.last()));
        assert(forall|p: int|
            s <= p < line.drop_last().len() ==> line.drop_last()[p] == line[p]);
        lemma_tail_run_at(line.drop_last(), s);
        assert(tail_run(line.drop_last()).push(line.last()) =~= line.subrange(
            s,
            line.len() as int,
        ));
    }
}

/// The last whitespace-separated token of a line; empty when the line holds
/// only whitespace.
pub open spec fn last_token(line: Seq<u8>) -> Seq<u8> {
    tail_run(trim_ws(line))
}

/// The line begins with the given prefix.
pub open spec fn starts_with(line: Seq<u8>, prefix: Seq<u8>) -> bool {
    line.len() >= prefix.len() && line.subrange(0, prefix.len() as int) == prefix
}

/// The bytes of "CPU part", the marker of a core record's part field.
pub open spec fn cpu_part_prefix() -> Seq<u8> {
    seq![67u8, 80u8, 85u8, 32u8, 112u8, 97u8, 114u8, 116u8]
}

/// Lexicographic byte order, as the standard library orders strings.
pub open spec fn lex_le(a: Seq<u8>, b: Seq<u8>) -> bool
    decreases a.len(),
{
    if a.len() == 0 {
        true
    } else if b.len() == 0 {
        false
    } else if a[0] < b[0] {
        true
    } else if a[0] > b[0] {
        false
    } else {
        lex_le(a.drop_first(), b.drop_first())
    }
}

/// The larger of two optional part identifiers.
pub open spec fn opt_max(a: Option<Seq<u8>>, b: Option<Seq<u8>>) -> Option<Seq<u8>> {
    match (a, b) {
        (Option::None, r) => r,
        (l, Option::None) => l,
        (Option::Some(x), Option::Some(y)) => if lex_le(x, y) {
            Option::Some(y)
        } else {
            Option::Some(x)
        },
    }
}

/// The maximum part identifier over all core records of the metadata text:
/// each line starting with "CPU part" contributes its last token.
pub open spec fn max_part_of(s: Seq<u8>) -> Option<Seq<u8>>
    decreases s.len(),
    via max_part_of_decreases
{
    if s.len() == 0 {
        Option::None
    } else {
        let d = first_nl(s);
        let line = s.subrange(0, d);
        let cur: Option<Seq<u8>> = if starts_with(line, cpu_part_prefix()) {
            Option::Some(last_token(line))
        } else {
            Option::None
        };
        let rest: Option<Seq<u8>> = if d < s.len() {
            max_part_of(s.subrange(d + 1, s.len() as int))
        } else {
            Option::None
        };
        opt_max(cur, rest)
    }
}

#[via_fn]
proof fn max_part_of_decreases(s: Seq<u8>) {
    lemma_first_nl_bounds(s);
}

/// The part identifier that detection falls back to when the metadata text
/// yields none, or when the text itself is missing: "0x00".
pub open spec fn default_part() -> Seq<u8> {
    seq![48u8, 120u8, 48u8, 48u8]
}

pub open spec fn spec_max_cpuid(s: Seq<u8>) -> Seq<u8> {
    match max_part_of(s) {
        Option::Some(t) => t,
        Option::None => Seq::empty(),
    }
}

fn is_ws_byte(b: u8) -> (r: bool)
    ensures
        r == is_ws(b),
{
    b == 32 || (9 <= b && b <= 13)
}

/// Equality of two byte strings.
pub fn bytes_eq(a: &Vec<u8>, b: &Vec<u8>) -> (r: bool)
    ensures
        r == (a@ == b@),
{
    if a.len() != b.len() {
        return false;
    }
    let mut i: usize = 0;
    while i < a.len()
        invariant
            a.len() == b.len(),
            i <= a.len(),
            forall|p: int| 0 <= p < i ==> a@[p] == b@[p],
        decreases a.len() - i,
    {
        if a[i] != b[i] {
            return false;
        }
        i = i + 1;
    }
    proof {
        assert(a@ =~= b@);
    }
    true
}

/// Lexicographic comparison from position `i` on.
fn lex_le_from(a: &Vec<u8>, b: &Vec<u8>, i: usize) -> (r: bool)
    requires
        i <= a.len(),
        i <= b.len(),
    ensures
        r == lex_le(a@.skip(i as int), b@.skip(i as int)),
    decreases a.len() - i,
{
    if i == a.len() {
        assert(a@.skip(i as int).len() == 0);
        true
    } else if i == b.len() {
        assert(b@.skip(i as int).len() == 0);
        assert(a@.skip(i as int).len() > 0);
        false
    } else {
        assert(a@.skip(i as int)[0] == a@[i as int]);
        assert(b@.skip(i as int)[0] == b@[i as int]);
        if a[i] < b[i] {
            true
        } else if a[i] > b[i] {
            false
        } else {
            proof {
                assert(a@.skip(i as int).drop_first() =~= a@.skip(i + 1));
                assert(b@.skip(i as int).drop_first() =~= b@.skip(i + 1));
            }
            lex_le_from(a, b, i + 1)
        }
    }
}

/// Lexicographic byte order, the order the part identifiers are ranked by.
pub fn lex_le_bytes(a: &Vec<u8>, b: &Vec<u8>) -> (r: bool)
    ensures
        r == lex_le(a@, b@),
{
    let r = lex_le_from(a, b, 0);
    proof {
        assert(a@.skip(0) =~= a@);
        assert(b@.skip(0) =~= b@);
    }
    r
}

pub(crate) fn copy_range(text: &Vec<u8>, from: usize, to: usize) -> (r: Vec<u8>)
    requires
        from <= to <= text.len(),
    ensures
        r@ == text@.subrange(from as int, to as int),
{
    let mut r: Vec<u8> = Vec::new();
    let mut i: usize = from;
    while i < to
        invariant
            from <= i <= to <= text.len(),
            r@ == text@.subrange(from as int, i as int),
        decreases to - i,
    {
        r.push(text[i]);
        proof {
            assert(text@.subrange(from as int, i + 1) =~= text@.subrange(
                from as int,
                i as int,
            ).push(text@[i as int]));
        }
        i = i + 1;
    }
    r
}

/// Does `text[pos..end]` begin with `pfx`?
fn is_prefix_range(text: &Vec<u8>, pos: usize, end: usize, pfx: &Vec<u8>) -> (r: bool)
    requires
        pos <= end <= text.len(),
    ensures
        r == starts_with(text@.subrange(pos as int, end as int), pfx@),
{
    if end - pos < pfx.len() {
        return false;
    }
    let mut q: usize = 0;
    while q < pfx.len()
        invariant
            pos <= end <= text.len(),
            pfx.len() <= end - pos,
            q <= pfx.len(),
            forall|t: int| 0 <= t < q ==> text@[pos + t] == pfx@[t],
        decreases pfx.len() - q,
    {
        if text[pos + q] != pfx[q] {
            proof {
                let line = text@.subrange(pos as int, end as int);
                if starts_with(line, pfx@) {
                    assert(line.subrange(0, pfx@.len() as int)[q as int] == pfx@[q as int]);
                    assert(line[q as int] == text@[pos + q]);
                }
            }
            return false;
        }
        q = q + 1;
    }
    proof {
        let line = text@.subrange(pos as int, end as int);
        assert(line.subrange(0, pfx@.len() as int) =~= pfx@);
    }
    true
}

spec fn view_part_opt(o: Option<Vec<u8>>) -> Option<Seq<u8>> {
    match o {
        Option::Some(v) => Option::Some(v@),
        Option::None => Option::None,
    }
}

fn max_part_from(text: &Vec<u8>, pos: usize) -> (r: Option<Vec<u8>>)
    requires
        pos <= text.len(),
    ensures
        view_part_opt(r) == max_part_of(text@.skip(pos as int)),
    decreases text.len() - pos,
{
    let ghost suffix = text@.skip(pos as int);
    if pos == text.len() {
        assert(suffix.len() == 0);
        return Option::None;
    }
    let mut j: usize = pos;
    while j < text.len() && text[j] != 10
        invariant
            pos <= j <= text.len(),
            forall|p: int| pos <= p < j ==> text@[p] != 10,
        decreases text.len() - j,
    {
        j = j + 1;
    }
    proof {
        assert(forall|p: int| 0 <= p < j - pos ==> suffix[p] == text@[pos + p]);
        lemma_first_nl_at(suffix, j - pos);
        assert(suffix.subrange(0, j - pos) =~= text@.subrange(pos as int, j as int));
    }
    let ghost line = text@.subrange(pos as int, j as int);
    let pfx: Vec<u8> = vec![67u8, 80u8, 85u8, 32u8, 112u8, 97u8, 114u8, 116u8];
    proof {
        assert(pfx@ =~= cpu_part_prefix());
    }
    let cand: Option<Vec<u8>> = if is_prefix_range(text, pos, j, &pfx) {
        let mut e: usize = j;
        while e > pos && is_ws_byte(text[e - 1])
            invariant
                pos <= e <= j <= text.len(),
                forall|p: int| e <= p < j ==> is_ws(text@[p]),
            decreases e,
        {
            e = e - 1;
        }
        let mut st: usize = e;
        while st > pos && !is_ws_byte(text[st - 1])
            invariant
                pos <= st <= e <= text.len(),
                forall|p: int| st <= p < e ==> !is_ws(text@[p]),
            decreases st,
        {
            st = st - 1;
        }
        proof {
            assert(forall|p: int| e - pos <= p < line.len() ==> is_ws(line[p]));
            lemma_trim_at(line, e - pos);
            let trimmed = text@.subrange(pos as int, e as int);
            assert(trim_ws(line) =~= trimmed);
            assert(forall|p: int| st - pos <= p < trimmed.len() ==> !is_ws(trimmed[p]));
            lemma_tail_run_at(trimmed, st - pos);
            assert(tail_run(trimmed) =~= text@.subrange(st as int, e as int));
        }
        Option::Some(copy_range(text, st, e))
    } else {
        Option::None
    };
    let rest: Option<Vec<u8>> = if j == text.len() {
        Option::None
    } else {
        let r = max_part_from(text, j + 1);
        proof {
            assert(text@.skip(j + 1) =~= suffix.subrange(j - pos + 1, suffix.len() as int));
        }
        r
    };
    match (cand, rest) {
        (Option::None, r) => r,
        (l, Option::None) => l,
        (Option::Some(x), Option::Some(y)) => {
            if lex_le_bytes(&x, &y) {
                Option::Some(y)
            } else {
                Option::Some(x)
            }
        },
    }
}

/// The maximum "CPU part" identifier found in the host metadata text, or the
/// empty byte string when the text holds no core record.
pub fn max_cpuid(cpuinfo: &Vec<u8>) -> (r: Vec<u8>)
    ensures
        r@ == spec_max_cpuid(cpuinfo@),
{
    proof {
        assert(cpuinfo@.skip(0) =~= cpuinfo@);
    }
    match max_part_from(cpuinfo, 0) {
        Option::Some(v) => v,
        Option::None => Vec::new(),
    }
}

/// "a53" — the name fragment of the Cortex-A53 profile.
pub open spec fn frag_a53() -> Seq<u8> {
    seq![97u8, 53u8, 51u8]
}

/// "a55"
pub open spec fn frag_a55() -> Seq<u8> {
    seq![97u8, 53u8, 53u8]
}

/// "a72"
pub open spec fn frag_a72() -> Seq<u8> {
    seq![97u8, 55u8, 50u8]
}

/// "a73"
pub open spec fn frag_a73() -> Seq<u8> {
    seq![97u8, 55u8, 51u8]
}

/// "a75"
pub open spec fn frag_a75() -> Seq<u8> {
    seq![97u8, 55u8, 53u8]
}

/// "0xd03" — the CPU part identifier of the Cortex-A53.
pub open spec fn part_a53() -> Seq<u8> {
    seq![48u8, 120u8, 100u8, 48u8, 51u8]
}

/// "0xd05"
pub open spec fn part_a55() -> Seq<u8> {
    seq![48u8, 120u8, 100u8, 48u8, 53u8]
}

/// "0xd08"
pub open spec fn part_a72() -> Seq<u8> {
    seq![48u8, 120u8, 100u8, 48u8, 56u8]
}

/// "0xd09"
pub open spec fn part_a73() -> Seq<u8> {
    seq![48u8, 120u8, 100u8, 48u8, 57u8]
}

/// "0xd0a"
pub open spec fn part_a75() -> Seq<u8> {
    seq![48u8, 120u8, 100u8, 48u8, 97u8]
}

/// Free-text match of a forced kind: the first known name fragment found in
/// the lower-cased text wins; unmatched text resolves to the generic profile.
pub open spec fn kind_from_text(lowered: Seq<u8>) -> Kind {
    if contains_seq(lowered, frag_a53()) {
        Kind::CortexA53
    } else if contains_seq(lowered, frag_a55()) {
        Kind::CortexA55
    } else if contains_seq(lowered, frag_a72()) {
        Kind::CortexA72
    } else if contains_seq(lowered, frag_a73()) {
        Kind::CortexA73
    } else if contains_seq(lowered, frag_a75()) {
        Kind::CortexA75
    } else {
        Kind::Generic
    }
}

/// Map of known CPU part identifiers; unknown identifiers resolve to the
/// generic profile.
pub open spec fn kind_from_part(part: Seq<u8>) -> Kind {
    if part == part_a53() {
        Kind::CortexA53
    } else if part == part_a55() {
        Kind::CortexA55
    } else if part == part_a72() {
        Kind::CortexA72
    } else if part == part_a73() {
        Kind::CortexA73
    } else if part == part_a75() {
        Kind::CortexA75
    } else {
        Kind::Generic
    }
}

/// The whole detection rule: a forced kind wins, then a forced part, then the
/// part read from host metadata; a missing metadata text counts as the
/// default (unknown) part.
pub open spec fn spec_choose(
    kind_override: Option<Seq<u8>>,
    part_override: Option<Seq<u8>>,
    cpuinfo: Option<Seq<u8>>,
) -> Kind {
    match kind_override {
        Option::Some(k) => kind_from_text(lower_seq(k)),
        Option::None => {
            let part = match part_override {
                Option::Some(p) => p,
                Option::None => match cpuinfo {
                    Option::Some(t) => spec_max_cpuid(t),
                    Option::None => default_part(),
                },
            };
            kind_from_part(part)
        },
    }
}

pub open spec fn view_opt_bytes(o: Option<&Vec<u8>>) -> Option<Seq<u8>> {
    match o {
        Option::Some(v) => Option::Some(v@),
        Option::None => Option::None,
    }
}

impl Kind {
    /// Resolve the microarchitecture profile from the two override texts and
    /// the host metadata text, all optional. Performs no reads itself: the
    /// caller hands in whatever the environment offered.
    pub fn detect(
        kind_override: Option<&Vec<u8>>,
        part_override: Option<&Vec<u8>>,
        cpuinfo: Option<&Vec<u8>>,
    ) -> (k: Kind)
        ensures
            k == spec_choose(
                view_opt_bytes(kind_override),
                view_opt_bytes(part_override),
                view_opt_bytes(cpuinfo),
            ),
    {
        match kind_override {
            Option::Some(kv) => {
                let lowered = to_lower(kv);
                let n53: Vec<u8> = vec![97u8, 53u8, 51u8];
                let n55: Vec<u8> = vec![97u8, 53u8, 53u8];
                let n72: Vec<u8> = vec![97u8, 55u8, 50u8];
                let n73: Vec<u8> = vec![97u8, 55u8, 51u8];
                let n75: Vec<u8> = vec![97u8, 55u8, 53u8];
                proof {
                    assert(n53@ =~= frag_a53());
                    assert(n55@ =~= frag_a55());
                    assert(n72@ =~= frag_a72());
                    assert(n73@ =~= frag_a73());
                    assert(n75@ =~= frag_a75());
                }
                if contains_sub(&lowered, &n53) {
                    Kind::CortexA53
                } else if contains_sub(&lowered, &n55) {
                    Kind::CortexA55
                } else if contains_sub(&lowered, &n72) {
                    Kind::CortexA72
                } else if contains_sub(&lowered, &n73) {
                    Kind::CortexA73
                } else if contains_sub(&lowered, &n75) {
                    Kind::CortexA75
                } else {
                    Kind::Generic
                }
            },
            Option::None => {
                let part: Vec<u8> = match part_override {
                    Option::Some(p) => copy_range(p, 0, p.len()),
                    Option::None => match cpuinfo {
                        Option::Some(t) => max_cpuid(t),
                        Option::None => {
                            let d: Vec<u8> = vec![48u8, 120u8, 48u8, 48u8];
                            proof {
                                assert(d@ =~= default_part());
                            }
                            d
                        },
                    },
                };
                proof {
                    if part_override is Some {
                        assert(part@ =~= view_opt_bytes(part_override).unwrap());
                    }
                }
                let p53: Vec<u8> = vec![48u8, 120u8, 100u8, 48u8, 51u8];
                let p55: Vec<u8> = vec![48u8, 120u8, 100u8, 48u8, 53u8];
                let p72: Vec<u8> = vec![48u8, 120u8, 100u8, 48u8, 56u8];
                let p73: Vec<u8> = vec![48u8, 120u8, 100u8, 48u8, 57u8];
                let p75: Vec<u8> = vec![48u8, 120u8, 100u8, 48u8, 97u8];
                proof {
                    assert(p53@ =~= part_a53());
                    assert(p55@ =~= part_a55());
                    assert(p72@ =~= part_a72());
                    assert(p73@ =~= part_a73());
                    assert(p75@ =~= part_a75());
                }
                if bytes_eq(&part, &p53) {
                    Kind::CortexA53
                } else if bytes_eq(&part, &p55) {
                    Kind::CortexA55
                } else if bytes_eq(&part, &p72) {
                    Kind::CortexA72
                } else if bytes_eq(&part, &p73) {
                    Kind::CortexA73
                } else if bytes_eq(&part, &p75) {
                    Kind::CortexA75
                } else {
                    Kind::Generic
                }
            },
        }
    }
}

/// A forced kind whose lower-cased text holds the fragment "a53" resolves to
/// the Cortex-A53 profile, whatever the other inputs say.
pub proof fn lemma_forced_a53_wins(
    kind: Seq<u8>,
    part_override: Option<Seq<u8>>,
    cpuinfo: Option<Seq<u8>>,
)
    requires
        contains_seq(lower_seq(kind), frag_a53()),
    ensures
        spec_choose(Option::Some(kind), part_override, cpuinfo) == Kind::CortexA53,
{
}

/// With no override and no readable host metadata, detection resolves to the
/// generic profile.
pub proof fn lemma_unreadable_is_generic()
    ensures
        spec_choose(Option::None, Option::None, Option::None) == Kind::Generic,
{
    assert(default_part()[2] != part_a53()[2]);
    assert(default_part()[2] != part_a55()[2]);
    assert(default_part()[2] != part_a72()[2]);
    assert(default_part()[2] != part_a73()[2]);
    assert(default_part()[2] != part_a75()[2]);
}

} // verus!



