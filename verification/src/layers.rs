//! The layer-filter algebra: a comma-separated expression of stride ranges
//! that decides which layers of an object contribute points to its hull.

use vstd::prelude::*;

verus! {

use vstd::string::StringSliceAdditionalSpecFns;
use crate::text::{
    COMMA, DASH, SLASH, STAR, all_digits, dec_of, digits_val, find_idx, is_digit, lemma_find_idx, parse_usize_spec,
    parse_usize, split_byte, split_byte_spec, subv, eq_str, find_byte,
};

/// Why one term of a filter expression was rejected; each variant carries
/// the offending text.
#[derive(Debug)]
pub enum FilterParserError {
    StartValue(Vec<u8>),
    StopValue(Vec<u8>),
    StepSize(Vec<u8>),
}

/// One stride range of layer indices: `start ≤ v ≤ stop` with
/// `(v − start)` a multiple of `step`.
pub struct LayerRange {
    pub start: usize,
    pub stop: usize,
    pub step: usize,
}

/// The union of the ranges parsed from a filter expression.
pub struct LayerFilter {
    pub ranges: Vec<LayerRange>,
}

/// What parsing one comma-separated term yields.
pub enum TermSpec {
    Range { start: int, stop: int, step: int },
    BadStart(Seq<u8>),
    BadStop(Seq<u8>),
    BadStep(Seq<u8>),
}

/// The `a-b` part of a term: an explicit dash overrides the defaults that
/// the `*` prefix (or its absence) chose.
pub open spec fn parse_bounds(body: Seq<u8>, d_start: int, d_stop: int, step: int) -> TermSpec {
    let i = find_idx(body, DASH);
    if 0 <= i < body.len() {
        let left = body.subrange(0, i);
        let right = body.subrange(i + 1, body.len() as int);
        let start_v = if left.len() == 0 {
            Some(0int)
        } else {
            parse_usize_spec(left)
        };
        match start_v {
            Option::None => TermSpec::BadStart(left),
            Option::Some(a) => if right.len() == 0 {
                TermSpec::Range { start: a, stop: usize::MAX as int, step }
            } else {
                match parse_usize_spec(right) {
                    Option::None => TermSpec::BadStop(right),
                    Option::Some(b) => TermSpec::Range { start: a, stop: b, step },
                }
            },
        }
    } else {
        TermSpec::Range { start: d_start, stop: d_stop, step }
    }
}

/// One term of the grammar: a bare layer number, `*`, an optional `*`
/// prefix, an optional `/step` suffix, and an optional `a-b` range, in
/// that order of precedence.
pub open spec fn parse_term(t: Seq<u8>) -> TermSpec {
    match parse_usize_spec(t) {
        Option::Some(n) => TermSpec::Range { start: n, stop: n, step: 1 },
        Option::None => if t == "*".spec_bytes() {
            TermSpec::Range { start: 0, stop: usize::MAX as int, step: 1 }
        } else {
            let d_stop: int = if t.len() > 0 && t[0] == STAR {
                usize::MAX as int
            } else {
                1
            };
            let i = find_idx(t, SLASH);
            if 0 <= i < t.len() {
                let step_text = t.subrange(i + 1, t.len() as int);
                match parse_usize_spec(step_text) {
                    Option::None => TermSpec::BadStep(step_text),
                    Option::Some(st) => parse_bounds(t.subrange(0, i), 0, d_stop, st),
                }
            } else {
                parse_bounds(t, 0, d_stop, 1)
            }
        },
    }
}

/// Index of the first term that fails to parse, or the number of terms.
pub open spec fn first_bad_term(terms: Seq<Seq<u8>>) -> int
    decreases terms.len(),
{
    if terms.len() == 0 {
        0
    } else if !(parse_term(terms[0]) is Range) {
        0
    } else {
        1 + first_bad_term(terms.subrange(1, terms.len() as int))
    }
}

pub proof fn lemma_first_bad_term(terms: Seq<Seq<u8>>)
    ensures
        0 <= first_bad_term(terms) <= terms.len(),
        forall|k: int| 0 <= k < first_bad_term(terms) ==> parse_term(terms[k]) is Range,
        first_bad_term(terms) < terms.len() ==> !(parse_term(terms[first_bad_term(terms)])
            is Range),
    decreases terms.len(),
{
    if terms.len() == 0 || !(parse_term(terms[0]) is Range) {
    } else {
        let rest = terms.subrange(1, terms.len() as int);
        lemma_first_bad_term(rest);
        assert forall|k: int| 0 <= k < first_bad_term(terms) implies parse_term(terms[k])
            is Range by {
            if k > 0 {
                assert(parse_term(rest[k - 1]) is Range);
            }
        }
        if first_bad_term(terms) < terms.len() {
            assert(terms[first_bad_term(terms)] == rest[first_bad_term(terms) - 1]);
        }
    }
}

impl LayerRange {
    /// The range is meaningful only with a positive stride.
    pub open spec fn wf(&self) -> bool {
        self.step >= 1
    }

    pub open spec fn spec_contains(&self, value: int) -> bool {
        self.start <= value <= self.stop && (value - self.start) % (self.step as int) == 0
    }

    /// Whether `value` lies in the range and on its stride.
    pub fn contains(&self, value: usize) -> (r: bool)
        requires
            self.wf(),
        ensures
            r == self.spec_contains(value as int),
    {
        (self.start <= value && value <= self.stop) && ((value - self.start) % self.step == 0)
    }
}

impl Default for LayerRange {
    /// The unrestricted range: every layer, stride one.
    fn default() -> (r: Self)
        ensures
            r.start == 0 && r.stop == usize::MAX && r.step == 1,
    {
        Self { start: 0, stop: usize::MAX, step: 1 }
    }
}

impl LayerFilter {
    pub open spec fn wf(&self) -> bool {
        forall|i: int| 0 <= i < self.ranges@.len() ==> (#[trigger] self.ranges@[i]).wf()
    }

    pub open spec fn spec_contains(&self, value: int) -> bool {
        exists|i: int| 0 <= i < self.ranges@.len() && (#[trigger] self.ranges@[i]).spec_contains(
            value,
        )
    }

    /// Whether any of the filter's ranges contains `value`: the filter is
    /// the union of its comma-separated terms.
    pub fn contains(&self, value: usize) -> (r: bool)
        requires
            self.wf(),
        ensures
            r == self.spec_contains(value as int),
    {
        let mut i: usize = 0;
        while i < self.ranges.len()
            invariant
                i <= self.ranges@.len(),
                forall|k: int| 0 <= k < i ==> !(#[trigger] self.ranges@[k]).spec_contains(
                    value as int,
                ),
            decreases self.ranges@.len() - i,
        {
            if self.ranges[i].contains(value) {
                return true;
            }
            i = i + 1;
        }
        false
    }

    /// Whether every range of the filter has a positive stride; a filter
    /// that fails this cannot be queried.
    pub fn valid(&self) -> (r: bool)
        ensures
            r == self.wf(),
    {
        let mut i: usize = 0;
        while i < self.ranges.len()
            invariant
                i <= self.ranges@.len(),
                forall|k: int| 0 <= k < i ==> (#[trigger] self.ranges@[k]).wf(),
            decreases self.ranges@.len() - i,
        {
            if self.ranges[i].step < 1 {
                return false;
            }
            i = i + 1;
        }
        true
    }

    /// Parse one comma-separated term.
    pub fn parse_filter_string(filters: &Vec<u8>) -> (r: Result<LayerRange, FilterParserError>)
        ensures
            match r {
                Result::Ok(range) => parse_term(filters@) == (TermSpec::Range {
                    start: range.start as int,
                    stop: range.stop as int,
                    step: range.step as int,
                }),
                Result::Err(e) => match e {
                    FilterParserError::StartValue(s) => parse_term(filters@) == TermSpec::BadStart(
                        s@,
                    ),
                    FilterParserError::StopValue(s) => parse_term(filters@) == TermSpec::BadStop(
                        s@,
                    ),
                    FilterParserError::StepSize(s) => parse_term(filters@) == TermSpec::BadStep(
                        s@,
                    ),
                },
            },
    {
        if let Option::Some(layer) = parse_usize(filters) {
            return Result::Ok(LayerRange { start: layer, stop: layer, step: 1 });
        }
        if eq_str(filters, "*") {
            return Result::Ok(LayerRange { start: 0, stop: usize::MAX, step: 1 });
        }
        let d_stop: usize = if filters.len() > 0 && filters[0] == STAR {
            usize::MAX
        } else {
            1
        };
        let slash = find_byte(filters, SLASH);
        proof {
            lemma_find_idx(filters@, SLASH);
        }
        let mut step: usize = 1;
        let body: Vec<u8>;
        if slash < filters.len() {
            let step_text = subv(filters, slash + 1, filters.len());
            match parse_usize(&step_text) {
                Option::None => {
                    return Result::Err(FilterParserError::StepSize(step_text));
                },
                Option::Some(st) => {
                    step = st;
                },
            }
            body = subv(filters, 0, slash);
        } else {
            body = subv(filters, 0, filters.len());
            assert(body@ =~= filters@);
        }
        let dash = find_byte(&body, DASH);
        proof {
            lemma_find_idx(body@, DASH);
        }
        if dash < body.len() {
            let left = subv(&body, 0, dash);
            let right = subv(&body, dash + 1, body.len());
            let start: usize;
            if left.len() == 0 {
                start = 0;
            } else {
                match parse_usize(&left) {
                    Option::None => {
                        return Result::Err(FilterParserError::StartValue(left));
                    },
                    Option::Some(a) => {
                        start = a;
                    },
                }
            }
            if right.len() == 0 {
                Result::Ok(LayerRange { start, stop: usize::MAX, step })
            } else {
                match parse_usize(&right) {
                    Option::None => Result::Err(FilterParserError::StopValue(right)),
                    Option::Some(b) => Result::Ok(LayerRange { start, stop: b, step }),
                }
            }
        } else {
            Result::Ok(LayerRange { start: 0, stop: d_stop, step })
        }
    }

    /// Parse a whole filter expression; the first bad term fails the whole
    /// parse, with its own error.
    pub fn try_from(value: &Vec<u8>) -> (r: Result<LayerFilter, FilterParserError>)
        ensures
            ({
                let terms = split_byte_spec(value@, COMMA);
                match r {
                    Result::Ok(f) => {
                        &&& first_bad_term(terms) == terms.len()
                        &&& f.ranges@.len() == terms.len()
                        &&& forall|i: int|
                            0 <= i < terms.len() ==> #[trigger] parse_term(terms[i])
                                == (TermSpec::Range {
                                start: f.ranges@[i].start as int,
                                stop: f.ranges@[i].stop as int,
                                step: f.ranges@[i].step as int,
                            })
                    },
                    Result::Err(e) => {
                        &&& first_bad_term(terms) < terms.len()
                        &&& match e {
                            FilterParserError::StartValue(s) => parse_term(
                                terms[first_bad_term(terms)],
                            ) == TermSpec::BadStart(s@),
                            FilterParserError::StopValue(s) => parse_term(
                                terms[first_bad_term(terms)],
                            ) == TermSpec::BadStop(s@),
                            FilterParserError::StepSize(s) => parse_term(
                                terms[first_bad_term(terms)],
                            ) == TermSpec::BadStep(s@),
                        }
                    },
                }
            }),
    {
        let terms = split_byte(value, COMMA);
        let ghost terms_v = split_byte_spec(value@, COMMA);
        proof {
            lemma_first_bad_term(terms_v);
        }
        let mut ranges: Vec<LayerRange> = Vec::new();
        let mut i: usize = 0;
        while i < terms.len()
            invariant
                i <= terms@.len(),
                terms.deep_view() == terms_v,
                ranges@.len() == i,
                forall|k: int|
                    0 <= k < i ==> #[trigger] parse_term(terms_v[k]) == (TermSpec::Range {
                        start: ranges@[k].start as int,
                        stop: ranges@[k].stop as int,
                        step: ranges@[k].step as int,
                    }),
            decreases terms@.len() - i,
        {
            assert(terms@[i as int]@ == terms_v[i as int]);
            match Self::parse_filter_string(&terms[i]) {
                Result::Ok(range) => {
                    ranges.push(range);
                },
                Result::Err(e) => {
                    proof {
                        assert(!(parse_term(terms_v[i as int]) is Range));
                        assert(i == first_bad_term(terms_v)) by {
                            if i < first_bad_term(terms_v) {
                                assert(parse_term(terms_v[i as int]) is Range);
                            }
                            if i > first_bad_term(terms_v) {
                                assert(parse_term(terms_v[first_bad_term(terms_v)]) is Range);
                            }
                        }
                    }
                    return Result::Err(e);
                },
            }
            i = i + 1;
        }
        proof {
            assert(first_bad_term(terms_v) == terms_v.len()) by {
                if first_bad_term(terms_v) < terms_v.len() {
                    assert(parse_term(terms_v[first_bad_term(terms_v)]) is Range);
                }
            }
        }
        Result::Ok(LayerFilter { ranges })
    }
}

/// Whether a parsed term admits the layer `v`.
pub open spec fn term_admits(t: TermSpec, v: int) -> bool {
    match t {
        TermSpec::Range { start, stop, step } => start <= v <= stop && (v - start) % step == 0,
        _ => false,
    }
}

pub proof fn lemma_dec_digits(n: int)
    requires
        n >= 0,
    ensures
        all_digits(dec_of(n)),
        digits_val(dec_of(n)) == n,
        dec_of(n).len() >= 1,
        is_digit(dec_of(n)[0]),
    decreases n,
{
    if n < 10 {
        let d = dec_of(n);
        assert(d.len() == 1);
        assert(d.last() == (48 + n) as u8);
        assert(d.drop_last() =~= Seq::<u8>::empty());
        assert(digits_val(d.drop_last()) == 0);
        assert(digits_val(d) == digits_val(d.drop_last()) * 10 + (d.last() - 48));
        assert(digits_val(d) == n);
    } else {
        lemma_dec_digits(n / 10);
        let d = dec_of(n);
        assert(d.drop_last() =~= dec_of(n / 10));
        assert(d.last() == (48 + n % 10) as u8);
        assert(digits_val(d) == (n / 10) * 10 + n % 10);
        vstd::arithmetic::div_mod::lemma_fundamental_div_mod(n, 10);
        assert(forall|k: int| 0 <= k < d.len() - 1 ==> d[k] == dec_of(n / 10)[k]);
        assert(d[0] == dec_of(n / 10)[0]);
    }
}

/// The decimal rendering of an unsigned number parses back to it.
pub proof fn lemma_dec_roundtrip(n: usize)
    ensures
        parse_usize_spec(dec_of(n as int)) == Some(n as int),
{
    lemma_dec_digits(n as int);
    let d = dec_of(n as int);
    assert(is_digit(d[0]));
    assert(d[0] != crate::text::PLUS);
}

/// A stride term: the text `a-b/s` parses to the range `[a, b]` with
/// stride `s`, and such a range contains a layer `v` exactly when
/// `a <= v <= b` and `(v - a)` is a multiple of `s`.
pub proof fn lemma_stride_term(a: usize, b: usize, s: usize, v: usize)
    ensures
        ({
            let term = dec_of(a as int) + seq![DASH] + dec_of(b as int) + seq![SLASH] + dec_of(
                s as int,
            );
            &&& parse_term(term) == (TermSpec::Range {
                start: a as int,
                stop: b as int,
                step: s as int,
            })
            &&& ((LayerRange { start: a, stop: b, step: s }).spec_contains(v as int) <==> a <= v
                <= b && (v - a) % (s as int) == 0)
        }),
{
    lemma_dec_digits(a as int);
    lemma_dec_digits(b as int);
    lemma_dec_digits(s as int);
    let da = dec_of(a as int);
    let db = dec_of(b as int);
    let ds = dec_of(s as int);
    let la = da.len() as int;
    let lb = db.len() as int;
    let term = da + seq![DASH] + db + seq![SLASH] + ds;
    // The bare-number fast path fails: the dash is not a digit.
    assert(term[0] == da[0]);
    assert(term[0] != crate::text::PLUS);
    assert(term[la] == DASH);
    assert(!is_digit(DASH));
    assert(!all_digits(term));
    assert(parse_usize_spec(term) is None);
    // The term is longer than the one-byte `*`.
    proof_star_bytes();
    assert(term.len() >= 5);
    assert(term != "*".spec_bytes());
    // The star prefix is absent.
    assert(term[0] != STAR);
    // The first slash separates the step.
    assert forall|k: int| 0 <= k < la + 1 + lb implies term[k] != SLASH by {
        if k < la {
            assert(term[k] == da[k]);
            assert(is_digit(da[k]));
        } else if k == la {
            assert(term[k] == DASH);
        } else {
            assert(term[k] == db[k - la - 1]);
            assert(is_digit(db[k - la - 1]));
        }
    }
    assert(term[la + 1 + lb] == SLASH);
    crate::text::lemma_find_idx_is(term, SLASH, la + 1 + lb);
    let step_text = term.subrange(la + 1 + lb + 1, term.len() as int);
    assert(step_text =~= ds);
    lemma_dec_roundtrip(s);
    let body = term.subrange(0, la + 1 + lb);
    // The first dash separates the bounds.
    assert forall|k: int| 0 <= k < la implies body[k] != DASH by {
        assert(body[k] == da[k]);
        assert(is_digit(da[k]));
    }
    assert(body[la] == DASH);
    crate::text::lemma_find_idx_is(body, DASH, la);
    assert(body.subrange(0, la) =~= da);
    assert(body.subrange(la + 1, body.len() as int) =~= db);
    lemma_dec_roundtrip(a);
    lemma_dec_roundtrip(b);
    assert(parse_bounds(body, 0, 1, s as int) == (TermSpec::Range {
        start: a as int,
        stop: b as int,
        step: s as int,
    }));
}

/// The bytes of the `*` literal: one byte, the asterisk.
proof fn proof_star_bytes()
    ensures
        "*".spec_bytes().len() == 1,
{
    reveal_strlit("*");
    assert(vstd::utf8::is_ascii_chars("*"@));
    vstd::utf8::is_ascii_chars_encode_utf8("*"@);
}

/// A parsed filter is the union of its comma-separated terms: it contains
/// a layer exactly when at least one term admits it. The premises are
/// what `LayerFilter::try_from` guarantees of a filter it returns.
pub proof fn lemma_filter_union(f: LayerFilter, expr: Seq<u8>, v: usize)
    requires
        ({
            let terms = split_byte_spec(expr, COMMA);
            &&& f.ranges@.len() == terms.len()
            &&& forall|i: int|
                0 <= i < terms.len() ==> #[trigger] parse_term(terms[i]) == (TermSpec::Range {
                    start: f.ranges@[i].start as int,
                    stop: f.ranges@[i].stop as int,
                    step: f.ranges@[i].step as int,
                })
        }),
    ensures
        f.spec_contains(v as int) <==> exists|i: int|
            0 <= i < split_byte_spec(expr, COMMA).len() && term_admits(
                #[trigger] parse_term(split_byte_spec(expr, COMMA)[i]),
                v as int,
            ),
{
    let terms = split_byte_spec(expr, COMMA);
    if f.spec_contains(v as int) {
        let i = choose|i: int|
            0 <= i < f.ranges@.len() && (#[trigger] f.ranges@[i]).spec_contains(v as int);
        assert(term_admits(parse_term(terms[i]), v as int));
    }
    if exists|i: int|
        0 <= i < terms.len() && term_admits(#[trigger] parse_term(terms[i]), v as int) {
        let i = choose|i: int|
            0 <= i < terms.len() && term_admits(#[trigger] parse_term(terms[i]), v as int);
        assert(f.ranges@[i].spec_contains(v as int));
        assert(f.spec_contains(v as int));
    }
}

} // verus!
