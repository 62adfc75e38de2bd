//! Re-serializes a parsed capture back into the text grammar, in one
//! canonical spelling: canonical key names, single spaces, one trailing
//! newline per line.
//!
//! The writer is proved inverse to the parser, layer by layer — decimal
//! literals, config line, reference line, sample blocks, clusters — up to
//! [`lemma_write_roundtrip`]: parsing the canonical text of a well-formed
//! capture yields the capture back, value for value.

use vstd::assert_by_contradiction;
use vstd::prelude::*;
use vstd::string::StrSliceExecFns;

use crate::parsing_error::{ErrV, NumberError, PErrV};
use crate::raw_parsing::{spec_block, spec_parse_sample, spec_sample_line, spec_sample_tokens};
use crate::raw::{AccelSR, Bits, Clock, Config, File, FileV, GyroSR};
use crate::scan::{
    all_digits, digit_val, digits_val, is_digit, is_space, skip_spaces, spec_parse_i32,
    spec_parse_u32, spec_tokens, token_end, LineSpan,
};

verus! {

/// The decimal digit character of a value in `[0, 9]`.
pub open spec fn digit_char(d: int) -> char {
    if d == 0 {
        '0'
    } else if d == 1 {
        '1'
    } else if d == 2 {
        '2'
    } else if d == 3 {
        '3'
    } else if d == 4 {
        '4'
    } else if d == 5 {
        '5'
    } else if d == 6 {
        '6'
    } else if d == 7 {
        '7'
    } else if d == 8 {
        '8'
    } else {
        '9'
    }
}

/// The decimal spelling of a non-negative value.
pub open spec fn spec_digits(n: int) -> Seq<char>
    decreases n,
{
    if n < 10 {
        seq![digit_char(n)]
    } else {
        spec_digits(n / 10) + seq![digit_char(n % 10)]
    }
}

/// The decimal spelling of an unsigned value.
pub open spec fn spec_write_u32(v: u32) -> Seq<char> {
    spec_digits(v as int)
}

/// The decimal spelling of a signed value, with a leading minus where needed.
pub open spec fn spec_write_i32(v: i32) -> Seq<char> {
    if v < 0 {
        seq!['-'] + spec_digits(-(v as int))
    } else {
        spec_digits(v as int)
    }
}

/// Every digit string the writer produces is made of digits and spells its
/// value back.
pub proof fn lemma_digits_roundtrip(n: int)
    requires
        0 <= n,
    ensures
        spec_digits(n).len() >= 1,
        all_digits(spec_digits(n)),
        digits_val(spec_digits(n)) == n,
    decreases n,
{
    if n < 10 {
        let s = spec_digits(n);
        assert(s == seq![digit_char(n)]);
        assert(is_digit(digit_char(n)));
        assert(digit_val(digit_char(n)) == n);
        assert(s.len() == 1);
        assert(s.last() == digit_char(n));
        assert(s.drop_last() =~= Seq::<char>::empty());
        assert(digits_val(Seq::<char>::empty()) == 0);
        assert(digits_val(s) == digits_val(s.drop_last()) * 10 + digit_val(s.last()));
        assert(digits_val(s) == n);
    } else {
        lemma_digits_roundtrip(n / 10);
        let a = spec_digits(n / 10);
        let s = spec_digits(n);
        assert(s == a + seq![digit_char(n % 10)]);
        assert(s.drop_last() =~= a);
        assert(s.last() == digit_char(n % 10));
        assert(is_digit(digit_char(n % 10)));
        assert(digit_val(digit_char(n % 10)) == n % 10);
        assert(digits_val(s) == digits_val(a) * 10 + (n % 10));
        assert(digits_val(a) == n / 10);
        assert((n / 10) * 10 + (n % 10) == n) by (nonlinear_arith)
            requires
                0 <= n,
        ;
        assert forall|i: int| 0 <= i < s.len() implies is_digit(#[trigger] s[i]) by {
            if i < a.len() {
                assert(s[i] == a[i]);
            } else {
                assert(s[i] == digit_char(n % 10));
            }
        }
    }
}

/// Reading back an unsigned decimal the writer produced yields the value.
pub proof fn lemma_u32_roundtrip(v: u32)
    ensures
        spec_parse_u32(spec_write_u32(v)) == Ok::<u32, NumberError>(v),
{
    lemma_digits_roundtrip(v as int);
    let s = spec_write_u32(v);
    assert(is_digit(s[0]));
    assert(s[0] != '+');
}

/// Reading back a signed decimal the writer produced yields the value.
pub proof fn lemma_i32_roundtrip(v: i32)
    ensures
        spec_parse_i32(spec_write_i32(v)) == Ok::<i32, NumberError>(v),
{
    let s = spec_write_i32(v);
    if v < 0 {
        lemma_digits_roundtrip(-(v as int));
        let ds = spec_digits(-(v as int));
        assert(s == seq!['-'] + ds);
        assert(s[0] == '-');
        assert(s.skip(1) =~= ds);
        assert(digits_val(ds) == -(v as int));
        assert(-(v as int) <= 0x8000_0000);
    } else {
        lemma_digits_roundtrip(v as int);
        assert(is_digit(s[0]));
        assert(s[0] != '-' && s[0] != '+');
    }
}

/// The canonical spelling of each config value.
pub open spec fn spec_bits_str(b: Bits) -> Seq<char> {
    match b {
        Bits::_8 => "8"@,
        Bits::_16 => "16"@,
        Bits::_32 => "32"@,
    }
}

pub open spec fn spec_clock_str(c: Clock) -> Seq<char> {
    match c {
        Clock::Milli => "milli"@,
        Clock::Micro => "micro"@,
    }
}

pub open spec fn spec_accel_str(a: AccelSR) -> Seq<char> {
    match a {
        AccelSR::_2 => "2"@,
        AccelSR::_4 => "4"@,
        AccelSR::_8 => "8"@,
        AccelSR::_16 => "16"@,
    }
}

pub open spec fn spec_gyro_str(g: GyroSR) -> Seq<char> {
    match g {
        GyroSR::_250 => "250"@,
        GyroSR::_500 => "500"@,
        GyroSR::_1000 => "1000"@,
        GyroSR::_2000 => "2000"@,
    }
}

/// Case-insensitive matching is reflexive.
pub proof fn lemma_ci_refl(s: Seq<char>)
    ensures
        crate::raw::matches_ci(s, s),
{
    assert forall|i: int| 0 <= i < s.len() implies crate::raw::char_matches_ci(
        #[trigger] s[i],
        s[i],
    ) by {}
}

/// Reading a written config value back yields the value, for each of the
/// four keys.
pub proof fn lemma_config_values_roundtrip(cfg: Config)
    ensures
        Bits::spec_from_str(spec_bits_str(cfg.bits)) == Some(cfg.bits),
        Clock::spec_from_str(spec_clock_str(cfg.clock)) == Some(cfg.clock),
        AccelSR::spec_from_str(spec_accel_str(cfg.accel_sr)) == Some(cfg.accel_sr),
        GyroSR::spec_from_str(spec_gyro_str(cfg.gyro_sr)) == Some(cfg.gyro_sr),
{
    reveal_strlit("8");
    reveal_strlit("16");
    reveal_strlit("32");
    reveal_strlit("milli");
    reveal_strlit("micro");
    reveal_strlit("2");
    reveal_strlit("4");
    reveal_strlit("250");
    reveal_strlit("500");
    reveal_strlit("1000");
    reveal_strlit("2000");
    assert("2"@[0] == '2' && "4"@[0] == '4' && "8"@[0] == '8');
    assert("16"@[0] == '1' && "32"@[0] == '3');
    assert("250"@[0] == '2' && "500"@[0] == '5' && "1000"@[0] == '1' && "2000"@[0] == '2');
    assert("250"@.len() == 3 && "500"@.len() == 3 && "1000"@.len() == 4 && "2000"@.len() == 4);
    assert("500"@ != "250"@) by {
        assert("500"@[0] != "250"@[0]);
    }
    assert("1000"@ != "250"@);
    assert("1000"@ != "500"@);
    assert("2000"@ != "250"@);
    assert("2000"@ != "500"@);
    assert("2000"@ != "1000"@) by {
        assert("2000"@[0] != "1000"@[0]);
    }
    lemma_ci_refl("milli"@);
    lemma_ci_refl("micro"@);
    if cfg.clock == Clock::Micro {
        assert("micro"@[2] == 'c' && "milli"@[2] == 'l');
        assert(!crate::raw::char_matches_ci("micro"@[2], "milli"@[2]));
        assert(!crate::raw::matches_ci("micro"@, "milli"@));
    }
}

/// The canonical config line of a configuration.
pub open spec fn spec_write_config(cfg: Config) -> Seq<char> {
    "?[ BITS="@ + spec_bits_str(cfg.bits) + " CLOCK="@ + spec_clock_str(cfg.clock) + " ACCEL_SR="@
        + spec_accel_str(cfg.accel_sr) + " GYRO_SR="@ + spec_gyro_str(cfg.gyro_sr) + " ]"@
}

/// The canonical reference line of a sensor list.
pub open spec fn spec_write_sensors(names: Seq<Seq<char>>, j: int) -> Seq<char>
    decreases names.len() - j,
    when 0 <= j <= names.len()
{
    if j >= names.len() {
        Seq::<char>::empty()
    } else {
        seq![' '] + names[j] + spec_write_sensors(names, j + 1)
    }
}

/// The canonical sample block of one sample.
pub open spec fn spec_write_sample(smp: Seq<i32>, k: int) -> Seq<char>
    decreases smp.len() - k,
    when 0 <= k <= smp.len()
{
    if k >= smp.len() {
        " ]"@
    } else {
        seq![' '] + spec_write_i32(smp[k]) + spec_write_sample(smp, k + 1)
    }
}

/// The canonical text of the clusters from `i` on.
pub open spec fn spec_write_clusters(f: FileV, i: int) -> Seq<char>
    decreases f.clusters.len() - i,
    when 0 <= i <= f.clusters.len()
{
    if i >= f.clusters.len() {
        Seq::<char>::empty()
    } else {
        let cl = f.clusters[i];
        spec_write_u32(cl.delta) + seq!['\n'] + spec_write_samples(cl.samples, 0)
            + spec_write_clusters(f, i + 1)
    }
}

/// The canonical text of the sample blocks of one cluster.
pub open spec fn spec_write_samples(samples: Seq<Seq<i32>>, j: int) -> Seq<char>
    decreases samples.len() - j,
    when 0 <= j <= samples.len()
{
    if j >= samples.len() {
        Seq::<char>::empty()
    } else {
        "["@ + spec_write_sample(samples[j], 0) + seq!['\n'] + spec_write_samples(samples, j + 1)
    }
}

/// The canonical text of a whole parsed capture.
pub open spec fn spec_write(f: FileV) -> Seq<char> {
    spec_write_config(f.config) + seq!['\n'] + "&["@ + spec_write_sensors(f.sensors, 0) + " ]"@
        + seq!['\n'] + spec_write_clusters(f, 0)
}

/// No character of `s` is whitespace or a newline.
pub open spec fn plain_chars(s: Seq<char>) -> bool {
    forall|i: int| 0 <= i < s.len() ==> !is_space(#[trigger] s[i]) && s[i] != '\n'
}

/// A run of non-spaces bounded by a space or the end is one token.
proof fn lemma_token_end_det(s: Seq<char>, a: int, b: int, e: int)
    requires
        0 <= a <= b <= e <= s.len(),
        forall|j: int| a <= j < b ==> !is_space(#[trigger] s[j]),
        b == e || is_space(s[b]),
    ensures
        token_end(s, a, e) == b,
    decreases b - a,
{
    if a < b {
        lemma_token_end_det(s, a + 1, b, e);
    }
}

/// A range of spaces is skipped whole.
proof fn lemma_skip_spaces_all(s: Seq<char>, i: int, e: int)
    requires
        0 <= i <= e <= s.len(),
        forall|j: int| i <= j < e ==> is_space(#[trigger] s[j]),
    ensures
        skip_spaces(s, i, e) == e,
    decreases e - i,
{
    if i < e {
        lemma_skip_spaces_all(s, i + 1, e);
    }
}

/// One space, then a non-space run of width `w`, then a space or the end:
/// exactly one token, then the rest.
proof fn lemma_token_step(s: Seq<char>, i: int, e: int, w: int)
    requires
        0 <= i < e <= s.len(),
        s[i] == ' ',
        1 <= w,
        i + 1 + w <= e,
        forall|j: int| i + 1 <= j < i + 1 + w ==> !is_space(#[trigger] s[j]),
        i + 1 + w == e || is_space(s[i + 1 + w]),
    ensures
        spec_tokens(s, i, e) == seq![(i + 1, i + 1 + w)] + spec_tokens(s, i + 1 + w, e),
{
    assert(is_space(s[i]));
    assert(!is_space(s[i + 1]));
    assert(skip_spaces(s, i + 1, e) == i + 1);
    assert(skip_spaces(s, i, e) == i + 1);
    lemma_token_end_det(s, i + 1, i + 1 + w, e);
    assert(token_end(s, i + 1, e) == i + 1 + w);
}

/// The spelling of a signed value has no whitespace in it.
proof fn lemma_digits_plain(n: int)
    requires
        0 <= n,
    ensures
        plain_chars(spec_digits(n)),
    decreases n,
{
    if n < 10 {
        assert(!is_space(digit_char(n)) && digit_char(n) != '\n');
    } else {
        lemma_digits_plain(n / 10);
        let a = spec_digits(n / 10);
        let s = spec_digits(n);
        assert(!is_space(digit_char(n % 10)) && digit_char(n % 10) != '\n');
        assert forall|i: int| 0 <= i < s.len() implies !is_space(#[trigger] s[i]) && s[i]
            != '\n' by {
            if i < a.len() {
                assert(s[i] == a[i]);
            } else {
                assert(s[i] == digit_char(n % 10));
            }
        }
    }
}

proof fn lemma_write_i32_plain(v: i32)
    ensures
        plain_chars(spec_write_i32(v)),
        spec_write_i32(v).len() >= 1,
{
    let s = spec_write_i32(v);
    if v < 0 {
        lemma_digits_plain(-(v as int));
        let ds = spec_digits(-(v as int));
        assert(!is_space('-') && '-' != '\n');
        assert forall|i: int| 0 <= i < s.len() implies !is_space(#[trigger] s[i]) && s[i]
            != '\n' by {
            if i == 0 {
                assert(s[0] == '-');
            } else {
                assert(s[i] == ds[i - 1]);
            }
        }
    } else {
        lemma_digits_plain(v as int);
    }
}

/// The written sample text always ends in a space and a closing bracket.
proof fn lemma_write_sample_shape(smp: Seq<i32>, k: int)
    requires
        0 <= k <= smp.len(),
    ensures
        spec_write_sample(smp, k).len() >= 2,
        spec_write_sample(smp, k)[0] == ' ',
        spec_write_sample(smp, k).last() == ']',
    decreases smp.len() - k,
{
    reveal_strlit(" ]");
    if k < smp.len() {
        lemma_write_sample_shape(smp, k + 1);
        let tail = spec_write_sample(smp, k + 1);
        let s = spec_write_sample(smp, k);
        assert(s == seq![' '] + spec_write_i32(smp[k]) + tail);
        assert(s.last() == tail.last());
    }
}

/// The tokens of the inner text of a written sample block are exactly its
/// six spelled integers.
proof fn lemma_sample_text_tokens(s: Seq<char>, smp: Seq<i32>, q: int, i: int, e: int)
    requires
        0 <= q <= smp.len(),
        0 <= i <= e <= s.len(),
        s.subrange(i, e) == spec_write_sample(smp, q).drop_last(),
    ensures
        spec_tokens(s, i, e).len() == smp.len() - q,
        forall|x: int|
            0 <= x < smp.len() - q ==> {
                let t = #[trigger] spec_tokens(s, i, e)[x];
                &&& i <= t.0 < t.1 <= e
                &&& s.subrange(t.0, t.1) == spec_write_i32(smp[q + x])
            },
    decreases smp.len() - q,
{
    reveal_strlit(" ]");
    let full = spec_write_sample(smp, q);
    let w = full.drop_last();
    assert(e - i == w.len());
    if q >= smp.len() {
        assert(full == " ]"@);
        assert(w.len() == 1);
        assert(w[0] == ' ');
        assert(s[i] == w[0]);
        assert forall|j: int| i <= j < e implies is_space(#[trigger] s[j]) by {
            assert(s[j] == w[j - i]);
        }
        lemma_skip_spaces_all(s, i, e);
        assert(spec_tokens(s, i, e) =~= Seq::<(int, int)>::empty());
    } else {
        let num = spec_write_i32(smp[q]);
        let tail = spec_write_sample(smp, q + 1);
        lemma_write_i32_plain(smp[q]);
        lemma_write_sample_shape(smp, q + 1);
        assert(full == seq![' '] + num + tail);
        assert(w =~= seq![' '] + num + tail.drop_last());
        let b = i + 1 + num.len();
        // character classes along the written text
        assert(s[i] == w[0]);
        assert(s[i] == ' ');
        assert forall|j: int| i + 1 <= j < b implies !is_space(#[trigger] s[j]) by {
            assert(s[j] == w[j - i]);
            assert(w[j - i] == num[j - i - 1]);
        }
        assert(tail.drop_last().len() >= 1);
        assert(b < e);
        assert(s[b] == w[b - i]);
        assert(w[b - i] == tail.drop_last()[0]);
        assert(tail.drop_last()[0] == tail[0]);
        assert(s[b] == ' ');
        lemma_token_step(s, i, e, num.len() as int);
        assert forall|j: int| 0 <= j < num.len() implies s.subrange(i + 1, b)[j] == num[j] by {
            assert(s.subrange(i + 1, b)[j] == s[i + 1 + j]);
            assert(s.subrange(i, e)[j + 1] == s[i + 1 + j]);
            assert(w[j + 1] == num[j]);
        }
        assert(s.subrange(i + 1, b) =~= num);
        assert forall|j: int| 0 <= j < e - b implies s.subrange(b, e)[j] == tail.drop_last()[j] by {
            assert(s.subrange(b, e)[j] == s[b + j]);
            assert(s.subrange(i, e)[b - i + j] == s[b + j]);
            assert(w[b - i + j] == tail.drop_last()[j]);
        }
        assert(s.subrange(b, e) =~= tail.drop_last());
        lemma_sample_text_tokens(s, smp, q + 1, b, e);
        let rest = spec_tokens(s, b, e);
        assert(spec_tokens(s, i, e) == seq![(i + 1, b)] + rest);
        assert forall|x: int| 0 <= x < smp.len() - q implies {
            let t = #[trigger] spec_tokens(s, i, e)[x];
            &&& i <= t.0 < t.1 <= e
            &&& s.subrange(t.0, t.1) == spec_write_i32(smp[q + x])
        } by {
            if x == 0 {
                assert(spec_tokens(s, i, e)[0] == (i + 1, b));
            } else {
                assert(spec_tokens(s, i, e)[x] == rest[x - 1]);
            }
        }
    }
}

/// Reading six written integers back yields the sample.
proof fn lemma_sample_tokens_eval(s: Seq<char>, toks: Seq<(int, int)>, smp: Seq<i32>, k: int)
    requires
        smp.len() == 6,
        toks.len() == 6,
        0 <= k <= 6,
        forall|x: int|
            k <= x < 6 ==> {
                let t = #[trigger] toks[x];
                &&& 0 <= t.0 <= t.1 <= s.len()
                &&& s.subrange(t.0, t.1) == spec_write_i32(smp[x])
            },
    ensures
        spec_sample_tokens(s, toks, k, smp.take(k)) == Ok::<Seq<i32>, ErrV>(smp),
    decreases 6 - k,
{
    if k == 6 {
        assert(smp.take(6) =~= smp);
    } else {
        lemma_i32_roundtrip(smp[k]);
        assert(s.subrange(toks[k].0, toks[k].1) == spec_write_i32(smp[k]));
        assert(spec_parse_i32(s.subrange(toks[k].0, toks[k].1)) == Ok::<i32, NumberError>(smp[k]));
        lemma_sample_tokens_eval(s, toks, smp, k + 1);
        assert(smp.take(k).push(smp[k]) =~= smp.take(k + 1));
    }
}

/// Parsing a written sample block back yields the sample: the writer and the
/// sample-line parser are inverse.
pub proof fn lemma_sample_line_roundtrip(s: Seq<char>, smp: Seq<i32>, l: LineSpan)
    requires
        smp.len() == 6,
        0 <= l.start <= l.end <= s.len(),
        s.subrange(l.start, l.end) == "["@ + spec_write_sample(smp, 0),
    ensures
        spec_sample_line(s, l) == Ok::<Seq<i32>, PErrV>(smp),
{
    reveal_strlit("[");
    reveal_strlit("]");
    reveal_strlit(" ]");
    let content = s.subrange(l.start, l.end);
    let ws = spec_write_sample(smp, 0);
    lemma_write_sample_shape(smp, 0);
    assert(content.len() == 1 + ws.len());
    assert(l.end - l.start >= 3);
    assert(s.subrange(l.start, l.start + 1) =~= "["@);
    assert(content.last() == ws.last());
    assert(s.subrange(l.end - 1, l.end) =~= "]"@);
    assert(spec_block(s, l, "["@, "]"@) == Some((l.start + 1, l.end - 1)));
    assert forall|j: int|
        0 <= j < l.end - 1 - (l.start + 1) implies s.subrange(l.start + 1, l.end - 1)[j]
        == ws.drop_last()[j] by {
        assert(s.subrange(l.start + 1, l.end - 1)[j] == s[l.start + 1 + j]);
        assert(content[j + 1] == s[l.start + 1 + j]);
        assert(content[j + 1] == ws[j]);
    }
    assert(s.subrange(l.start + 1, l.end - 1) =~= ws.drop_last());
    lemma_sample_text_tokens(s, smp, 0, l.start + 1, l.end - 1);
    let toks = spec_tokens(s, l.start + 1, l.end - 1);
    assert(smp.take(0) =~= Seq::<i32>::empty());
    lemma_sample_tokens_eval(s, toks, smp, 0);
    assert(spec_parse_sample(s, l.start + 1, l.end - 1) == Ok::<Seq<i32>, ErrV>(smp));
}

/// Sensor names the writer can spell back: non-empty and free of whitespace.
pub open spec fn names_wf(names: Seq<Seq<char>>) -> bool {
    forall|j: int|
        0 <= j < names.len() ==> (#[trigger] names[j]).len() >= 1 && plain_chars(names[j])
}

/// Sensor names a parse can reproduce: also pairwise distinct.
pub open spec fn names_distinct(names: Seq<Seq<char>>) -> bool {
    forall|j1: int, j2: int|
        0 <= j1 < j2 < names.len() ==> #[trigger] names[j1] != #[trigger] names[j2]
}

/// The tokens of the written sensor list, followed by one space, are exactly
/// the names.
proof fn lemma_sensors_text_tokens(s: Seq<char>, names: Seq<Seq<char>>, q: int, i: int, e: int)
    requires
        names_wf(names),
        0 <= q <= names.len(),
        0 <= i <= e <= s.len(),
        s.subrange(i, e) == spec_write_sensors(names, q) + seq![' '],
    ensures
        spec_tokens(s, i, e).len() == names.len() - q,
        forall|x: int|
            0 <= x < names.len() - q ==> {
                let t = #[trigger] spec_tokens(s, i, e)[x];
                &&& i <= t.0 < t.1 <= e
                &&& s.subrange(t.0, t.1) == names[q + x]
            },
    decreases names.len() - q,
{
    let w = spec_write_sensors(names, q) + seq![' '];
    assert(e - i == w.len());
    if q >= names.len() {
        assert(w =~= seq![' ']);
        assert(s[i] == w[0]);
        assert forall|j: int| i <= j < e implies is_space(#[trigger] s[j]) by {
            assert(s[j] == w[j - i]);
        }
        lemma_skip_spaces_all(s, i, e);
        assert(spec_tokens(s, i, e) =~= Seq::<(int, int)>::empty());
    } else {
        let name = names[q];
        let tail = spec_write_sensors(names, q + 1) + seq![' '];
        assert(w =~= seq![' '] + name + tail);
        let b = i + 1 + name.len();
        assert(s[i] == w[0]);
        assert(s[i] == ' ');
        assert forall|j: int| i + 1 <= j < b implies !is_space(#[trigger] s[j]) by {
            assert(s[j] == w[j - i]);
            assert(w[j - i] == name[j - i - 1]);
        }
        assert(tail.len() >= 1);
        assert(b < e);
        assert(s[b] == w[b - i]);
        assert(w[b - i] == tail[0]);
        // whichever comes next, a further name or the closing space
        if q + 1 < names.len() {
            assert(tail[0] == ' ');
        } else {
            assert(spec_write_sensors(names, q + 1) =~= Seq::<char>::empty());
            assert(tail =~= seq![' ']);
        }
        assert(s[b] == ' ');
        lemma_token_step(s, i, e, name.len() as int);
        assert forall|j: int| 0 <= j < name.len() implies s.subrange(i + 1, b)[j] == name[j] by {
            assert(s.subrange(i + 1, b)[j] == s[i + 1 + j]);
            assert(s.subrange(i, e)[j + 1] == s[i + 1 + j]);
            assert(w[j + 1] == name[j]);
        }
        assert(s.subrange(i + 1, b) =~= name);
        assert forall|j: int| 0 <= j < e - b implies s.subrange(b, e)[j] == tail[j] by {
            assert(s.subrange(b, e)[j] == s[b + j]);
            assert(s.subrange(i, e)[b - i + j] == s[b + j]);
            assert(w[b - i + j] == tail[j]);
        }
        assert(s.subrange(b, e) =~= tail);
        lemma_sensors_text_tokens(s, names, q + 1, b, e);
        let rest = spec_tokens(s, b, e);
        assert(spec_tokens(s, i, e) == seq![(i + 1, b)] + rest);
        assert forall|x: int| 0 <= x < names.len() - q implies {
            let t = #[trigger] spec_tokens(s, i, e)[x];
            &&& i <= t.0 < t.1 <= e
            &&& s.subrange(t.0, t.1) == names[q + x]
        } by {
            if x == 0 {
                assert(spec_tokens(s, i, e)[0] == (i + 1, b));
            } else {
                assert(spec_tokens(s, i, e)[x] == rest[x - 1]);
            }
        }
    }
}

/// Reading the written names back yields the names: no duplicate is hit.
proof fn lemma_sensor_tokens_eval(
    s: Seq<char>,
    toks: Seq<(int, int)>,
    names: Seq<Seq<char>>,
    k: int,
)
    requires
        names_distinct(names),
        toks.len() == names.len(),
        0 <= k <= names.len(),
        forall|x: int|
            k <= x < names.len() ==> {
                let t = #[trigger] toks[x];
                &&& 0 <= t.0 <= t.1 <= s.len()
                &&& s.subrange(t.0, t.1) == names[x]
            },
    ensures
        crate::raw_parsing::spec_sensor_tokens(s, toks, k, names.take(k)) == Ok::<
            Seq<Seq<char>>,
            ErrV,
        >(names),
    decreases names.len() - k,
{
    if k == names.len() as int {
        assert(names.take(k) =~= names);
    } else {
        let got = names.take(k);
        assert(s.subrange(toks[k].0, toks[k].1) == names[k]);
        assert_by_contradiction!(!(exists|j: int| 0 <= j < got.len() && got[j] == names[k]), {
            let j = choose|j: int| 0 <= j < got.len() && got[j] == names[k];
            assert(names[j] == names[k]);
        });
        lemma_sensor_tokens_eval(s, toks, names, k + 1);
        assert(names.take(k).push(names[k]) =~= names.take(k + 1));
    }
}

/// Parsing a written reference line back yields the sensor names: the writer
/// and the reference-line parser are inverse for well-formed, distinct names.
pub proof fn lemma_reference_line_roundtrip(s: Seq<char>, names: Seq<Seq<char>>, l: LineSpan)
    requires
        names_wf(names),
        names_distinct(names),
        0 <= l.start <= l.end <= s.len(),
        s.subrange(l.start, l.end) == "&["@ + spec_write_sensors(names, 0) + " ]"@,
    ensures
        crate::raw_parsing::spec_reference_line(s, l) == Ok::<Seq<Seq<char>>, PErrV>(names),
{
    reveal_strlit("&[");
    reveal_strlit("]");
    reveal_strlit(" ]");
    let content = s.subrange(l.start, l.end);
    let sw = spec_write_sensors(names, 0);
    assert(content.len() == 2 + sw.len() + 2);
    assert(l.end - l.start >= 4);
    assert forall|j: int| 0 <= j < 2 implies s.subrange(l.start, l.start + 2)[j] == "&["@[j] by {
        assert(s.subrange(l.start, l.start + 2)[j] == content[j]);
    }
    assert(s.subrange(l.start, l.start + 2) =~= "&["@);
    assert(content.last() == "]"@[0]);
    assert(s.subrange(l.end - 1, l.end) =~= "]"@);
    assert(spec_block(s, l, "&["@, "]"@) == Some((l.start + 2, l.end - 1)));
    assert forall|j: int|
        0 <= j < l.end - 1 - (l.start + 2) implies s.subrange(l.start + 2, l.end - 1)[j] == (sw
        + seq![' '])[j] by {
        assert(s.subrange(l.start + 2, l.end - 1)[j] == content[j + 2]);
        if j < sw.len() {
            assert(content[j + 2] == sw[j]);
        } else {
            assert(content[j + 2] == " ]"@[0]);
        }
    }
    assert(s.subrange(l.start + 2, l.end - 1) =~= sw + seq![' ']);
    lemma_sensors_text_tokens(s, names, 0, l.start + 2, l.end - 1);
    let toks = spec_tokens(s, l.start + 2, l.end - 1);
    assert(names.take(0) =~= Seq::<Seq<char>>::empty());
    lemma_sensor_tokens_eval(s, toks, names, 0);
    assert(crate::raw_parsing::spec_parse_sensors(s, l.start + 2, l.end - 1) == Ok::<
        Seq<Seq<char>>,
        ErrV,
    >(names));
}

/// A run without `=` bounded by an `=` is where the key ends.
proof fn lemma_find_eq_det(s: Seq<char>, a: int, m: int, e: int)
    requires
        0 <= a <= m < e <= s.len(),
        forall|j: int| a <= j < m ==> s[j] != '=',
        s[m] == '=',
    ensures
        crate::scan::find_eq(s, a, e) == m,
    decreases m - a,
{
    if a < m {
        lemma_find_eq_det(s, a + 1, m, e);
    }
}

/// The spelled config values hold no whitespace and no `=`.
proof fn lemma_value_strings_plain(cfg: Config)
    ensures
        plain_chars(spec_bits_str(cfg.bits)),
        plain_chars(spec_clock_str(cfg.clock)),
        plain_chars(spec_accel_str(cfg.accel_sr)),
        plain_chars(spec_gyro_str(cfg.gyro_sr)),
        forall|j: int|
            0 <= j < spec_bits_str(cfg.bits).len() ==> #[trigger] spec_bits_str(cfg.bits)[j]
                != '=',
        forall|j: int|
            0 <= j < spec_clock_str(cfg.clock).len() ==> #[trigger] spec_clock_str(cfg.clock)[j]
                != '=',
        forall|j: int|
            0 <= j < spec_accel_str(cfg.accel_sr).len() ==> #[trigger] spec_accel_str(
                cfg.accel_sr,
            )[j] != '=',
        forall|j: int|
            0 <= j < spec_gyro_str(cfg.gyro_sr).len() ==> #[trigger] spec_gyro_str(cfg.gyro_sr)[j]
                != '=',
        1 <= spec_bits_str(cfg.bits).len(),
        1 <= spec_clock_str(cfg.clock).len(),
        1 <= spec_accel_str(cfg.accel_sr).len(),
        1 <= spec_gyro_str(cfg.gyro_sr).len(),
{
    reveal_strlit("8");
    reveal_strlit("16");
    reveal_strlit("32");
    reveal_strlit("milli");
    reveal_strlit("micro");
    reveal_strlit("2");
    reveal_strlit("4");
    reveal_strlit("250");
    reveal_strlit("500");
    reveal_strlit("1000");
    reveal_strlit("2000");
}

/// Parsing a written config line back yields the configuration: the writer
/// and the config-line parser are inverse.
pub proof fn lemma_config_line_roundtrip(s: Seq<char>, cfg: Config, l: LineSpan)
    requires
        0 <= l.start <= l.end <= s.len(),
        s.subrange(l.start, l.end) == spec_write_config(cfg),
    ensures
        crate::raw_parsing::spec_config_line(s, l) == Ok::<Config, PErrV>(cfg),
{
    reveal_strlit("?[");
    reveal_strlit("]");
    reveal_strlit(" ]");
    reveal_strlit("?[ BITS=");
    reveal_strlit(" CLOCK=");
    reveal_strlit(" ACCEL_SR=");
    reveal_strlit(" GYRO_SR=");
    reveal_strlit("BITS=");
    reveal_strlit("CLOCK=");
    reveal_strlit("ACCEL_SR=");
    reveal_strlit("GYRO_SR=");
    reveal_strlit("BITS");
    reveal_strlit("CLOCK");
    reveal_strlit("ACCEL_SR");
    reveal_strlit("GYRO_SR");
    reveal_strlit("ACC_FS");
    reveal_strlit("GYRO_FS");
    lemma_value_strings_plain(cfg);
    lemma_config_values_roundtrip(cfg);
    let b0 = spec_bits_str(cfg.bits);
    let c0 = spec_clock_str(cfg.clock);
    let a0 = spec_accel_str(cfg.accel_sr);
    let g0 = spec_gyro_str(cfg.gyro_sr);
    let t1 = "BITS="@ + b0;
    let t2 = "CLOCK="@ + c0;
    let t3 = "ACCEL_SR="@ + a0;
    let t4 = "GYRO_SR="@ + g0;
    let parts = seq![t1, t2, t3, t4];
    let content = s.subrange(l.start, l.end);
    let w = spec_write_config(cfg);
    // the four tokens are non-empty and free of whitespace
    assert forall|j: int|
        0 <= j < parts.len() implies (#[trigger] parts[j]).len() >= 1 && plain_chars(
        parts[j],
    ) by {
        assert(plain_chars(t1)) by {
            assert forall|x: int| 0 <= x < t1.len() implies !is_space(#[trigger] t1[x]) && t1[x]
                != '\n' by {
                if x >= "BITS="@.len() {
                    assert(t1[x] == b0[x - "BITS="@.len()]);
                }
            }
        }
        assert(plain_chars(t2)) by {
            assert forall|x: int| 0 <= x < t2.len() implies !is_space(#[trigger] t2[x]) && t2[x]
                != '\n' by {
                if x >= "CLOCK="@.len() {
                    assert(t2[x] == c0[x - "CLOCK="@.len()]);
                }
            }
        }
        assert(plain_chars(t3)) by {
            assert forall|x: int| 0 <= x < t3.len() implies !is_space(#[trigger] t3[x]) && t3[x]
                != '\n' by {
                if x >= "ACCEL_SR="@.len() {
                    assert(t3[x] == a0[x - "ACCEL_SR="@.len()]);
                }
            }
        }
        assert(plain_chars(t4)) by {
            assert forall|x: int| 0 <= x < t4.len() implies !is_space(#[trigger] t4[x]) && t4[x]
                != '\n' by {
                if x >= "GYRO_SR="@.len() {
                    assert(t4[x] == g0[x - "GYRO_SR="@.len()]);
                }
            }
        }
    }
    // the line is the block around the four spaced tokens
    let sw = spec_write_sensors(parts, 0);
    assert(spec_write_sensors(parts, 4) =~= Seq::<char>::empty());
    assert(spec_write_sensors(parts, 3) =~= seq![' '] + t4);
    assert(spec_write_sensors(parts, 2) =~= seq![' '] + t3 + (seq![' '] + t4));
    assert(spec_write_sensors(parts, 1) =~= seq![' '] + t2 + (seq![' '] + t3 + (seq![' '] + t4)));
    assert(sw =~= seq![' '] + t1 + (seq![' '] + t2 + (seq![' '] + t3 + (seq![' '] + t4))));
    assert(w =~= "?["@ + sw + " ]"@);
    assert(content.len() == 2 + sw.len() + 2);
    assert(l.end - l.start >= 4);
    assert forall|j: int| 0 <= j < 2 implies s.subrange(l.start, l.start + 2)[j] == "?["@[j] by {
        assert(s.subrange(l.start, l.start + 2)[j] == content[j]);
        assert(content[j] == ("?["@ + sw + " ]"@)[j]);
    }
    assert(s.subrange(l.start, l.start + 2) =~= "?["@);
    assert(content.last() == ("?["@ + sw + " ]"@)[content.len() - 1]);
    assert(s.subrange(l.end - 1, l.end) =~= "]"@);
    assert(spec_block(s, l, "?["@, "]"@) == Some((l.start + 2, l.end - 1)));
    assert forall|j: int|
        0 <= j < l.end - 1 - (l.start + 2) implies s.subrange(l.start + 2, l.end - 1)[j] == (sw
        + seq![' '])[j] by {
        assert(s.subrange(l.start + 2, l.end - 1)[j] == content[j + 2]);
        assert(content[j + 2] == ("?["@ + sw + " ]"@)[j + 2]);
    }
    assert(s.subrange(l.start + 2, l.end - 1) =~= sw + seq![' ']);
    lemma_sensors_text_tokens(s, parts, 0, l.start + 2, l.end - 1);
    let toks = spec_tokens(s, l.start + 2, l.end - 1);
    assert(toks.len() == 4);
    // evaluate the four KEY=VALUE tokens
    let acc0 = crate::raw_parsing::CfgAcc { bits: None, clock: None, accel: None, gyro: None };
    let acc1 = crate::raw_parsing::CfgAcc { bits: Some(cfg.bits), ..acc0 };
    let acc2 = crate::raw_parsing::CfgAcc { clock: Some(cfg.clock), ..acc1 };
    let acc3 = crate::raw_parsing::CfgAcc { accel: Some(cfg.accel_sr), ..acc2 };
    let acc4 = crate::raw_parsing::CfgAcc { gyro: Some(cfg.gyro_sr), ..acc3 };
    assert(t1 =~= "BITS"@ + seq!['='] + b0);
    assert(t2 =~= "CLOCK"@ + seq!['='] + c0);
    assert(t3 =~= "ACCEL_SR"@ + seq!['='] + a0);
    assert(t4 =~= "GYRO_SR"@ + seq!['='] + g0);
    config_token_facts(s, toks[0], t1, 4, "BITS"@, b0);
    config_token_facts(s, toks[1], t2, 5, "CLOCK"@, c0);
    config_token_facts(s, toks[2], t3, 8, "ACCEL_SR"@, a0);
    config_token_facts(s, toks[3], t4, 7, "GYRO_SR"@, g0);
    assert("BITS"@.len() == 4 && "CLOCK"@.len() == 5 && "ACCEL_SR"@.len() == 8 && "ACC_FS"@.len()
        == 6 && "GYRO_SR"@.len() == 7 && "GYRO_FS"@.len() == 7);
    assert("CLOCK"@ != "BITS"@);
    assert("ACCEL_SR"@ != "BITS"@ && "ACCEL_SR"@ != "CLOCK"@);
    assert("GYRO_SR"@ != "BITS"@ && "GYRO_SR"@ != "CLOCK"@ && "GYRO_SR"@ != "ACCEL_SR"@
        && "GYRO_SR"@ != "ACC_FS"@);
    assert("GYRO_SR"@ != "GYRO_FS"@) by {
        assert("GYRO_SR"@[5] == 'S' && "GYRO_FS"@[5] == 'F');
    }
    assert(crate::raw_parsing::spec_config_tokens(s, toks, 0, acc0)
        == crate::raw_parsing::spec_config_tokens(s, toks, 1, acc1));
    assert(crate::raw_parsing::spec_config_tokens(s, toks, 1, acc1)
        == crate::raw_parsing::spec_config_tokens(s, toks, 2, acc2));
    assert(crate::raw_parsing::spec_config_tokens(s, toks, 2, acc2)
        == crate::raw_parsing::spec_config_tokens(s, toks, 3, acc3));
    assert(crate::raw_parsing::spec_config_tokens(s, toks, 3, acc3)
        == crate::raw_parsing::spec_config_tokens(s, toks, 4, acc4));
    assert(crate::raw_parsing::spec_config_tokens(s, toks, 4, acc4) == Ok::<Config, ErrV>(cfg));
}

/// The key and value bounds of one written `KEY=VALUE` token.
proof fn config_token_facts(
    s: Seq<char>,
    t: (int, int),
    text: Seq<char>,
    eq_off: int,
    key: Seq<char>,
    val: Seq<char>,
)
    requires
        0 <= t.0 <= t.1 <= s.len(),
        s.subrange(t.0, t.1) == text,
        text == key + seq!['='] + val,
        eq_off == key.len(),
        forall|j: int| 0 <= j < key.len() ==> #[trigger] key[j] != '=',
        forall|j: int| 0 <= j < val.len() ==> #[trigger] val[j] != '=',
    ensures
        crate::scan::find_eq(s, t.0, t.1) == t.0 + eq_off,
        s.subrange(t.0, t.0 + eq_off) == key,
        s.subrange(t.0 + eq_off + 1, t.1) == val,
        t.0 + eq_off < t.1,
{
    assert(s.subrange(t.0, t.1).len() == t.1 - t.0);
    assert(text.len() == key.len() + 1 + val.len());
    assert(t.1 - t.0 == text.len());
    assert forall|j: int| t.0 <= j < t.0 + eq_off implies s[j] != '=' by {
        assert(s.subrange(t.0, t.1)[j - t.0] == s[j]);
        assert(text[j - t.0] == key[j - t.0]);
    }
    assert(s[t.0 + eq_off] == s.subrange(t.0, t.1)[eq_off]);
    assert(s[t.0 + eq_off] == text[eq_off]);
    assert(text[eq_off] == '=');
    lemma_find_eq_det(s, t.0, t.0 + eq_off, t.1);
    assert forall|j: int| 0 <= j < eq_off implies s.subrange(t.0, t.0 + eq_off)[j] == key[j] by {
        assert(s.subrange(t.0, t.0 + eq_off)[j] == s[t.0 + j]);
        assert(s.subrange(t.0, t.1)[j] == s[t.0 + j]);
        assert(text[j] == key[j]);
    }
    assert(s.subrange(t.0, t.0 + eq_off) =~= key);
    assert forall|j: int|
        0 <= j < val.len() implies s.subrange(t.0 + eq_off + 1, t.1)[j] == val[j] by {
        assert(s.subrange(t.0 + eq_off + 1, t.1)[j] == s[t.0 + eq_off + 1 + j]);
        assert(s.subrange(t.0, t.1)[eq_off + 1 + j] == s[t.0 + eq_off + 1 + j]);
        assert(text[eq_off + 1 + j] == val[j]);
    }
    assert(s.subrange(t.0 + eq_off + 1, t.1) =~= val);
}

/// No character of `s` is a newline.
pub open spec fn no_nl(s: Seq<char>) -> bool {
    forall|i: int| 0 <= i < s.len() ==> #[trigger] s[i] != '\n'
}

/// A run without newlines bounded by a newline or the end is one raw line.
proof fn lemma_find_nl_det(s: Seq<char>, pos: int, e: int)
    requires
        0 <= pos <= e <= s.len(),
        forall|j: int| pos <= j < e ==> #[trigger] s[j] != '\n',
        e == s.len() || s[e] == '\n',
    ensures
        crate::scan::find_nl(s, pos) == e,
    decreases e - pos,
{
    if pos < e {
        lemma_find_nl_det(s, pos + 1, e);
    }
}

/// A trimmed, non-blank line followed by a newline is split off whole.
proof fn lemma_line_step(s: Seq<char>, pos: int, e: int, num: int)
    requires
        0 <= pos < e < s.len(),
        s[e] == '\n',
        forall|j: int| pos <= j < e ==> #[trigger] s[j] != '\n',
        !is_space(s[pos]),
        !is_space(s[e - 1]),
    ensures
        crate::scan::spec_lines_at(s, pos, num) == seq![
            LineSpan { num, start: pos, end: e },
        ] + crate::scan::spec_lines_at(s, e + 1, num + 1),
{
    lemma_find_nl_det(s, pos, e);
    assert(skip_spaces(s, pos, e) == pos);
    assert(crate::scan::rskip_spaces(s, pos, e) == e);
}

/// The written sample blocks hold no newline but the one that ends each line.
proof fn lemma_write_sample_no_nl(smp: Seq<i32>, k: int)
    requires
        0 <= k <= smp.len(),
    ensures
        no_nl(spec_write_sample(smp, k)),
    decreases smp.len() - k,
{
    reveal_strlit(" ]");
    if k < smp.len() {
        lemma_write_sample_no_nl(smp, k + 1);
        lemma_write_i32_plain(smp[k]);
        let w = spec_write_sample(smp, k);
        let num = spec_write_i32(smp[k]);
        let tail = spec_write_sample(smp, k + 1);
        assert forall|i: int| 0 <= i < w.len() implies #[trigger] w[i] != '\n' by {
            if i == 0 {
                assert(w[0] == ' ');
            } else if i < 1 + num.len() {
                assert(w[i] == num[i - 1]);
            } else {
                assert(w[i] == tail[i - 1 - num.len()]);
            }
        }
    }
}

/// Every sample line of a written cluster parses back to its sample; what
/// follows them is split into lines undisturbed.
proof fn lemma_sample_block_lines(s: Seq<char>, samples: Seq<Seq<i32>>, j: int, pos: int, num: int)
    requires
        0 <= j <= samples.len(),
        forall|x: int| 0 <= x < samples.len() ==> (#[trigger] samples[x]).len() == 6,
        0 <= pos,
        pos + spec_write_samples(samples, j).len() <= s.len(),
        s.subrange(pos, pos + spec_write_samples(samples, j).len()) == spec_write_samples(
            samples,
            j,
        ),
    ensures
        ({
            let cnt = samples.len() - j;
            let ls = crate::scan::spec_lines_at(s, pos, num);
            let rest = crate::scan::spec_lines_at(
                s,
                pos + spec_write_samples(samples, j).len(),
                num + cnt,
            );
            &&& ls.len() == cnt + rest.len()
            &&& ls.skip(cnt) == rest
            &&& forall|x: int|
                0 <= x < cnt ==> spec_sample_line(s, #[trigger] ls[x]) == Ok::<Seq<i32>, PErrV>(
                    samples[j + x],
                )
        }),
    decreases samples.len() - j,
{
    reveal_strlit("[");
    let sw = spec_write_samples(samples, j);
    if j >= samples.len() {
        assert(sw =~= Seq::<char>::empty());
    } else {
        let ws = spec_write_sample(samples[j], 0);
        let tail = spec_write_samples(samples, j + 1);
        lemma_write_sample_shape(samples[j], 0);
        lemma_write_sample_no_nl(samples[j], 0);
        assert(sw == "["@ + ws + seq!['\n'] + tail);
        let e = pos + 1 + ws.len();
        assert forall|x: int| pos <= x < e implies #[trigger] s[x] != '\n' by {
            assert(s[x] == s.subrange(pos, pos + sw.len())[x - pos]);
            if x == pos {
                assert(sw[0] == "["@[0]);
            } else {
                assert(sw[x - pos] == ws[x - pos - 1]);
            }
        }
        assert(s[pos] == sw[0]);
        assert(s[pos] == '[');
        assert(s[e - 1] == sw[ws.len() as int]);
        assert(s[e - 1] == ws.last());
        assert(s[e] == sw[e - pos]);
        assert(s[e] == '\n');
        assert(e < s.len());
        lemma_line_step(s, pos, e, num);
        let span = LineSpan { num, start: pos, end: e };
        assert forall|x: int| 0 <= x < e - pos implies s.subrange(pos, e)[x] == ("["@ + ws)[x] by {
            assert(s.subrange(pos, e)[x] == s[pos + x]);
            assert(s.subrange(pos, pos + sw.len())[x] == s[pos + x]);
        }
        assert(s.subrange(pos, e) =~= "["@ + ws);
        lemma_sample_line_roundtrip(s, samples[j], span);
        let pos2 = e + 1;
        assert forall|x: int|
            0 <= x < tail.len() implies s.subrange(pos2, pos2 + tail.len())[x] == tail[x] by {
            assert(s.subrange(pos2, pos2 + tail.len())[x] == s[pos2 + x]);
            assert(s.subrange(pos, pos + sw.len())[pos2 - pos + x] == s[pos2 + x]);
            assert(sw[pos2 - pos + x] == tail[x]);
        }
        assert(s.subrange(pos2, pos2 + tail.len()) =~= tail);
        lemma_sample_block_lines(s, samples, j + 1, pos2, num + 1);
        let ls = crate::scan::spec_lines_at(s, pos, num);
        let ls1 = crate::scan::spec_lines_at(s, pos2, num + 1);
        let cnt = samples.len() - j;
        let rest = crate::scan::spec_lines_at(s, pos + sw.len(), num + cnt);
        assert(ls == seq![span] + ls1);
        assert(ls1.skip(cnt - 1) == rest);
        assert(ls.skip(cnt) =~= ls1.skip(cnt - 1));
        assert forall|x: int|
            0 <= x < cnt implies spec_sample_line(s, #[trigger] ls[x]) == Ok::<Seq<i32>, PErrV>(
            samples[j + x],
        ) by {
            if x == 0 {
                assert(ls[0] == span);
            } else {
                assert(ls[x] == ls1[x - 1]);
            }
        }
    }
}

/// A prefix of the line list that a parse never looks at can be cut off.
proof fn lemma_sample_lines_prefix(
    s: Seq<char>,
    pre: Seq<LineSpan>,
    ls: Seq<LineSpan>,
    j: int,
    cnt: int,
)
    requires
        0 <= j,
        0 <= cnt,
    ensures
        crate::raw_parsing::spec_sample_lines(s, pre + ls, pre.len() + j, cnt)
            == crate::raw_parsing::spec_sample_lines(s, ls, j, cnt),
    decreases cnt,
{
    if cnt > 0 && j < ls.len() {
        assert((pre + ls)[pre.len() + j] == ls[j]);
        lemma_sample_lines_prefix(s, pre, ls, j + 1, cnt - 1);
    }
}

/// A prefix of the line list that the cluster parse never looks at can be cut
/// off.
proof fn lemma_clusters_prefix(s: Seq<char>, pre: Seq<LineSpan>, ls: Seq<LineSpan>, j: int, n: int)
    requires
        0 <= j <= ls.len(),
        0 <= n,
    ensures
        crate::raw_parsing::spec_clusters(s, pre + ls, pre.len() + j, n)
            == crate::raw_parsing::spec_clusters(s, ls, j, n),
    decreases ls.len() - j,
{
    if j < ls.len() {
        assert((pre + ls)[pre.len() + j] == ls[j]);
        lemma_sample_lines_prefix(s, pre, ls, j + 1, n);
        let k2 = if j + 1 + n <= ls.len() {
            j + 1 + n
        } else {
            ls.len() as int
        };
        assert(pre.len() + k2 == (if pre.len() + j + 1 + n <= (pre + ls).len() {
            pre.len() + j + 1 + n
        } else {
            (pre + ls).len() as int
        }));
        lemma_clusters_prefix(s, pre, ls, k2, n);
    }
}

/// Reading written sample lines back yields the samples.
proof fn lemma_sample_lines_eval(
    s: Seq<char>,
    ls: Seq<LineSpan>,
    k: int,
    samples: Seq<Seq<i32>>,
    j: int,
)
    requires
        0 <= j <= samples.len(),
        0 <= k,
        k + (samples.len() - j) <= ls.len(),
        forall|x: int|
            0 <= x < samples.len() - j ==> spec_sample_line(s, #[trigger] ls[k + x]) == Ok::<
                Seq<i32>,
                PErrV,
            >(samples[j + x]),
    ensures
        crate::raw_parsing::spec_sample_lines(s, ls, k, samples.len() - j) == Ok::<
            Seq<Seq<i32>>,
            PErrV,
        >(samples.skip(j)),
    decreases samples.len() - j,
{
    if j >= samples.len() {
        assert(samples.skip(j) =~= Seq::<Seq<i32>>::empty());
    } else {
        assert(spec_sample_line(s, ls[k + 0]) == Ok::<Seq<i32>, PErrV>(samples[j + 0]));
        assert(spec_sample_line(s, ls[k]) == Ok::<Seq<i32>, PErrV>(samples[j]));
        assert forall|x: int|
            0 <= x < samples.len() - (j + 1) implies spec_sample_line(
            s,
            #[trigger] ls[k + 1 + x],
        ) == Ok::<Seq<i32>, PErrV>(samples[j + 1 + x]) by {
            assert(ls[k + 1 + x] == ls[k + (x + 1)]);
            assert(spec_sample_line(s, ls[k + (x + 1)]) == Ok::<Seq<i32>, PErrV>(
                samples[j + (x + 1)],
            ));
        }
        lemma_sample_lines_eval(s, ls, k + 1, samples, j + 1);
        assert(seq![samples[j]] + samples.skip(j + 1) =~= samples.skip(j));
    }
}

/// Parsing the written clusters back yields the clusters.
proof fn lemma_clusters_roundtrip(s: Seq<char>, f: FileV, i: int, pos: int, num: int)
    requires
        f.wf(),
        0 <= i <= f.clusters.len(),
        0 <= pos <= s.len(),
        pos + spec_write_clusters(f, i).len() == s.len(),
        s.subrange(pos, s.len() as int) == spec_write_clusters(f, i),
    ensures
        crate::raw_parsing::spec_clusters(
            s,
            crate::scan::spec_lines_at(s, pos, num),
            0,
            f.sensors.len() as int,
        ) == Ok::<Seq<crate::raw::ClusterV>, PErrV>(f.clusters.skip(i)),
    decreases f.clusters.len() - i,
{
    let n = f.sensors.len() as int;
    let w = spec_write_clusters(f, i);
    if i >= f.clusters.len() {
        assert(w =~= Seq::<char>::empty());
        assert(pos == s.len());
        assert(f.clusters.skip(i) =~= Seq::<crate::raw::ClusterV>::empty());
    } else {
        let cl = f.clusters[i];
        let d = spec_write_u32(cl.delta);
        let sw = spec_write_samples(cl.samples, 0);
        let wrest = spec_write_clusters(f, i + 1);
        assert(w == d + seq!['\n'] + sw + wrest);
        lemma_digits_roundtrip(cl.delta as int);
        lemma_digits_plain(cl.delta as int);
        let e = pos + d.len();
        assert forall|x: int| pos <= x < e implies #[trigger] s[x] != '\n' by {
            assert(s[x] == s.subrange(pos, s.len() as int)[x - pos]);
            assert(w[x - pos] == d[x - pos]);
        }
        assert(s[pos] == w[0]);
        assert(w[0] == d[0]);
        assert(!is_space(s[pos]));
        assert(s[e - 1] == w[d.len() - 1]);
        assert(w[d.len() - 1] == d.last());
        assert(!is_space(s[e - 1]));
        assert(s[e] == w[d.len() as int]);
        assert(s[e] == '\n');
        assert(e < s.len());
        lemma_line_step(s, pos, e, num);
        let dspan = LineSpan { num, start: pos, end: e };
        assert forall|x: int| 0 <= x < d.len() implies s.subrange(pos, e)[x] == d[x] by {
            assert(s.subrange(pos, e)[x] == s[pos + x]);
            assert(s.subrange(pos, s.len() as int)[x] == s[pos + x]);
        }
        assert(s.subrange(pos, e) =~= d);
        lemma_u32_roundtrip(cl.delta);
        assert(crate::raw_parsing::spec_delta_line(s, dspan) == Ok::<u32, PErrV>(cl.delta));
        let pos1 = e + 1;
        assert forall|x: int|
            0 <= x < sw.len() implies s.subrange(pos1, pos1 + sw.len())[x] == sw[x] by {
            assert(s.subrange(pos1, pos1 + sw.len())[x] == s[pos1 + x]);
            assert(s.subrange(pos, s.len() as int)[pos1 - pos + x] == s[pos1 + x]);
            assert(w[pos1 - pos + x] == sw[x]);
        }
        assert(s.subrange(pos1, pos1 + sw.len()) =~= sw);
        assert(cl.samples.len() == f.sensors.len());
        assert(forall|x: int| 0 <= x < cl.samples.len() ==> (#[trigger] cl.samples[x]).len() == 6);
        lemma_sample_block_lines(s, cl.samples, 0, pos1, num + 1);
        let ls = crate::scan::spec_lines_at(s, pos, num);
        let ls1 = crate::scan::spec_lines_at(s, pos1, num + 1);
        let pos2 = pos1 + sw.len();
        let ls2 = crate::scan::spec_lines_at(s, pos2, num + 1 + n);
        assert(ls == seq![dspan] + ls1);
        assert(ls1.len() == n + ls2.len());
        assert(ls1.skip(n) == ls2);
        // the delta line and the sample lines parse back
        assert(ls[0] == dspan);
        assert forall|x: int|
            0 <= x < cl.samples.len() - 0 implies spec_sample_line(s, #[trigger] ls[1 + x]) == Ok::<
            Seq<i32>,
            PErrV,
        >(cl.samples[0 + x]) by {
            assert(ls[1 + x] == ls1[x]);
        }
        lemma_sample_lines_eval(s, ls, 1, cl.samples, 0);
        assert(cl.samples.skip(0) =~= cl.samples);
        // the remaining clusters parse back
        assert forall|x: int|
            0 <= x < wrest.len() implies s.subrange(pos2, s.len() as int)[x] == wrest[x] by {
            assert(s.subrange(pos2, s.len() as int)[x] == s[pos2 + x]);
            assert(s.subrange(pos, s.len() as int)[pos2 - pos + x] == s[pos2 + x]);
            assert(w[pos2 - pos + x] == wrest[x]);
        }
        assert(s.subrange(pos2, s.len() as int) =~= wrest);
        lemma_clusters_roundtrip(s, f, i + 1, pos2, num + 1 + n);
        assert(ls =~= ls.take(1 + n) + ls2);
        lemma_clusters_prefix(s, ls.take(1 + n), ls2, 0, n);
        assert(crate::raw_parsing::spec_clusters(s, ls, 1 + n, n)
            == crate::raw_parsing::spec_clusters(s, ls2, 0, n));
        assert(seq![cl] + f.clusters.skip(i + 1) =~= f.clusters.skip(i));
    }
}

/// The written reference line holds no newline.
proof fn lemma_write_sensors_no_nl(names: Seq<Seq<char>>, k: int)
    requires
        names_wf(names),
        0 <= k <= names.len(),
    ensures
        no_nl(spec_write_sensors(names, k)),
    decreases names.len() - k,
{
    if k < names.len() {
        lemma_write_sensors_no_nl(names, k + 1);
        let w = spec_write_sensors(names, k);
        let name = names[k];
        let tail = spec_write_sensors(names, k + 1);
        assert forall|i: int| 0 <= i < w.len() implies #[trigger] w[i] != '\n' by {
            if i == 0 {
                assert(w[0] == ' ');
            } else if i < 1 + name.len() {
                assert(w[i] == name[i - 1]);
            } else {
                assert(w[i] == tail[i - 1 - name.len()]);
            }
        }
    }
}

/// Round trip: parsing the canonical text of a well-formed capture yields the
/// capture back, value for value.
#[verifier::rlimit(100)]
pub proof fn lemma_write_roundtrip(f: FileV)
    requires
        f.wf(),
        names_wf(f.sensors),
        names_distinct(f.sensors),
    ensures
        crate::raw_parsing::spec_raw_parse(spec_write(f)) == Ok::<FileV, PErrV>(f),
{
    reveal_strlit("?[ BITS=");
    reveal_strlit(" CLOCK=");
    reveal_strlit(" ACCEL_SR=");
    reveal_strlit(" GYRO_SR=");
    reveal_strlit(" ]");
    reveal_strlit("&[");
    lemma_value_strings_plain(f.config);
    let s = spec_write(f);
    let cl = spec_write_config(f.config);
    let rl = "&["@ + spec_write_sensors(f.sensors, 0) + " ]"@;
    let cw = spec_write_clusters(f, 0);
    assert(s =~= cl + seq!['\n'] + rl + seq!['\n'] + cw);
    // the config line holds no newline and is trimmed
    let b0 = spec_bits_str(f.config.bits);
    let c0 = spec_clock_str(f.config.clock);
    let a0 = spec_accel_str(f.config.accel_sr);
    let g0 = spec_gyro_str(f.config.gyro_sr);
    assert(cl == "?[ BITS="@ + b0 + " CLOCK="@ + c0 + " ACCEL_SR="@ + a0 + " GYRO_SR="@ + g0
        + " ]"@);
    assert(no_nl(cl) && cl[0] == '?' && cl.last() == ']' && cl.len() >= 2) by {
        assert forall|i: int| 0 <= i < cl.len() implies #[trigger] cl[i] != '\n' by {
            let p1 = "?[ BITS="@ + b0;
            let p2 = p1 + " CLOCK="@ + c0;
            let p3 = p2 + " ACCEL_SR="@ + a0;
            let p4 = p3 + " GYRO_SR="@ + g0;
            assert(cl =~= p4 + " ]"@);
            if i < p4.len() {
                assert(cl[i] == p4[i]);
                assert(p2 =~= p1 + (" CLOCK="@ + c0));
                assert(p3 =~= p2 + (" ACCEL_SR="@ + a0));
                assert(p4 =~= p3 + (" GYRO_SR="@ + g0));
            } else {
                assert(cl[i] == " ]"@[i - p4.len()]);
            }
        }
    }
    // the reference line holds no newline and is trimmed
    lemma_write_sensors_no_nl(f.sensors, 0);
    assert(no_nl(rl) && rl[0] == '&' && rl.last() == ']' && rl.len() >= 2) by {
        let sw = spec_write_sensors(f.sensors, 0);
        assert forall|i: int| 0 <= i < rl.len() implies #[trigger] rl[i] != '\n' by {
            if i < 2 {
                assert(rl[i] == "&["@[i]);
            } else if i < 2 + sw.len() {
                assert(rl[i] == sw[i - 2]);
            } else {
                assert(rl[i] == " ]"@[i - 2 - sw.len()]);
            }
        }
        assert(rl.last() == " ]"@[1]);
    }
    // split the two head lines off
    let e0 = cl.len() as int;
    assert forall|x: int| 0 <= x < e0 implies s[x] == cl[x] && s[x] != '\n' by {}
    assert(s[e0] == '\n');
    assert(!is_space(s[0]) && !is_space(s[e0 - 1]));
    lemma_line_step(s, 0, e0, 1);
    let p1 = e0 + 1;
    let e1 = p1 + rl.len();
    assert forall|x: int| p1 <= x < e1 implies s[x] == rl[x - p1] && s[x] != '\n' by {}
    assert(s[e1] == '\n');
    assert(!is_space(s[p1]) && !is_space(s[e1 - 1]));
    lemma_line_step(s, p1, e1, 2);
    let l0 = LineSpan { num: 1, start: 0, end: e0 };
    let l1 = LineSpan { num: 2, start: p1, end: e1 };
    let p2 = e1 + 1;
    let ls2 = crate::scan::spec_lines_at(s, p2, 3);
    let ls = crate::scan::spec_lines(s);
    assert(ls == seq![l0] + (seq![l1] + ls2));
    // the three parts parse back
    assert(s.subrange(0, e0) =~= cl);
    lemma_config_line_roundtrip(s, f.config, l0);
    assert(s.subrange(p1, e1) =~= rl);
    lemma_reference_line_roundtrip(s, f.sensors, l1);
    assert forall|x: int| 0 <= x < cw.len() implies s.subrange(p2, s.len() as int)[x] == cw[x] by {
        assert(s.subrange(p2, s.len() as int)[x] == s[p2 + x]);
    }
    assert(s.subrange(p2, s.len() as int) =~= cw);
    lemma_clusters_roundtrip(s, f, 0, p2, 3);
    assert(ls =~= (seq![l0, l1]) + ls2);
    lemma_clusters_prefix(s, seq![l0, l1], ls2, 0, f.sensors.len() as int);
    assert(crate::raw_parsing::spec_clusters(s, ls, 2, f.sensors.len() as int)
        == crate::raw_parsing::spec_clusters(s, ls2, 0, f.sensors.len() as int));
    assert(f.clusters.skip(0) =~= f.clusters);
    assert(ls[0] == l0 && ls[1] == l1 && ls.len() >= 2);
    assert(crate::raw_parsing::spec_raw_parse(s) == Ok::<FileV, PErrV>(
        FileV { config: f.config, sensors: f.sensors, clusters: f.clusters },
    ));
    assert(FileV { config: f.config, sensors: f.sensors, clusters: f.clusters } == f);
}

/// Names that pass the duplicate check are non-empty runs of plain
/// characters, each distinct from the others.
proof fn lemma_sensor_tokens_ok(
    s: Seq<char>,
    toks: Seq<(int, int)>,
    k: int,
    got: Seq<Seq<char>>,
    r: Seq<Seq<char>>,
)
    requires
        0 <= k <= toks.len(),
        crate::raw_parsing::spec_sensor_tokens(s, toks, k, got) == Ok::<Seq<Seq<char>>, ErrV>(r),
        names_wf(got),
        names_distinct(got),
        forall|x: int|
            k <= x < toks.len() ==> {
                let t = #[trigger] toks[x];
                &&& 0 <= t.0 < t.1 <= s.len()
                &&& forall|c: int| t.0 <= c < t.1 ==> !is_space(#[trigger] s[c]) && s[c] != '\n'
            },
    ensures
        names_wf(r),
        names_distinct(r),
    decreases toks.len() - k,
{
    if k >= toks.len() {
        assert(r == got);
    } else {
        let name = s.subrange(toks[k].0, toks[k].1);
        assert(!(exists|j: int| 0 <= j < got.len() && got[j] == name));
        let got2 = got.push(name);
        assert(name.len() >= 1);
        assert(plain_chars(name)) by {
            assert forall|c: int| 0 <= c < name.len() implies !is_space(#[trigger] name[c])
                && name[c] != '\n' by {
                assert(name[c] == s[toks[k].0 + c]);
            }
        }
        assert(names_wf(got2)) by {
            assert forall|j: int|
                0 <= j < got2.len() implies (#[trigger] got2[j]).len() >= 1 && plain_chars(
                got2[j],
            ) by {
                if j < got.len() {
                    assert(got2[j] == got[j]);
                } else {
                    assert(got2[j] == name);
                }
            }
        }
        assert(names_distinct(got2)) by {
            assert forall|j1: int, j2: int|
                0 <= j1 < j2 < got2.len() implies #[trigger] got2[j1] != #[trigger] got2[j2] by {
                if j2 < got.len() {
                    assert(got2[j1] == got[j1] && got2[j2] == got[j2]);
                } else {
                    assert(got2[j1] == got[j1] && got2[j2] == name);
                }
            }
        }
        lemma_sensor_tokens_ok(s, toks, k + 1, got2, r);
    }
}

/// Sensor names a parse produced are well formed and pairwise distinct, so
/// the writer can spell them back.
pub proof fn lemma_parse_names_wf(s: Seq<char>, f: FileV)
    requires
        crate::raw_parsing::spec_raw_parse(s) == Ok::<FileV, PErrV>(f),
    ensures
        names_wf(f.sensors),
        names_distinct(f.sensors),
{
    let ls = crate::scan::spec_lines(s);
    assert(ls.len() >= 2);
    let l1 = ls[1];
    crate::scan::lemma_lines_at_bounds(s, 0, 1);
    crate::scan::lemma_lines_no_nl(s, 0, 1);
    assert(0 <= l1.start < l1.end <= s.len());
    let r1 = crate::raw_parsing::spec_reference_line(s, l1);
    assert(r1 == Ok::<Seq<Seq<char>>, PErrV>(f.sensors));
    let blk = spec_block(s, l1, "&["@, "]"@);
    assert(blk is Some);
    let a = l1.start + "&["@.len();
    let b = l1.end - "]"@.len();
    assert(blk == Some((a, b)));
    let toks = spec_tokens(s, a, b);
    crate::scan::lemma_tokens_chars(s, a, b);
    assert forall|x: int|
        0 <= x < toks.len() implies {
        let t = #[trigger] toks[x];
        &&& 0 <= t.0 < t.1 <= s.len()
        &&& forall|c: int| t.0 <= c < t.1 ==> !is_space(#[trigger] s[c]) && s[c] != '\n'
    } by {
        let t = toks[x];
        assert(a <= t.0 < t.1 <= b);
        assert forall|c: int| t.0 <= c < t.1 implies !is_space(#[trigger] s[c]) && s[c]
            != '\n' by {
            assert(l1.start <= c < l1.end);
        }
    }
    assert(names_wf(Seq::<Seq<char>>::empty()));
    assert(names_distinct(Seq::<Seq<char>>::empty()));
    lemma_sensor_tokens_ok(s, toks, 0, Seq::<Seq<char>>::empty(), f.sensors);
}

/// Round trip from any text: what a successful parse yields, the writer
/// spells into a text that parses back to the very same values.
pub proof fn lemma_parse_write_parse(s: Seq<char>, f: FileV)
    requires
        crate::raw_parsing::spec_raw_parse(s) == Ok::<FileV, PErrV>(f),
        f.wf(),
    ensures
        crate::raw_parsing::spec_raw_parse(spec_write(f)) == Ok::<FileV, PErrV>(f),
{
    lemma_parse_names_wf(s, f);
    lemma_write_roundtrip(f);
}

/// Appends the characters of a literal.
fn push_lit(out: &mut Vec<char>, lit: &str)
    ensures
        final(out)@ == old(out)@ + lit@,
{
    let n = lit.unicode_len();
    let mut i: usize = 0;
    while i < n
        invariant
            i <= n,
            n == lit@.len(),
            out@ == old(out)@ + lit@.take(i as int),
        decreases n - i,
    {
        out.push(lit.get_char(i));
        assert(out@ =~= old(out)@ + lit@.take(i + 1));
        i += 1;
    }
    assert(out@ =~= old(out)@ + lit@);
}

/// Appends the decimal spelling of a value below some power of ten.
fn push_u64_digits(out: &mut Vec<char>, v: u64)
    ensures
        final(out)@ == old(out)@ + spec_digits(v as int),
    decreases v,
{
    if v < 10 {
        let c: char = match v {
            0 => '0',
            1 => '1',
            2 => '2',
            3 => '3',
            4 => '4',
            5 => '5',
            6 => '6',
            7 => '7',
            8 => '8',
            _ => '9',
        };
        assert(c == digit_char(v as int));
        out.push(c);
        assert(out@ =~= old(out)@ + spec_digits(v as int));
    } else {
        push_u64_digits(out, v / 10);
        let d = v % 10;
        let c: char = match d {
            0 => '0',
            1 => '1',
            2 => '2',
            3 => '3',
            4 => '4',
            5 => '5',
            6 => '6',
            7 => '7',
            8 => '8',
            _ => '9',
        };
        assert(c == digit_char(v as int % 10));
        out.push(c);
        assert(out@ =~= old(out)@ + spec_digits(v as int));
    }
}

/// Appends the decimal spelling of a signed value.
fn push_i32(out: &mut Vec<char>, v: i32)
    ensures
        final(out)@ == old(out)@ + spec_write_i32(v),
{
    if v < 0 {
        out.push('-');
        let m = (-(v as i64)) as u64;
        assert(m as int == -(v as int));
        push_u64_digits(out, m);
        assert(out@ =~= old(out)@ + spec_write_i32(v));
    } else {
        push_u64_digits(out, v as u64);
        assert(out@ =~= old(out)@ + spec_write_i32(v));
    }
}

/// Serializes a parsed capture back into its canonical text, as characters.
pub fn to_text(f: &File) -> (r: Vec<char>)
    ensures
        r@ == spec_write(f@),
{
    let ghost fv = f@;
    let mut out: Vec<char> = Vec::new();
    // config line
    push_lit(&mut out, "?[ BITS=");
    match f.config.bits {
        Bits::_8 => push_lit(&mut out, "8"),
        Bits::_16 => push_lit(&mut out, "16"),
        Bits::_32 => push_lit(&mut out, "32"),
    }
    push_lit(&mut out, " CLOCK=");
    match f.config.clock {
        Clock::Milli => push_lit(&mut out, "milli"),
        Clock::Micro => push_lit(&mut out, "micro"),
    }
    push_lit(&mut out, " ACCEL_SR=");
    match f.config.accel_sr {
        AccelSR::_2 => push_lit(&mut out, "2"),
        AccelSR::_4 => push_lit(&mut out, "4"),
        AccelSR::_8 => push_lit(&mut out, "8"),
        AccelSR::_16 => push_lit(&mut out, "16"),
    }
    push_lit(&mut out, " GYRO_SR=");
    match f.config.gyro_sr {
        GyroSR::_250 => push_lit(&mut out, "250"),
        GyroSR::_500 => push_lit(&mut out, "500"),
        GyroSR::_1000 => push_lit(&mut out, "1000"),
        GyroSR::_2000 => push_lit(&mut out, "2000"),
    }
    push_lit(&mut out, " ]");
    assert(out@ =~= spec_write_config(fv.config));
    out.push('\n');
    // reference line
    push_lit(&mut out, "&[");
    let ghost base = out@;
    let ns = f.sensors.len();
    let mut j: usize = 0;
    while j < ns
        invariant
            j <= ns,
            ns == f.sensors@.len(),
            fv == f@,
            out@ + spec_write_sensors(fv.sensors, j as int) == base + spec_write_sensors(
                fv.sensors,
                0,
            ),
        decreases ns - j,
    {
        out.push(' ');
        let name = f.sensors[j].as_str();
        assert(name@ == fv.sensors[j as int]);
        push_lit(&mut out, name);
        proof {
            assert(out@ + spec_write_sensors(fv.sensors, j + 1) =~= base + spec_write_sensors(
                fv.sensors,
                0,
            ));
        }
        j += 1;
    }
    assert(out@ =~= base + spec_write_sensors(fv.sensors, 0));
    push_lit(&mut out, " ]");
    out.push('\n');
    // clusters
    let ghost base2 = out@;
    assert(base2 =~= spec_write_config(fv.config) + seq!['\n'] + "&["@ + spec_write_sensors(
        fv.sensors,
        0,
    ) + " ]"@ + seq!['\n']);
    let nc = f.clusters.len();
    let mut i: usize = 0;
    while i < nc
        invariant
            i <= nc,
            nc == f.clusters@.len(),
            fv == f@,
            out@ + spec_write_clusters(fv, i as int) == base2 + spec_write_clusters(fv, 0),
        decreases nc - i,
    {
        let cl = &f.clusters[i];
        assert(cl@ == fv.clusters[i as int]);
        push_u64_digits(&mut out, cl.delta as u64);
        assert(cl.delta as u64 as int == fv.clusters[i as int].delta as int);
        out.push('\n');
        // sample blocks of this cluster
        let ghost base3 = out@;
        let nsmp = cl.samples.len();
        let mut k: usize = 0;
        while k < nsmp
            invariant
                k <= nsmp,
                nsmp == cl.samples@.len(),
                cl@ == fv.clusters[i as int],
                fv == f@,
                out@ + spec_write_samples(cl@.samples, k as int) == base3 + spec_write_samples(
                    cl@.samples,
                    0,
                ),
            decreases nsmp - k,
        {
            push_lit(&mut out, "[");
            assert(k < nsmp);
            let smp = &cl.samples[k];
            assert(smp@ == cl@.samples[k as int]);
            let ghost base4 = out@;
            let mut q: usize = 0;
            while q < 6
                invariant
                    q <= 6,
                    smp@ == cl@.samples[k as int],
                    smp@.len() == 6,
                    out@ + spec_write_sample(smp@, q as int) == base4 + spec_write_sample(smp@, 0),
                decreases 6 - q,
            {
                out.push(' ');
                push_i32(&mut out, smp[q]);
                proof {
                    assert(out@ + spec_write_sample(smp@, q + 1) =~= base4 + spec_write_sample(
                        smp@,
                        0,
                    ));
                }
                q += 1;
            }
            push_lit(&mut out, " ]");
            assert(out@ =~= base4 + spec_write_sample(smp@, 0));
            out.push('\n');
            proof {
                assert(out@ + spec_write_samples(cl@.samples, k + 1) =~= base3 + spec_write_samples(
                    cl@.samples,
                    0,
                ));
            }
            k += 1;
        }
        assert(out@ =~= base3 + spec_write_samples(cl@.samples, 0));
        proof {
            assert(out@ + spec_write_clusters(fv, i + 1) =~= base2 + spec_write_clusters(fv, 0));
        }
        i += 1;
    }
    proof {
        assert(spec_write_clusters(fv, nc as int) =~= Seq::<char>::empty());
        assert(out@ =~= base2 + spec_write_clusters(fv, 0));
        assert(out@ =~= spec_write(fv));
    }
    out
}

} // verus!
