//! The grammar of the capture format: a config line `?[ KEY=VALUE ... ]`, a
//! reference line `&[ name ... ]`, then repeating clusters of one delta-time
//! line followed by exactly one six-integer sample block per sensor.
//!
//! Every parse function is specified against a spec-level parser over the
//! character sequence of the source; all errors are fatal and carry the
//! 1-based number of the offending line where one is known.

use vstd::prelude::*;
use vstd::string::StrSliceExecFns;

use crate::parsing_error::{strs_view, ErrV, InnerParsingError, ParsingError, PErrV};
use crate::raw::{
    AccelSR, Bits, Clock, Cluster, ClusterV, Config, File, FileV, GyroSR, Sample, Sensor,
};
use crate::scan::{
    find_eq, lemma_lines_at_bounds, parse_i32_range, parse_u32_range, range_eq_lit, scan_lines,
    scan_tokens, spans_view, spec_lines, spec_parse_i32, spec_parse_u32, spec_tokens, to_chars,
    Line, LineSpan,
};

verus! {

/// The views of a sequence of sensor names.
pub open spec fn strings_view(ss: Seq<String>) -> Seq<Seq<char>> {
    ss.map_values(|s: String| s@)
}

/// The views of a sequence of samples.
pub open spec fn samples_view(ss: Seq<Sample>) -> Seq<Seq<i32>> {
    ss.map_values(|s: Sample| s@)
}

/// The views of a sequence of clusters.
pub open spec fn clusters_view(cs: Seq<Cluster>) -> Seq<ClusterV> {
    cs.map_values(|c: Cluster| c@)
}

/// The content bounds of line `l` if it is enclosed in `open` and `close`.
pub open spec fn spec_block(s: Seq<char>, l: LineSpan, open: Seq<char>, close: Seq<char>) -> Option<
    (int, int),
> {
    if l.end - l.start >= open.len() + close.len() && s.subrange(
        l.start,
        l.start + open.len(),
    ) == open && s.subrange(l.end - close.len(), l.end) == close {
        Some((l.start + open.len(), l.end - close.len()))
    } else {
        None
    }
}

/// Partially gathered config values, while the config line is scanned.
pub struct CfgAcc {
    pub bits: Option<Bits>,
    pub clock: Option<Clock>,
    pub accel: Option<AccelSR>,
    pub gyro: Option<GyroSR>,
}

/// The finished configuration: `BITS` defaults to 16, the other keys are
/// mandatory.
pub open spec fn spec_cfg_finish(acc: CfgAcc) -> Result<Config, ErrV> {
    if acc.clock is None {
        Err(ErrV::ConfigMissing("CLOCK"@))
    } else if acc.gyro is None {
        Err(ErrV::ConfigMissing("GYRO_SR"@))
    } else if acc.accel is None {
        Err(ErrV::ConfigMissing("ACCEL_SR"@))
    } else {
        Ok(
            Config {
                bits: match acc.bits {
                    Some(b) => b,
                    None => Bits::_16,
                },
                clock: match acc.clock {
                    Some(c) => c,
                    None => Clock::Milli,
                },
                accel_sr: match acc.accel {
                    Some(a) => a,
                    None => AccelSR::_2,
                },
                gyro_sr: match acc.gyro {
                    Some(g) => g,
                    None => GyroSR::_250,
                },
            },
        )
    }
}

/// One `KEY=VALUE` token after another; unknown keys, repeated keys and
/// out-of-enum values are fatal.
pub open spec fn spec_config_tokens(
    s: Seq<char>,
    toks: Seq<(int, int)>,
    k: int,
    acc: CfgAcc,
) -> Result<Config, ErrV>
    decreases toks.len() - k,
    when 0 <= k <= toks.len()
{
    if k >= toks.len() {
        spec_cfg_finish(acc)
    } else {
        let a = toks[k].0;
        let b = toks[k].1;
        let eq = find_eq(s, a, b);
        if eq >= b {
            Err(ErrV::TokenUnexpected { expected: "KEY=VALUE"@, found: s.subrange(a, b) })
        } else {
            let key = s.subrange(a, eq);
            let val = s.subrange(eq + 1, b);
            if key == "BITS"@ {
                match Bits::spec_from_str(val) {
                    None => Err(
                        ErrV::ConfigUnsupportedValue {
                            value: val,
                            key: key,
                            valid_values: seq!["8"@, "16"@, "32"@],
                        },
                    ),
                    Some(x) => if acc.bits is Some {
                        Err(ErrV::ConfigDuplicate("BITS"@))
                    } else {
                        spec_config_tokens(s, toks, k + 1, CfgAcc { bits: Some(x), ..acc })
                    },
                }
            } else if key == "CLOCK"@ {
                match Clock::spec_from_str(val) {
                    None => Err(
                        ErrV::ConfigUnsupportedValue {
                            value: val,
                            key: key,
                            valid_values: seq!["milli"@, "micro"@],
                        },
                    ),
                    Some(x) => if acc.clock is Some {
                        Err(ErrV::ConfigDuplicate("CLOCK"@))
                    } else {
                        spec_config_tokens(s, toks, k + 1, CfgAcc { clock: Some(x), ..acc })
                    },
                }
            } else if key == "ACCEL_SR"@ || key == "ACC_FS"@ {
                match AccelSR::spec_from_str(val) {
                    None => Err(
                        ErrV::ConfigUnsupportedValue {
                            value: val,
                            key: key,
                            valid_values: seq!["2"@, "4"@, "8"@, "16"@],
                        },
                    ),
                    Some(x) => if acc.accel is Some {
                        Err(ErrV::ConfigDuplicate("ACCEL_SR"@))
                    } else {
                        spec_config_tokens(s, toks, k + 1, CfgAcc { accel: Some(x), ..acc })
                    },
                }
            } else if key == "GYRO_SR"@ || key == "GYRO_FS"@ {
                match GyroSR::spec_from_str(val) {
                    None => Err(
                        ErrV::ConfigUnsupportedValue {
                            value: val,
                            key: key,
                            valid_values: seq!["250"@, "500"@, "1000"@, "2000"@],
                        },
                    ),
                    Some(x) => if acc.gyro is Some {
                        Err(ErrV::ConfigDuplicate("GYRO_SR"@))
                    } else {
                        spec_config_tokens(s, toks, k + 1, CfgAcc { gyro: Some(x), ..acc })
                    },
                }
            } else {
                Err(ErrV::ConfigUnknownKey(key))
            }
        }
    }
}

/// The config line: `?[ ... ]` around `KEY=VALUE` tokens.
pub open spec fn spec_config_line(s: Seq<char>, l: LineSpan) -> Result<Config, PErrV> {
    match spec_block(s, l, "?["@, "]"@) {
        None => Err(
            PErrV::at_line(
                ErrV::TokenUnexpected { expected: "?[...]"@, found: s.subrange(l.start, l.end) },
                l.num,
            ),
        ),
        Some((a, b)) => match spec_config_tokens(
            s,
            spec_tokens(s, a, b),
            0,
            CfgAcc { bits: None, clock: None, accel: None, gyro: None },
        ) {
            Ok(c) => Ok(c),
            Err(e) => Err(PErrV::at_line(e, l.num)),
        },
    }
}

/// One sensor name after another; a name equal to an earlier one is fatal.
pub open spec fn spec_sensor_tokens(
    s: Seq<char>,
    toks: Seq<(int, int)>,
    k: int,
    got: Seq<Seq<char>>,
) -> Result<Seq<Seq<char>>, ErrV>
    decreases toks.len() - k,
    when 0 <= k <= toks.len()
{
    if k >= toks.len() {
        Ok(got)
    } else {
        let name = s.subrange(toks[k].0, toks[k].1);
        if exists|j: int| 0 <= j < got.len() && got[j] == name {
            Err(ErrV::SensorNameDuplicate(name))
        } else {
            spec_sensor_tokens(s, toks, k + 1, got.push(name))
        }
    }
}

/// The sensor names of the inner content `[i, e)` of a reference line.
pub open spec fn spec_parse_sensors(s: Seq<char>, i: int, e: int) -> Result<Seq<Seq<char>>, ErrV> {
    spec_sensor_tokens(s, spec_tokens(s, i, e), 0, seq![])
}

/// The reference line: `&[ ... ]` around sensor names.
pub open spec fn spec_reference_line(s: Seq<char>, l: LineSpan) -> Result<Seq<Seq<char>>, PErrV> {
    match spec_block(s, l, "&["@, "]"@) {
        None => Err(
            PErrV::at_line(
                ErrV::TokenUnexpected { expected: "&[...]"@, found: s.subrange(l.start, l.end) },
                l.num,
            ),
        ),
        Some((a, b)) => match spec_parse_sensors(s, a, b) {
            Ok(names) => Ok(names),
            Err(e) => Err(PErrV::at_line(e, l.num)),
        },
    }
}

/// Exactly six signed integers: too few is "expected number, found nothing",
/// too many is "expected the closing bracket, found the extra token".
pub open spec fn spec_sample_tokens(
    s: Seq<char>,
    toks: Seq<(int, int)>,
    k: int,
    got: Seq<i32>,
) -> Result<Seq<i32>, ErrV>
    decreases 6 - k,
    when 0 <= k <= 6
{
    if k >= 6 {
        if toks.len() > 6 {
            Err(ErrV::TokenUnexpected { expected: "]"@, found: s.subrange(toks[6].0, toks[6].1) })
        } else {
            Ok(got)
        }
    } else if k >= toks.len() {
        Err(ErrV::TokenExpected("number"@))
    } else {
        match spec_parse_i32(s.subrange(toks[k].0, toks[k].1)) {
            Err(e) => Err(ErrV::NumberParsing(e)),
            Ok(x) => spec_sample_tokens(s, toks, k + 1, got.push(x)),
        }
    }
}

/// The six raw integers of the inner content `[i, e)` of a sample block.
pub open spec fn spec_parse_sample(s: Seq<char>, i: int, e: int) -> Result<Seq<i32>, ErrV> {
    spec_sample_tokens(s, spec_tokens(s, i, e), 0, seq![])
}

/// A sample line: `[ ... ]` around six integers.
pub open spec fn spec_sample_line(s: Seq<char>, l: LineSpan) -> Result<Seq<i32>, PErrV> {
    match spec_block(s, l, "["@, "]"@) {
        None => Err(
            PErrV::at_line(
                ErrV::TokenUnexpected { expected: "[...]"@, found: s.subrange(l.start, l.end) },
                l.num,
            ),
        ),
        Some((a, b)) => match spec_parse_sample(s, a, b) {
            Ok(smp) => Ok(smp),
            Err(e) => Err(PErrV::at_line(e, l.num)),
        },
    }
}

/// A delta-time line: one bare non-negative integer.
pub open spec fn spec_delta_line(s: Seq<char>, l: LineSpan) -> Result<u32, PErrV> {
    match spec_parse_u32(s.subrange(l.start, l.end)) {
        Ok(d) => Ok(d),
        Err(e) => Err(PErrV::at_line(ErrV::NumberParsing(e), l.num)),
    }
}

/// `cnt` sample lines from line `k` on; running out of lines is fatal with no
/// line attribution.
pub open spec fn spec_sample_lines(
    s: Seq<char>,
    ls: Seq<LineSpan>,
    k: int,
    cnt: int,
) -> Result<Seq<Seq<i32>>, PErrV>
    decreases cnt,
    when 0 <= k && 0 <= cnt
{
    if cnt <= 0 {
        Ok(seq![])
    } else if k >= ls.len() {
        Err(PErrV::no_line(ErrV::TokenExpected("[...]"@)))
    } else {
        match spec_sample_line(s, ls[k]) {
            Err(e) => Err(e),
            Ok(smp) => match spec_sample_lines(s, ls, k + 1, cnt - 1) {
                Err(e) => Err(e),
                Ok(rest) => Ok(seq![smp] + rest),
            },
        }
    }
}

/// The clusters from line `k` on: a delta line, then one sample line per
/// sensor, repeated until the input ends.
pub open spec fn spec_clusters(s: Seq<char>, ls: Seq<LineSpan>, k: int, n: int) -> Result<
    Seq<ClusterV>,
    PErrV,
>
    decreases ls.len() - k,
    when 0 <= k <= ls.len() && 0 <= n
{
    if k >= ls.len() {
        Ok(seq![])
    } else {
        match spec_delta_line(s, ls[k]) {
            Err(e) => Err(e),
            Ok(delta) => match spec_sample_lines(s, ls, k + 1, n) {
                Err(e) => Err(e),
                Ok(samples) => {
                    let k2 = if k + 1 + n <= ls.len() {
                        k + 1 + n
                    } else {
                        ls.len() as int
                    };
                    match spec_clusters(s, ls, k2, n) {
                        Err(e) => Err(e),
                        Ok(rest) => Ok(seq![ClusterV { delta, samples }] + rest),
                    }
                },
            },
        }
    }
}

/// Checks that line `l` is enclosed in `open` and `close` and returns the
/// bounds of its inner content.
fn block(v: &Vec<char>, l: Line, open: &str, close: &str) -> (r: Option<(usize, usize)>)
    requires
        l@.start <= l@.end <= v@.len(),
    ensures
        match r {
            Some((a, b)) => spec_block(v@, l@, open@, close@) == Some((a as int, b as int)),
            None => spec_block(v@, l@, open@, close@) is None,
        },
{
    let olen = open.unicode_len();
    let clen = close.unicode_len();
    let width = l.end - l.start;
    if width < olen || width - olen < clen {
        return None;
    }
    if !range_eq_lit(v, l.start, l.start + olen, open) {
        return None;
    }
    if !range_eq_lit(v, l.end - clen, l.end, close) {
        return None;
    }
    Some((l.start + olen, l.end - clen))
}

/// The strings a `BITS` value may be.
fn bits_values() -> (r: Vec<&'static str>)
    ensures
        strs_view(r@) == seq!["8"@, "16"@, "32"@],
{
    let r: Vec<&'static str> = vec!["8", "16", "32"];
    proof {
        assert(strs_view(r@) =~= seq!["8"@, "16"@, "32"@]);
    }
    r
}

/// The strings a `CLOCK` value may be.
fn clock_values() -> (r: Vec<&'static str>)
    ensures
        strs_view(r@) == seq!["milli"@, "micro"@],
{
    let r: Vec<&'static str> = vec!["milli", "micro"];
    proof {
        assert(strs_view(r@) =~= seq!["milli"@, "micro"@]);
    }
    r
}

/// The strings an accelerometer range value may be.
fn accel_values() -> (r: Vec<&'static str>)
    ensures
        strs_view(r@) == seq!["2"@, "4"@, "8"@, "16"@],
{
    let r: Vec<&'static str> = vec!["2", "4", "8", "16"];
    proof {
        assert(strs_view(r@) =~= seq!["2"@, "4"@, "8"@, "16"@]);
    }
    r
}

/// The strings a gyroscope range value may be.
fn gyro_values() -> (r: Vec<&'static str>)
    ensures
        strs_view(r@) == seq!["250"@, "500"@, "1000"@, "2000"@],
{
    let r: Vec<&'static str> = vec!["250", "500", "1000", "2000"];
    proof {
        assert(strs_view(r@) =~= seq!["250"@, "500"@, "1000"@, "2000"@]);
    }
    r
}

/// Parses a config line held in `[l.start, l.end)` of the source.
fn config_line(s: &str, v: &Vec<char>, l: Line) -> (r: Result<Config, ParsingError>)
    requires
        v@ == s@,
        l@.start <= l@.end <= v@.len(),
    ensures
        match r {
            Ok(c) => spec_config_line(v@, l@) == Ok::<Config, PErrV>(c),
            Err(e) => spec_config_line(v@, l@) == Err::<Config, PErrV>(e@),
        },
{
    let (a, b) = match block(v, l, "?[", "]") {
        Some(ab) => ab,
        None => {
            return Err(
                InnerParsingError::TokenUnexpected {
                    expected: "?[...]".to_owned(),
                    found: s.substring_char(l.start, l.end).to_owned(),
                }.at(l.num),
            );
        },
    };
    let toks = scan_tokens(v, a, b);
    let ghost tv = spans_view(toks@);
    let ghost init = CfgAcc { bits: None, clock: None, accel: None, gyro: None };
    let mut bits: Option<Bits> = None;
    let mut clock: Option<Clock> = None;
    let mut accel: Option<AccelSR> = None;
    let mut gyro: Option<GyroSR> = None;
    let mut k: usize = 0;
    while k < toks.len()
        invariant
            v@ == s@,
            k <= toks@.len(),
            tv == spans_view(toks@),
            tv == spec_tokens(v@, a as int, b as int),
            spec_block(v@, l@, "?["@, "]"@) == Some((a as int, b as int)),
            init == (CfgAcc { bits: None, clock: None, accel: None, gyro: None }),
            a <= b <= v@.len(),
            forall|j: int| 0 <= j < toks@.len() ==> a <= (#[trigger] toks@[j]).0 < toks@[j].1 <= b,
            spec_config_tokens(v@, tv, 0, init) == spec_config_tokens(
                v@,
                tv,
                k as int,
                CfgAcc { bits, clock, accel, gyro },
            ),
        decreases toks@.len() - k,
    {
        let ghost acc0 = CfgAcc { bits, clock, accel, gyro };
        let (ta, tb) = (toks[k].0, toks[k].1);
        assert(tv[k as int] == (ta as int, tb as int));
        let mut eqp: usize = ta;
        while eqp < tb && v[eqp] != '='
            invariant
                ta <= eqp <= tb <= v@.len(),
                find_eq(v@, ta as int, tb as int) == find_eq(v@, eqp as int, tb as int),
            decreases tb - eqp,
        {
            eqp += 1;
        }
        assert(find_eq(v@, ta as int, tb as int) == eqp as int);
        if eqp == tb {
            return Err(
                InnerParsingError::TokenUnexpected {
                    expected: "KEY=VALUE".to_owned(),
                    found: s.substring_char(ta, tb).to_owned(),
                }.at(l.num),
            );
        }
        let ghost keyv = v@.subrange(ta as int, eqp as int);
        let ghost valv = v@.subrange(eqp as int + 1, tb as int);
        let val = s.substring_char(eqp + 1, tb);
        assert(val@ == valv);
        if range_eq_lit(v, ta, eqp, "BITS") {
            match Bits::from_str(val) {
                None => {
                    return Err(
                        InnerParsingError::ConfigUnsupportedValue {
                            value: val.to_owned(),
                            key: s.substring_char(ta, eqp).to_owned(),
                            valid_values: bits_values(),
                        }.at(l.num),
                    );
                },
                Some(x) => {
                    if bits.is_some() {
                        return Err(InnerParsingError::ConfigDuplicate("BITS").at(l.num));
                    }
                    bits = Some(x);
                },
            }
        } else if range_eq_lit(v, ta, eqp, "CLOCK") {
            match Clock::from_str(val) {
                None => {
                    return Err(
                        InnerParsingError::ConfigUnsupportedValue {
                            value: val.to_owned(),
                            key: s.substring_char(ta, eqp).to_owned(),
                            valid_values: clock_values(),
                        }.at(l.num),
                    );
                },
                Some(x) => {
                    if clock.is_some() {
                        return Err(InnerParsingError::ConfigDuplicate("CLOCK").at(l.num));
                    }
                    clock = Some(x);
                },
            }
        } else if range_eq_lit(v, ta, eqp, "ACCEL_SR") || range_eq_lit(v, ta, eqp, "ACC_FS") {
            match AccelSR::from_str(val) {
                None => {
                    return Err(
                        InnerParsingError::ConfigUnsupportedValue {
                            value: val.to_owned(),
                            key: s.substring_char(ta, eqp).to_owned(),
                            valid_values: accel_values(),
                        }.at(l.num),
                    );
                },
                Some(x) => {
                    if accel.is_some() {
                        return Err(InnerParsingError::ConfigDuplicate("ACCEL_SR").at(l.num));
                    }
                    accel = Some(x);
                },
            }
        } else if range_eq_lit(v, ta, eqp, "GYRO_SR") || range_eq_lit(v, ta, eqp, "GYRO_FS") {
            match GyroSR::from_str(val) {
                None => {
                    return Err(
                        InnerParsingError::ConfigUnsupportedValue {
                            value: val.to_owned(),
                            key: s.substring_char(ta, eqp).to_owned(),
                            valid_values: gyro_values(),
                        }.at(l.num),
                    );
                },
                Some(x) => {
                    if gyro.is_some() {
                        return Err(InnerParsingError::ConfigDuplicate("GYRO_SR").at(l.num));
                    }
                    gyro = Some(x);
                },
            }
        } else {
            return Err(
                InnerParsingError::ConfigUnknownKey(s.substring_char(ta, eqp).to_owned()).at(l.num),
            );
        }
        proof {
            assert(spec_config_tokens(v@, tv, k as int, acc0) == spec_config_tokens(
                v@,
                tv,
                k as int + 1,
                CfgAcc { bits, clock, accel, gyro },
            ));
        }
        k += 1;
    }
    let c = match clock {
        Some(c) => c,
        None => {
            return Err(InnerParsingError::ConfigMissing("CLOCK").at(l.num));
        },
    };
    let g = match gyro {
        Some(g) => g,
        None => {
            return Err(InnerParsingError::ConfigMissing("GYRO_SR").at(l.num));
        },
    };
    let asr = match accel {
        Some(x) => x,
        None => {
            return Err(InnerParsingError::ConfigMissing("ACCEL_SR").at(l.num));
        },
    };
    let bt = match bits {
        Some(b) => b,
        None => Bits::_16,
    };
    Ok(Config { bits: bt, clock: c, accel_sr: asr, gyro_sr: g })
}

/// Parses the whitespace-separated sensor names in `[a, b)` of the source.
fn sensors_range(s: &str, v: &Vec<char>, a: usize, b: usize) -> (r: Result<
    Vec<Sensor>,
    InnerParsingError,
>)
    requires
        v@ == s@,
        a <= b <= v@.len(),
    ensures
        match r {
            Ok(names) => spec_parse_sensors(v@, a as int, b as int) == Ok::<
                Seq<Seq<char>>,
                ErrV,
            >(strings_view(names@)),
            Err(e) => spec_parse_sensors(v@, a as int, b as int) == Err::<Seq<Seq<char>>, ErrV>(e@),
        },
{
    let toks = scan_tokens(v, a, b);
    let ghost tv = spans_view(toks@);
    let mut names: Vec<Sensor> = Vec::new();
    let mut k: usize = 0;
    assert(strings_view(names@) =~= Seq::<Seq<char>>::empty());
    while k < toks.len()
        invariant
            v@ == s@,
            k <= toks@.len(),
            tv == spans_view(toks@),
            a <= b <= v@.len(),
            forall|j: int| 0 <= j < toks@.len() ==> a <= (#[trigger] toks@[j]).0 < toks@[j].1 <= b,
            tv == spec_tokens(v@, a as int, b as int),
            spec_sensor_tokens(v@, tv, 0, seq![]) == spec_sensor_tokens(
                v@,
                tv,
                k as int,
                strings_view(names@),
            ),
        decreases toks@.len() - k,
    {
        let (ta, tb) = (toks[k].0, toks[k].1);
        assert(tv[k as int] == (ta as int, tb as int));
        let name = s.substring_char(ta, tb);
        let ghost namev = v@.subrange(ta as int, tb as int);
        assert(name@ == namev);
        let mut dup = false;
        let mut j: usize = 0;
        while j < names.len()
            invariant
                j <= names@.len(),
                dup == exists|x: int| 0 <= x < j && strings_view(names@)[x] == name@,
                forall|x: int|
                    0 <= x < names@.len() ==> strings_view(names@)[x] == (
                    #[trigger] names@[x])@,
            decreases names@.len() - j,
        {
            if crate::raw::str_eq_lit(names[j].as_str(), name) {
                dup = true;
                assert(strings_view(names@)[j as int] == name@);
            }
            j += 1;
        }
        if dup {
            return Err(InnerParsingError::SensorNameDuplicate(name.to_owned()));
        }
        let ghost prev = names@;
        names.push(name.to_owned());
        assert(strings_view(names@) =~= strings_view(prev).push(namev));
        k += 1;
    }
    Ok(names)
}

/// Parses a reference line held in `[l.start, l.end)` of the source.
fn reference_line(s: &str, v: &Vec<char>, l: Line) -> (r: Result<Vec<Sensor>, ParsingError>)
    requires
        v@ == s@,
        l@.start <= l@.end <= v@.len(),
    ensures
        match r {
            Ok(names) => spec_reference_line(v@, l@) == Ok::<Seq<Seq<char>>, PErrV>(
                strings_view(names@),
            ),
            Err(e) => spec_reference_line(v@, l@) == Err::<Seq<Seq<char>>, PErrV>(e@),
        },
{
    let (a, b) = match block(v, l, "&[", "]") {
        Some(ab) => ab,
        None => {
            return Err(
                InnerParsingError::TokenUnexpected {
                    expected: "&[...]".to_owned(),
                    found: s.substring_char(l.start, l.end).to_owned(),
                }.at(l.num),
            );
        },
    };
    match sensors_range(s, v, a, b) {
        Ok(names) => Ok(names),
        Err(e) => Err(e.at(l.num)),
    }
}

/// Parses the six whitespace-separated integers in `[a, b)` of the source.
fn sample_range(s: &str, v: &Vec<char>, a: usize, b: usize) -> (r: Result<
    Sample,
    InnerParsingError,
>)
    requires
        v@ == s@,
        a <= b <= v@.len(),
    ensures
        match r {
            Ok(smp) => spec_parse_sample(v@, a as int, b as int) == Ok::<Seq<i32>, ErrV>(smp@),
            Err(e) => spec_parse_sample(v@, a as int, b as int) == Err::<Seq<i32>, ErrV>(e@),
        },
{
    let toks = scan_tokens(v, a, b);
    let ghost tv = spans_view(toks@);
    let mut vals: Vec<i32> = Vec::new();
    let mut k: usize = 0;
    assert(vals@ =~= Seq::<i32>::empty());
    while k < 6
        invariant
            v@ == s@,
            k == vals@.len() <= 6,
            tv == spans_view(toks@),
            a <= b <= v@.len(),
            forall|j: int| 0 <= j < toks@.len() ==> a <= (#[trigger] toks@[j]).0 < toks@[j].1 <= b,
            tv == spec_tokens(v@, a as int, b as int),
            spec_sample_tokens(v@, tv, 0, seq![]) == spec_sample_tokens(v@, tv, k as int, vals@),
        decreases 6 - k,
    {
        if k >= toks.len() {
            return Err(InnerParsingError::TokenExpected("number".to_owned()));
        }
        let (ta, tb) = (toks[k].0, toks[k].1);
        assert(tv[k as int] == (ta as int, tb as int));
        match parse_i32_range(v, ta, tb) {
            Err(e) => {
                return Err(InnerParsingError::NumberParsing(e));
            },
            Ok(x) => {
                let ghost prev = vals@;
                vals.push(x);
                assert(vals@ =~= prev.push(x));
            },
        }
        k += 1;
    }
    if toks.len() > 6 {
        let (ta, tb) = (toks[6].0, toks[6].1);
        assert(tv[6] == (ta as int, tb as int));
        return Err(
            InnerParsingError::TokenUnexpected {
                expected: "]".to_owned(),
                found: s.substring_char(ta, tb).to_owned(),
            },
        );
    }
    let smp: Sample = [vals[0], vals[1], vals[2], vals[3], vals[4], vals[5]];
    assert(smp@ =~= vals@);
    Ok(smp)
}

/// Parses a sample line held in `[l.start, l.end)` of the source.
fn sample_line(s: &str, v: &Vec<char>, l: Line) -> (r: Result<Sample, ParsingError>)
    requires
        v@ == s@,
        l@.start <= l@.end <= v@.len(),
    ensures
        match r {
            Ok(smp) => spec_sample_line(v@, l@) == Ok::<Seq<i32>, PErrV>(smp@),
            Err(e) => spec_sample_line(v@, l@) == Err::<Seq<i32>, PErrV>(e@),
        },
{
    let (a, b) = match block(v, l, "[", "]") {
        Some(ab) => ab,
        None => {
            return Err(
                InnerParsingError::TokenUnexpected {
                    expected: "[...]".to_owned(),
                    found: s.substring_char(l.start, l.end).to_owned(),
                }.at(l.num),
            );
        },
    };
    match sample_range(s, v, a, b) {
        Ok(smp) => Ok(smp),
        Err(e) => Err(e.at(l.num)),
    }
}

/// Parses a delta-time line held in `[l.start, l.end)` of the source.
fn delta_line(v: &Vec<char>, l: Line) -> (r: Result<u32, ParsingError>)
    requires
        l@.start <= l@.end <= v@.len(),
    ensures
        match r {
            Ok(d) => spec_delta_line(v@, l@) == Ok::<u32, PErrV>(d),
            Err(e) => spec_delta_line(v@, l@) == Err::<u32, PErrV>(e@),
        },
{
    match parse_u32_range(v, l.start, l.end) {
        Ok(d) => Ok(d),
        Err(e) => Err(InnerParsingError::NumberParsing(e).at(l.num)),
    }
}

/// Parses a whole capture text into its configuration, sensor names, and raw
/// sample clusters.
pub fn raw_parse(source: &str) -> (r: Result<File, ParsingError>)
    requires
        source@.len() < usize::MAX,
    ensures
        match r {
            Ok(f) => spec_raw_parse(source@) == Ok::<FileV, PErrV>(f@) && f@.wf(),
            Err(e) => spec_raw_parse(source@) == Err::<FileV, PErrV>(e@),
        },
{
    let v = to_chars(source);
    let ls = scan_lines(&v);
    let ghost lsv = spec_lines(v@);
    proof {
        lemma_lines_at_bounds(v@, 0, 1);
    }
    assert(forall|i: int| 0 <= i < ls@.len() ==> (#[trigger] ls@[i])@ == lsv[i]);
    if ls.len() == 0 {
        return Err(InnerParsingError::TokenExpected("?[...]".to_owned()).without_line());
    }
    let l0 = ls[0];
    assert(l0@ == lsv[0]);
    let config = match config_line(source, &v, l0) {
        Ok(c) => c,
        Err(e) => {
            return Err(e);
        },
    };
    if ls.len() == 1 {
        return Err(InnerParsingError::TokenExpected("&[...]".to_owned()).without_line());
    }
    let l1 = ls[1];
    assert(l1@ == lsv[1]);
    let sensors = match reference_line(source, &v, l1) {
        Ok(names) => names,
        Err(e) => {
            return Err(e);
        },
    };
    let n = sensors.len();
    let mut clusters: Vec<Cluster> = Vec::new();
    let mut k: usize = 2;
    assert(clusters_view(clusters@) =~= Seq::<ClusterV>::empty());
    proof {
        match spec_clusters(v@, lsv, 2, n as int) {
            Ok(rest) => {
                assert(clusters_view(clusters@) + rest =~= rest);
            },
            Err(_) => {},
        }
    }
    while k < ls.len()
        invariant
            v@ == source@,
            2 <= k <= ls@.len(),
            ls@.len() < usize::MAX,
            lsv == spec_lines(v@),
            lsv.len() == ls@.len(),
            n == sensors@.len(),
            spec_config_line(v@, lsv[0]) == Ok::<Config, PErrV>(config),
            spec_reference_line(v@, lsv[1]) == Ok::<Seq<Seq<char>>, PErrV>(strings_view(sensors@)),
            forall|i: int| 0 <= i < ls@.len() ==> (#[trigger] ls@[i])@ == lsv[i],
            forall|i: int|
                0 <= i < lsv.len() ==> 0 <= (#[trigger] lsv[i]).start < lsv[i].end <= v@.len(),
            forall|i: int|
                0 <= i < clusters@.len() ==> {
                    &&& (#[trigger] clusters@[i])@.samples.len() == n
                    &&& forall|j: int|
                        0 <= j < clusters@[i]@.samples.len() ==> (
                        #[trigger] clusters@[i]@.samples[j]).len() == 6
                },
            match spec_clusters(v@, lsv, k as int, n as int) {
                Ok(rest) => spec_clusters(v@, lsv, 2, n as int) == Ok::<Seq<ClusterV>, PErrV>(
                    clusters_view(clusters@) + rest,
                ),
                Err(e) => spec_clusters(v@, lsv, 2, n as int) == Err::<Seq<ClusterV>, PErrV>(e),
            },
        decreases ls@.len() - k,
    {
        let lk = ls[k];
        assert(lk@ == lsv[k as int]);
        let delta = match delta_line(&v, lk) {
            Ok(d) => d,
            Err(e) => {
                return Err(e);
            },
        };
        let mut samples: Vec<Sample> = Vec::new();
        let mut m: usize = k + 1;
        let mut i: usize = 0;
        assert(samples_view(samples@) =~= Seq::<Seq<i32>>::empty());
        proof {
            match spec_sample_lines(v@, lsv, m as int, n as int) {
                Ok(rest) => {
                    assert(samples_view(samples@) + rest =~= rest);
                },
                Err(_) => {},
            }
        }
        while i < n
            invariant
                v@ == source@,
                i <= n,
                n == sensors@.len(),
                m == k + 1 + i,
                2 <= k < ls@.len(),
                m <= ls@.len(),
                ls@.len() < usize::MAX,
                lsv == spec_lines(v@),
                lsv.len() == ls@.len(),
                spec_config_line(v@, lsv[0]) == Ok::<Config, PErrV>(config),
                spec_reference_line(v@, lsv[1]) == Ok::<Seq<Seq<char>>, PErrV>(
                    strings_view(sensors@),
                ),
                spec_delta_line(v@, lsv[k as int]) == Ok::<u32, PErrV>(delta),
                match spec_clusters(v@, lsv, k as int, n as int) {
                    Ok(rest) => spec_clusters(v@, lsv, 2, n as int) == Ok::<Seq<ClusterV>, PErrV>(
                        clusters_view(clusters@) + rest,
                    ),
                    Err(e) => spec_clusters(v@, lsv, 2, n as int) == Err::<Seq<ClusterV>, PErrV>(e),
                },
                forall|x: int| 0 <= x < ls@.len() ==> (#[trigger] ls@[x])@ == lsv[x],
                forall|x: int|
                    0 <= x < lsv.len() ==> 0 <= (#[trigger] lsv[x]).start < lsv[x].end <= v@.len(),
                samples@.len() == i,
                forall|x: int|
                    0 <= x < samples@.len() ==> (#[trigger] samples_view(samples@)[x]).len() == 6,
                match spec_sample_lines(v@, lsv, m as int, n - i) {
                    Ok(rest) => spec_sample_lines(v@, lsv, k + 1, n as int) == Ok::<
                        Seq<Seq<i32>>,
                        PErrV,
                    >(samples_view(samples@) + rest),
                    Err(e) => spec_sample_lines(v@, lsv, k + 1, n as int) == Err::<
                        Seq<Seq<i32>>,
                        PErrV,
                    >(e),
                },
            decreases n - i,
        {
            if m >= ls.len() {
                return Err(InnerParsingError::TokenExpected("[...]".to_owned()).without_line());
            }
            let lm = ls[m];
            assert(lm@ == lsv[m as int]);
            let smp = match sample_line(source, &v, lm) {
                Ok(x) => x,
                Err(e) => {
                    return Err(e);
                },
            };
            let ghost prev = samples@;
            samples.push(smp);
            proof {
                assert(samples_view(samples@) =~= samples_view(prev).push(smp@));
                match spec_sample_lines(v@, lsv, m as int + 1, n - i - 1) {
                    Ok(rest1) => {
                        assert(samples_view(prev).push(smp@) + rest1 =~= samples_view(prev) + (
                        seq![smp@] + rest1));
                    },
                    Err(_) => {},
                }
            }
            i += 1;
            m += 1;
        }
        assert(samples_view(samples@) + Seq::<Seq<i32>>::empty() =~= samples_view(samples@));
        assert(m == k + 1 + n <= ls@.len());
        let ghost prevc = clusters@;
        let ghost sv = samples_view(samples@);
        let cluster = Cluster { delta, samples };
        assert(cluster@.samples =~= sv);
        clusters.push(cluster);
        proof {
            assert(clusters_view(clusters@) =~= clusters_view(prevc).push(cluster@));
            match spec_clusters(v@, lsv, m as int, n as int) {
                Ok(rest1) => {
                    assert(clusters_view(prevc).push(cluster@) + rest1 =~= clusters_view(prevc) + (
                    seq![cluster@] + rest1));
                },
                Err(_) => {},
            }
        }
        k = m;
    }
    assert(spec_clusters(v@, lsv, k as int, n as int) == Ok::<Seq<ClusterV>, PErrV>(seq![]));
    assert(clusters_view(clusters@) + Seq::<ClusterV>::empty() =~= clusters_view(clusters@));
    let f = File { config, sensors, clusters };
    proof {
        assert(f@.sensors =~= strings_view(f.sensors@));
        assert(f@.clusters =~= clusters_view(f.clusters@));
        assert(f@.wf());
        assert(spec_raw_parse(source@) == Ok::<FileV, PErrV>(f@));
    }
    Ok(f)
}

/// Parses a config line given as `(line number, text)`; a missing line is the
/// end-of-input failure.
pub fn parse_config(source: Option<(usize, &str)>) -> (r: Result<Config, ParsingError>)
    ensures
        match source {
            None => r matches Err(e) && e@ == PErrV::no_line(ErrV::TokenExpected("?[...]"@)),
            Some((num, text)) => {
                let l = LineSpan { num: num as int, start: 0, end: text@.len() as int };
                match r {
                    Ok(c) => spec_config_line(text@, l) == Ok::<Config, PErrV>(c),
                    Err(e) => spec_config_line(text@, l) == Err::<Config, PErrV>(e@),
                }
            },
        },
{
    match source {
        None => Err(InnerParsingError::TokenExpected("?[...]".to_owned()).without_line()),
        Some((num, text)) => {
            let v = to_chars(text);
            let n = v.len();
            config_line(text, &v, Line { num, start: 0, end: n })
        },
    }
}

/// Parses a reference line given as `(line number, text)`; a missing line is
/// the end-of-input failure.
pub fn parse_references(source: Option<(usize, &str)>) -> (r: Result<Vec<Sensor>, ParsingError>)
    ensures
        match source {
            None => r matches Err(e) && e@ == PErrV::no_line(ErrV::TokenExpected("&[...]"@)),
            Some((num, text)) => {
                let l = LineSpan { num: num as int, start: 0, end: text@.len() as int };
                match r {
                    Ok(names) => spec_reference_line(text@, l) == Ok::<Seq<Seq<char>>, PErrV>(
                        strings_view(names@),
                    ),
                    Err(e) => spec_reference_line(text@, l) == Err::<Seq<Seq<char>>, PErrV>(e@),
                }
            },
        },
{
    match source {
        None => Err(InnerParsingError::TokenExpected("&[...]".to_owned()).without_line()),
        Some((num, text)) => {
            let v = to_chars(text);
            let n = v.len();
            reference_line(text, &v, Line { num, start: 0, end: n })
        },
    }
}

/// Parses the inner content of a reference line: whitespace-separated sensor
/// names, each distinct.
pub fn parse_sensors(source: &str) -> (r: Result<Vec<Sensor>, InnerParsingError>)
    ensures
        match r {
            Ok(names) => spec_parse_sensors(source@, 0, source@.len() as int) == Ok::<
                Seq<Seq<char>>,
                ErrV,
            >(strings_view(names@)),
            Err(e) => spec_parse_sensors(source@, 0, source@.len() as int) == Err::<
                Seq<Seq<char>>,
                ErrV,
            >(e@),
        },
{
    let v = to_chars(source);
    let n = v.len();
    sensors_range(source, &v, 0, n)
}

/// Parses the inner content of a sample block: exactly six integers.
pub fn parse_sample(source: &str) -> (r: Result<Sample, InnerParsingError>)
    ensures
        match r {
            Ok(smp) => spec_parse_sample(source@, 0, source@.len() as int) == Ok::<
                Seq<i32>,
                ErrV,
            >(smp@),
            Err(e) => spec_parse_sample(source@, 0, source@.len() as int) == Err::<
                Seq<i32>,
                ErrV,
            >(e@),
        },
{
    let v = to_chars(source);
    let n = v.len();
    sample_range(source, &v, 0, n)
}

/// Parses a delta-time line and scales it into microseconds with the clock
/// unit.
pub fn parse_duration(source: &str, clock: &Clock) -> (r: Result<u64, InnerParsingError>)
    ensures
        match spec_parse_u32(source@) {
            Ok(x) => r matches Ok(d) && d == clock.spec_duration(x),
            Err(e) => r matches Err(err) && err@ == ErrV::NumberParsing(e),
        },
{
    let v = to_chars(source);
    let n = v.len();
    assert(v@.subrange(0, n as int) =~= source@);
    match parse_u32_range(&v, 0, n) {
        Ok(x) => Ok(clock.duration(x)),
        Err(e) => Err(InnerParsingError::NumberParsing(e)),
    }
}

/// The whole grammar: config line, reference line, then clusters.
pub open spec fn spec_raw_parse(s: Seq<char>) -> Result<FileV, PErrV> {
    let ls = spec_lines(s);
    if ls.len() == 0 {
        Err(PErrV::no_line(ErrV::TokenExpected("?[...]"@)))
    } else {
        match spec_config_line(s, ls[0]) {
            Err(e) => Err(e),
            Ok(config) => {
                if ls.len() == 1 {
                    Err(PErrV::no_line(ErrV::TokenExpected("&[...]"@)))
                } else {
                    match spec_reference_line(s, ls[1]) {
                        Err(e) => Err(e),
                        Ok(sensors) => match spec_clusters(s, ls, 2, sensors.len() as int) {
                            Err(e) => Err(e),
                            Ok(clusters) => Ok(FileV { config, sensors, clusters }),
                        },
                    }
                }
            },
        }
    }
}

} // verus!
