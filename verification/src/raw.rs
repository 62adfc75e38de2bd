//! The raw capture data model: capture-wide configuration constants and the
//! integer sample clusters exactly as the text format records them.

use vstd::prelude::*;

verus! {

/// A sensor is identified by its name, under which its stream is recorded and
/// later matched against a skeleton joint of the same name.
pub type Sensor = String;

/// One raw sample: six ADC counts, `[ax, ay, az, gx, gy, gz]`.
pub type Sample = [i32; 6];

/// One time step of a capture: the elapsed-time delta of the step and one raw
/// sample per sensor, in reference-line order.
#[derive(Debug, Clone, PartialEq, Eq)]
pub struct Cluster {
    pub delta: u32,
    pub samples: Vec<Sample>,
}

/// A parsed capture file: the configuration, the sensor names in reference
/// order, and the sample clusters in capture order.
#[derive(Debug, Clone, PartialEq, Eq)]
pub struct File {
    pub config: Config,
    pub sensors: Vec<Sensor>,
    pub clusters: Vec<Cluster>,
}

/// Capture-wide constants, immutable once parsed: raw bit width, clock unit,
/// and the two full-scale ranges used to rescale raw integers.
#[derive(Debug, Clone, Copy, PartialEq, Eq, Hash, Structural)]
pub struct Config {
    pub bits: Bits,
    pub clock: Clock,
    pub accel_sr: AccelSR,
    pub gyro_sr: GyroSR,
}

/// Spec-level value of a cluster.
pub struct ClusterV {
    pub delta: u32,
    pub samples: Seq<Seq<i32>>,
}

/// Spec-level value of a parsed capture file.
pub struct FileV {
    pub config: Config,
    pub sensors: Seq<Seq<char>>,
    pub clusters: Seq<ClusterV>,
}

impl View for Cluster {
    type V = ClusterV;

    open spec fn view(&self) -> ClusterV {
        ClusterV { delta: self.delta, samples: Seq::new(self.samples.len() as nat, |i: int| self.samples[i]@) }
    }
}

impl View for File {
    type V = FileV;

    open spec fn view(&self) -> FileV {
        FileV {
            config: self.config,
            sensors: Seq::new(self.sensors.len() as nat, |i: int| self.sensors[i]@),
            clusters: Seq::new(self.clusters.len() as nat, |i: int| self.clusters[i]@),
        }
    }
}

impl FileV {
    /// Structural soundness of a parsed capture: every cluster carries exactly
    /// one six-component sample per sensor.
    pub open spec fn wf(self) -> bool {
        forall|i: int| 0 <= i < self.clusters.len() ==> {
            &&& (#[trigger] self.clusters[i]).samples.len() == self.sensors.len()
            &&& forall|j: int| 0 <= j < self.clusters[i].samples.len()
                ==> (#[trigger] self.clusters[i].samples[j]).len() == 6
        }
    }
}

/// Bit width of the raw unsigned ADC samples.
#[derive(Debug, Clone, Copy, PartialEq, Eq, Hash, Structural)]
pub enum Bits {
    _8,
    _16,
    _32,
}

impl Bits {
    /// Which strings denote a supported bit width.
    pub open spec fn spec_from_str(s: Seq<char>) -> Option<Bits> {
        if s == "8"@ {
            Some(Bits::_8)
        } else if s == "16"@ {
            Some(Bits::_16)
        } else if s == "32"@ {
            Some(Bits::_32)
        } else {
            None
        }
    }

    pub fn from_str(val: &str) -> (r: Option<Self>)
        ensures
            r == Self::spec_from_str(val@),
    {
        if str_eq_lit(val, "8") {
            Some(Bits::_8)
        } else if str_eq_lit(val, "16") {
            Some(Bits::_16)
        } else if str_eq_lit(val, "32") {
            Some(Bits::_32)
        } else {
            None
        }
    }

    /// The numeric bit width.
    pub open spec fn spec_as_u8(&self) -> u8 {
        match self {
            Bits::_8 => 8,
            Bits::_16 => 16,
            Bits::_32 => 32,
        }
    }

    pub fn as_u8(&self) -> (r: u8)
        ensures
            r == self.spec_as_u8(),
    {
        match self {
            Bits::_8 => 8,
            Bits::_16 => 16,
            Bits::_32 => 32,
        }
    }
}

/// Accelerometer full-scale range, in g.
#[derive(Debug, Clone, Copy, PartialEq, Eq, Hash, Structural)]
pub enum AccelSR {
    _2,
    _4,
    _8,
    _16,
}

impl AccelSR {
    /// Which strings denote a supported accelerometer range.
    pub open spec fn spec_from_str(s: Seq<char>) -> Option<AccelSR> {
        if s == "2"@ {
            Some(AccelSR::_2)
        } else if s == "4"@ {
            Some(AccelSR::_4)
        } else if s == "8"@ {
            Some(AccelSR::_8)
        } else if s == "16"@ {
            Some(AccelSR::_16)
        } else {
            None
        }
    }

    pub fn from_str(val: &str) -> (r: Option<Self>)
        ensures
            r == Self::spec_from_str(val@),
    {
        if str_eq_lit(val, "2") {
            Some(AccelSR::_2)
        } else if str_eq_lit(val, "4") {
            Some(AccelSR::_4)
        } else if str_eq_lit(val, "8") {
            Some(AccelSR::_8)
        } else if str_eq_lit(val, "16") {
            Some(AccelSR::_16)
        } else {
            None
        }
    }

    /// The range in g, as an integer.
    pub open spec fn spec_range_g(&self) -> u32 {
        match self {
            AccelSR::_2 => 2,
            AccelSR::_4 => 4,
            AccelSR::_8 => 8,
            AccelSR::_16 => 16,
        }
    }

    pub fn range_g(&self) -> (r: u32)
        ensures
            r == self.spec_range_g(),
    {
        match self {
            AccelSR::_2 => 2,
            AccelSR::_4 => 4,
            AccelSR::_8 => 8,
            AccelSR::_16 => 16,
        }
    }
}

/// Gyroscope full-scale range, in degrees per second.
#[derive(Debug, Clone, Copy, PartialEq, Eq, Hash, Structural)]
pub enum GyroSR {
    _250,
    _500,
    _1000,
    _2000,
}

impl GyroSR {
    /// Which strings denote a supported gyroscope range.
    pub open spec fn spec_from_str(s: Seq<char>) -> Option<GyroSR> {
        if s == "250"@ {
            Some(GyroSR::_250)
        } else if s == "500"@ {
            Some(GyroSR::_500)
        } else if s == "1000"@ {
            Some(GyroSR::_1000)
        } else if s == "2000"@ {
            Some(GyroSR::_2000)
        } else {
            None
        }
    }

    pub fn from_str(val: &str) -> (r: Option<Self>)
        ensures
            r == Self::spec_from_str(val@),
    {
        if str_eq_lit(val, "250") {
            Some(GyroSR::_250)
        } else if str_eq_lit(val, "500") {
            Some(GyroSR::_500)
        } else if str_eq_lit(val, "1000") {
            Some(GyroSR::_1000)
        } else if str_eq_lit(val, "2000") {
            Some(GyroSR::_2000)
        } else {
            None
        }
    }

    /// The range in degrees per second, as an integer.
    pub open spec fn spec_range_deg(&self) -> u32 {
        match self {
            GyroSR::_250 => 250,
            GyroSR::_500 => 500,
            GyroSR::_1000 => 1000,
            GyroSR::_2000 => 2000,
        }
    }

    pub fn range_deg(&self) -> (r: u32)
        ensures
            r == self.spec_range_deg(),
    {
        match self {
            GyroSR::_250 => 250,
            GyroSR::_500 => 500,
            GyroSR::_1000 => 1000,
            GyroSR::_2000 => 2000,
        }
    }
}

/// The unit in which delta-time lines are expressed.
#[derive(Debug, Clone, Copy, PartialEq, Eq, Hash, Structural)]
pub enum Clock {
    Milli,
    Micro,
}

/// Whether `s` equals `lit` up to ASCII case, where `lit` is already in
/// lower case.
pub open spec fn matches_ci(s: Seq<char>, lit: Seq<char>) -> bool {
    &&& s.len() == lit.len()
    &&& forall|i: int| 0 <= i < s.len() ==> char_matches_ci(#[trigger] s[i], lit[i])
}

/// Whether `c` is `l` or its upper-case ASCII form, where `l` is a lower-case
/// ASCII letter or any other character.
pub open spec fn char_matches_ci(c: char, l: char) -> bool {
    ||| c == l
    ||| (97 <= l as int <= 122 && c as int == l as int - 32)
}

/// Case-insensitive comparison of a string against a lower-case literal.
pub fn str_eq_lit_ci(s: &str, lit: &str) -> (r: bool)
    ensures
        r == matches_ci(s@, lit@),
{
    let slen = s.unicode_len();
    let llen = lit.unicode_len();
    if slen != llen {
        return false;
    }
    let mut i: usize = 0;
    while i < slen
        invariant
            i <= slen,
            slen == s@.len(),
            slen == lit@.len(),
            forall|j: int| 0 <= j < i ==> char_matches_ci(#[trigger] s@[j], lit@[j]),
        decreases slen - i,
    {
        let c = s.get_char(i);
        let l = lit.get_char(i);
        let ok = c == l || (97 <= l as u32 && l as u32 <= 122 && c as u32 == l as u32 - 32);
        if !ok {
            assert(!char_matches_ci(s@[i as int], lit@[i as int]));
            return false;
        }
        i += 1;
    }
    true
}

impl Clock {
    /// Which strings denote a clock unit; the match ignores ASCII case.
    pub open spec fn spec_from_str(s: Seq<char>) -> Option<Clock> {
        if matches_ci(s, "milli"@) {
            Some(Clock::Milli)
        } else if matches_ci(s, "micro"@) {
            Some(Clock::Micro)
        } else {
            None
        }
    }

    pub fn from_str(val: &str) -> (r: Option<Self>)
        ensures
            r == Self::spec_from_str(val@),
    {
        if str_eq_lit_ci(val, "milli") {
            Some(Clock::Milli)
        } else if str_eq_lit_ci(val, "micro") {
            Some(Clock::Micro)
        } else {
            None
        }
    }

    /// A raw delta value expressed in microseconds.
    pub open spec fn spec_duration(&self, val: u32) -> u64 {
        match self {
            Clock::Milli => ((val as int) * 1000) as u64,
            Clock::Micro => val as u64,
        }
    }

    /// Converts one delta-time value into microseconds.
    pub fn duration(&self, val: u32) -> (r: u64)
        ensures
            r == self.spec_duration(val),
    {
        match self {
            Clock::Milli => val as u64 * 1000,
            Clock::Micro => val as u64,
        }
    }
}

/// The key names a config line may carry.
pub struct ConfigKey;

impl ConfigKey {
    pub const KEY_BITS: &'static str = "BITS";

    pub const KEY_CLOCK: &'static str = "CLOCK";

    pub const KEY_ACCEL_SR: &'static str = "ACCEL_SR";

    pub const KEY_GYRO_SR: &'static str = "GYRO_SR";

    /// Alternate spelling of the accelerometer range key.
    pub const KEY_ACC_FS: &'static str = "ACC_FS";

    /// Alternate spelling of the gyroscope range key.
    pub const KEY_GYRO_FS: &'static str = "GYRO_FS";
}

/// Compares two string slices for character-for-character equality of their
/// views.
pub fn str_eq_lit(a: &str, b: &str) -> (r: bool)
    ensures
        r == (a@ == b@),
{
    let alen = a.unicode_len();
    let blen = b.unicode_len();
    if alen != blen {
        assert(a@ != b@) by {
            assert(a@.len() != b@.len());
        }
        return false;
    }
    let mut i: usize = 0;
    while i < alen
        invariant
            i <= alen,
            alen == a@.len(),
            alen == b@.len(),
            forall|j: int| 0 <= j < i ==> a@[j] == b@[j],
        decreases alen - i,
    {
        if a.get_char(i) != b.get_char(i) {
            assert(a@ != b@) by {
                assert(a@[i as int] != b@[i as int]);
            }
            return false;
        }
        i += 1;
    }
    assert(a@ =~= b@);
    true
}

} // verus!
