//! The probe descriptors: which probe a daemon runs and under what name.
//! The process supervision and line reading run outside the crate; the
//! crate holds the descriptors and their registry names.

use vstd::prelude::*;

verus! {

/// The built-in native probe backends.
#[derive(Clone, Copy, PartialEq, Eq, Structural, Debug)]
pub enum ProbeType {
    Nvml,
    Cann,
}

/// A probe bound directly to an accelerator library.
pub struct NativeProbe {
    pub probe_type: ProbeType,
}

impl NativeProbe {
    pub fn new(probe_type: ProbeType) -> (r: NativeProbe)
        ensures
            r.probe_type == probe_type,
    {
        NativeProbe { probe_type }
    }

    /// The probe's registry name.
    pub fn name(&self) -> (r: &'static str)
        ensures
            self.probe_type is Nvml ==> r@ == "nvml-native"@,
            self.probe_type is Cann ==> r@ == "cann-native"@,
    {
        match self.probe_type {
            ProbeType::Nvml => "nvml-native",
            ProbeType::Cann => "cann-native",
        }
    }
}

/// A probe run as an external process emitting one JSON event per line.
pub struct SubprocessProbe {
    pub command: String,
    pub args: Vec<String>,
}

impl SubprocessProbe {
    pub fn new(command: String, args: Vec<String>) -> (r: SubprocessProbe)
        ensures
            r.command@ == command@,
            r.args@ == args@,
    {
        SubprocessProbe { command, args }
    }

    /// The probe's registry name.
    pub fn name(&self) -> (r: &'static str)
        ensures
            r@ == "subprocess"@,
    {
        "subprocess"
    }
}

} // verus!

// ---------------------------------------------------------------------------
// Address formatting for probe loaders.
// ---------------------------------------------------------------------------

verus! {

/// The dotted-quad text of an IPv4 address held as a big-endian `u32`.
pub open spec fn spec_ip_string(n: u32) -> Seq<char> {
    crate::strutil::dec_digits(n as int / 0x1000000) + "."@ + crate::strutil::dec_digits(
        n as int / 0x10000 % 0x100,
    ) + "."@ + crate::strutil::dec_digits(n as int / 0x100 % 0x100) + "."@
        + crate::strutil::dec_digits(n as int % 0x100)
}

/// Formats an IPv4 address held as a big-endian `u32`.
pub fn u32_to_ip_string(n: u32) -> (r: String)
    ensures
        r@ == spec_ip_string(n),
{
    let o1 = crate::strutil::u32_to_string(n / 0x1000000);
    let o2 = crate::strutil::u32_to_string(n / 0x10000 % 0x100);
    let o3 = crate::strutil::u32_to_string(n / 0x100 % 0x100);
    let o4 = crate::strutil::u32_to_string(n % 0x100);
    let r = o1.concat(".").concat(o2.as_str()).concat(".").concat(o3.as_str()).concat(".").concat(
        o4.as_str(),
    );
    proof {
        assert(r@ =~= spec_ip_string(n));
    }
    r
}

} // verus!
