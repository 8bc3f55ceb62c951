use vstd::prelude::*;
use std::time::Duration;
use crate::bridge::{BridgeConfig, DeviceKind, kind_name};
use crate::text::same_text;

verus! {

/// The duration of `ms` milliseconds.
pub uninterp spec fn millis_duration(ms: u64) -> Duration;

/// `Duration::from_millis`: a duration of exactly `ms` milliseconds; the
/// value is named, not described further.
#[verifier::external_body]
fn duration_from_millis(ms: u64) -> (d: Duration)
    ensures
        d == millis_duration(ms),
{
    Duration::from_millis(ms)
}

/// Oracle settings of the runtime configuration.
#[derive(Clone, Debug)]
pub struct OracleSection {
    pub timeout_ms: u64,
}

impl Default for OracleSection {
    fn default() -> (o: Self)
        ensures
            o.timeout_ms == 50,
    {
        OracleSection { timeout_ms: 50 }
    }
}

impl OracleSection {
    pub fn timeout(&self) -> (d: Duration)
        ensures
            d == millis_duration(self.timeout_ms),
    {
        duration_from_millis(self.timeout_ms)
    }
}

/// The device kind a configuration name denotes, if any.
pub open spec fn kind_of_name(s: Seq<char>) -> Option<DeviceKind> {
    if s == kind_name(DeviceKind::Cpu) {
        Some(DeviceKind::Cpu)
    } else if s == kind_name(DeviceKind::Gpu) {
        Some(DeviceKind::Gpu)
    } else if s == kind_name(DeviceKind::Fpga) {
        Some(DeviceKind::Fpga)
    } else if s == kind_name(DeviceKind::QuantumAnnealer) {
        Some(DeviceKind::QuantumAnnealer)
    } else if s == kind_name(DeviceKind::CpuEmulator) {
        Some(DeviceKind::CpuEmulator)
    } else {
        None
    }
}

/// Parse a configuration device name (`cpu`, `gpu`, `fpga`,
/// `quantum_annealer`, `cpu_emulator`).
pub fn parse_kind(s: &str) -> (r: Option<DeviceKind>)
    ensures
        r == kind_of_name(s@),
{
    if same_text(s, DeviceKind::Cpu.as_str()) {
        Some(DeviceKind::Cpu)
    } else if same_text(s, DeviceKind::Gpu.as_str()) {
        Some(DeviceKind::Gpu)
    } else if same_text(s, DeviceKind::Fpga.as_str()) {
        Some(DeviceKind::Fpga)
    } else if same_text(s, DeviceKind::QuantumAnnealer.as_str()) {
        Some(DeviceKind::QuantumAnnealer)
    } else if same_text(s, DeviceKind::CpuEmulator.as_str()) {
        Some(DeviceKind::CpuEmulator)
    } else {
        None
    }
}

/// The recognised kinds among `names`, in order; unknown names are dropped.
pub open spec fn kinds_of_names(names: Seq<String>) -> Seq<DeviceKind>
    decreases names.len(),
{
    if names.len() == 0 {
        Seq::empty()
    } else {
        let rest = kinds_of_names(names.drop_last());
        match kind_of_name(names.last()@) {
            Some(k) => rest.push(k),
            None => rest,
        }
    }
}

fn parse_kinds(names: &Vec<String>) -> (r: Vec<DeviceKind>)
    ensures
        r@ == kinds_of_names(names@),
{
    let mut out: Vec<DeviceKind> = Vec::new();
    let mut i: usize = 0;
    while i < names.len()
        invariant
            i <= names@.len(),
            out@ == kinds_of_names(names@.take(i as int)),
        decreases names@.len() - i,
    {
        assert(names@.take(i + 1).drop_last() =~= names@.take(i as int));
        if let Some(k) = parse_kind(names[i].as_str()) {
            out.push(k);
        }
        i = i + 1;
    }
    assert(names@.take(names@.len() as int) =~= names@);
    out
}

/// Bridge settings of the runtime configuration, with device kinds by name.
#[derive(Clone, Debug)]
pub struct BridgeSection {
    pub ctc_preference: Vec<String>,
    pub classical_preference: Vec<String>,
    pub cpu_ns_per_unknown: u64,
    pub gpu_ns_per_unknown: u64,
    pub fpga_ns_per_unknown: u64,
    pub annealer_ns_per_unknown: u64,
    pub emulator_ns_per_unknown: u64,
    pub ctc_offload_min_dim: usize,
}

impl BridgeSection {
    pub fn to_bridge_config(&self) -> (c: BridgeConfig)
        ensures
            c.ctc_preference@ == kinds_of_names(self.ctc_preference@),
            c.classical_preference@ == kinds_of_names(self.classical_preference@),
            c.cpu_ns_per_unknown == self.cpu_ns_per_unknown,
            c.gpu_ns_per_unknown == self.gpu_ns_per_unknown,
            c.fpga_ns_per_unknown == self.fpga_ns_per_unknown,
            c.annealer_ns_per_unknown == self.annealer_ns_per_unknown,
            c.emulator_ns_per_unknown == self.emulator_ns_per_unknown,
            c.ctc_offload_min_dim == self.ctc_offload_min_dim,
    {
        BridgeConfig {
            ctc_preference: parse_kinds(&self.ctc_preference),
            classical_preference: parse_kinds(&self.classical_preference),
            cpu_ns_per_unknown: self.cpu_ns_per_unknown,
            gpu_ns_per_unknown: self.gpu_ns_per_unknown,
            fpga_ns_per_unknown: self.fpga_ns_per_unknown,
            annealer_ns_per_unknown: self.annealer_ns_per_unknown,
            emulator_ns_per_unknown: self.emulator_ns_per_unknown,
            ctc_offload_min_dim: self.ctc_offload_min_dim,
        }
    }
}

/// Every device kind reads back from its configuration name.
pub proof fn lemma_kind_name_roundtrip(k: DeviceKind)
    ensures
        kind_of_name(kind_name(k)) == Some(k),
{
    reveal_strlit("cpu");
    reveal_strlit("gpu");
    reveal_strlit("fpga");
    reveal_strlit("quantum_annealer");
    reveal_strlit("cpu_emulator");
    assert("cpu"@.len() == 3 && "gpu"@.len() == 3 && "fpga"@.len() == 4);
    assert("quantum_annealer"@.len() == 16 && "cpu_emulator"@.len() == 12);
    assert("cpu"@[0] != "gpu"@[0]);
}

} // verus!
