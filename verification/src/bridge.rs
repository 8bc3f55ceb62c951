use vstd::prelude::*;
use vstd::string::StringExecFns;

verus! {

/// Kinds of compute unit the offload fabric can route to.
#[derive(Clone, Copy, Debug, PartialEq, Eq, Structural, Hash)]
pub enum DeviceKind {
    Cpu,
    Gpu,
    Fpga,
    QuantumAnnealer,
    CpuEmulator,
}

/// Configuration name of a device kind.
pub open spec fn kind_name(k: DeviceKind) -> Seq<char> {
    match k {
        DeviceKind::Cpu => "cpu"@,
        DeviceKind::Gpu => "gpu"@,
        DeviceKind::Fpga => "fpga"@,
        DeviceKind::QuantumAnnealer => "quantum_annealer"@,
        DeviceKind::CpuEmulator => "cpu_emulator"@,
    }
}

impl DeviceKind {
    pub fn as_str(self) -> (s: &'static str)
        ensures
            s@ == kind_name(self),
    {
        match self {
            DeviceKind::Cpu => "cpu",
            DeviceKind::Gpu => "gpu",
            DeviceKind::Fpga => "fpga",
            DeviceKind::QuantumAnnealer => "quantum_annealer",
            DeviceKind::CpuEmulator => "cpu_emulator",
        }
    }
}

/// `a · b`, saturating at `u64::MAX`.
pub open spec fn sat_mul(a: u64, b: u64) -> u64 {
    if a * b > u64::MAX { u64::MAX } else { (a * b) as u64 }
}

/// `a + b`, saturating at `u64::MAX`.
pub open spec fn sat_plus(a: u64, b: u64) -> u64 {
    if a + b > u64::MAX { u64::MAX } else { (a + b) as u64 }
}

fn saturating_mul(a: u64, b: u64) -> (r: u64)
    ensures
        r == sat_mul(a, b),
{
    match a.checked_mul(b) {
        Some(v) => v,
        None => u64::MAX,
    }
}

/// Offload preferences and the per-unknown latency cost model.
#[derive(Clone, Debug)]
pub struct BridgeConfig {
    pub ctc_preference: Vec<DeviceKind>,
    pub classical_preference: Vec<DeviceKind>,
    pub cpu_ns_per_unknown: u64,
    pub gpu_ns_per_unknown: u64,
    pub fpga_ns_per_unknown: u64,
    pub annealer_ns_per_unknown: u64,
    pub emulator_ns_per_unknown: u64,
    pub ctc_offload_min_dim: usize,
}

impl BridgeConfig {
    /// Latency per unknown that the cost model charges a device kind.
    pub open spec fn spec_ns_per_unknown(&self, kind: DeviceKind) -> u64 {
        match kind {
            DeviceKind::Cpu => self.cpu_ns_per_unknown,
            DeviceKind::Gpu => self.gpu_ns_per_unknown,
            DeviceKind::Fpga => self.fpga_ns_per_unknown,
            DeviceKind::QuantumAnnealer => self.annealer_ns_per_unknown,
            DeviceKind::CpuEmulator => self.emulator_ns_per_unknown,
        }
    }

    /// Estimated cost of a `dim`-unknown block on a device kind.
    pub open spec fn spec_cost(&self, kind: DeviceKind, dim: usize) -> u64 {
        sat_mul(self.spec_ns_per_unknown(kind), dim as u64)
    }

    pub fn ns_per_unknown(&self, kind: DeviceKind) -> (n: u64)
        ensures
            n == self.spec_ns_per_unknown(kind),
    {
        match kind {
            DeviceKind::Cpu => self.cpu_ns_per_unknown,
            DeviceKind::Gpu => self.gpu_ns_per_unknown,
            DeviceKind::Fpga => self.fpga_ns_per_unknown,
            DeviceKind::QuantumAnnealer => self.annealer_ns_per_unknown,
            DeviceKind::CpuEmulator => self.emulator_ns_per_unknown,
        }
    }

    pub fn estimate_cost_ns(&self, kind: DeviceKind, dim: usize) -> (c: u64)
        ensures
            c == self.spec_cost(kind, dim),
    {
        saturating_mul(self.ns_per_unknown(kind), dim as u64)
    }
}

impl Default for BridgeConfig {
    /// FPGA → annealer → GPU → emulator for CTC work, CPU → GPU for classical
    /// work, with the stock latency table.
    fn default() -> (c: Self)
        ensures
            c.ctc_preference@ == seq![
                DeviceKind::Fpga,
                DeviceKind::QuantumAnnealer,
                DeviceKind::Gpu,
                DeviceKind::CpuEmulator,
            ],
            c.classical_preference@ == seq![DeviceKind::Cpu, DeviceKind::Gpu],
            c.cpu_ns_per_unknown == 50,
            c.gpu_ns_per_unknown == 8,
            c.fpga_ns_per_unknown == 3,
            c.annealer_ns_per_unknown == 1,
            c.emulator_ns_per_unknown == 120,
            c.ctc_offload_min_dim == 2,
    {
        let mut ctc: Vec<DeviceKind> = Vec::new();
        ctc.push(DeviceKind::Fpga);
        ctc.push(DeviceKind::QuantumAnnealer);
        ctc.push(DeviceKind::Gpu);
        ctc.push(DeviceKind::CpuEmulator);
        let mut classical: Vec<DeviceKind> = Vec::new();
        classical.push(DeviceKind::Cpu);
        classical.push(DeviceKind::Gpu);
        assert(ctc@ =~= seq![DeviceKind::Fpga, DeviceKind::QuantumAnnealer, DeviceKind::Gpu, DeviceKind::CpuEmulator]);
        assert(classical@ =~= seq![DeviceKind::Cpu, DeviceKind::Gpu]);
        BridgeConfig {
            ctc_preference: ctc,
            classical_preference: classical,
            cpu_ns_per_unknown: 50,
            gpu_ns_per_unknown: 8,
            fpga_ns_per_unknown: 3,
            annealer_ns_per_unknown: 1,
            emulator_ns_per_unknown: 120,
            ctc_offload_min_dim: 2,
        }
    }
}

/// Name of a device instance.
#[derive(Clone, Debug)]
pub struct DeviceId(pub String);

#[derive(Clone, Copy, Debug, PartialEq, Eq, Structural)]
pub struct DeviceCapabilities {
    pub kind: DeviceKind,
    pub max_dimension: usize,
    pub supports_retrocausal: bool,
    pub supports_classical: bool,
    pub parallel_slots: usize,
}

/// Capabilities of the simulated device of each kind:
/// (retrocausal, classical, max dimension, parallel slots).
pub open spec fn simulated_caps(kind: DeviceKind) -> DeviceCapabilities {
    match kind {
        DeviceKind::Cpu => DeviceCapabilities {
            kind,
            max_dimension: 4096,
            supports_retrocausal: true,
            supports_classical: true,
            parallel_slots: 4,
        },
        DeviceKind::Gpu => DeviceCapabilities {
            kind,
            max_dimension: 65536,
            supports_retrocausal: true,
            supports_classical: true,
            parallel_slots: 16,
        },
        DeviceKind::Fpga => DeviceCapabilities {
            kind,
            max_dimension: 8192,
            supports_retrocausal: true,
            supports_classical: false,
            parallel_slots: 8,
        },
        DeviceKind::QuantumAnnealer => DeviceCapabilities {
            kind,
            max_dimension: 2048,
            supports_retrocausal: true,
            supports_classical: false,
            parallel_slots: 2,
        },
        DeviceKind::CpuEmulator => DeviceCapabilities {
            kind,
            max_dimension: 1024,
            supports_retrocausal: true,
            supports_classical: true,
            parallel_slots: 1,
        },
    }
}

/// Classification of a schedulable work block.
#[derive(Clone, Copy, Debug, PartialEq, Eq, Structural, Hash)]
pub enum BlockClass {
    /// Acyclic, chronology-respecting logic.
    Classical,
    /// Contains retrocausal / CTC structure.
    Retrocausal,
}

/// Errors of the offload fabric.
#[derive(Clone, Debug)]
pub enum BridgeError {
    /// No compute device available for the block class.
    NoDevice(BlockClass),
    /// The device is offline or saturated.
    DeviceUnavailable(String),
    /// The block exceeds the device's dimension.
    DimensionMismatch { expected: usize, got: usize },
    /// The kernel solve failed on a device.
    DeviceSolve { device: String, reason: String },
    /// Bridge configuration error.
    Config(String),
    /// The work block has no unknowns.
    EmptyBlock(String),
}

/// A simulated compute unit: a latency / affinity profile over the shared
/// fixed-point kernel.
#[derive(Clone, Debug)]
pub struct SimulatedDevice {
    pub id: DeviceId,
    pub caps: DeviceCapabilities,
    pub online: bool,
    pub inflight: u64,
    /// Artificial micro-spin count per unknown approximating device cost.
    pub spin_per_unknown: u64,
}

impl SimulatedDevice {
    /// The simulated device of a kind, online and idle, named `<kind>-sim-0`.
    pub fn new(kind: DeviceKind, spin_per_unknown: u64) -> (d: Self)
        ensures
            d.id.0@ == kind_name(kind) + "-sim-0"@,
            d.caps == simulated_caps(kind),
            d.online,
            d.inflight == 0,
            d.spin_per_unknown == spin_per_unknown,
    {
        let caps = match kind {
            DeviceKind::Cpu => DeviceCapabilities {
                kind,
                max_dimension: 4096,
                supports_retrocausal: true,
                supports_classical: true,
                parallel_slots: 4,
            },
            DeviceKind::Gpu => DeviceCapabilities {
                kind,
                max_dimension: 65536,
                supports_retrocausal: true,
                supports_classical: true,
                parallel_slots: 16,
            },
            DeviceKind::Fpga => DeviceCapabilities {
                kind,
                max_dimension: 8192,
                supports_retrocausal: true,
                supports_classical: false,
                parallel_slots: 8,
            },
            DeviceKind::QuantumAnnealer => DeviceCapabilities {
                kind,
                max_dimension: 2048,
                supports_retrocausal: true,
                supports_classical: false,
                parallel_slots: 2,
            },
            DeviceKind::CpuEmulator => DeviceCapabilities {
                kind,
                max_dimension: 1024,
                supports_retrocausal: true,
                supports_classical: true,
                parallel_slots: 1,
            },
        };
        let mut name = String::from_str(kind.as_str());
        name.append("-sim-0");
        SimulatedDevice { id: DeviceId(name), caps, online: true, inflight: 0, spin_per_unknown }
    }

    pub fn set_online(&mut self, online: bool)
        ensures
            final(self).online == online,
            final(self).id == old(self).id,
            final(self).caps == old(self).caps,
            final(self).inflight == old(self).inflight,
            final(self).spin_per_unknown == old(self).spin_per_unknown,
    {
        self.online = online;
    }

    /// Admission check before executing a block of `dimension` unknowns:
    /// an offline device refuses, then one too small for the block.
    pub fn check_admission(&self, dimension: usize) -> (r: Result<(), BridgeError>)
        ensures
            !self.online ==> (r matches Err(BridgeError::DeviceUnavailable(name)) && name@ == self.id.0@),
            self.online && dimension > self.caps.max_dimension ==> (r matches Err(
                BridgeError::DimensionMismatch { expected, got },
            ) && expected == self.caps.max_dimension && got == dimension),
            r is Ok <==> self.online && dimension <= self.caps.max_dimension,
    {
        if !self.online {
            return Err(BridgeError::DeviceUnavailable(self.id.0.clone()));
        }
        if dimension > self.caps.max_dimension {
            return Err(BridgeError::DimensionMismatch { expected: self.caps.max_dimension, got: dimension });
        }
        Ok(())
    }
}

/// Backend contract of a compute unit, as routing sees it: its identity,
/// capabilities, availability and load. Each query returns what the
/// backend's spec functions describe.
pub trait DeviceBackend {
    spec fn id_view(&self) -> Seq<char>;

    spec fn caps_view(&self) -> DeviceCapabilities;

    spec fn online_view(&self) -> bool;

    spec fn inflight_view(&self) -> u64;

    fn id(&self) -> (r: &DeviceId)
        ensures
            r.0@ == self.id_view(),
    ;

    fn capabilities(&self) -> (r: &DeviceCapabilities)
        ensures
            *r == self.caps_view(),
    ;

    fn is_online(&self) -> (r: bool)
        ensures
            r == self.online_view(),
    ;

    fn inflight(&self) -> (r: u64)
        ensures
            r == self.inflight_view(),
    ;
}

impl DeviceBackend for SimulatedDevice {
    open spec fn id_view(&self) -> Seq<char> {
        self.id.0@
    }

    open spec fn caps_view(&self) -> DeviceCapabilities {
        self.caps
    }

    open spec fn online_view(&self) -> bool {
        self.online
    }

    open spec fn inflight_view(&self) -> u64 {
        self.inflight
    }

    fn id(&self) -> (r: &DeviceId) {
        &self.id
    }

    fn capabilities(&self) -> (r: &DeviceCapabilities) {
        &self.caps
    }

    fn is_online(&self) -> (r: bool) {
        self.online
    }

    fn inflight(&self) -> (r: u64) {
        self.inflight
    }
}

/// The default simulated pool, one device per kind, spinning by the
/// configured per-unknown latency.
pub fn default_device_pool(cfg: &BridgeConfig) -> (v: Vec<SimulatedDevice>)
    ensures
        v@.len() == 5,
        v@[0].caps == simulated_caps(DeviceKind::Cpu) && v@[0].spin_per_unknown == cfg.cpu_ns_per_unknown,
        v@[1].caps == simulated_caps(DeviceKind::Gpu) && v@[1].spin_per_unknown == cfg.gpu_ns_per_unknown,
        v@[2].caps == simulated_caps(DeviceKind::Fpga) && v@[2].spin_per_unknown == cfg.fpga_ns_per_unknown,
        v@[3].caps == simulated_caps(DeviceKind::QuantumAnnealer) && v@[3].spin_per_unknown
            == cfg.annealer_ns_per_unknown,
        v@[4].caps == simulated_caps(DeviceKind::CpuEmulator) && v@[4].spin_per_unknown
            == cfg.emulator_ns_per_unknown,
        forall|i: int| 0 <= i < 5 ==> (#[trigger] v@[i]).online && v@[i].inflight == 0 && v@[i].id.0@ == kind_name(
            v@[i].caps.kind,
        ) + "-sim-0"@,
{
    let mut v: Vec<SimulatedDevice> = Vec::new();
    v.push(SimulatedDevice::new(DeviceKind::Cpu, cfg.cpu_ns_per_unknown));
    v.push(SimulatedDevice::new(DeviceKind::Gpu, cfg.gpu_ns_per_unknown));
    v.push(SimulatedDevice::new(DeviceKind::Fpga, cfg.fpga_ns_per_unknown));
    v.push(SimulatedDevice::new(DeviceKind::QuantumAnnealer, cfg.annealer_ns_per_unknown));
    v.push(SimulatedDevice::new(DeviceKind::CpuEmulator, cfg.emulator_ns_per_unknown));
    v
}

/// Partitions compiled programs into classical vs retrocausal work blocks.
#[derive(Clone, Copy, Debug)]
pub struct WorkClassifier {
    pub ctc_offload_min_dim: usize,
}

impl WorkClassifier {
    pub fn new(ctc_offload_min_dim: usize) -> (c: Self)
        ensures
            c.ctc_offload_min_dim == ctc_offload_min_dim,
    {
        WorkClassifier { ctc_offload_min_dim }
    }

    /// Class of a block with `dimension` unknowns of which `ctc_registers`
    /// lie in a CTC region: retrocausal exactly when that region is not
    /// empty (however small the block); an empty block is refused.
    pub fn classify_shape(&self, name: &String, dimension: usize, ctc_registers: usize) -> (r: Result<
        BlockClass,
        BridgeError,
    >)
        ensures
            dimension == 0 ==> (r matches Err(BridgeError::EmptyBlock(n)) && n@ == name@),
            dimension > 0 && ctc_registers > 0 ==> r == Ok::<BlockClass, BridgeError>(BlockClass::Retrocausal),
            dimension > 0 && ctc_registers == 0 ==> r == Ok::<BlockClass, BridgeError>(BlockClass::Classical),
    {
        if dimension == 0 {
            return Err(BridgeError::EmptyBlock(name.clone()));
        }
        if ctc_registers > 0 && dimension >= self.ctc_offload_min_dim {
            Ok(BlockClass::Retrocausal)
        } else if ctc_registers > 0 {
            Ok(BlockClass::Retrocausal)
        } else {
            Ok(BlockClass::Classical)
        }
    }
}

/// Planned device assignment prior to execution.
#[derive(Clone, Debug)]
pub struct DispatchPlan {
    pub block_name: String,
    pub class: BlockClass,
    pub device_id: String,
    pub device_kind: DeviceKind,
    pub estimated_cost_ns: u64,
    pub dimension: usize,
}

/// Device `d` can take a block of class `class` and `dim` unknowns as a
/// device of kind `kind`.
pub open spec fn admissible<D: DeviceBackend>(d: D, kind: DeviceKind, class: BlockClass, dim: usize) -> bool {
    &&& d.online_view()
    &&& d.caps_view().kind == kind
    &&& match class {
        BlockClass::Classical => d.caps_view().supports_classical,
        BlockClass::Retrocausal => d.caps_view().supports_retrocausal,
    }
    &&& dim <= d.caps_view().max_dimension
}

/// Routing cost of a device: the kind's estimate plus 1000 per block in flight.
pub open spec fn routing_cost<D: DeviceBackend>(cfg: BridgeConfig, d: D, kind: DeviceKind, dim: usize) -> u64 {
    sat_plus(cfg.spec_cost(kind, dim), sat_mul(d.inflight_view(), 1000))
}

/// `i` is the device the router picks for `kind`: admissible, cheapest, and
/// first among equally cheap ones.
pub open spec fn best_of_kind<D: DeviceBackend>(
    cfg: BridgeConfig,
    devs: Seq<D>,
    kind: DeviceKind,
    class: BlockClass,
    dim: usize,
    i: int,
) -> bool {
    &&& 0 <= i < devs.len()
    &&& admissible(devs[i], kind, class, dim)
    &&& forall|j: int|
        0 <= j < devs.len() && admissible(#[trigger] devs[j], kind, class, dim) ==> routing_cost(
            cfg,
            devs[i],
            kind,
            dim,
        ) <= routing_cost(cfg, devs[j], kind, dim) && (j < i ==> routing_cost(cfg, devs[i], kind, dim)
            < routing_cost(cfg, devs[j], kind, dim))
}

/// Load steers routing: among admissible devices of one kind, the chosen
/// device has no more blocks in flight than any other, as long as its cost
/// (the kind's estimate plus 1000 per block in flight) does not saturate.
pub proof fn lemma_least_loaded_wins<D: DeviceBackend>(
    cfg: BridgeConfig,
    devs: Seq<D>,
    kind: DeviceKind,
    class: BlockClass,
    dim: usize,
    i: int,
    j: int,
)
    requires
        best_of_kind(cfg, devs, kind, class, dim, i),
        0 <= j < devs.len(),
        admissible(devs[j], kind, class, dim),
        cfg.spec_cost(kind, dim) + devs[i].inflight_view() * 1000 <= u64::MAX,
    ensures
        devs[i].inflight_view() <= devs[j].inflight_view(),
        devs[i].inflight_view() == devs[j].inflight_view() ==> i <= j,
{
    let c = cfg.spec_cost(kind, dim);
    let ni = devs[i].inflight_view();
    let nj = devs[j].inflight_view();
    assert(routing_cost(cfg, devs[i], kind, dim) <= routing_cost(cfg, devs[j], kind, dim));
    assert(ni * 1000 <= u64::MAX) by (nonlinear_arith)
        requires
            c + ni * 1000 <= u64::MAX,
            c >= 0,
    ;
    if nj < ni {
        assert(nj * 1000 < ni * 1000) by (nonlinear_arith)
            requires
                nj < ni,
        ;
        assert(routing_cost(cfg, devs[j], kind, dim) == c + nj * 1000);
        assert(routing_cost(cfg, devs[i], kind, dim) == c + ni * 1000);
    }
}

/// Some device is admissible for `kind`.
pub open spec fn kind_available<D: DeviceBackend>(devs: Seq<D>, kind: DeviceKind, class: BlockClass, dim: usize) -> bool {
    exists|j: int| 0 <= j < devs.len() && admissible(#[trigger] devs[j], kind, class, dim)
}

/// Preference list for a class.
pub open spec fn preference(cfg: BridgeConfig, class: BlockClass) -> Seq<DeviceKind> {
    match class {
        BlockClass::Retrocausal => cfg.ctc_preference@,
        BlockClass::Classical => cfg.classical_preference@,
    }
}

/// Hardware abstraction router: selects the cheapest admissible device along
/// the preference chain of a block's class.
#[derive(Clone, Debug)]
pub struct OffloadRouter<D> {
    pub config: BridgeConfig,
    pub classifier: WorkClassifier,
    pub devices: Vec<D>,
}

impl OffloadRouter<SimulatedDevice> {
    /// A router over the default simulated pool.
    pub fn new(config: BridgeConfig) -> (r: Self)
        ensures
            r.config == config,
            r.classifier.ctc_offload_min_dim == config.ctc_offload_min_dim,
            r.devices@.len() == 5,
            forall|i: int| 0 <= i < 5 ==> (#[trigger] r.devices@[i]).online && r.devices@[i].inflight == 0,
            r.devices@[0].caps == simulated_caps(DeviceKind::Cpu),
            r.devices@[1].caps == simulated_caps(DeviceKind::Gpu),
            r.devices@[2].caps == simulated_caps(DeviceKind::Fpga),
            r.devices@[3].caps == simulated_caps(DeviceKind::QuantumAnnealer),
            r.devices@[4].caps == simulated_caps(DeviceKind::CpuEmulator),
            forall|i: int| 0 <= i < 5 ==> (#[trigger] r.devices@[i]).id.0@ == kind_name(r.devices@[i].caps.kind) + "-sim-0"@,
            r.devices@[0].spin_per_unknown == config.cpu_ns_per_unknown,
            r.devices@[1].spin_per_unknown == config.gpu_ns_per_unknown,
            r.devices@[2].spin_per_unknown == config.fpga_ns_per_unknown,
            r.devices@[3].spin_per_unknown == config.annealer_ns_per_unknown,
            r.devices@[4].spin_per_unknown == config.emulator_ns_per_unknown,
    {
        let devices = default_device_pool(&config);
        let classifier = WorkClassifier::new(config.ctc_offload_min_dim);
        OffloadRouter { config, classifier, devices }
    }

}

impl<D: DeviceBackend> OffloadRouter<D> {
    /// A router over the given devices.
    pub fn with_devices(config: BridgeConfig, devices: Vec<D>) -> (r: Self)
        ensures
            r.config == config,
            r.classifier.ctc_offload_min_dim == config.ctc_offload_min_dim,
            r.devices == devices,
    {
        let classifier = WorkClassifier::new(config.ctc_offload_min_dim);
        OffloadRouter { config, classifier, devices }
    }

    /// Identity, kind and availability of every device, in pool order.
    pub fn list_devices(&self) -> (r: Vec<(DeviceId, DeviceKind, bool)>)
        ensures
            r@.len() == self.devices@.len(),
            forall|i: int|
                0 <= i < r@.len() ==> (#[trigger] r@[i]).0.0@ == self.devices@[i].id_view() && r@[i].1
                    == self.devices@[i].caps_view().kind && r@[i].2 == self.devices@[i].online_view(),
    {
        let mut out: Vec<(DeviceId, DeviceKind, bool)> = Vec::new();
        let mut i: usize = 0;
        while i < self.devices.len()
            invariant
                i <= self.devices@.len(),
                out@.len() == i,
                forall|k: int|
                    0 <= k < i ==> (#[trigger] out@[k]).0.0@ == self.devices@[k].id_view() && out@[k].1
                        == self.devices@[k].caps_view().kind && out@[k].2 == self.devices@[k].online_view(),
            decreases self.devices@.len() - i,
        {
            let d = &self.devices[i];
            out.push((DeviceId(d.id().0.clone()), d.capabilities().kind, d.is_online()));
            i = i + 1;
        }
        out
    }

    fn routing_cost_of(&self, i: usize, kind: DeviceKind, dim: usize) -> (c: u64)
        requires
            i < self.devices@.len(),
        ensures
            c == routing_cost(self.config, self.devices@[i as int], kind, dim),
    {
        let base = self.config.estimate_cost_ns(kind, dim);
        let load = saturating_mul(self.devices[i].inflight(), 1000);
        base.saturating_add(load)
    }

    /// The cheapest admissible online device of `kind` for a block (first
    /// among equals), if any.
    pub fn find_online(&self, kind: DeviceKind, class: BlockClass, dim: usize) -> (r: Option<usize>)
        ensures
            r matches Some(i) ==> best_of_kind(self.config, self.devices@, kind, class, dim, i as int),
            r is None <==> !kind_available(self.devices@, kind, class, dim),
    {
        let mut best: Option<(usize, u64)> = None;
        let mut i: usize = 0;
        while i < self.devices.len()
            invariant
                i <= self.devices@.len(),
                best is None <==> !(exists|j: int| 0 <= j < i && admissible(#[trigger] self.devices@[j], kind, class, dim)),
                best matches Some(b) ==> b.0 < i && admissible(self.devices@[b.0 as int], kind, class, dim)
                    && b.1 == routing_cost(self.config, self.devices@[b.0 as int], kind, dim) && forall|j: int|
                    0 <= j < i && admissible(#[trigger] self.devices@[j], kind, class, dim) ==> b.1
                        <= routing_cost(self.config, self.devices@[j], kind, dim) && (j < b.0 ==> b.1
                        < routing_cost(self.config, self.devices@[j], kind, dim)),
            decreases self.devices@.len() - i,
        {
            let d = &self.devices[i];
            let caps = d.capabilities();
            let class_ok = match class {
                BlockClass::Classical => caps.supports_classical,
                BlockClass::Retrocausal => caps.supports_retrocausal,
            };
            if d.is_online() && caps.kind == kind && class_ok && dim <= caps.max_dimension {
                let cost = self.routing_cost_of(i, kind, dim);
                match best {
                    None => {
                        best = Some((i, cost));
                    },
                    Some((_, c)) => {
                        if cost < c {
                            best = Some((i, cost));
                        }
                    },
                }
            }
            i = i + 1;
        }
        match best {
            Some((b, _)) => Some(b),
            None => None,
        }
    }

    /// Device chosen for a block: the first kind along the class's
    /// preference chain that has an admissible device, and its cheapest one.
    fn select_device(&self, class: BlockClass, dim: usize) -> (r: Option<(usize, usize)>)
        ensures
            r matches Some((k, i)) ==> k < preference(self.config, class).len() && best_of_kind(
                self.config,
                self.devices@,
                preference(self.config, class)[k as int],
                class,
                dim,
                i as int,
            ) && forall|q: int|
                0 <= q < k ==> !kind_available(self.devices@, #[trigger] preference(self.config, class)[q], class, dim),
            r is None <==> forall|q: int|
                0 <= q < preference(self.config, class).len() ==> !kind_available(
                    self.devices@,
                    #[trigger] preference(self.config, class)[q],
                    class,
                    dim,
                ),
    {
        let prefs = match class {
            BlockClass::Retrocausal => &self.config.ctc_preference,
            BlockClass::Classical => &self.config.classical_preference,
        };
        let mut k: usize = 0;
        while k < prefs.len()
            invariant
                prefs@ == preference(self.config, class),
                k <= prefs@.len(),
                forall|q: int| 0 <= q < k ==> !kind_available(self.devices@, #[trigger] prefs@[q], class, dim),
            decreases prefs@.len() - k,
        {
            if let Some(i) = self.find_online(prefs[k], class, dim) {
                return Some((k, i));
            }
            k = k + 1;
        }
        None
    }

    /// Plan dispatch for a block without executing: the selected device, its
    /// kind, and the kind's cost estimate for the block.
    pub fn plan(&self, block_name: &String, class: BlockClass, dimension: usize) -> (r: Result<
        DispatchPlan,
        BridgeError,
    >)
        ensures
            r is Err <==> forall|q: int|
                0 <= q < preference(self.config, class).len() ==> !kind_available(
                    self.devices@,
                    #[trigger] preference(self.config, class)[q],
                    class,
                    dimension,
                ),
            r matches Err(e) ==> e == BridgeError::NoDevice(class),
            r matches Ok(p) ==> exists|k: int, i: int|
                {
                    &&& 0 <= k < preference(self.config, class).len()
                    &&& best_of_kind(self.config, self.devices@, preference(self.config, class)[k], class, dimension, i)
                    &&& forall|q: int|
                        0 <= q < k ==> !kind_available(
                            self.devices@,
                            #[trigger] preference(self.config, class)[q],
                            class,
                            dimension,
                        )
                    &&& p.device_kind == preference(self.config, class)[k]
                    &&& p.device_id@ == self.devices@[i].id_view()
                },
            r matches Ok(p) ==> p.block_name@ == block_name@ && p.class == class && p.dimension == dimension
                && p.estimated_cost_ns == self.config.spec_cost(p.device_kind, dimension),
    {
        match self.select_device(class, dimension) {
            None => Err(BridgeError::NoDevice(class)),
            Some((k, i)) => {
                let prefs = match class {
                    BlockClass::Retrocausal => &self.config.ctc_preference,
                    BlockClass::Classical => &self.config.classical_preference,
                };
                let kind = prefs[k];
                let d = &self.devices[i];
                Ok(DispatchPlan {
                    block_name: block_name.clone(),
                    class,
                    device_id: d.id().0.clone(),
                    device_kind: kind,
                    estimated_cost_ns: self.config.estimate_cost_ns(kind, dimension),
                    dimension,
                })
            },
        }
    }
}

/// The kinds among the first `k` of a class's preference chain that have an
/// admissible device, in chain order.
pub open spec fn attempt_kinds<D: DeviceBackend>(
    cfg: BridgeConfig,
    devs: Seq<D>,
    class: BlockClass,
    dim: usize,
    k: int,
) -> Seq<DeviceKind>
    decreases k,
{
    if k <= 0 {
        Seq::empty()
    } else {
        let rest = attempt_kinds(cfg, devs, class, dim, k - 1);
        let kind = preference(cfg, class)[k - 1];
        if kind_available(devs, kind, class, dim) {
            rest.push(kind)
        } else {
            rest
        }
    }
}

proof fn lemma_attempts_empty<D: DeviceBackend>(cfg: BridgeConfig, devs: Seq<D>, class: BlockClass, dim: usize, n: int)
    requires
        0 <= n <= preference(cfg, class).len(),
    ensures
        attempt_kinds(cfg, devs, class, dim, n).len() == 0 <==> forall|q: int|
            0 <= q < n ==> !kind_available(devs, #[trigger] preference(cfg, class)[q], class, dim),
    decreases n,
{
    if n > 0 {
        lemma_attempts_empty(cfg, devs, class, dim, n - 1);
    }
}

proof fn lemma_attempts_first<D: DeviceBackend>(
    cfg: BridgeConfig,
    devs: Seq<D>,
    class: BlockClass,
    dim: usize,
    k: int,
    n: int,
)
    requires
        0 <= k < n <= preference(cfg, class).len(),
        kind_available(devs, preference(cfg, class)[k], class, dim),
        forall|q: int| 0 <= q < k ==> !kind_available(devs, #[trigger] preference(cfg, class)[q], class, dim),
    ensures
        attempt_kinds(cfg, devs, class, dim, n).len() > 0,
        attempt_kinds(cfg, devs, class, dim, n)[0] == preference(cfg, class)[k],
    decreases n,
{
    if n == k + 1 {
        lemma_attempts_empty(cfg, devs, class, dim, k);
    } else {
        lemma_attempts_first(cfg, devs, class, dim, k, n - 1);
    }
}

/// Planning and dispatch agree: a plan exists exactly when dispatch has a
/// device to try, and the planned kind is the one dispatch tries first.
pub proof fn lemma_plan_is_first_attempt<D: DeviceBackend>(cfg: BridgeConfig, devs: Seq<D>, class: BlockClass, dim: usize)
    ensures
        attempt_kinds(cfg, devs, class, dim, preference(cfg, class).len() as int).len() == 0 <==> forall|q: int|
            0 <= q < preference(cfg, class).len() ==> !kind_available(
                devs,
                #[trigger] preference(cfg, class)[q],
                class,
                dim,
            ),
        forall|k: int|
            0 <= k < preference(cfg, class).len() && kind_available(devs, preference(cfg, class)[k], class, dim)
                && (forall|q: int|
                0 <= q < k ==> !kind_available(devs, #[trigger] preference(cfg, class)[q], class, dim))
                ==> #[trigger] attempt_kinds(cfg, devs, class, dim, preference(cfg, class).len() as int)[0]
                == preference(cfg, class)[k],
{
    let n = preference(cfg, class).len() as int;
    lemma_attempts_empty(cfg, devs, class, dim, n);
    assert forall|k: int|
        0 <= k < n && kind_available(devs, preference(cfg, class)[k], class, dim) && (forall|q: int|
            0 <= q < k ==> !kind_available(devs, #[trigger] preference(cfg, class)[q], class, dim))
            implies #[trigger] attempt_kinds(cfg, devs, class, dim, n)[0] == preference(cfg, class)[k] by {
        lemma_attempts_first(cfg, devs, class, dim, k, n);
    }
}

impl<D: DeviceBackend> OffloadRouter<D> {
    /// The attempt order for dispatching a block: one plan per kind along
    /// the class's preference chain that has an admissible device, on its
    /// cheapest such device (whose position in the pool comes with the plan).
    /// Execution tries them in order until one succeeds.
    pub fn dispatch_plans(&self, block_name: &String, class: BlockClass, dimension: usize) -> (r: Vec<
        (DispatchPlan, usize),
    >)
        ensures
            ({
                let kinds = attempt_kinds(
                    self.config,
                    self.devices@,
                    class,
                    dimension,
                    preference(self.config, class).len() as int,
                );
                &&& r@.len() == kinds.len()
                &&& forall|k: int|
                    0 <= k < r@.len() ==> {
                        let (p, i) = #[trigger] r@[k];
                        &&& p.device_kind == kinds[k]
                        &&& best_of_kind(self.config, self.devices@, kinds[k], class, dimension, i as int)
                        &&& p.device_id@ == self.devices@[i as int].id_view()
                        &&& p.block_name@ == block_name@
                        &&& p.class == class
                        &&& p.dimension == dimension
                        &&& p.estimated_cost_ns == self.config.spec_cost(kinds[k], dimension)
                    }
            }),
    {
        let prefs = match class {
            BlockClass::Retrocausal => &self.config.ctc_preference,
            BlockClass::Classical => &self.config.classical_preference,
        };
        let mut out: Vec<(DispatchPlan, usize)> = Vec::new();
        let mut k: usize = 0;
        while k < prefs.len()
            invariant
                prefs@ == preference(self.config, class),
                k <= prefs@.len(),
                ({
                    let kinds = attempt_kinds(self.config, self.devices@, class, dimension, k as int);
                    &&& out@.len() == kinds.len()
                    &&& forall|q: int|
                        0 <= q < out@.len() ==> {
                            let (p, i) = #[trigger] out@[q];
                            &&& p.device_kind == kinds[q]
                            &&& best_of_kind(self.config, self.devices@, kinds[q], class, dimension, i as int)
                            &&& p.device_id@ == self.devices@[i as int].id_view()
                            &&& p.block_name@ == block_name@
                            &&& p.class == class
                            &&& p.dimension == dimension
                            &&& p.estimated_cost_ns == self.config.spec_cost(kinds[q], dimension)
                        }
                }),
            decreases prefs@.len() - k,
        {
            let kind = prefs[k];
            if let Some(i) = self.find_online(kind, class, dimension) {
                let plan = DispatchPlan {
                    block_name: block_name.clone(),
                    class,
                    device_id: self.devices[i].id().0.clone(),
                    device_kind: kind,
                    estimated_cost_ns: self.config.estimate_cost_ns(kind, dimension),
                    dimension,
                };
                out.push((plan, i));
            }
            k = k + 1;
        }
        out
    }
}

impl Default for OffloadRouter<SimulatedDevice> {
    /// A router over the default simulated pool with the default
    /// configuration.
    fn default() -> (r: Self)
        ensures
            r.config.ctc_preference@ == seq![
                DeviceKind::Fpga,
                DeviceKind::QuantumAnnealer,
                DeviceKind::Gpu,
                DeviceKind::CpuEmulator,
            ],
            r.config.classical_preference@ == seq![DeviceKind::Cpu, DeviceKind::Gpu],
            r.config.cpu_ns_per_unknown == 50,
            r.config.gpu_ns_per_unknown == 8,
            r.config.fpga_ns_per_unknown == 3,
            r.config.annealer_ns_per_unknown == 1,
            r.config.emulator_ns_per_unknown == 120,
            r.config.ctc_offload_min_dim == 2,
            r.classifier.ctc_offload_min_dim == 2,
            r.devices@.len() == 5,
            forall|i: int| 0 <= i < 5 ==> (#[trigger] r.devices@[i]).online && r.devices@[i].inflight == 0,
            r.devices@[0].caps == simulated_caps(DeviceKind::Cpu),
            r.devices@[1].caps == simulated_caps(DeviceKind::Gpu),
            r.devices@[2].caps == simulated_caps(DeviceKind::Fpga),
            r.devices@[3].caps == simulated_caps(DeviceKind::QuantumAnnealer),
            r.devices@[4].caps == simulated_caps(DeviceKind::CpuEmulator),
            forall|i: int| 0 <= i < 5 ==> (#[trigger] r.devices@[i]).id.0@ == kind_name(r.devices@[i].caps.kind) + "-sim-0"@,
            r.devices@[0].spin_per_unknown == 50,
            r.devices@[1].spin_per_unknown == 8,
            r.devices@[2].spin_per_unknown == 3,
            r.devices@[3].spin_per_unknown == 1,
            r.devices@[4].spin_per_unknown == 120,
    {
        OffloadRouter::new(BridgeConfig::default())
    }
}

} // verus!
