use cronos_ctc::bridge::{
    default_device_pool, BlockClass, BridgeConfig, BridgeError, DeviceBackend, DeviceKind,
    OffloadRouter, SimulatedDevice,
    WorkClassifier,
};
use cronos_ctc::compiler::lower::lower_fabric;
use cronos_ctc::compiler::parse::parse_module;
use cronos_ctc::config::{parse_kind, BridgeSection, OracleSection};
use std::time::Duration;

const LINEAR_CTC: &str = r#"
            chronal reg x @ τ0;
            chronal reg y @ τ1;
            retrocausal { y -> x };
            evolve x = 0.5 * x + 0.25 * y;
            evolve y = 0.25 * x + 0.5 * y + 0.5;
        "#;

#[test]
fn falls_back_when_preferred_device_offline() {
    let (meta, _dag) = lower_fabric(&parse_module("fb", LINEAR_CTC).unwrap(), vec![0.5f64], 1.0f64).unwrap();
    let cfg = BridgeConfig::default();
    let devices = default_device_pool(&cfg);
    let devices: Vec<SimulatedDevice> = devices
        .into_iter()
        .filter(|d| d.capabilities().kind != DeviceKind::Fpga)
        .collect();
    let router = OffloadRouter::with_devices(cfg, devices);
    let name = "fb".to_string();
    let dim = meta.unknown_order.len();
    let class = router
        .classifier
        .classify_shape(&name, dim, meta.temporal.ctc_region.len())
        .unwrap();
    let plan = router.plan(&name, class, dim).unwrap();
    assert_eq!(plan.device_kind, DeviceKind::QuantumAnnealer);
}

#[test]
fn routes_retrocausal_block_to_fpga_first() {
    let (meta, _dag) =
        lower_fabric(&parse_module("bridge_ctc", LINEAR_CTC).unwrap(), vec![0.5f64], 1.0f64).unwrap();
    let router = OffloadRouter::default();
    let name = "bridge_ctc".to_string();
    let class = router
        .classifier
        .classify_shape(&name, meta.unknown_order.len(), meta.temporal.ctc_region.len())
        .unwrap();
    assert_eq!(class, BlockClass::Retrocausal);
    let plan = router.plan(&name, class, 2).unwrap();
    assert_eq!(plan.device_kind, DeviceKind::Fpga);
    assert_eq!(plan.device_id, "fpga-sim-0");
    assert_eq!(plan.estimated_cost_ns, 6);
    let attempts = router.dispatch_plans(&name, class, 2);
    assert_eq!(attempts[0].0.device_kind, DeviceKind::Fpga);
}

#[test]
fn classical_blocks_prefer_the_cpu_and_need_unknowns() {
    let c = WorkClassifier::new(2);
    let name = "plain".to_string();
    assert_eq!(c.classify_shape(&name, 3, 0).unwrap(), BlockClass::Classical);
    assert_eq!(c.classify_shape(&name, 1, 1).unwrap(), BlockClass::Retrocausal);
    assert!(matches!(c.classify_shape(&name, 0, 0), Err(BridgeError::EmptyBlock(n)) if n == "plain"));
    let router = OffloadRouter::default();
    let plan = router.plan(&name, BlockClass::Classical, 10).unwrap();
    assert_eq!(plan.device_kind, DeviceKind::Cpu);
    assert_eq!(plan.estimated_cost_ns, 500);
}

#[test]
fn no_device_when_every_candidate_is_offline_or_too_small() {
    let cfg = BridgeConfig::default();
    let mut pool = default_device_pool(&cfg);
    for d in pool.iter_mut() {
        d.set_online(false);
    }
    let router = OffloadRouter::with_devices(cfg, pool);
    let name = "z".to_string();
    assert!(matches!(
        router.plan(&name, BlockClass::Retrocausal, 4),
        Err(BridgeError::NoDevice(BlockClass::Retrocausal))
    ));
    let big = OffloadRouter::default();
    assert!(matches!(
        big.plan(&name, BlockClass::Retrocausal, 100_000),
        Err(BridgeError::NoDevice(BlockClass::Retrocausal))
    ));
    // Above the FPGA's 8192 limit the GPU takes retrocausal work.
    assert_eq!(big.plan(&name, BlockClass::Retrocausal, 9000).unwrap().device_kind, DeviceKind::Gpu);
}

#[test]
fn device_names_and_admission() {
    let d = SimulatedDevice::new(DeviceKind::QuantumAnnealer, 7);
    assert_eq!(d.id().0, "quantum_annealer-sim-0");
    assert!(d.is_online());
    assert_eq!(d.inflight(), 0);
    assert!(matches!(
        d.check_admission(4096),
        Err(BridgeError::DimensionMismatch { expected: 2048, got: 4096 })
    ));
    let mut e = SimulatedDevice::new(DeviceKind::Cpu, 1);
    e.set_online(false);
    assert!(matches!(e.check_admission(1), Err(BridgeError::DeviceUnavailable(n)) if n == "cpu-sim-0"));
    let listed = OffloadRouter::default().list_devices();
    assert_eq!(listed.len(), 5);
    assert_eq!(listed[2].1, DeviceKind::Fpga);
    assert!(listed.iter().all(|(_, _, online)| *online));
}

#[test]
fn cost_model_saturates() {
    let cfg = BridgeConfig::default();
    assert_eq!(cfg.ns_per_unknown(DeviceKind::CpuEmulator), 120);
    assert_eq!(cfg.estimate_cost_ns(DeviceKind::Gpu, 1000), 8000);
    assert_eq!(cfg.estimate_cost_ns(DeviceKind::CpuEmulator, usize::MAX), u64::MAX);
}

#[test]
fn configuration_sections() {
    assert_eq!(parse_kind("quantum_annealer"), Some(DeviceKind::QuantumAnnealer));
    assert_eq!(parse_kind("cpu_emulator"), Some(DeviceKind::CpuEmulator));
    assert_eq!(parse_kind("tpu"), None);
    for k in [DeviceKind::Cpu, DeviceKind::Gpu, DeviceKind::Fpga, DeviceKind::QuantumAnnealer, DeviceKind::CpuEmulator] {
        assert_eq!(parse_kind(k.as_str()), Some(k));
    }
    let section = BridgeSection {
        ctc_preference: vec!["gpu".to_string(), "warp_drive".to_string(), "fpga".to_string()],
        classical_preference: vec![],
        cpu_ns_per_unknown: 1,
        gpu_ns_per_unknown: 2,
        fpga_ns_per_unknown: 3,
        annealer_ns_per_unknown: 4,
        emulator_ns_per_unknown: 5,
        ctc_offload_min_dim: 6,
    };
    let cfg = section.to_bridge_config();
    assert_eq!(cfg.ctc_preference, vec![DeviceKind::Gpu, DeviceKind::Fpga]);
    assert!(cfg.classical_preference.is_empty());
    assert_eq!(cfg.ns_per_unknown(DeviceKind::QuantumAnnealer), 4);
    assert_eq!(cfg.ctc_offload_min_dim, 6);
    assert_eq!(OracleSection::default().timeout(), Duration::from_millis(50));
    assert_eq!(OracleSection { timeout_ms: 1234 }.timeout(), Duration::from_secs(1) + Duration::from_millis(234));
}

