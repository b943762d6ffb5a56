use appoptr::cpuset::{spec_name, CpuSet, CpuTopology};

fn topology() -> CpuTopology {
    CpuTopology {
        e_core: CpuSet { bits: 0x0f },
        p_core: CpuSet { bits: 0x70 },
        hp_core: CpuSet { bits: 0x80 },
        present_cpus: CpuSet { bits: 0xff },
        present_str: "0-7".to_string(),
        mems_str: "0".to_string(),
        cpuset_enabled: true,
    }
}

#[test]
fn sets_are_counted_and_written() {
    assert_eq!(CpuSet { bits: 0 }.count(), 0);
    assert_eq!(CpuSet { bits: u64::MAX }.count(), 64);
    assert_eq!(CpuSet { bits: 0 }.to_range_string(), "");
    assert_eq!(CpuSet { bits: 0xb3 }.to_range_string(), "0-1,4-5,7");
    assert_eq!(CpuSet { bits: u64::MAX }.to_range_string(), "0-63");
    assert_eq!(CpuSet { bits: 1 << 63 }.to_range_string(), "63");
}

#[test]
fn sets_have_names() {
    let topo = topology();
    assert_eq!(spec_name(&CpuSet { bits: 0x0f }, &topo), "e-core");
    assert_eq!(spec_name(&CpuSet { bits: 0x70 }, &topo), "p-core");
    assert_eq!(spec_name(&CpuSet { bits: 0x80 }, &topo), "hp-core");
    assert_eq!(spec_name(&CpuSet { bits: 0xff }, &topo), "all-core");
    assert_eq!(spec_name(&CpuSet { bits: 0x03 }, &topo), "0-1");
    let mut none = topology();
    none.hp_core = CpuSet { bits: 0 };
    assert_eq!(spec_name(&CpuSet { bits: 0 }, &none), "");
}
