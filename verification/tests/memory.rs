use hmtl_kernel::memory::{
    AllocAction, AllocEvent, AllocStage, BarAction, BarEvent, CxlAllocation, NodeEntry,
    PcieBarMapper,
};
use hmtl_kernel::{CxlAllocator, SharedMemoryContext};

fn node(name: &str, flag: Option<&str>, cpus: Option<&str>) -> NodeEntry {
    NodeEntry {
        name: name.to_string(),
        has_cxl_memory: flag.map(|s| s.to_string()),
        cpulist: cpus.map(|s| s.to_string()),
    }
}

#[test]
fn flagged_and_memory_only_nodes_are_detected() {
    let entries = vec![
        node("node0", Some("0\n"), Some("0-15\n")),
        node("node1", Some(" 1\n"), Some("16-31\n")),
        node("node2", None, Some("\n")),
        node("node3", Some("1"), Some("")),
        node("node4", Some("11"), None),
        node("possible", Some("1"), Some("")),
        node("nodes", Some("1"), Some("")),
        node("node", Some("1"), Some("")),
        node("node-5", Some("1"), Some("")),
        node("node+6", Some("1"), None),
    ];
    assert_eq!(CxlAllocator::detect_cxl_nodes(&entries), vec![1, 2, 3, 3, 6]);
}

#[test]
fn node_zero_is_the_fallback() {
    assert_eq!(CxlAllocator::detect_cxl_nodes(&vec![]), vec![0]);
    assert_eq!(
        CxlAllocator::detect_cxl_nodes(&vec![node("node7", Some("0"), Some("0-3"))]),
        vec![0]
    );
}

#[test]
fn huge_pages_are_mapped_and_bound() {
    let mut a = CxlAllocator::allocate_on_cxl(32768, 3);
    assert_eq!(
        a.action(),
        AllocAction::MapMemory { len: 32768, shared: true, huge_pages: true }
    );
    a.advance(AllocEvent::Mapped(0x7000_0000));
    assert_eq!(
        a.action(),
        AllocAction::Bind {
            addr: 0x7000_0000,
            len: 32768,
            mode: 2,
            nodemask: 8,
            maxnode: 64,
            flags: 3,
        }
    );
    a.advance(AllocEvent::Bound);
    assert_eq!(a.action(), AllocAction::Finish(Some(0x7000_0000)));
}

#[test]
fn ordinary_pages_are_tried_next() {
    let mut a = CxlAllocator::allocate_on_cxl(100, 63);
    a.advance(AllocEvent::MapFailed);
    assert_eq!(
        a.action(),
        AllocAction::MapMemory { len: 100, shared: true, huge_pages: false }
    );
    let mut b = a;
    a.advance(AllocEvent::Mapped(0x1000));
    assert!(matches!(
        a.action(),
        AllocAction::Bind { addr: 0x1000, nodemask: 0x8000_0000_0000_0000, .. }
    ));
    a.advance(AllocEvent::Bound);
    assert_eq!(a.action(), AllocAction::Finish(Some(0x1000)));
    b.advance(AllocEvent::MapFailed);
    assert_eq!(b.action(), AllocAction::Finish(None));
}

#[test]
fn memory_at_the_null_address_is_none() {
    let mut a = CxlAllocator::allocate_on_cxl(100, 0);
    a.advance(AllocEvent::Mapped(0));
    a.advance(AllocEvent::Bound);
    assert_eq!(a.action(), AllocAction::Finish(None));
}

#[test]
fn shared_block_goes_to_the_first_node() {
    let entries = vec![
        node("node0", None, Some("0-7")),
        node("node5", Some("1"), Some("")),
        node("node6", Some("1"), Some("")),
    ];
    assert_eq!(
        SharedMemoryContext::allocate(&entries),
        CxlAllocation { size: 32768, numa_node: 5, stage: AllocStage::MapHuge }
    );
    assert_eq!(SharedMemoryContext::allocate(&vec![]).numa_node, 0);
}

#[test]
fn shared_matrices_are_apart_and_aligned() {
    let shared = SharedMemoryContext::mapped_at(0x5000);
    assert_eq!(shared.physical_address(), 0x5000);
    assert_eq!(shared.state_matrix_gpu_ptr(), 0x5000);
    assert_eq!(shared.actuator_command_gpu_ptr(), 0x5000 + 16384);
    assert_eq!(shared.actuator_command_gpu_ptr() % 256, 0);
    assert!(shared.state_matrix.data.iter().all(|row| row.iter().all(|x| x.0 == 0)));
    assert!(shared
        .actuator_command
        .target_dispatch_map
        .iter()
        .all(|row| row.iter().all(|x| x.0 == 0)));
}

#[test]
fn bar_is_mapped_and_the_device_closed() {
    let mut m = PcieBarMapper::map_bar(0x3fe_0000_0000, 65536);
    assert_eq!(m.action(), BarAction::Open);
    m.advance(BarEvent::Opened(4));
    assert_eq!(
        m.action(),
        BarAction::MapDevice { fd: 4, len: 65536, offset: 0x3fe_0000_0000 }
    );
    let mut failed = m;
    m.advance(BarEvent::Mapped(0x9000));
    assert_eq!(m.action(), BarAction::Close { fd: 4 });
    m.advance(BarEvent::Closed);
    assert_eq!(m.action(), BarAction::Finish(Some(0x9000)));
    failed.advance(BarEvent::MapFailed);
    assert_eq!(failed.action(), BarAction::Close { fd: 4 });
    failed.advance(BarEvent::Closed);
    assert_eq!(failed.action(), BarAction::Finish(None));
}

#[test]
fn bar_of_an_unopened_device_is_none() {
    let mut m = PcieBarMapper::map_bar(0, 1);
    m.advance(BarEvent::Opened(-1));
    assert_eq!(m.action(), BarAction::Finish(None));
}
