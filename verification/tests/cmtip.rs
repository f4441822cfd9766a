use hmtl_kernel::cmtip::weight_seed;
use hmtl_kernel::{CmtipBus, CmtipError, TensorPacket, TensorPacketHeader};

#[test]
fn header_validation() {
    let hdr = TensorPacketHeader::new_fp8(42, [1, 128, 128, 1]);
    assert!(hdr.is_valid());
    assert_eq!(hdr.num_elements(), 128 * 128);
    assert_eq!(hdr.payload_bytes(), 128 * 128); // FP8 = 1 byte/element
}

#[test]
fn header_rejects_bad_magic() {
    let mut hdr = TensorPacketHeader::new_fp8(42, [1, 128, 128, 1]);
    hdr.magic_number = 0xDEADBEEF;
    assert!(!hdr.is_valid());
}

#[test]
fn cmtip_bus_send() {
    let mut bus = CmtipBus::new(8);
    bus.register_receiver(3, 0xDEAD_BEEF_0000);
    assert!(bus.send(0, 3, 0xBEEF_0000, 16384).is_ok());
    assert!(matches!(
        bus.send(0, 5, 0, 0).unwrap_err(),
        CmtipError::AgentNotRegistered(5)
    ));
}

#[test]
fn new_header_has_all_its_fields() {
    let hdr = TensorPacketHeader::new_fp8(7, [2, 3, 5, 7]);
    assert_eq!(hdr.magic_number, 0x484D544C);
    assert_eq!(hdr.magic_number.to_be_bytes(), *b"HMTL");
    assert_eq!(hdr.source_model_id, 7);
    assert_eq!(hdr.tensor_shape, [2, 3, 5, 7]);
    assert_eq!(hdr.data_type, 0);
    assert_eq!(hdr._reserved, [0, 0, 0]);
    assert_eq!(hdr.axis_mapping_ptr, 0);
}

#[test]
fn payload_depends_on_the_data_type() {
    let mut hdr = TensorPacketHeader::new_fp8(7, [2, 3, 5, 7]);
    assert_eq!(hdr.num_elements(), 210);
    for (data_type, bytes) in [(0u8, 210), (1, 420), (2, 420), (3, 210), (255, 210)] {
        hdr.data_type = data_type;
        assert_eq!(hdr.payload_bytes(), bytes);
    }
}

#[test]
fn empty_tensor_has_no_payload() {
    let hdr = TensorPacketHeader::new_fp8(7, [u32::MAX, 0, u32::MAX, 9]);
    assert_eq!(hdr.num_elements(), 0);
    assert_eq!(hdr.payload_bytes(), 0);
}

#[test]
fn packet_holds_header_and_payload() {
    let packet = TensorPacket::<6> {
        header: TensorPacketHeader::new_fp8(1, [1, 2, 3, 1]),
        payload: [1, 2, 3, 4, 5, 6],
    };
    assert_eq!(packet.header.payload_bytes(), packet.payload.len());
}

#[test]
fn new_bus_delivers_nothing() {
    let bus = CmtipBus::new(2);
    assert_eq!(bus.send(0, 0, 0, 0), Err(CmtipError::AgentNotRegistered(0)));
    assert_eq!(bus.send(0, 1, 0, 0), Err(CmtipError::AgentNotRegistered(1)));
    assert_eq!(bus.send(0, 2, 0, 0), Err(CmtipError::AgentIdOutOfRange(2)));
    assert_eq!(
        CmtipBus::new(0).send(0, 0, 0, 0),
        Err(CmtipError::AgentIdOutOfRange(0))
    );
}

#[test]
fn registration_opens_one_route() {
    let mut bus = CmtipBus::new(3);
    bus.register_receiver(1, 0);
    assert_eq!(bus.send(2, 1, 10, 20), Ok(()));
    assert_eq!(bus.send(2, 0, 10, 20), Err(CmtipError::AgentNotRegistered(0)));
    assert_eq!(bus.send(2, 7, 10, 20), Err(CmtipError::AgentIdOutOfRange(7)));
    bus.register_receiver(1, 99);
    assert_eq!(bus.send(2, 1, 10, 20), Ok(()));
}

#[test]
fn weight_seeds_mix_both_indices() {
    assert_eq!(weight_seed(0, 0), 0);
    assert_eq!(weight_seed(1, 0), 2654435761);
    assert_eq!(weight_seed(0, 1), 1597334677);
    assert_eq!(weight_seed(3, 5), 7963307283 ^ 7986673385);
    assert_eq!(
        weight_seed(usize::MAX, 0),
        usize::MAX.wrapping_mul(2654435761)
    );
}
