use nexus_os::pci::{config_address, scan_bus, PciDevice};

fn fake_io(addr: u32) -> u32 {
    let bus = (addr >> 16) & 0xFF;
    let dev = (addr >> 11) & 0x1F;
    let off = addr & 0xFC;
    match (bus, dev, off) {
        (0, 3, 0) => 0x1000_1AF4,
        (0, 3, 8) => 0x0200_0000,
        (2, 0, 0) => 0x1234_8086,
        (2, 0, 8) => 0x0601_0000,
        _ => 0xFFFF_FFFF,
    }
}

#[test]
fn config_addresses() {
    assert_eq!(config_address(0, 0, 0, 0), 0x8000_0000);
    assert_eq!(config_address(1, 2, 3, 0x0A), 0x8001_1308);
    assert_eq!(config_address(255, 31, 7, 0xFF), 0x80FF_FFFC);
}

#[test]
fn vendor_and_device_halves() {
    assert_eq!(PciDevice::read_vendor(&fake_io, 0, 3, 0), 0x1AF4);
    assert_eq!(PciDevice::read_device(&fake_io, 0, 3, 0), 0x1000);
    assert_eq!(PciDevice::read_vendor(&fake_io, 0, 4, 0), 0xFFFF);
    assert_eq!(PciDevice::read_config(&fake_io, 2, 0, 0, 8), 0x0601_0000);
}

#[test]
fn scan_lists_present_devices_in_order() {
    let devices = scan_bus(&fake_io);
    assert_eq!(
        devices,
        vec![
            PciDevice { bus: 0, device: 3, function: 0, vendor_id: 0x1AF4, device_id: 0x1000, class: 2, subclass: 0 },
            PciDevice { bus: 2, device: 0, function: 0, vendor_id: 0x8086, device_id: 0x1234, class: 6, subclass: 1 },
        ]
    );
}

#[test]
fn scan_of_an_empty_bus() {
    assert!(scan_bus(&|_a: u32| 0xFFFF_FFFFu32).is_empty());
}

#[test]
fn virtio_network_card_is_recognised() {
    let card = PciDevice { bus: 0, device: 3, function: 0, vendor_id: 0x1AF4, device_id: 0x1000, class: 2, subclass: 0 };
    assert!(card.is_virtio_net());
    let block = PciDevice { device_id: 0x1001, ..card };
    assert!(!block.is_virtio_net());
    let other = PciDevice { vendor_id: 0x8086, ..card };
    assert!(!other.is_virtio_net());
}
