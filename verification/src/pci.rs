//! PCI configuration space: addresses, the fields of a device's header, and
//! the enumeration of the devices on the buses.
//!
//! The port I/O itself is handed in as a function from a configuration
//! address to the word read back.
use vstd::prelude::*;

verus! {

/// A PCI function found on a bus.
#[derive(Debug, Clone, Copy, PartialEq, Eq)]
pub struct PciDevice {
    pub bus: u8,
    pub device: u8,
    pub function: u8,
    pub vendor_id: u16,
    pub device_id: u16,
    pub class: u8,
    pub subclass: u8,
}

/// The configuration address of register `offset` of a function: the enable
/// bit, the bus, device and function numbers, and the offset rounded down to
/// a multiple of four.
pub open spec fn config_address_spec(bus: u8, device: u8, func: u8, offset: u8) -> u32 {
    0x8000_0000u32 | ((bus as u32) << 16u32) | ((device as u32) << 11u32) | ((func as u32) << 8u32) | (
    (offset as u32) & 0xFCu32)
}

/// The vendor held in the low half of a function's first configuration word.
pub open spec fn vendor_of(word: u32) -> u16 {
    (word & 0xFFFF) as u16
}

/// The device held in the high half of a function's first configuration word.
pub open spec fn device_of(word: u32) -> u16 {
    ((word >> 16u32) & 0xFFFF) as u16
}

/// No function answers: the vendor reads as all ones.
pub open spec fn absent(word: u32) -> bool {
    vendor_of(word) == 0xFFFF
}

/// The place of a device in the order of the scan.
pub open spec fn slot(d: PciDevice) -> int {
    d.bus * 32 + d.device
}

/// `word` may be what `io` reads at configuration address `addr`.
pub open spec fn may_read<F: Fn(u32) -> u32>(io: F, addr: u32, word: u32) -> bool {
    call_ensures(io, (addr,), word)
}

/// The configuration address of register `offset` of function `func` of `device` on `bus`.
pub fn config_address(bus: u8, device: u8, func: u8, offset: u8) -> (a: u32)
    ensures
        a == config_address_spec(bus, device, func, offset),
{
    0x8000_0000u32 | ((bus as u32) << 16u32) | ((device as u32) << 11u32) | ((func as u32) << 8u32)
        | ((offset as u32) & 0xFCu32)
}

impl PciDevice {
    /// Reads a configuration register through `io`.
    pub fn read_config<F: Fn(u32) -> u32>(io: &F, bus: u8, device: u8, func: u8, offset: u8) -> (w: u32)
        requires
            forall|a: u32| call_requires(*io, (a,)),
        ensures
            may_read(*io, config_address_spec(bus, device, func, offset), w),
    {
        let address = config_address(bus, device, func, offset);
        io(address)
    }

    /// Reads the vendor of a function.
    pub fn read_vendor<F: Fn(u32) -> u32>(io: &F, bus: u8, device: u8, func: u8) -> (v: u16)
        requires
            forall|a: u32| call_requires(*io, (a,)),
        ensures
            exists|w: u32| may_read(*io, config_address_spec(bus, device, func, 0), w) && v == vendor_of(w),
    {
        let w = Self::read_config(io, bus, device, func, 0);
        let v = (w & 0xFFFF) as u16;
        assert(may_read(*io, config_address_spec(bus, device, func, 0), w) && v == vendor_of(w));
        v
    }

    /// Reads the device of a function.
    pub fn read_device<F: Fn(u32) -> u32>(io: &F, bus: u8, device: u8, func: u8) -> (d: u16)
        requires
            forall|a: u32| call_requires(*io, (a,)),
        ensures
            exists|w: u32| may_read(*io, config_address_spec(bus, device, func, 0), w) && d == device_of(w),
    {
        let w = Self::read_config(io, bus, device, func, 0);
        let d = ((w >> 16u32) & 0xFFFF) as u16;
        assert(may_read(*io, config_address_spec(bus, device, func, 0), w) && d == device_of(w));
        d
    }
}

/// `d` is what the scan records for the function 0 it found at its bus and device.
pub open spec fn found<F: Fn(u32) -> u32>(io: F, d: PciDevice) -> bool {
    let addr0 = config_address_spec(d.bus, d.device, 0, 0);
    let addr8 = config_address_spec(d.bus, d.device, 0, 8);
    &&& d.device < 32
    &&& d.function == 0
    &&& exists|w: u32| #[trigger] may_read(io, addr0, w) && d.vendor_id == vendor_of(w) && !absent(w)
    &&& exists|w: u32| #[trigger] may_read(io, addr0, w) && d.device_id == device_of(w)
    &&& exists|w: u32|
        #[trigger] may_read(io, addr8, w) && d.class == (w >> 24u32) as u8 && d.subclass == (w
            >> 16u32) as u8
}

/// Whether a device was seen at `bus` and `device`, function 0, in the list `ds`.
pub open spec fn listed(ds: Seq<PciDevice>, bus: int, device: int) -> bool {
    exists|i: int| 0 <= i < ds.len() && (#[trigger] ds[i]).bus == bus && ds[i].device == device
}

/// Scans function 0 of every device on every bus, and lists those that answer,
/// in the order of their bus and device numbers.
pub fn scan_bus<F: Fn(u32) -> u32>(io: &F) -> (devices: Vec<PciDevice>)
    requires
        forall|a: u32| call_requires(*io, (a,)),
    ensures
        forall|i: int| 0 <= i < devices@.len() ==> found(*io, #[trigger] devices@[i]),
        forall|i: int, j: int| 0 <= i < j < devices@.len() ==> slot(#[trigger] devices@[i]) < slot(#[trigger] devices@[j]),
        forall|b: int, d: int|
            0 <= b < 256 && 0 <= d < 32 && !#[trigger] listed(devices@, b, d) ==> exists|w: u32|
                #[trigger] may_read(*io, config_address_spec(b as u8, d as u8, 0, 0), w) && absent(w),
{
    let mut devices: Vec<PciDevice> = Vec::new();
    let mut bus: u16 = 0;
    while bus < 256
        invariant
            bus <= 256,
            forall|a: u32| call_requires(*io, (a,)),
            forall|i: int| 0 <= i < devices@.len() ==> found(*io, #[trigger] devices@[i]),
            forall|i: int, j: int| 0 <= i < j < devices@.len() ==> slot(#[trigger] devices@[i]) < slot(#[trigger] devices@[j]),
            forall|i: int| 0 <= i < devices@.len() ==> slot(#[trigger] devices@[i]) < bus * 32,
            forall|b: int, d: int|
                0 <= b < bus && 0 <= d < 32 && !#[trigger] listed(devices@, b, d) ==> exists|w: u32|
                    #[trigger] may_read(*io, config_address_spec(b as u8, d as u8, 0, 0), w) && absent(w),
        decreases 256 - bus,
    {
        let b = bus as u8;
        let mut device: u8 = 0;
        while device < 32
            invariant
                bus < 256,
                b == bus,
                device <= 32,
                forall|a: u32| call_requires(*io, (a,)),
                forall|i: int| 0 <= i < devices@.len() ==> found(*io, #[trigger] devices@[i]),
                forall|i: int, j: int| 0 <= i < j < devices@.len() ==> slot(#[trigger] devices@[i]) < slot(#[trigger] devices@[j]),
                forall|i: int| 0 <= i < devices@.len() ==> slot(#[trigger] devices@[i]) < bus * 32 + device,
                forall|bb: int, d: int|
                    ((0 <= bb < bus && 0 <= d < 32) || (bb == bus && 0 <= d < device)) && !#[trigger] listed(devices@, bb, d)
                        ==> exists|w: u32|
                        #[trigger] may_read(*io, config_address_spec(bb as u8, d as u8, 0, 0), w) && absent(w),
            decreases 32 - device,
        {
            let vendor_id = PciDevice::read_vendor(io, b, device, 0);
            let ghost addr0 = config_address_spec(b, device, 0, 0);
            let ghost w0 = choose|w: u32| may_read(*io, addr0, w) && vendor_id == vendor_of(w);
            assert(may_read(*io, addr0, w0) && vendor_id == vendor_of(w0));
            proof {
                assert((bus as int) as u8 == b);
                assert((device as int) as u8 == device);
            }
            if vendor_id != 0xFFFF {
                let device_id = PciDevice::read_device(io, b, device, 0);
                let class_word = PciDevice::read_config(io, b, device, 0, 0x08);
                let class = (class_word >> 24u32) as u8;
                let subclass = (class_word >> 16u32) as u8;
                let dev = PciDevice {
                    bus: b,
                    device,
                    function: 0,
                    vendor_id,
                    device_id,
                    class,
                    subclass,
                };
                proof {
                    let w1 = choose|w: u32| may_read(*io, addr0, w) && device_id == device_of(w);
                    assert(may_read(*io, addr0, w1) && device_id == device_of(w1));
                    assert(may_read(*io, config_address_spec(b, device, 0, 8), class_word));
                    assert(may_read(*io, addr0, w0) && dev.vendor_id == vendor_of(w0) && !absent(w0));
                    assert(dev.class == (class_word >> 24u32) as u8);
                    assert(dev.subclass == (class_word >> 16u32) as u8);
                    assert(may_read(*io, config_address_spec(dev.bus, dev.device, 0, 8), class_word) && dev.class == (class_word >> 24u32) as u8 && dev.subclass == (class_word
            >> 16u32) as u8);
                    assert(found(*io, dev));
                }
                let ghost before = devices@;
                devices.push(dev);
                proof {
                    let n = before.len() as int;
                    assert(devices@[n] == dev);
                    assert(listed(devices@, bus as int, device as int));
                    assert forall|bb: int, d: int|
                        ((0 <= bb < bus && 0 <= d < 32) || (bb == bus && 0 <= d < device + 1)) && !#[trigger] listed(devices@, bb, d)
                        implies exists|w: u32|
                        #[trigger] may_read(*io, config_address_spec(bb as u8, d as u8, 0, 0), w) && absent(w) by {
                        if listed(before, bb, d) {
                            let i = choose|i: int| 0 <= i < before.len() && (#[trigger] before[i]).bus == bb && before[i].device == d;
                            assert(devices@[i] == before[i]);
                        }
                    }
                }
            } else {
                proof {
                    assert(absent(w0));
                    assert forall|bb: int, d: int|
                        ((0 <= bb < bus && 0 <= d < 32) || (bb == bus && 0 <= d < device + 1)) && !#[trigger] listed(devices@, bb, d)
                        implies exists|w: u32|
                        #[trigger] may_read(*io, config_address_spec(bb as u8, d as u8, 0, 0), w) && absent(w) by {
                        if bb == bus && d == device {
                            assert(may_read(*io, config_address_spec(bb as u8, d as u8, 0, 0), w0) && absent(w0));
                        }
                    }
                }
            }
            device += 1;
        }
        bus += 1;
    }
    devices
}

/// The vendor of virtio devices.
pub const VIRTIO_VENDOR: u16 = 0x1AF4;

/// The device number of the virtio network card.
pub const VIRTIO_NET_DEVICE: u16 = 0x1000;

impl PciDevice {
    /// The device is a virtio network card.
    pub fn is_virtio_net(&self) -> (b: bool)
        ensures
            b == (self.vendor_id == VIRTIO_VENDOR && self.device_id == VIRTIO_NET_DEVICE),
    {
        self.vendor_id == VIRTIO_VENDOR && self.device_id == VIRTIO_NET_DEVICE
    }
}

} // verus!
