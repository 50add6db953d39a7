use vstd::prelude::*;

verus! {

/// An IPv4 address held as its four octets, most significant first.
#[derive(Clone, Copy, Debug, PartialEq, Eq, Structural)]
pub struct Ipv4Addr(pub u8, pub u8, pub u8, pub u8);

impl Ipv4Addr {
    pub fn new(a: u8, b: u8, c: u8, d: u8) -> (r: Ipv4Addr)
        ensures
            r == Ipv4Addr(a, b, c, d),
    {
        Ipv4Addr(a, b, c, d)
    }

    /// The four octets in dotted order.
    pub fn octets(&self) -> (r: [u8; 4])
        ensures
            r@ == seq![self.0, self.1, self.2, self.3],
    {
        [self.0, self.1, self.2, self.3]
    }
}

/// General device descriptor for CDJs/ProDJlink devices.
#[derive(Clone, Debug)]
pub struct CDJDevice {
    /// Name of the player
    pub name: String,
    /// Player id, unique within one source address
    pub id: u8,
    /// MAC address of the player
    pub mac: [u8; 6],
    /// IP address of the player
    pub ip: Ipv4Addr,
    /// Device type of the player
    pub device_type: u8,
}

/// What a device record holds, as mathematical values.
pub struct DeviceView {
    pub name: Seq<char>,
    pub id: u8,
    pub mac: Seq<u8>,
    pub ip: Ipv4Addr,
    pub device_type: u8,
}

impl View for CDJDevice {
    type V = DeviceView;

    open spec fn view(&self) -> DeviceView {
        DeviceView {
            name: self.name@,
            id: self.id,
            mac: self.mac@,
            ip: self.ip,
            device_type: self.device_type,
        }
    }
}

/// The key under which a device is tracked: its sender address and its id.
pub open spec fn key_of(d: DeviceView) -> (Ipv4Addr, u8) {
    (d.ip, d.id)
}

impl CDJDevice {
    /// A copy of this record, field for field.
    pub fn duplicate(&self) -> (r: CDJDevice)
        ensures
            r@ == self@,
    {
        CDJDevice {
            name: self.name.clone(),
            id: self.id,
            mac: self.mac,
            ip: self.ip,
            device_type: self.device_type,
        }
    }

    /// Whether `other` is tracked under the same key as this record.
    pub fn same_key(&self, other: &CDJDevice) -> (r: bool)
        ensures
            r == (key_of(self@) == key_of(other@)),
    {
        self.ip == other.ip && self.id == other.id
    }
}

} // verus!
