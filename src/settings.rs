use vstd::prelude::*;

verus! {

/// The daemon's configuration.
#[derive(Debug)]
pub struct DnsSettings {
    pub listening_port: u16,
    pub remote_lookup_port: u16,
    pub database_file: String,
    pub thread_count: u32,
    pub use_udp: bool,
    pub use_tcp: bool,
}

pub const DEFAULT_LISTENING_PORT: u16 = 53;

pub const DEFAULT_REMOTE_LOOKUP_PORT: u16 = 42069;

pub const DEFAULT_THREAD_COUNT: u32 = 1;

/// A value of the configuration file, cut to the low 16 bits as a port is.
pub open spec fn port_of(v: Option<i64>, default: u16) -> u16 {
    match v {
        Some(x) => (x as int % 65536) as u16,
        None => default,
    }
}

impl Clone for DnsSettings {
    fn clone(&self) -> (r: Self)
        ensures
            r.listening_port == self.listening_port,
            r.remote_lookup_port == self.remote_lookup_port,
            r.database_file@ == self.database_file@,
            r.thread_count == self.thread_count,
            r.use_udp == self.use_udp,
            r.use_tcp == self.use_tcp,
    {
        DnsSettings {
            listening_port: self.listening_port,
            remote_lookup_port: self.remote_lookup_port,
            database_file: self.database_file.clone(),
            thread_count: self.thread_count,
            use_udp: self.use_udp,
            use_tcp: self.use_tcp,
        }
    }
}

fn low_u16(x: i64) -> (r: u16)
    ensures
        r == (x as int % 65536) as u16,
{
    let m = (x % 65536 + 65536) % 65536;
    assert(m == x as int % 65536);
    m as u16
}

fn low_u32(x: i64) -> (r: u32)
    ensures
        r == (x as int % 0x1_0000_0000) as u32,
{
    let m = ((x as i128) % 0x1_0000_0000i128 + 0x1_0000_0000i128) % 0x1_0000_0000i128;
    assert(m == x as int % 0x1_0000_0000);
    m as u32
}

impl DnsSettings {
    /// The settings from the values that a configuration file gave, each
    /// missing one at its default: port 53, lookups from port 42069, one
    /// thread, UDP on and TCP off. Numbers keep their low bits, as a cast
    /// would. `database_file` is the path already expanded.
    pub fn from_values(
        listening_port: Option<i64>,
        remote_lookup_port: Option<i64>,
        database_file: String,
        thread_count: Option<i64>,
        use_udp: Option<bool>,
        use_tcp: Option<bool>,
    ) -> (r: DnsSettings)
        ensures
            r.listening_port == port_of(listening_port, DEFAULT_LISTENING_PORT),
            r.remote_lookup_port == port_of(remote_lookup_port, DEFAULT_REMOTE_LOOKUP_PORT),
            r.database_file@ == database_file@,
            r.thread_count == match thread_count {
                Some(x) => (x as int % 0x1_0000_0000) as u32,
                None => DEFAULT_THREAD_COUNT,
            },
            r.use_udp == match use_udp {
                Some(b) => b,
                None => true,
            },
            r.use_tcp == match use_tcp {
                Some(b) => b,
                None => false,
            },
    {
        DnsSettings {
            listening_port: match listening_port {
                Some(x) => low_u16(x),
                None => DEFAULT_LISTENING_PORT,
            },
            remote_lookup_port: match remote_lookup_port {
                Some(x) => low_u16(x),
                None => DEFAULT_REMOTE_LOOKUP_PORT,
            },
            database_file,
            thread_count: match thread_count {
                Some(x) => low_u32(x),
                None => DEFAULT_THREAD_COUNT,
            },
            use_udp: match use_udp {
                Some(b) => b,
                None => true,
            },
            use_tcp: match use_tcp {
                Some(b) => b,
                None => false,
            },
        }
    }
}

} // verus!
