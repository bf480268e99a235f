//! The per-target statistic record: counters of passed and failed probes,
//! accumulated unreachable time, and the time of the last completed probe.

use vstd::prelude::*;

verus! {

/// The record kept for one target, as the store and the export see it.
pub struct PingStat {
    /// The target's identity: the bytes of its address text.
    pub ip: Vec<u8>,
    /// Probes that succeeded.
    pub pass: u64,
    /// Probes that failed or timed out.
    pub fail: u64,
    /// Milliseconds accumulated over unbroken runs of failed probes.
    pub disconnected_time: u64,
    /// Wall-clock time of the last completed probe, in milliseconds since
    /// the Unix epoch; 0 while no probe has completed yet.
    pub last_probe_ms: u64,
}

/// The mathematical shape of one record.
pub struct StatModel {
    pub ip: Seq<u8>,
    pub pass: int,
    pub fail: int,
    pub disconnected_time: int,
    pub last_probe_ms: int,
}

impl View for PingStat {
    type V = StatModel;

    open spec fn view(&self) -> StatModel {
        StatModel {
            ip: self.ip@,
            pass: self.pass as int,
            fail: self.fail as int,
            disconnected_time: self.disconnected_time as int,
            last_probe_ms: self.last_probe_ms as int,
        }
    }
}

/// The record a target starts with: all counters zero, no probe yet.
pub open spec fn zero_stat(ip: Seq<u8>) -> StatModel {
    StatModel { ip, pass: 0, fail: 0, disconnected_time: 0, last_probe_ms: 0 }
}

impl PingStat {
    /// A fresh record for a newly started target.
    pub fn new(ip: Vec<u8>) -> (s: PingStat)
        ensures
            s@ == zero_stat(ip@),
    {
        PingStat { ip, pass: 0, fail: 0, disconnected_time: 0, last_probe_ms: 0 }
    }

    /// An independent copy of the record.
    pub fn duplicate(&self) -> (s: PingStat)
        ensures
            s@ == self@,
    {
        let mut ip: Vec<u8> = Vec::new();
        let mut i: usize = 0;
        while i < self.ip.len()
            invariant
                i <= self.ip.len(),
                ip@ == self.ip@.subrange(0, i as int),
            decreases self.ip.len() - i,
        {
            ip.push(self.ip[i]);
            i = i + 1;
        }
        assert(ip@ == self.ip@);
        PingStat {
            ip,
            pass: self.pass,
            fail: self.fail,
            disconnected_time: self.disconnected_time,
            last_probe_ms: self.last_probe_ms,
        }
    }
}

} // verus!
