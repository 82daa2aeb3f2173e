//! The monitoring service's state: configuration, the stop flag, and the
//! per-cycle bookkeeping. The platform loop that sleeps and reads the
//! journal lives outside; it consults and updates this state.

use vstd::prelude::*;
use crate::journal::{UsnRecord, ChangeType, rec_views};
use crate::incremental::count_type;

verus! {

/// The default cache file name.
pub open spec fn default_cache_path() -> Seq<u8> {
    seq![112u8, 116u8, 114u8, 101u8, 101u8, 46u8, 100u8, 97u8, 116u8]
}

/// The default log file name.
pub open spec fn default_log_path() -> Seq<u8> {
    seq![115u8, 101u8, 114u8, 118u8, 105u8, 99u8, 101u8, 46u8, 108u8, 111u8, 103u8]
}

/// Service configuration: the drive to watch, how often to check, and where
/// the cache and the log live.
pub struct ServiceConfig {
    pub drive_letter: char,
    pub check_interval: u64,
    pub cache_path: Vec<u8>,
    pub log_path: Vec<u8>,
}

impl Default for ServiceConfig {
    /// Watch drive `C` every minute, with the default file names.
    fn default() -> (r: Self)
        ensures
            r.drive_letter == 'C',
            r.check_interval == 60,
            r.cache_path@ == default_cache_path(),
            r.log_path@ == default_log_path(),
    {
        let mut cache_path: Vec<u8> = Vec::new();
        cache_path.push(112);
        cache_path.push(116);
        cache_path.push(114);
        cache_path.push(101);
        cache_path.push(101);
        cache_path.push(46);
        cache_path.push(100);
        cache_path.push(97);
        cache_path.push(116);
        let mut log_path: Vec<u8> = Vec::new();
        log_path.push(115);
        log_path.push(101);
        log_path.push(114);
        log_path.push(118);
        log_path.push(105);
        log_path.push(99);
        log_path.push(101);
        log_path.push(46);
        log_path.push(108);
        log_path.push(111);
        log_path.push(103);
        proof {
            assert(cache_path@ =~= default_cache_path());
            assert(log_path@ =~= default_log_path());
        }
        ServiceConfig { drive_letter: 'C', check_interval: 60, cache_path, log_path }
    }
}

/// A service run: its configuration, the stop flag the platform loop polls,
/// and the instant of the last successful cache update.
pub struct PtreeService {
    pub config: ServiceConfig,
    pub should_exit: bool,
    pub last_update: i64,
}

/// A point-in-time report of the service.
pub struct ServiceStatus {
    pub is_running: bool,
    pub last_update: i64,
    pub drive: char,
    pub cache_path: Vec<u8>,
}

impl PtreeService {
    /// A service that has not been asked to stop and has not updated yet.
    pub fn new(config: ServiceConfig) -> (r: Self)
        ensures
            r.config == config,
            r.should_exit == false,
            r.last_update == 0,
    {
        PtreeService { config, should_exit: false, last_update: 0 }
    }

    /// Ask the service to stop after its current cycle.
    pub fn stop(&mut self)
        ensures
            final(self).should_exit == true,
            final(self).config == old(self).config,
            final(self).last_update == old(self).last_update,
    {
        self.should_exit = true;
    }

    /// Count what a batch of changes would do to the cache: directory
    /// creations, modifications and deletions, in that order.
    pub fn apply_changes(&self, changes: &Vec<UsnRecord>) -> (r: (usize, usize, usize))
        ensures
            r.0 == count_type(rec_views(changes@), ChangeType::Created),
            r.1 == count_type(rec_views(changes@), ChangeType::Modified),
            r.2 == count_type(rec_views(changes@), ChangeType::Deleted),
    {
        let counts = crate::incremental::estimate_change_impact(changes);
        (counts.0, counts.1, counts.2)
    }

    /// The current state of the run.
    pub fn status(&self) -> (r: ServiceStatus)
        ensures
            r.is_running == !self.should_exit,
            r.last_update == self.last_update,
            r.drive == self.config.drive_letter,
            r.cache_path@ == self.config.cache_path@,
    {
        ServiceStatus {
            is_running: !self.should_exit,
            last_update: self.last_update,
            drive: self.config.drive_letter,
            cache_path: crate::bytestr::clone_bytes(&self.config.cache_path),
        }
    }
}

} // verus!
