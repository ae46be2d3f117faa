use clam_onaccess::pool::{Readiness, RecycleFault, RecycleStep, StreamManager};
use std::path::PathBuf;

fn manager() -> StreamManager {
    StreamManager::new(PathBuf::from("/run/clamav/clamd.ctl"))
}

#[test]
fn manager_keeps_the_path() {
    assert_eq!(manager().path(), &PathBuf::from("/run/clamav/clamd.ctl"));
}

#[test]
fn only_quiet_writable_connections_are_kept() {
    let m = manager();
    let at = |readable, writable| Some(Readiness { readable, writable });
    assert_eq!(m.recycle(at(false, true)), RecycleStep::Keep);
    assert_eq!(m.recycle(at(true, true)), RecycleStep::Probe);
    assert_eq!(m.recycle(at(true, false)), RecycleStep::Probe);
    assert_eq!(m.recycle(at(false, false)), RecycleStep::Discard(RecycleFault::NotConnected));
    assert_eq!(m.recycle(None), RecycleStep::Discard(RecycleFault::Backend));
}

#[test]
fn readable_connections_are_never_kept() {
    let m = manager();
    assert_eq!(m.recycle_probe(Some(0)), RecycleFault::ConnectionReset);
    assert_eq!(m.recycle_probe(Some(1)), RecycleFault::InvalidData);
    assert_eq!(m.recycle_probe(None), RecycleFault::Backend);
}

#[test]
fn faults_are_described() {
    assert_eq!(RecycleFault::ConnectionReset.message(), "Connection closed");
    assert_eq!(RecycleFault::NotConnected.message(), "Connection is not writable");
    assert_eq!(RecycleFault::InvalidData.message(), "");
    assert_eq!(RecycleFault::Backend.message(), "");
}
