//! Tests of the host orchestrator state machine: the happy path, the
//! verification gate, and the program-hash patch.

use zksum::guest::guest_run;
use zksum::codec::decode_journal;
use zksum::host::{HostAction, HostEvent, Orchestrator};
use zksum::journal::Error;

fn image_id() -> Vec<u8> {
    b"sha256:0123456789abcdef0123456789abcdef0123456789abcdef0123456789abcdef".to_vec()
}

/// Drives the machine through a full successful run, with the guest
/// pipeline standing in for the external prover.
#[test]
fn happy_path_persists_patched_journal() {
    let input = b"The quick brown fox jumps over the lazy dog. The dog barks.";
    let committed = guest_run(input).unwrap().commit;

    let mut host = Orchestrator::new(image_id());
    let a = host.step(HostEvent::InputRead { ok: true });
    assert!(matches!(a, HostAction::DoProve));
    let a = host.step(HostEvent::ProveResult { journal_bytes: Some(committed) });
    assert!(matches!(a, HostAction::DoVerify));
    let a = host.step(HostEvent::VerifyResult { outcome: Some(true) });
    assert!(matches!(a, HostAction::DoFinalize));
    let a = host.finalize();
    let commit = match a {
        HostAction::DoPersist { commit } => commit,
        _ => panic!("expected a persist request"),
    };
    let persisted = decode_journal(&commit).unwrap();
    assert_eq!(persisted.program_hash, image_id());
    assert_ne!(persisted.program_hash, b"<FILLED_BY_HOST>".to_vec());
    assert_eq!(persisted.keywords.len(), 5);
    let a = host.step(HostEvent::PersistResult { ok: true });
    assert!(matches!(a, HostAction::Done));
}

#[test]
fn verify_false_is_fatal_and_persists_nothing() {
    let committed = guest_run(b"cat cat dog").unwrap().commit;
    let mut host = Orchestrator::new(image_id());
    host.step(HostEvent::InputRead { ok: true });
    host.step(HostEvent::ProveResult { journal_bytes: Some(committed) });
    let a = host.step(HostEvent::VerifyResult { outcome: Some(false) });
    assert!(matches!(a, HostAction::Abort { reason: Error::VerifyError }));
    // even though the journal bytes would decode, nothing may be persisted
    let a = host.finalize();
    assert!(matches!(a, HostAction::Abort { reason: Error::VerifyError }));
}

#[test]
fn verify_error_is_fatal() {
    let committed = guest_run(b"cat").unwrap().commit;
    let mut host = Orchestrator::new(image_id());
    host.step(HostEvent::InputRead { ok: true });
    host.step(HostEvent::ProveResult { journal_bytes: Some(committed) });
    let a = host.step(HostEvent::VerifyResult { outcome: None });
    assert!(matches!(a, HostAction::Abort { reason: Error::VerifyError }));
}

#[test]
fn prove_failure_aborts() {
    let mut host = Orchestrator::new(image_id());
    host.step(HostEvent::InputRead { ok: true });
    let a = host.step(HostEvent::ProveResult { journal_bytes: None });
    assert!(matches!(a, HostAction::Abort { reason: Error::ProveError }));
}

#[test]
fn input_read_failure_aborts() {
    let mut host = Orchestrator::new(image_id());
    let a = host.step(HostEvent::InputRead { ok: false });
    assert!(matches!(a, HostAction::Abort { reason: Error::IOError }));
}

#[test]
fn persist_failure_aborts() {
    let committed = guest_run(b"cat").unwrap().commit;
    let mut host = Orchestrator::new(image_id());
    host.step(HostEvent::InputRead { ok: true });
    host.step(HostEvent::ProveResult { journal_bytes: Some(committed) });
    host.step(HostEvent::VerifyResult { outcome: Some(true) });
    host.finalize();
    let a = host.step(HostEvent::PersistResult { ok: false });
    assert!(matches!(a, HostAction::Abort { reason: Error::IOError }));
}

#[test]
fn undecodable_journal_aborts() {
    let mut host = Orchestrator::new(image_id());
    host.step(HostEvent::InputRead { ok: true });
    host.step(HostEvent::ProveResult { journal_bytes: Some(b"not a journal".to_vec()) });
    host.step(HostEvent::VerifyResult { outcome: Some(true) });
    let a = host.finalize();
    assert!(matches!(a, HostAction::Abort { reason: Error::JournalDecodeError }));
}

#[test]
fn out_of_order_event_is_config_error() {
    let mut host = Orchestrator::new(image_id());
    let a = host.step(HostEvent::PersistResult { ok: true });
    assert!(matches!(a, HostAction::Abort { reason: Error::ConfigError }));
}
