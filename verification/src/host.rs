//! The host orchestrator: a state machine that drives the external proving
//! collaborator. The caller performs the outside work (reading input,
//! proving, verifying, persisting) and feeds each outcome back as an event;
//! the machine decides every transition, decodes the committed journal,
//! patches the program identity with the host's independently computed
//! image identity, and only ever asks for persistence after verification
//! succeeded. Proving runs while the machine sits in `InputLoaded`, and
//! journal extraction happens inside `finalize`.

use vstd::prelude::*;
use crate::journal::Journal;
use crate::journal::JournalModel;
use crate::journal::Error;
use crate::codec::dec_journal;
use crate::codec::enc_journal;
use crate::codec::decode_journal;
use crate::codec::encode_journal;
use crate::codec::lemma_dec_journal_wf;
use crate::codec::lemma_decode_encode;
use crate::journal::wf_text;
use crate::journal::wf_journal;
use crate::rank::clone_bytes;

verus! {

/// Where the orchestrator stands.
pub enum HostPhase {
    /// Nothing has happened yet.
    Idle,
    /// The input was read; the prove call is in flight.
    InputLoaded,
    /// A receipt arrived with these committed journal bytes; the verify
    /// call is in flight.
    Proved { journal_bytes: Vec<u8> },
    /// The receipt verified against the expected program image.
    Verified { journal_bytes: Vec<u8> },
    /// The journal was decoded and its program identity patched; these are
    /// the bytes to persist.
    Finalized { journal: Journal, commit: Vec<u8> },
    /// Both artifacts were persisted.
    Persisted,
    /// A step failed; the run is over and nothing more may be persisted.
    Failed { reason: Error },
}

/// Model of a phase.
pub ghost enum PhaseModel {
    Idle,
    InputLoaded,
    Proved(Seq<u8>),
    Verified(Seq<u8>),
    Finalized(JournalModel, Seq<u8>),
    Persisted,
    Failed(Error),
}

impl View for HostPhase {
    type V = PhaseModel;

    open spec fn view(&self) -> PhaseModel {
        match self {
            HostPhase::Idle => PhaseModel::Idle,
            HostPhase::InputLoaded => PhaseModel::InputLoaded,
            HostPhase::Proved { journal_bytes } => PhaseModel::Proved(journal_bytes@),
            HostPhase::Verified { journal_bytes } => PhaseModel::Verified(journal_bytes@),
            HostPhase::Finalized { journal, commit } => PhaseModel::Finalized(journal@, commit@),
            HostPhase::Persisted => PhaseModel::Persisted,
            HostPhase::Failed { reason } => PhaseModel::Failed(*reason),
        }
    }
}

/// An outcome of outside work, reported by the caller.
pub enum HostEvent {
    /// The input file was read, or could not be.
    InputRead { ok: bool },
    /// The collaborator produced a receipt with these committed journal
    /// bytes, or failed.
    ProveResult { journal_bytes: Option<Vec<u8>> },
    /// The collaborator judged the receipt, or errored out.
    VerifyResult { outcome: Option<bool> },
    /// The artifacts were written, or could not be.
    PersistResult { ok: bool },
}

/// Model of an event.
pub ghost enum EventModel {
    InputRead(bool),
    ProveResult(Option<Seq<u8>>),
    VerifyResult(Option<bool>),
    PersistResult(bool),
}

impl View for HostEvent {
    type V = EventModel;

    open spec fn view(&self) -> EventModel {
        match self {
            HostEvent::InputRead { ok } => EventModel::InputRead(*ok),
            HostEvent::ProveResult { journal_bytes } => EventModel::ProveResult(
                match journal_bytes {
                    Option::Some(b) => Option::Some(b@),
                    Option::None => Option::None,
                },
            ),
            HostEvent::VerifyResult { outcome } => EventModel::VerifyResult(*outcome),
            HostEvent::PersistResult { ok } => EventModel::PersistResult(*ok),
        }
    }
}

/// What the caller must do next.
pub enum HostAction {
    /// Run the prover on the loaded input.
    DoProve,
    /// Verify the receipt against the expected program image.
    DoVerify,
    /// Call `finalize` to decode and patch the journal.
    DoFinalize,
    /// Write the finalized journal bytes and the proof bytes, then report
    /// back.
    DoPersist { commit: Vec<u8> },
    /// The run is complete.
    Done,
    /// The run failed; write nothing and exit with this reason.
    Abort { reason: Error },
}

/// Model of an action.
pub ghost enum ActionModel {
    DoProve,
    DoVerify,
    DoFinalize,
    DoPersist(Seq<u8>),
    Done,
    Abort(Error),
}

impl View for HostAction {
    type V = ActionModel;

    open spec fn view(&self) -> ActionModel {
        match self {
            HostAction::DoProve => ActionModel::DoProve,
            HostAction::DoVerify => ActionModel::DoVerify,
            HostAction::DoFinalize => ActionModel::DoFinalize,
            HostAction::DoPersist { commit } => ActionModel::DoPersist(commit@),
            HostAction::Done => ActionModel::Done,
            HostAction::Abort { reason } => ActionModel::Abort(*reason),
        }
    }
}

/// The journal with its program identity replaced; every other field is
/// untouched.
pub open spec fn patch_spec(j: JournalModel, image_id: Seq<u8>) -> JournalModel {
    JournalModel {
        program_hash: image_id,
        input_hash: j.input_hash,
        output_hash: j.output_hash,
        keywords: j.keywords,
    }
}

/// The transition relation for outside events. Any event out of protocol
/// order fails the run; a failed run stays failed.
pub open spec fn step_spec(p: PhaseModel, e: EventModel) -> (PhaseModel, ActionModel) {
    match (p, e) {
        (PhaseModel::Idle, EventModel::InputRead(true)) => (
            PhaseModel::InputLoaded,
            ActionModel::DoProve,
        ),
        (PhaseModel::Idle, EventModel::InputRead(false)) => (
            PhaseModel::Failed(Error::IOError),
            ActionModel::Abort(Error::IOError),
        ),
        (PhaseModel::InputLoaded, EventModel::ProveResult(Option::Some(jb))) => (
            PhaseModel::Proved(jb),
            ActionModel::DoVerify,
        ),
        (PhaseModel::InputLoaded, EventModel::ProveResult(Option::None)) => (
            PhaseModel::Failed(Error::ProveError),
            ActionModel::Abort(Error::ProveError),
        ),
        (PhaseModel::Proved(jb), EventModel::VerifyResult(Option::Some(true))) => (
            PhaseModel::Verified(jb),
            ActionModel::DoFinalize,
        ),
        (PhaseModel::Proved(_), EventModel::VerifyResult(_)) => (
            PhaseModel::Failed(Error::VerifyError),
            ActionModel::Abort(Error::VerifyError),
        ),
        (PhaseModel::Finalized(_, _), EventModel::PersistResult(true)) => (
            PhaseModel::Persisted,
            ActionModel::Done,
        ),
        (PhaseModel::Finalized(_, _), EventModel::PersistResult(false)) => (
            PhaseModel::Failed(Error::IOError),
            ActionModel::Abort(Error::IOError),
        ),
        (PhaseModel::Failed(r), _) => (PhaseModel::Failed(r), ActionModel::Abort(r)),
        _ => (PhaseModel::Failed(Error::ConfigError), ActionModel::Abort(Error::ConfigError)),
    }
}

/// The finalization step: decode the verified journal bytes, patch the
/// program identity, and ask for persistence. Malformed bytes fail the run.
pub open spec fn finalize_spec(p: PhaseModel, image_id: Seq<u8>) -> (PhaseModel, ActionModel) {
    match p {
        PhaseModel::Verified(jb) => match dec_journal(jb) {
            Option::Some(j) => (
                PhaseModel::Finalized(patch_spec(j, image_id), enc_journal(patch_spec(j, image_id))),
                ActionModel::DoPersist(enc_journal(patch_spec(j, image_id))),
            ),
            Option::None => (
                PhaseModel::Failed(Error::JournalDecodeError),
                ActionModel::Abort(Error::JournalDecodeError),
            ),
        },
        PhaseModel::Failed(r) => (PhaseModel::Failed(r), ActionModel::Abort(r)),
        _ => (PhaseModel::Failed(Error::ConfigError), ActionModel::Abort(Error::ConfigError)),
    }
}

/// The orchestrator: the host-computed program image identity, and the
/// current phase.
pub struct Orchestrator {
    pub image_id: Vec<u8>,
    pub phase: HostPhase,
}

impl Orchestrator {
    /// Starts a run for a program image with the given host-computed
    /// identity.
    pub fn new(image_id: Vec<u8>) -> (r: Orchestrator)
        ensures
            r.image_id@ == image_id@,
            r.phase@ == PhaseModel::Idle,
    {
        Orchestrator { image_id, phase: HostPhase::Idle }
    }

    /// Feeds one outside outcome to the machine and learns what to do next.
    pub fn step(&mut self, e: HostEvent) -> (a: HostAction)
        ensures
            final(self).image_id@ == old(self).image_id@,
            (final(self).phase@, a@) == step_spec(old(self).phase@, e@),
    {
        match (&self.phase, e) {
            (HostPhase::Idle, HostEvent::InputRead { ok: true }) => {
                self.phase = HostPhase::InputLoaded;
                HostAction::DoProve
            },
            (HostPhase::Idle, HostEvent::InputRead { ok: false }) => {
                self.phase = HostPhase::Failed { reason: Error::IOError };
                HostAction::Abort { reason: Error::IOError }
            },
            (
                HostPhase::InputLoaded,
                HostEvent::ProveResult { journal_bytes: Option::Some(jb) },
            ) => {
                self.phase = HostPhase::Proved { journal_bytes: jb };
                HostAction::DoVerify
            },
            (HostPhase::InputLoaded, HostEvent::ProveResult { journal_bytes: Option::None }) => {
                self.phase = HostPhase::Failed { reason: Error::ProveError };
                HostAction::Abort { reason: Error::ProveError }
            },
            (
                HostPhase::Proved { journal_bytes },
                HostEvent::VerifyResult { outcome: Option::Some(true) },
            ) => {
                let jb = clone_bytes(journal_bytes);
                self.phase = HostPhase::Verified { journal_bytes: jb };
                HostAction::DoFinalize
            },
            (HostPhase::Proved { journal_bytes: _ }, HostEvent::VerifyResult { outcome: _ }) => {
                self.phase = HostPhase::Failed { reason: Error::VerifyError };
                HostAction::Abort { reason: Error::VerifyError }
            },
            (HostPhase::Finalized { journal: _, commit: _ }, HostEvent::PersistResult {
                ok: true,
            }) => {
                self.phase = HostPhase::Persisted;
                HostAction::Done
            },
            (HostPhase::Finalized { journal: _, commit: _ }, HostEvent::PersistResult {
                ok: false,
            }) => {
                self.phase = HostPhase::Failed { reason: Error::IOError };
                HostAction::Abort { reason: Error::IOError }
            },
            (HostPhase::Failed { reason }, _) => {
                let r = *reason;
                self.phase = HostPhase::Failed { reason: r };
                HostAction::Abort { reason: r }
            },
            _ => {
                self.phase = HostPhase::Failed { reason: Error::ConfigError };
                HostAction::Abort { reason: Error::ConfigError }
            },
        }
    }

    /// Decodes the verified journal bytes, patches the program identity
    /// with the host-computed one, and asks for persistence.
    pub fn finalize(&mut self) -> (a: HostAction)
        ensures
            final(self).image_id@ == old(self).image_id@,
            (final(self).phase@, a@) == finalize_spec(old(self).phase@, old(self).image_id@),
    {
        match (&self.phase) {
            HostPhase::Verified { journal_bytes } => {
                let jb = clone_bytes(journal_bytes);
                match decode_journal(jb.as_slice()) {
                    Ok(j) => {
                        let patched = Journal {
                            program_hash: clone_bytes(&self.image_id),
                            input_hash: j.input_hash,
                            output_hash: j.output_hash,
                            keywords: j.keywords,
                        };
                        proof {
                            assert(patched@ =~= patch_spec(
                                dec_journal(jb@)->Some_0,
                                self.image_id@,
                            ));
                        }
                        let commit = encode_journal(&patched);
                        let a = HostAction::DoPersist { commit: clone_bytes(&commit) };
                        self.phase = HostPhase::Finalized { journal: patched, commit };
                        a
                    },
                    Err(_) => {
                        self.phase = HostPhase::Failed { reason: Error::JournalDecodeError };
                        HostAction::Abort { reason: Error::JournalDecodeError }
                    },
                }
            },
            HostPhase::Failed { reason } => {
                let r = *reason;
                self.phase = HostPhase::Failed { reason: r };
                HostAction::Abort { reason: r }
            },
            _ => {
                self.phase = HostPhase::Failed { reason: Error::ConfigError };
                HostAction::Abort { reason: Error::ConfigError }
            },
        }
    }
}

/// The verification gate: when the collaborator does not answer an
/// affirmative `true`, the run fails with `VerifyError`, nothing is
/// finalized, and no persistence is ever requested — whatever phase the
/// machine is in and however well-formed the journal bytes are.
pub proof fn lemma_verify_gate(p: PhaseModel, o: Option<bool>)
    requires
        o != Option::Some(true),
    ensures
        !(step_spec(p, EventModel::VerifyResult(o)).1 is DoPersist),
        !(step_spec(p, EventModel::VerifyResult(o)).0 is Finalized),
        !(step_spec(p, EventModel::VerifyResult(o)).0 is Verified),
        p is Proved ==> step_spec(p, EventModel::VerifyResult(o)) == (
            PhaseModel::Failed(Error::VerifyError),
            ActionModel::Abort(Error::VerifyError),
        ),
{
}

/// No outside event ever triggers persistence directly: only `finalize`
/// asks for it.
pub proof fn lemma_step_never_persists(p: PhaseModel, e: EventModel)
    ensures
        !(step_spec(p, e).1 is DoPersist),
{
}

/// The only road to `Verified` is an affirmative verification of a proved
/// receipt.
pub proof fn lemma_verified_needs_verify(p: PhaseModel, e: EventModel)
    ensures
        step_spec(p, e).0 is Verified ==> p is Proved && e == EventModel::VerifyResult(
            Option::Some(true),
        ),
{
}

/// The program-hash patch: whenever persistence is requested, the bytes are
/// the canonical encoding of a journal whose program identity is exactly
/// the host-computed image identity — never the guest's placeholder.
pub proof fn lemma_program_hash_patched(p: PhaseModel, image_id: Seq<u8>)
    ensures
        finalize_spec(p, image_id).1 is DoPersist ==> (finalize_spec(p, image_id).0 matches
            PhaseModel::Finalized(j, c) && j.program_hash == image_id && c == enc_journal(j)
            && finalize_spec(p, image_id).1 == ActionModel::DoPersist(c)),
        finalize_spec(p, image_id).1 is DoPersist ==> p is Verified,
{
}

/// Round trip of the persisted artifact: whenever the host asks for
/// persistence, the bytes decode back to a well-formed journal whose
/// program identity is exactly the host-computed image identity.
pub proof fn lemma_persisted_journal_decodes(p: PhaseModel, image_id: Seq<u8>)
    requires
        wf_text(image_id),
    ensures
        finalize_spec(p, image_id).1 matches ActionModel::DoPersist(c) ==> (dec_journal(c)
            matches Option::Some(pj) && pj.program_hash == image_id && wf_journal(pj)),
{
    match p {
        PhaseModel::Verified(jb) => {
            lemma_dec_journal_wf(jb);
            match dec_journal(jb) {
                Option::Some(j) => {
                    let pj = patch_spec(j, image_id);
                    assert(wf_journal(pj));
                    lemma_decode_encode(pj);
                },
                Option::None => {},
            }
        },
        _ => {},
    }
}

} // verus!
