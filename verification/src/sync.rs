//! Client synchronization state machine.
//!
//! One `ClientSyncState` tracks one open document: the composition history
//! up to the last acknowledged revision, the one submission in flight, the
//! edits buffered behind it, and the revision counter. Handlers mutate the
//! state and hand back the value the surrounding transport must send; they
//! never do I/O themselves.

use crate::laws::lemma_all_keep_lens;
use crate::laws::lemma_apply_compose;
use crate::laws::lemma_apply_len;
use crate::laws::lemma_compose_lens;
use crate::laws::lemma_transform_lens;
use crate::ot::Operation;
use crate::ot::abase;
use crate::ot::all_keep;
use crate::ot::apply_atoms;
use crate::ot::atarget;
use crate::ot::compose_atoms;
use crate::ot::keeps;
use crate::ot::lemma_lens_runs;
use crate::ot::transform_atoms;
use crate::translate::TextModification;
use crate::translate::TranslateError;
use crate::translate::apply_edits;
use crate::translate::edits_ok;
use crate::translate::edits_to_operation;
use vstd::prelude::*;

verus! {

/// A submission to the server: the delta and the revision it is based on.
#[derive(Clone, Debug, PartialEq, Eq)]
pub struct ModifRequest {
    pub delta: Operation,
    pub rev_num: usize,
}

/// Failure of a broadcast: its revision is not the next one.
#[derive(Clone, Copy, Debug, PartialEq, Eq, Structural)]
pub enum SyncError {
    Desynchronized,
}

/// The derived classification of a state.
#[derive(Clone, Copy, Debug, PartialEq, Eq, Structural)]
pub enum SyncStatus {
    /// Nothing is in flight.
    Synced,
    /// One submission is in flight, nothing buffered behind it.
    AwaitingAck,
    /// One submission is in flight and local edits are buffered behind it.
    AwaitingAckWithBuffer,
}

/// Per-document bookkeeping of the client.
pub struct ClientSyncState {
    pub server_state: Operation,
    pub sent_delta: Operation,
    pub unsent_delta: Operation,
    pub rev_num: usize,
}

impl ClientSyncState {
    /// The state invariant: the in-flight delta starts from the text the
    /// tracked server state produces, and the buffered delta starts from
    /// the text the in-flight delta produces. Every handler preserves it.
    pub open spec fn wf(self) -> bool {
        &&& self.server_state.wf()
        &&& self.sent_delta.wf()
        &&& self.unsent_delta.wf()
        &&& abase(self.sent_delta.atoms()) == atarget(self.server_state.atoms())
        &&& abase(self.unsent_delta.atoms()) == atarget(self.sent_delta.atoms())
    }

    /// A fresh state for an empty document at revision zero.
    pub fn new() -> (r: ClientSyncState)
        ensures
            r.wf(),
            r.rev_num == 0,
            all_keep(r.sent_delta.atoms()),
            all_keep(r.unsent_delta.atoms()),
            r.server_state.atoms() == Seq::<crate::ot::Atom>::empty(),
    {
        ClientSyncState {
            server_state: Operation::new(),
            sent_delta: Operation::new(),
            unsent_delta: Operation::new(),
            rev_num: 0,
        }
    }

    /// The classification derived from the buffer contents.
    pub fn status(&self) -> (r: SyncStatus)
        requires
            self.wf(),
        ensures
            r == (if all_keep(self.sent_delta.atoms()) {
                SyncStatus::Synced
            } else if all_keep(self.unsent_delta.atoms()) {
                SyncStatus::AwaitingAck
            } else {
                SyncStatus::AwaitingAckWithBuffer
            }),
    {
        if self.sent_delta.is_noop() {
            SyncStatus::Synced
        } else if self.unsent_delta.is_noop() {
            SyncStatus::AwaitingAck
        } else {
            SyncStatus::AwaitingAckWithBuffer
        }
    }

    /// Move the buffered delta into flight and hand back the submission to
    /// send. Callable only when nothing is in flight.
    fn submit_change(&mut self) -> (r: ModifRequest)
        requires
            old(self).wf(),
            all_keep(old(self).sent_delta.atoms()),
        ensures
            final(self).wf(),
            final(self).rev_num == old(self).rev_num,
            final(self).server_state == old(self).server_state,
            final(self).sent_delta.atoms() == old(self).unsent_delta.atoms(),
            all_keep(final(self).unsent_delta.atoms()),
            r.delta.atoms() == old(self).unsent_delta.atoms(),
            r.rev_num == old(self).rev_num,
    {
        proof {
            lemma_all_keep_lens(old(self).sent_delta.atoms());
        }
        let delta = self.unsent_delta.duplicate();
        let r = ModifRequest { delta, rev_num: self.rev_num };
        let n = self.unsent_delta.target_len();
        self.sent_delta = self.unsent_delta.duplicate();
        self.unsent_delta = Operation::noop(n);
        proof {
            lemma_lens_runs(n as nat, Seq::<char>::empty());
        }
        r
    }

    /// A server acknowledgement of the in-flight submission: fold it into
    /// the tracked server state, and submit the buffer if it is non-empty.
    pub fn on_ack(&mut self) -> (r: Option<ModifRequest>)
        requires
            old(self).wf(),
            old(self).rev_num < usize::MAX,
        ensures
            final(self).wf(),
            final(self).rev_num == old(self).rev_num + 1,
            final(self).server_state.atoms() == compose_atoms(
                old(self).server_state.atoms(),
                old(self).sent_delta.atoms(),
            ),
            all_keep(old(self).unsent_delta.atoms()) ==> (r is None
                && all_keep(final(self).sent_delta.atoms())
                && final(self).unsent_delta == old(self).unsent_delta),
            !all_keep(old(self).unsent_delta.atoms()) ==> (r matches Some(m)
                && m.rev_num == old(self).rev_num + 1
                && m.delta.atoms() == old(self).unsent_delta.atoms()
                && final(self).sent_delta.atoms() == old(self).unsent_delta.atoms()
                && all_keep(final(self).unsent_delta.atoms())),
    {
        self.rev_num = self.rev_num + 1;
        let composed_r = self.server_state.compose(&self.sent_delta);
        proof {
            assert(composed_r is Ok);
        }
        let composed = match composed_r {
            Ok(c) => c,
            Err(_) => Operation::new(),
        };
        proof {
            lemma_compose_lens(self.server_state.atoms(), self.sent_delta.atoms());
        }
        self.server_state = composed;
        let n = self.server_state.target_len();
        self.sent_delta = Operation::noop(n);
        proof {
            lemma_lens_runs(n as nat, Seq::<char>::empty());
        }
        if !self.unsent_delta.is_noop() {
            Some(self.submit_change())
        } else {
            None
        }
    }

    /// A broadcast remote edit. When its revision is the next one, fold it
    /// into the tracked server state, rebase both buffers over it, and hand
    /// back the delta the editor must apply; otherwise mutate nothing and
    /// report desynchronization, so the caller can run the file handshake.
    pub fn on_server_change(&mut self, delta: &Operation, rev_num: usize) -> (r: Result<
        Operation,
        SyncError,
    >)
        requires
            old(self).wf(),
            delta.wf(),
            old(self).rev_num < usize::MAX,
            rev_num == old(self).rev_num + 1 ==> abase(delta.atoms()) == atarget(
                old(self).server_state.atoms(),
            ),
        ensures
            rev_num != old(self).rev_num + 1 ==> (r matches Err(e) && e
                == SyncError::Desynchronized && *final(self) == *old(self)),
            rev_num == old(self).rev_num + 1 ==> ({
                let (for_sent, new_sent) = transform_atoms(
                    delta.atoms(),
                    old(self).sent_delta.atoms(),
                );
                let (for_editor, new_unsent) = transform_atoms(
                    for_sent,
                    old(self).unsent_delta.atoms(),
                );
                r matches Ok(ed) && final(self).wf() && final(self).rev_num == old(self).rev_num
                    + 1 && final(self).server_state.atoms() == compose_atoms(
                    old(self).server_state.atoms(),
                    delta.atoms(),
                ) && final(self).sent_delta.atoms() == new_sent && final(self).unsent_delta.atoms()
                    == new_unsent && ed.wf() && ed.atoms() == for_editor
            }),
    {
        if rev_num != self.rev_num + 1 {
            return Err(SyncError::Desynchronized);
        }
        let composed_r = self.server_state.compose(delta);
        proof {
            assert(composed_r is Ok);
        }
        let new_server_state = match composed_r {
            Ok(c) => c,
            Err(_) => Operation::new(),
        };
        let t1_r = delta.transform(&self.sent_delta);
        proof {
            assert(t1_r is Ok);
        }
        let (for_sent, new_sent) = match t1_r {
            Ok(p) => p,
            Err(_) => (Operation::new(), Operation::new()),
        };
        proof {
            lemma_transform_lens(delta.atoms(), self.sent_delta.atoms());
        }
        let t2_r = for_sent.transform(&self.unsent_delta);
        proof {
            assert(t2_r is Ok);
        }
        let (for_editor, new_unsent) = match t2_r {
            Ok(p) => p,
            Err(_) => (Operation::new(), Operation::new()),
        };
        proof {
            lemma_transform_lens(for_sent.atoms(), self.unsent_delta.atoms());
            lemma_compose_lens(self.server_state.atoms(), delta.atoms());
        }
        self.rev_num = self.rev_num + 1;
        self.server_state = new_server_state;
        self.sent_delta = new_sent;
        self.unsent_delta = new_unsent;
        Ok(for_editor)
    }

    /// The authoritative file arrived (the resync handshake): adopt its
    /// version, discard the local buffers, and track the new text length.
    pub fn on_receive_file(&mut self, len: usize, version: usize)
        ensures
            final(self).wf(),
            final(self).rev_num == version,
            final(self).server_state.atoms() == keeps(len as nat),
            all_keep(final(self).sent_delta.atoms()),
            all_keep(final(self).unsent_delta.atoms()),
    {
        self.server_state = Operation::noop(len);
        self.sent_delta = Operation::noop(len);
        self.unsent_delta = Operation::noop(len);
        self.rev_num = version;
        proof {
            lemma_lens_runs(len as nat, Seq::<char>::empty());
        }
    }

    /// The editor declared a fresh local file: restart at revision zero.
    /// The caller then announces the file to the server at version zero.
    pub fn on_ide_file(&mut self, len: usize)
        ensures
            final(self).wf(),
            final(self).rev_num == 0,
            final(self).server_state.atoms() == keeps(len as nat),
            all_keep(final(self).sent_delta.atoms()),
            all_keep(final(self).unsent_delta.atoms()),
    {
        self.on_receive_file(len, 0);
    }

    /// A batch of local edits: translate it against the buffered delta's
    /// target text, fold it into the buffer, and, when nothing was in
    /// flight and the buffer became non-empty, move the buffer into flight
    /// and hand back the submission to send. A batch that does not fit the
    /// text mutates nothing.
    pub fn on_ide_change(&mut self, changes: &Vec<TextModification>) -> (r: Result<
        Option<ModifRequest>,
        TranslateError,
    >)
        requires
            old(self).wf(),
        ensures
            final(self).wf(),
            final(self).rev_num == old(self).rev_num,
            final(self).server_state == old(self).server_state,
            r is Ok <==> edits_ok(changes@, atarget(old(self).unsent_delta.atoms()) as int),
            (r matches Err(e) ==> e == TranslateError::OutOfRange && *final(self) == *old(self)),
            (r matches Ok(m) && m is None ==> final(self).sent_delta == old(self).sent_delta
                && forall|d: Seq<char>|
                d.len() == abase(old(self).unsent_delta.atoms()) ==> apply_atoms(
                    final(self).unsent_delta.atoms(),
                    d,
                ) == apply_edits(changes@, apply_atoms(old(self).unsent_delta.atoms(), d))),
            (r matches Ok(Some(req)) ==> all_keep(old(self).sent_delta.atoms())
                && req.rev_num == old(self).rev_num && req.delta.atoms()
                == final(self).sent_delta.atoms() && all_keep(final(self).unsent_delta.atoms())
                && forall|d: Seq<char>|
                d.len() == abase(old(self).unsent_delta.atoms()) ==> apply_atoms(
                    final(self).sent_delta.atoms(),
                    d,
                ) == apply_edits(changes@, apply_atoms(old(self).unsent_delta.atoms(), d))),
            (r matches Ok(m) && m is None && all_keep(old(self).sent_delta.atoms()) ==> all_keep(
                final(self).unsent_delta.atoms(),
            )),
    {
        let cur = self.unsent_delta.target_len();
        let translated = edits_to_operation(changes, cur);
        let e_op = match translated {
            Ok(op) => op,
            Err(err) => {
                return Err(err);
            },
        };
        let composed_r = self.unsent_delta.compose(&e_op);
        proof {
            assert(composed_r is Ok);
        }
        let new_unsent = match composed_r {
            Ok(c) => c,
            Err(_) => Operation::new(),
        };
        proof {
            lemma_compose_lens(self.unsent_delta.atoms(), e_op.atoms());
            assert forall|d: Seq<char>| d.len() == abase(old(self).unsent_delta.atoms()) implies
                apply_atoms(new_unsent.atoms(), d) == apply_edits(
                changes@,
                apply_atoms(old(self).unsent_delta.atoms(), d),
            ) by {
                lemma_apply_compose(old(self).unsent_delta.atoms(), e_op.atoms(), d);
                lemma_apply_len(old(self).unsent_delta.atoms(), d);
            }
        }
        self.unsent_delta = new_unsent;
        if self.sent_delta.is_noop() && !self.unsent_delta.is_noop() {
            Ok(Some(self.submit_change()))
        } else {
            Ok(None)
        }
    }
}

} // verus!
