//! Reliable broadcast of one item: a session collects the members' partial
//! signatures over the item's digest and completes, once and for all, when a
//! quorum of distinct members has signed.

use vstd::prelude::*;
use crate::committee::{count_true, lemma_count_after_set, quorum, spec_quorum};
use crate::crypto::MultiKeychain;
use crate::unit::NodeIndex;

verus! {

/// Why the network did not take a message.
#[derive(Debug, Clone, Copy, PartialEq, Eq, Structural)]
pub enum NetworkError {
    SendFail,
}

/// To whom a message goes.
#[derive(Debug, Clone, Copy, PartialEq, Eq, Structural)]
pub enum Recipient {
    Everyone,
    Node(NodeIndex),
}

/// The network as a session sees it.
pub trait ProtocolSink<D> {
    /// The next message that has come in, or nothing once no more will come.
    fn next(&mut self) -> Option<D>;

    /// Hands a message to the network.
    fn send(&self, data: D, recipient: Recipient) -> Result<(), NetworkError>;
}

/// Where completed aggregations are reported.
pub trait Metrics<H: Copy> {
    fn report_aggregation_complete(&mut self, h: H);
}

/// A member's partial signature over the item of a session.
#[derive(Debug)]
pub struct Signed {
    pub signer: NodeIndex,
    pub signature: Vec<u8>,
}

/// The signatures of a quorum over one item: slot `i` holds member `i`'s
/// signature, if it is among them.
#[derive(Debug)]
pub struct Multisignature<H> {
    pub item: H,
    pub signatures: Vec<Option<Vec<u8>>>,
}

/// What travels between the participants of a session.
pub type RmcNetworkData = Signed;

/// What a message did to a session.
#[derive(Debug)]
pub enum Progress<H> {
    /// The message was not taken: its signature did not verify, or its signer
    /// is no member.
    Rejected,
    /// The signer's signature was there already.
    Known,
    /// The signature was taken and the session is where it was: collecting,
    /// or completed before.
    Noted,
    /// The signature was taken and completed the session.
    Completed(Multisignature<H>),
}

/// The signatures collected, as mathematical values.
pub type Signatures = Seq<Option<Seq<u8>>>;

/// A session as a mathematical value.
pub struct SessionState<H> {
    pub item: H,
    pub signatures: Signatures,
    pub completed: bool,
}

/// For each member, whether its signature is there.
pub open spec fn signed_flags(signatures: Signatures) -> Seq<bool> {
    Seq::new(signatures.len(), |i: int| signatures[i].is_some())
}

/// The number of distinct members whose signature is there.
pub open spec fn signers(signatures: Signatures) -> nat {
    count_true(signed_flags(signatures))
}

/// Which of the four things a message does.
pub enum Effect {
    Rejected,
    Known,
    Noted,
    Completed,
}

/// What the message of `signer`, verified with the result `verified`, does to
/// the session `s`.
pub open spec fn effect_of<H>(s: SessionState<H>, signer: nat, verified: bool) -> Effect {
    if !verified || signer >= s.signatures.len() {
        Effect::Rejected
    } else if s.signatures[signer as int].is_some() {
        Effect::Known
    } else if !s.completed && signers(s.signatures) + 1 >= spec_quorum(s.signatures.len()) {
        Effect::Completed
    } else {
        Effect::Noted
    }
}

/// The session `s` after the message of `signer` with `signature`.
pub open spec fn session_after<H>(
    s: SessionState<H>,
    signer: nat,
    signature: Seq<u8>,
    verified: bool,
) -> SessionState<H> {
    match effect_of(s, signer, verified) {
        Effect::Rejected | Effect::Known => s,
        Effect::Noted => SessionState {
            signatures: s.signatures.update(signer as int, Some(signature)),
            ..s
        },
        Effect::Completed => SessionState {
            signatures: s.signatures.update(signer as int, Some(signature)),
            completed: true,
            ..s
        },
    }
}

/// Whether `p` tells of the effect `e`.
pub open spec fn tells<H>(p: Progress<H>, e: Effect) -> bool {
    match (p, e) {
        (Progress::Rejected, Effect::Rejected) => true,
        (Progress::Known, Effect::Known) => true,
        (Progress::Noted, Effect::Noted) => true,
        (Progress::Completed(_), Effect::Completed) => true,
        _ => false,
    }
}

/// The signatures of `m` as mathematical values.
pub open spec fn multisignature_view<H>(m: Multisignature<H>) -> Signatures {
    Seq::new(
        m.signatures.len() as nat,
        |i: int|
            match m.signatures[i] {
                Some(s) => Some(s@),
                None => None,
            },
    )
}

/// The session of one item.
pub struct Session<H> {
    item_hash: H,
    signatures: Vec<Option<Vec<u8>>>,
    count: usize,
    completed: bool,
}

impl<H> View for Session<H> {
    type V = SessionState<H>;

    closed spec fn view(&self) -> SessionState<H> {
        SessionState {
            item: self.item_hash,
            signatures: Seq::new(
                self.signatures.len() as nat,
                |i: int|
                    match self.signatures[i] {
                        Some(s) => Some(s@),
                        None => None,
                    },
            ),
            completed: self.completed,
        }
    }
}

impl<H: Copy> Session<H> {
    /// The invariant of a session: it is completed exactly if a quorum of
    /// distinct members has signed.
    pub closed spec fn wf(&self) -> bool {
        &&& self.count == signers(self@.signatures)
        &&& self.completed == (self.count >= spec_quorum(self.signatures.len() as nat))
    }

    /// What the invariant says to the outside.
    pub proof fn lemma_completed_is_quorum(&self)
        requires
            self.wf(),
        ensures
            self@.completed == (signers(self@.signatures) >= spec_quorum(
                self@.signatures.len(),
            )),
    {
    }

    /// A session for the item with digest `item_hash` in a committee of
    /// `n_members`, with no signature yet. In a committee of none it is
    /// completed from the start; in any other it is collecting.
    pub fn new(item_hash: H, n_members: usize) -> (session: Session<H>)
        ensures
            session.wf(),
            session@.item == item_hash,
            session@.signatures == Seq::new(n_members as nat, |i: int| None::<Seq<u8>>),
            session@.completed == (n_members == 0),
    {
        let mut signatures: Vec<Option<Vec<u8>>> = Vec::new();
        let mut i: usize = 0;
        while i < n_members
            invariant
                i <= n_members,
                signatures.len() == i,
                forall|j: int| 0 <= j < i ==> signatures[j].is_none(),
            decreases n_members - i,
        {
            signatures.push(None);
            i += 1;
        }
        let session = Session { item_hash, signatures, count: 0, completed: n_members == 0 };
        proof {
            assert(session@.signatures =~= Seq::new(n_members as nat, |i: int| None::<Seq<u8>>));
            let flags = signed_flags(session@.signatures);
            crate::committee::lemma_count_true_zero(flags);
            if n_members > 0 {
                crate::committee::lemma_quorum_overlap(n_members as nat);
            }
        }
        session
    }

    /// The digest of the item.
    pub fn item_hash(&self) -> (h: H)
        ensures
            h == self@.item,
    {
        self.item_hash
    }

    /// Whether the session is completed.
    pub fn is_completed(&self) -> (b: bool)
        ensures
            b == self@.completed,
    {
        self.completed
    }

    /// The number of distinct members whose signature is there.
    pub fn signer_count(&self) -> (k: usize)
        requires
            self.wf(),
        ensures
            k == signers(self@.signatures),
    {
        self.count
    }

    fn snapshot(&self) -> (m: Multisignature<H>)
        ensures
            m.item == self@.item,
            multisignature_view(m) == self@.signatures,
    {
        let mut signatures: Vec<Option<Vec<u8>>> = Vec::new();
        let mut i: usize = 0;
        while i < self.signatures.len()
            invariant
                i <= self.signatures.len(),
                signatures.len() == i,
                forall|j: int|
                    0 <= j < i ==> match (#[trigger] signatures[j], self.signatures[j]) {
                        (Some(a), Some(b)) => a@ == b@,
                        (None, None) => true,
                        _ => false,
                    },
            decreases self.signatures.len() - i,
        {
            let copy = match &self.signatures[i] {
                Some(s) => Some(s.clone()),
                None => None,
            };
            signatures.push(copy);
            i += 1;
        }
        let m = Multisignature { item: self.item_hash, signatures };
        proof {
            assert(multisignature_view(m) =~= self@.signatures);
        }
        m
    }

    /// Takes a member's partial signature, which was verified against the
    /// item's digest and the signer's key with the result `verified`.
    ///
    /// A signature that did not verify, or of a signer who is no member, is
    /// rejected; one of a member whose signature is there is known. Any other
    /// is taken. It completes the session if the session was not completed and
    /// has a quorum of signers with it: then, and only then, the answer is the
    /// multisignature. A completed session stays completed.
    pub fn on_signature(&mut self, signer: NodeIndex, signature: Vec<u8>, verified: bool) -> (p:
        Progress<H>)
        requires
            old(self).wf(),
        ensures
            final(self).wf(),
            final(self)@ == session_after(old(self)@, signer as nat, signature@, verified),
            tells(p, effect_of(old(self)@, signer as nat, verified)),
            old(self)@.completed ==> final(self)@.completed,
            match p {
                Progress::Completed(m) => {
                    &&& !old(self)@.completed
                    &&& final(self)@.completed
                    &&& m.item == old(self)@.item
                    &&& multisignature_view(m) == final(self)@.signatures
                    &&& signers(multisignature_view(m)) >= spec_quorum(
                        old(self)@.signatures.len(),
                    )
                },
                _ => final(self)@.completed == old(self)@.completed,
            },
    {
        if !verified || signer >= self.signatures.len() {
            return Progress::Rejected;
        }
        if self.signatures[signer].is_some() {
            return Progress::Known;
        }
        let ghost before = self@;
        let ghost given = signature@;
        proof {
            let flags = signed_flags(before.signatures);
            lemma_count_after_set(flags, signer as int);
            crate::committee::lemma_count_true_bound(flags.update(signer as int, true));
        }
        self.signatures[signer] = Some(signature);
        self.count = self.count + 1;
        proof {
            assert(self@.signatures =~= before.signatures.update(signer as int, Some(given)));
            let flags = signed_flags(before.signatures);
            assert(signed_flags(self@.signatures) =~= flags.update(signer as int, true));
            lemma_count_after_set(flags, signer as int);
            crate::committee::lemma_count_true_bound(signed_flags(self@.signatures));
        }
        if !self.completed && self.count >= quorum(self.signatures.len()) {
            self.completed = true;
            Progress::Completed(self.snapshot())
        } else {
            Progress::Noted
        }
    }

    /// Verifies a member's partial signature with `keys` and takes it as
    /// `on_signature` does with what the verification answered.
    pub fn handle<K: MultiKeychain<H>>(&mut self, message: Signed, keys: &K) -> (p: Progress<H>)
        requires
            old(self).wf(),
        ensures
            final(self).wf(),
            old(self)@.completed ==> final(self)@.completed,
            exists|verified: bool|
                final(self)@ == #[trigger] session_after(
                    old(self)@,
                    message.signer as nat,
                    message.signature@,
                    verified,
                ) && tells(p, effect_of(old(self)@, message.signer as nat, verified)),
            match p {
                Progress::Completed(m) => {
                    &&& !old(self)@.completed
                    &&& final(self)@.completed
                    &&& m.item == old(self)@.item
                    &&& multisignature_view(m) == final(self)@.signatures
                },
                _ => final(self)@.completed == old(self)@.completed,
            },
    {
        let verified = keys.verify(&self.item_hash, &message.signature, message.signer);
        let ghost before = self@;
        let p = self.on_signature(message.signer, message.signature, verified);
        proof {
            assert(self@ == session_after(
                before,
                message.signer as nat,
                message.signature@,
                verified,
            ));
        }
        p
    }
}

/// Hands `message` to the network for every participant. A message that the
/// network does not take is given up: the broadcast is redundant, and no
/// session fails for it. Answers whether the network took the message.
pub fn broadcast<S: ProtocolSink<Signed>>(sink: &S, message: Signed) -> (taken: bool) {
    was_taken(sink.send(message, Recipient::Everyone))
}

/// One turn of a session at the network: takes the next message that has
/// come in, if there is one, and handles it. Answers nothing once no more
/// messages will come.
pub fn pump<H: Copy, S: ProtocolSink<Signed>, K: MultiKeychain<H>>(
    session: &mut Session<H>,
    sink: &mut S,
    keys: &K,
) -> (turn: Option<Progress<H>>)
    requires
        old(session).wf(),
    ensures
        final(session).wf(),
        old(session)@.completed ==> final(session)@.completed,
        match turn {
            Some(Progress::Completed(m)) => {
                &&& !old(session)@.completed
                &&& final(session)@.completed
                &&& m.item == old(session)@.item
                &&& multisignature_view(m) == final(session)@.signatures
            },
            Some(_) => final(session)@.completed == old(session)@.completed,
            None => final(session)@ == old(session)@,
        },
        match turn {
            Some(p) => exists|signer: nat, signature: Seq<u8>, verified: bool|
                final(session)@ == #[trigger] session_after(
                    old(session)@,
                    signer,
                    signature,
                    verified,
                ) && tells(p, effect_of(old(session)@, signer, verified)),
            None => true,
        },
{
    take_next(session, sink.next(), keys)
}

/// What the network's answer to a sending says: whether it took the message.
/// That it did not is no failure of the session.
pub fn was_taken(answer: Result<(), NetworkError>) -> (taken: bool)
    ensures
        taken == answer.is_ok(),
{
    match answer {
        Ok(()) => true,
        Err(NetworkError::SendFail) => false,
    }
}

/// The turn of a session on what the network had next for it: a message is
/// handled, and the answer is what it did to the session; without a message
/// there is no answer and the session is where it was.
pub fn take_next<H: Copy, K: MultiKeychain<H>>(
    session: &mut Session<H>,
    incoming: Option<Signed>,
    keys: &K,
) -> (turn: Option<Progress<H>>)
    requires
        old(session).wf(),
    ensures
        final(session).wf(),
        turn.is_some() == incoming.is_some(),
        old(session)@.completed ==> final(session)@.completed,
        match turn {
            Some(Progress::Completed(m)) => {
                &&& !old(session)@.completed
                &&& final(session)@.completed
                &&& m.item == old(session)@.item
                &&& multisignature_view(m) == final(session)@.signatures
            },
            Some(_) => final(session)@.completed == old(session)@.completed,
            None => final(session)@ == old(session)@,
        },
        match (incoming, turn) {
            (Some(message), Some(p)) => exists|verified: bool|
                final(session)@ == #[trigger] session_after(
                    old(session)@,
                    message.signer as nat,
                    message.signature@,
                    verified,
                ) && tells(p, effect_of(old(session)@, message.signer as nat, verified)),
            _ => true,
        },
{
    match incoming {
        Some(message) => Some(session.handle(message, keys)),
        None => None,
    }
}

/// A session that has just been started.
pub struct Started<H> {
    pub session: Session<H>,
    /// What this participant's own signature did to the session.
    pub progress: Progress<H>,
    /// Whether the network took the broadcast of that signature.
    pub delivered: bool,
}

/// A session without signatures, as a mathematical value.
pub open spec fn fresh_session<H>(item_hash: H, n: nat) -> SessionState<H> {
    SessionState {
        item: item_hash,
        signatures: Seq::new(n, |i: int| None::<Seq<u8>>),
        completed: n == 0,
    }
}

/// A session that has just been begun, with what is to be sent for it.
pub struct Begun<H> {
    pub session: Session<H>,
    /// This participant's signature, to be sent to every participant.
    pub message: Signed,
    /// What this participant's own signature did to the session.
    pub progress: Progress<H>,
}

/// Begins the session of `item` for member `index`, whose signature over the
/// item is `signature`: the signature is the session's first, and the message
/// to be broadcast carries it under the member's index.
pub fn begin<H: Copy>(item: H, n_members: usize, index: NodeIndex, signature: Vec<u8>) -> (begun:
    Begun<H>)
    ensures
        begun.session.wf(),
        begun.session@ == session_after(
            fresh_session(item, n_members as nat),
            index as nat,
            signature@,
            true,
        ),
        tells(begun.progress, effect_of(fresh_session(item, n_members as nat), index as nat, true)),
        begun.message.signer == index,
        begun.message.signature@ == signature@,
        match begun.progress {
            Progress::Completed(m) => m.item == item && multisignature_view(m)
                == begun.session@.signatures,
            _ => true,
        },
{
    let message = Signed { signer: index, signature: signature.clone() };
    let mut session = Session::new(item, n_members);
    let progress = session.on_signature(index, signature, true);
    Begun { session, message, progress }
}

/// Starts the session of `item_hash` for member `index`: signs the item with
/// `keys`, begins the session with that signature as `begin` does and hands
/// the message to the network for every participant. Whether the network
/// took it does not matter to the session.
pub fn start<H: Copy, S: ProtocolSink<Signed>, K: MultiKeychain<H>>(
    item_hash: H,
    n_members: usize,
    index: NodeIndex,
    sink: &S,
    keys: &K,
) -> (started: Started<H>)
    ensures
        started.session.wf(),
        exists|signature: Seq<u8>|
            started.session@ == #[trigger] session_after(
                fresh_session(item_hash, n_members as nat),
                index as nat,
                signature,
                true,
            ),
        tells(
            started.progress,
            effect_of(fresh_session(item_hash, n_members as nat), index as nat, true),
        ),
        match started.progress {
            Progress::Completed(m) => m.item == item_hash && multisignature_view(m)
                == started.session@.signatures,
            _ => true,
        },
{
    let signature = keys.sign(&item_hash);
    let ghost given = signature@;
    let begun = begin(item_hash, n_members, index, signature);
    proof {
        assert(begun.session@ == session_after(
            fresh_session(item_hash, n_members as nat),
            index as nat,
            given,
            true,
        ));
    }
    let delivered = broadcast(sink, begun.message);
    Started { session: begun.session, progress: begun.progress, delivered }
}

/// Reports to `metrics` the item of a session that `progress` says was just
/// completed. Answers whether there was anything to report.
pub fn report<H: Copy, M: Metrics<H>>(progress: &Progress<H>, metrics: &mut M) -> (reported: bool)
    ensures
        reported == (progress is Completed),
{
    match progress {
        Progress::Completed(m) => {
            metrics.report_aggregation_complete(m.item);
            true
        },
        _ => false,
    }
}

/// A message as a session takes it: the signer, the signature and what the
/// verification answered.
pub struct Arrival {
    pub signer: nat,
    pub signature: Seq<u8>,
    pub verified: bool,
}

/// The session `s` after the messages `arrivals`, in order.
pub open spec fn session_after_all<H>(s: SessionState<H>, arrivals: Seq<Arrival>) -> SessionState<H>
    decreases arrivals.len(),
{
    if arrivals.len() == 0 {
        s
    } else {
        let last = arrivals.last();
        session_after(
            session_after_all(s, arrivals.drop_last()),
            last.signer,
            last.signature,
            last.verified,
        )
    }
}

/// How many of the messages `arrivals`, taken in order by the session `s`,
/// complete it.
pub open spec fn completions<H>(s: SessionState<H>, arrivals: Seq<Arrival>) -> nat
    decreases arrivals.len(),
{
    if arrivals.len() == 0 {
        0
    } else {
        let before = session_after_all(s, arrivals.drop_last());
        completions(s, arrivals.drop_last()) + match effect_of(
            before,
            arrivals.last().signer,
            arrivals.last().verified,
        ) {
            Effect::Completed => 1nat,
            _ => 0nat,
        }
    }
}

/// Exactly-once completion: whatever messages a session takes, it is
/// completed at most once; it is completed once exactly if it was not
/// completed before them and is completed after them; and a session that is
/// completed stays so.
pub proof fn lemma_completes_once<H>(s: SessionState<H>, arrivals: Seq<Arrival>)
    ensures
        completions(s, arrivals) <= 1,
        completions(s, arrivals) == 1 <==> !s.completed && session_after_all(
            s,
            arrivals,
        ).completed,
        s.completed ==> session_after_all(s, arrivals).completed,
    decreases arrivals.len(),
{
    if arrivals.len() > 0 {
        lemma_completes_once(s, arrivals.drop_last());
    }
}

} // verus!
