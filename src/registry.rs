use vstd::prelude::*;

use crate::host::{sha256, sha256_of, MAX_PREIMAGE_LEN};

verus! {

/// A published commitment to a hidden strategy.
#[derive(Clone, Debug)]
pub struct CommitmentRecord {
    pub owner: u64,
    pub commitment: [u8; 32],
    pub revealed: bool,
    pub strategy: Vec<u8>,
    pub timestamp: u64,
}

/// What a commitment record holds, with its byte strings as sequences.
pub struct CommitmentView {
    pub owner: u64,
    pub commitment: Seq<u8>,
    pub revealed: bool,
    pub strategy: Seq<u8>,
    pub timestamp: u64,
}

impl View for CommitmentRecord {
    type V = CommitmentView;

    open spec fn view(&self) -> CommitmentView {
        CommitmentView {
            owner: self.owner,
            commitment: self.commitment@,
            revealed: self.revealed,
            strategy: self.strategy@,
            timestamp: self.timestamp,
        }
    }
}

/// A proof that binds a commitment's strategy to an executed trade.
#[derive(Clone, Debug)]
pub struct ProofRecord {
    pub owner: u64,
    pub proof_hash: [u8; 32],
    pub commit_id: u64,
    pub tx_hash: Vec<u8>,
    pub revealed: bool,
    pub strategy: Vec<u8>,
    pub trade_params: Vec<u8>,
    pub timestamp: u64,
}

/// What a proof record holds, with its byte strings as sequences.
pub struct ProofView {
    pub owner: u64,
    pub proof_hash: Seq<u8>,
    pub commit_id: u64,
    pub tx_hash: Seq<u8>,
    pub revealed: bool,
    pub strategy: Seq<u8>,
    pub trade_params: Seq<u8>,
    pub timestamp: u64,
}

impl View for ProofRecord {
    type V = ProofView;

    open spec fn view(&self) -> ProofView {
        ProofView {
            owner: self.owner,
            proof_hash: self.proof_hash@,
            commit_id: self.commit_id,
            tx_hash: self.tx_hash@,
            revealed: self.revealed,
            strategy: self.strategy@,
            trade_params: self.trade_params@,
            timestamp: self.timestamp,
        }
    }
}

/// Failures of the registry's operations.
#[derive(Clone, Copy, Debug, PartialEq, Eq, Structural)]
pub enum Error {
    NotFound,
    AlreadyRevealed,
    NotOwner,
    HashMismatch,
    CommitNotFound,
    ProofNotFound,
    ProofAlreadyRevealed,
    ProofHashMismatch,
}

/// The bytes of `a` followed by those of `b`.
pub(crate) fn concat(a: &Vec<u8>, b: &Vec<u8>) -> (r: Vec<u8>)
    ensures
        r@ == a@ + b@,
{
    let mut r: Vec<u8> = Vec::new();
    let mut i: usize = 0;
    while i < a.len()
        invariant
            i <= a.len(),
            r@ == a@.subrange(0, i as int),
        decreases a.len() - i,
    {
        r.push(a[i]);
        i = i + 1;
    }
    let mut j: usize = 0;
    while j < b.len()
        invariant
            j <= b.len(),
            r@ == a@ + b@.subrange(0, j as int),
        decreases b.len() - j,
    {
        r.push(b[j]);
        j = j + 1;
    }
    assert(a@.subrange(0, a@.len() as int) =~= a@);
    assert(b@.subrange(0, b@.len() as int) =~= b@);
    r
}

/// Whether two digests are equal, byte by byte.
pub(crate) fn same_digest(a: &[u8; 32], b: &[u8; 32]) -> (r: bool)
    ensures
        r == (a@ == b@),
{
    let mut i: usize = 0;
    while i < 32
        invariant
            i <= 32,
            a@.len() == 32,
            b@.len() == 32,
            forall|k: int| 0 <= k < i ==> a@[k] == b@[k],
        decreases 32 - i,
    {
        if a[i] != b[i] {
            return false;
        }
        i = i + 1;
    }
    assert(a@ =~= b@);
    true
}

/// The record that `commit` creates.
pub open spec fn fresh_commitment(owner: u64, commitment: Seq<u8>, now: u64) -> CommitmentView {
    CommitmentView { owner, commitment, revealed: false, strategy: seq![], timestamp: now }
}

/// The record that `attach_proof` creates.
pub open spec fn fresh_proof(
    owner: u64,
    proof_hash: Seq<u8>,
    commit_id: u64,
    tx_hash: Seq<u8>,
    now: u64,
) -> ProofView {
    ProofView {
        owner,
        proof_hash,
        commit_id,
        tx_hash,
        revealed: false,
        strategy: seq![],
        trade_params: seq![],
        timestamp: now,
    }
}

/// A commitment record after a successful reveal of `strategy`.
pub open spec fn revealed_commitment(rec: CommitmentView, strategy: Seq<u8>) -> CommitmentView {
    CommitmentView { revealed: true, strategy, ..rec }
}

/// A proof record after a successful reveal of `strategy` and `trade_params`.
pub open spec fn revealed_proof(rec: ProofView, strategy: Seq<u8>, trade_params: Seq<u8>) -> ProofView {
    ProofView { revealed: true, strategy, trade_params, ..rec }
}

/// Registry of strategy commitments and of the proofs attached to them. Ids of both are
/// positions, handed out from zero by separate counters.
#[derive(Clone, Debug)]
pub struct StrategyCommitment {
    commitments: Vec<CommitmentRecord>,
    proofs: Vec<ProofRecord>,
    latest: Vec<Option<u64>>,
}

impl StrategyCommitment {
    /// The commitment records, by id.
    pub closed spec fn records(&self) -> Seq<CommitmentView> {
        self.commitments@.map_values(|r: CommitmentRecord| r@)
    }

    /// The proof records, by id.
    pub closed spec fn proof_records(&self) -> Seq<ProofView> {
        self.proofs@.map_values(|r: ProofRecord| r@)
    }

    /// For each commitment, the id of the proof most recently attached to it.
    pub closed spec fn latest_proofs(&self) -> Seq<Option<u64>> {
        self.latest@
    }

    /// Every proof refers to an existing commitment of its own owner, and the index of latest
    /// proofs covers each commitment and names existing proofs of it.
    pub closed spec fn wf(&self) -> bool {
        &&& self.latest@.len() == self.commitments@.len()
        &&& forall|p: int|
            0 <= p < self.proofs@.len() ==> {
                let c = #[trigger] self.proofs@[p].commit_id;
                &&& c < self.commitments@.len()
                &&& self.proofs@[p].owner == self.commitments@[c as int].owner
            }
        &&& forall|c: int|
            0 <= c < self.latest@.len() && (#[trigger] self.latest@[c]) is Some ==> {
                let p = self.latest@[c]->Some_0;
                &&& p < self.proofs@.len()
                &&& self.proofs@[p as int].commit_id == c
            }
    }

    /// The outcome of revealing commitment `id` against the digest `digest`.
    pub open spec fn reveal_outcome(&self, id: u64, digest: Seq<u8>) -> Result<(), Error> {
        if id >= self.records().len() {
            Err(Error::NotFound)
        } else if self.records()[id as int].revealed {
            Err(Error::AlreadyRevealed)
        } else if self.records()[id as int].commitment != digest {
            Err(Error::HashMismatch)
        } else {
            Ok(())
        }
    }

    /// The outcome of revealing proof `id` against the digest `digest`.
    pub open spec fn reveal_proof_outcome(&self, id: u64, digest: Seq<u8>) -> Result<(), Error> {
        if id >= self.proof_records().len() {
            Err(Error::ProofNotFound)
        } else if self.proof_records()[id as int].revealed {
            Err(Error::ProofAlreadyRevealed)
        } else if self.proof_records()[id as int].proof_hash != digest {
            Err(Error::ProofHashMismatch)
        } else {
            Ok(())
        }
    }

    /// The outcome of attaching a proof of `owner` to commitment `commit_id`.
    pub open spec fn attach_outcome(&self, owner: u64, commit_id: u64) -> Result<u64, Error> {
        if commit_id >= self.records().len() {
            Err(Error::CommitNotFound)
        } else if self.records()[commit_id as int].owner != owner {
            Err(Error::NotOwner)
        } else {
            Ok(self.proof_records().len() as u64)
        }
    }

    /// `after` is `self` with commitment `id` revealed as `strategy`.
    pub open spec fn reveal_effect(&self, after: Self, id: u64, strategy: Seq<u8>) -> bool {
        &&& after.records() == self.records().update(
            id as int,
            revealed_commitment(self.records()[id as int], strategy),
        )
        &&& after.proof_records() == self.proof_records()
        &&& after.latest_proofs() == self.latest_proofs()
    }

    /// `after` is `self` with proof `id` revealed as `strategy` and `trade_params`.
    pub open spec fn reveal_proof_effect(
        &self,
        after: Self,
        id: u64,
        strategy: Seq<u8>,
        trade_params: Seq<u8>,
    ) -> bool {
        &&& after.records() == self.records()
        &&& after.proof_records() == self.proof_records().update(
            id as int,
            revealed_proof(self.proof_records()[id as int], strategy, trade_params),
        )
        &&& after.latest_proofs() == self.latest_proofs()
    }

    /// An empty registry.
    pub fn new() -> (r: StrategyCommitment)
        ensures
            r.wf(),
            r.records() == Seq::<CommitmentView>::empty(),
            r.proof_records() == Seq::<ProofView>::empty(),
            r.latest_proofs() == Seq::<Option<u64>>::empty(),
    {
        let r = StrategyCommitment { commitments: Vec::new(), proofs: Vec::new(), latest: Vec::new() };
        assert(r.records() =~= Seq::<CommitmentView>::empty());
        assert(r.proof_records() =~= Seq::<ProofView>::empty());
        r
    }

    /// Publishes `commitment` for `owner` at ledger time `now`; returns the new commitment's id.
    pub fn commit(&mut self, owner: u64, commitment: [u8; 32], now: u64) -> (r: u64)
        requires
            old(self).wf(),
        ensures
            final(self).wf(),
            r == old(self).records().len(),
            final(self).records() == old(self).records().push(
                fresh_commitment(owner, commitment@, now),
            ),
            final(self).proof_records() == old(self).proof_records(),
            final(self).latest_proofs() == old(self).latest_proofs().push(None),
            final(self).latest_proofs().len() == final(self).records().len(),
    {
        let ghost pre = *self;
        let id = self.commitments.len() as u64;
        self.commitments.push(
            CommitmentRecord { owner, commitment, revealed: false, strategy: Vec::new(), timestamp: now },
        );
        self.latest.push(None);
        proof {
            let post = *self;
            assert(post.records() =~= pre.records().push(fresh_commitment(owner, commitment@, now)));
            assert(post.proof_records() =~= pre.proof_records());
            assert forall|p: int| 0 <= p < post.proofs@.len() implies {
                let c = #[trigger] post.proofs@[p].commit_id;
                &&& c < post.commitments@.len()
                &&& post.proofs@[p].owner == post.commitments@[c as int].owner
            } by {
                let c = pre.proofs@[p].commit_id;
                assert(pre.commitments@[c as int] == post.commitments@[c as int]);
            }
            assert forall|c: int|
                0 <= c < post.latest@.len() && (#[trigger] post.latest@[c]) is Some implies {
                let p = post.latest@[c]->Some_0;
                &&& p < post.proofs@.len()
                &&& post.proofs@[p as int].commit_id == c
            } by {
                assert(pre.latest@[c] == post.latest@[c]);
            }
        }
        id
    }

    /// The commitment record `commit_id`.
    pub fn get(&self, commit_id: u64) -> (r: Result<CommitmentRecord, Error>)
        ensures
            commit_id < self.records().len() ==> r is Ok && r->Ok_0@ == self.records()[commit_id as int],
            commit_id >= self.records().len() ==> r == Err::<CommitmentRecord, Error>(Error::NotFound),
    {
        if commit_id >= self.commitments.len() as u64 {
            return Err(Error::NotFound);
        }
        let rec = &self.commitments[commit_id as usize];
        Ok(
            CommitmentRecord {
                owner: rec.owner,
                commitment: rec.commitment,
                revealed: rec.revealed,
                strategy: copy_bytes(&rec.strategy),
                timestamp: rec.timestamp,
            },
        )
    }
    /// Reveals commitment `commit_id` as `strategy`, given `digest`, the hash of the strategy
    /// followed by its salt. Succeeds only where the digest is the stored commitment, and only
    /// once.
    pub fn reveal_with_digest(&mut self, commit_id: u64, strategy: Vec<u8>, digest: [u8; 32]) -> (r:
        Result<(), Error>)
        requires
            old(self).wf(),
        ensures
            final(self).wf(),
            r == old(self).reveal_outcome(commit_id, digest@),
            r is Ok ==> old(self).reveal_effect(*final(self), commit_id, strategy@),
            r is Err ==> *final(self) == *old(self),
    {
        if commit_id >= self.commitments.len() as u64 {
            return Err(Error::NotFound);
        }
        let i = commit_id as usize;
        if self.commitments[i].revealed {
            return Err(Error::AlreadyRevealed);
        }
        if !same_digest(&self.commitments[i].commitment, &digest) {
            return Err(Error::HashMismatch);
        }
        let ghost pre = *self;
        let ghost strategy_view = strategy@;
        let rec = &mut self.commitments[i];
        rec.revealed = true;
        rec.strategy = strategy;
        proof {
            let post = *self;
            assert(post.records() =~= pre.records().update(
                i as int,
                revealed_commitment(pre.records()[i as int], strategy_view),
            ));
            assert(post.proof_records() =~= pre.proof_records());
            assert forall|p: int| 0 <= p < post.proofs@.len() implies {
                let c = #[trigger] post.proofs@[p].commit_id;
                &&& c < post.commitments@.len()
                &&& post.proofs@[p].owner == post.commitments@[c as int].owner
            } by {
                let c = pre.proofs@[p].commit_id;
                assert(pre.commitments@[c as int].owner == post.commitments@[c as int].owner);
            }
        }
        Ok(())
    }

    /// Reveals commitment `commit_id` as `strategy`, checked by hashing `strategy` followed by
    /// `salt` through the host; the two together are at most `MAX_PREIMAGE_LEN` bytes.
    pub fn reveal_commitment(
        &mut self,
        commit_id: u64,
        strategy: Vec<u8>,
        salt: Vec<u8>,
    ) -> (r: Result<(), Error>)
        requires
            old(self).wf(),
            strategy@.len() + salt@.len() <= MAX_PREIMAGE_LEN,
        ensures
            final(self).wf(),
            r == old(self).reveal_outcome(commit_id, sha256_of(strategy@ + salt@)),
            r is Ok ==> old(self).reveal_effect(*final(self), commit_id, strategy@),
            r is Err ==> *final(self) == *old(self),
    {
        if commit_id >= self.commitments.len() as u64 {
            return Err(Error::NotFound);
        }
        if self.commitments[commit_id as usize].revealed {
            return Err(Error::AlreadyRevealed);
        }
        let preimage = concat(&strategy, &salt);
        let digest = sha256(&preimage);
        self.reveal_with_digest(commit_id, strategy, digest)
    }

    /// Attaches a proof of `owner` with hash `proof_hash` to commitment `commit_id`, naming the
    /// trade `tx_hash`, at ledger time `now`; returns the new proof's id.
    pub fn attach_proof(
        &mut self,
        owner: u64,
        proof_hash: [u8; 32],
        commit_id: u64,
        tx_hash: Vec<u8>,
        now: u64,
    ) -> (r: Result<u64, Error>)
        requires
            old(self).wf(),
        ensures
            final(self).wf(),
            r == old(self).attach_outcome(owner, commit_id),
            r is Err ==> *final(self) == *old(self),
            r is Ok ==> {
                &&& final(self).records() == old(self).records()
                &&& final(self).proof_records() == old(self).proof_records().push(
                    fresh_proof(owner, proof_hash@, commit_id, tx_hash@, now),
                )
                &&& final(self).latest_proofs() == old(self).latest_proofs().update(
                    commit_id as int,
                    Some(r->Ok_0),
                )
                &&& final(self).latest_proofs()[commit_id as int] == Some(r->Ok_0)
                &&& r->Ok_0 == old(self).proof_records().len()
            },
            final(self).latest_proofs().len() == final(self).records().len(),
    {
        if commit_id >= self.commitments.len() as u64 {
            return Err(Error::CommitNotFound);
        }
        if self.commitments[commit_id as usize].owner != owner {
            return Err(Error::NotOwner);
        }
        let ghost pre = *self;
        let ghost tx_view = tx_hash@;
        let proof_id = self.proofs.len() as u64;
        self.proofs.push(
            ProofRecord {
                owner,
                proof_hash,
                commit_id,
                tx_hash,
                revealed: false,
                strategy: Vec::new(),
                trade_params: Vec::new(),
                timestamp: now,
            },
        );
        self.latest.set(commit_id as usize, Some(proof_id));
        proof {
            let post = *self;
            assert(post.records() =~= pre.records());
            assert(post.proof_records() =~= pre.proof_records().push(
                fresh_proof(owner, proof_hash@, commit_id, tx_view, now),
            ));
            assert forall|p: int| 0 <= p < post.proofs@.len() implies {
                let c = #[trigger] post.proofs@[p].commit_id;
                &&& c < post.commitments@.len()
                &&& post.proofs@[p].owner == post.commitments@[c as int].owner
            } by {
                if p < pre.proofs@.len() {
                    assert(pre.proofs@[p] == post.proofs@[p]);
                    let c = pre.proofs@[p].commit_id;
                    assert(c < pre.commitments@.len());
                }
            }
            assert forall|c: int|
                0 <= c < post.latest@.len() && (#[trigger] post.latest@[c]) is Some implies {
                let p = post.latest@[c]->Some_0;
                &&& p < post.proofs@.len()
                &&& post.proofs@[p as int].commit_id == c
            } by {
                if c != commit_id as int {
                    assert(pre.latest@[c] == post.latest@[c]);
                    let p = pre.latest@[c]->Some_0;
                    assert(pre.proofs@[p as int] == post.proofs@[p as int]);
                }
            }
        }
        Ok(proof_id)
    }

    /// The proof record `proof_id`.
    pub fn get_proof(&self, proof_id: u64) -> (r: Result<ProofRecord, Error>)
        ensures
            proof_id < self.proof_records().len() ==> r is Ok && r->Ok_0@ == self.proof_records()[proof_id as int],
            proof_id >= self.proof_records().len() ==> r == Err::<ProofRecord, Error>(Error::ProofNotFound),
    {
        if proof_id >= self.proofs.len() as u64 {
            return Err(Error::ProofNotFound);
        }
        let rec = &self.proofs[proof_id as usize];
        Ok(
            ProofRecord {
                owner: rec.owner,
                proof_hash: rec.proof_hash,
                commit_id: rec.commit_id,
                tx_hash: copy_bytes(&rec.tx_hash),
                revealed: rec.revealed,
                strategy: copy_bytes(&rec.strategy),
                trade_params: copy_bytes(&rec.trade_params),
                timestamp: rec.timestamp,
            },
        )
    }

    /// The id of the proof most recently attached to commitment `commit_id`, if any.
    pub fn latest_proof(&self, commit_id: u64) -> (r: Option<u64>)
        requires
            self.wf(),
        ensures
            r == if commit_id < self.latest_proofs().len() {
                self.latest_proofs()[commit_id as int]
            } else {
                None::<u64>
            },
    {
        if commit_id < self.latest.len() as u64 {
            self.latest[commit_id as usize]
        } else {
            None
        }
    }

    /// Reveals proof `proof_id` as `strategy` and `trade_params`, given `digest`, the hash of the
    /// strategy, the trade parameters and the salt in that order. Succeeds only where the digest
    /// is the stored proof hash, and only once.
    pub fn reveal_proof_with_digest(
        &mut self,
        proof_id: u64,
        strategy: Vec<u8>,
        trade_params: Vec<u8>,
        digest: [u8; 32],
    ) -> (r: Result<(), Error>)
        requires
            old(self).wf(),
        ensures
            final(self).wf(),
            r == old(self).reveal_proof_outcome(proof_id, digest@),
            r is Ok ==> old(self).reveal_proof_effect(*final(self), proof_id, strategy@, trade_params@),
            r is Err ==> *final(self) == *old(self),
    {
        if proof_id >= self.proofs.len() as u64 {
            return Err(Error::ProofNotFound);
        }
        let i = proof_id as usize;
        if self.proofs[i].revealed {
            return Err(Error::ProofAlreadyRevealed);
        }
        if !same_digest(&self.proofs[i].proof_hash, &digest) {
            return Err(Error::ProofHashMismatch);
        }
        let ghost pre = *self;
        let ghost strategy_view = strategy@;
        let ghost params_view = trade_params@;
        let rec = &mut self.proofs[i];
        rec.revealed = true;
        rec.strategy = strategy;
        rec.trade_params = trade_params;
        proof {
            let post = *self;
            assert(post.records() =~= pre.records());
            assert(post.proof_records() =~= pre.proof_records().update(
                i as int,
                revealed_proof(pre.proof_records()[i as int], strategy_view, params_view),
            ));
            assert forall|p: int| 0 <= p < post.proofs@.len() implies {
                let c = #[trigger] post.proofs@[p].commit_id;
                &&& c < post.commitments@.len()
                &&& post.proofs@[p].owner == post.commitments@[c as int].owner
            } by {
                assert(pre.proofs@[p].commit_id == post.proofs@[p].commit_id);
                assert(pre.proofs@[p].owner == post.proofs@[p].owner);
            }
            assert forall|c: int|
                0 <= c < post.latest@.len() && (#[trigger] post.latest@[c]) is Some implies {
                let p = post.latest@[c]->Some_0;
                &&& p < post.proofs@.len()
                &&& post.proofs@[p as int].commit_id == c
            } by {
                let p = pre.latest@[c]->Some_0;
                assert(pre.proofs@[p as int].commit_id == post.proofs@[p as int].commit_id);
            }
        }
        Ok(())
    }

    /// Reveals proof `proof_id` as `strategy` and `trade_params`, checked by hashing the
    /// strategy, the trade parameters and `salt`, in that order, through the host; the three together
    /// are at most `MAX_PREIMAGE_LEN` bytes.
    pub fn reveal_proof(
        &mut self,
        proof_id: u64,
        strategy: Vec<u8>,
        trade_params: Vec<u8>,
        salt: Vec<u8>,
    ) -> (r: Result<(), Error>)
        requires
            old(self).wf(),
            strategy@.len() + trade_params@.len() + salt@.len() <= MAX_PREIMAGE_LEN,
        ensures
            final(self).wf(),
            r == old(self).reveal_proof_outcome(
                proof_id,
                sha256_of(strategy@ + trade_params@ + salt@),
            ),
            r is Ok ==> old(self).reveal_proof_effect(*final(self), proof_id, strategy@, trade_params@),
            r is Err ==> *final(self) == *old(self),
    {
        if proof_id >= self.proofs.len() as u64 {
            return Err(Error::ProofNotFound);
        }
        if self.proofs[proof_id as usize].revealed {
            return Err(Error::ProofAlreadyRevealed);
        }
        let head = concat(&strategy, &trade_params);
        let preimage = concat(&head, &salt);
        let digest = sha256(&preimage);
        self.reveal_proof_with_digest(proof_id, strategy, trade_params, digest)
    }
}

/// The index of latest proofs has one place for each commitment.
pub proof fn lemma_index_covers_commitments(s: StrategyCommitment)
    requires
        s.wf(),
    ensures
        s.latest_proofs().len() == s.records().len(),
{
}

/// A reveal of an existing, unrevealed commitment succeeds exactly when the digest it brings is
/// the stored commitment hash.
pub proof fn lemma_reveal_iff_digest_matches(s: StrategyCommitment, id: u64, digest: Seq<u8>)
    requires
        id < s.records().len(),
        !s.records()[id as int].revealed,
    ensures
        (s.reveal_outcome(id, digest) is Ok) == (s.records()[id as int].commitment == digest),
{
}

/// A commitment is revealed at most once: after a successful reveal, every further reveal of it
/// fails with `AlreadyRevealed`, whatever it brings.
pub proof fn lemma_reveal_at_most_once(
    before: StrategyCommitment,
    after: StrategyCommitment,
    id: u64,
    strategy: Seq<u8>,
    digest: Seq<u8>,
    again: Seq<u8>,
)
    requires
        before.reveal_outcome(id, digest) is Ok,
        before.reveal_effect(after, id, strategy),
    ensures
        after.reveal_outcome(id, again) == Err::<(), Error>(Error::AlreadyRevealed),
        after.records()[id as int].strategy == strategy,
{
}

/// A reveal of an existing, unrevealed proof succeeds exactly when the digest it brings is the
/// stored proof hash.
pub proof fn lemma_reveal_proof_iff_digest_matches(s: StrategyCommitment, id: u64, digest: Seq<u8>)
    requires
        id < s.proof_records().len(),
        !s.proof_records()[id as int].revealed,
    ensures
        (s.reveal_proof_outcome(id, digest) is Ok) == (s.proof_records()[id as int].proof_hash
            == digest),
{
}

/// A proof is revealed at most once: after a successful reveal, every further reveal of it fails
/// with `ProofAlreadyRevealed`, whatever it brings.
pub proof fn lemma_reveal_proof_at_most_once(
    before: StrategyCommitment,
    after: StrategyCommitment,
    id: u64,
    strategy: Seq<u8>,
    trade_params: Seq<u8>,
    digest: Seq<u8>,
    again: Seq<u8>,
)
    requires
        before.reveal_proof_outcome(id, digest) is Ok,
        before.reveal_proof_effect(after, id, strategy, trade_params),
    ensures
        after.reveal_proof_outcome(id, again) == Err::<(), Error>(Error::ProofAlreadyRevealed),
        after.proof_records()[id as int].strategy == strategy,
        after.proof_records()[id as int].trade_params == trade_params,
{
}

/// A copy of `a`.
fn copy_bytes(a: &Vec<u8>) -> (r: Vec<u8>)
    ensures
        r@ == a@,
{
    let mut r: Vec<u8> = Vec::new();
    let mut i: usize = 0;
    while i < a.len()
        invariant
            i <= a.len(),
            r@ == a@.subrange(0, i as int),
        decreases a.len() - i,
    {
        r.push(a[i]);
        i = i + 1;
    }
    assert(a@.subrange(0, a@.len() as int) =~= a@);
    r
}

} // verus!
