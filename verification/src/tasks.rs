//! Task-daemon data: the encrypted task record that rides the replication
//! network, and the commit bookkeeping of the sync loop.

use vstd::prelude::*;

use crate::error::Error;
use crate::serial::{seq_deep_view, Decodable, Encodable};

verus! {

/// One task as it travels the replication network: the workspace it belongs
/// to, the encryption nonce, and the ciphertext of the serialized task.
/// Encrypting and decrypting the payload is the crypto collaborator's job.
#[derive(Debug, Clone)]
pub struct EncryptedTask {
    /// The workspace the task belongs to.
    pub workspace: String,
    /// The encryption nonce.
    pub nonce: Vec<u8>,
    /// The ciphertext.
    pub payload: Vec<u8>,
}

/// The abstract contents of an [`EncryptedTask`].
pub struct EncryptedTaskView {
    pub workspace: Seq<char>,
    pub nonce: Seq<u8>,
    pub payload: Seq<u8>,
}

impl DeepView for EncryptedTask {
    type V = EncryptedTaskView;

    open spec fn deep_view(&self) -> EncryptedTaskView {
        EncryptedTaskView {
            workspace: self.workspace@,
            nonce: self.nonce@,
            payload: self.payload@,
        }
    }
}

impl EncryptedTask {
    pub fn new(workspace: String, nonce: Vec<u8>, payload: Vec<u8>) -> (r: Self)
        ensures
            r.workspace == workspace,
            r.nonce == nonce,
            r.payload == payload,
    {
        Self { workspace, nonce, payload }
    }
}

impl Encodable for EncryptedTask {
    open spec fn enc(&self) -> Seq<u8> {
        self.workspace.enc() + self.nonce.enc() + self.payload.enc()
    }

    open spec fn enc_fits(&self) -> bool {
        self.workspace.enc_fits() && self.nonce.enc_fits() && self.payload.enc_fits()
    }

    fn encode(&self, s: &mut Vec<u8>) -> (n: usize) {
        let start = s.len();
        let _ = self.workspace.encode(s);
        let _ = self.nonce.encode(s);
        let _ = self.payload.encode(s);
        proof {
            assert(s@ =~= old(s)@ + self.enc());
        }
        s.len() - start
    }
}

impl Decodable for EncryptedTask {
    open spec fn dec(data: Seq<u8>) -> Result<(Self::V, int), Error> {
        match <(String, (Vec<u8>, Vec<u8>))>::dec(data) {
            Ok(((workspace, (nonce, payload)), k)) => Ok((
                EncryptedTaskView { workspace, nonce, payload },
                k,
            )),
            Err(e) => Err(e),
        }
    }

    fn decode(data: &[u8], pos: usize) -> (r: Result<(Self, usize), Error>) {
        match <(String, (Vec<u8>, Vec<u8>))>::decode(data, pos) {
            Ok(((workspace, (nonce, payload)), end)) => {
                proof {
                    assert(nonce.deep_view() =~= nonce@);
                    assert(payload.deep_view() =~= payload@);
                }
                Ok((EncryptedTask { workspace, nonce, payload }, end))
            },
            Err(e) => Err(e),
        }
    }

    proof fn lemma_enc_dec(v: Self, rest: Seq<u8>) {
        let repr = (v.workspace, (v.nonce, v.payload));
        assert(repr.enc() =~= v.enc());
        <(String, (Vec<u8>, Vec<u8>))>::lemma_enc_dec(repr, rest);
        assert(v.nonce.deep_view() =~= v.nonce@);
        assert(v.payload.deep_view() =~= v.payload@);
    }
}

/// Records one replicated commit: appends its reference id unless an equal
/// id is already recorded; returns whether it was new. This keeps the
/// commit log deduplicated however often the network redelivers a task.
pub fn record_commit(commits: &mut Vec<String>, ref_id: &String) -> (r: bool)
    ensures
        r == !seq_deep_view(old(commits)@).contains(ref_id@),
        r ==> seq_deep_view(final(commits)@) == seq_deep_view(old(commits)@).push(ref_id@),
        !r ==> final(commits)@ == old(commits)@,
{
    let mut i: usize = 0;
    while i < commits.len()
        invariant
            i <= commits@.len(),
            commits@ == old(commits)@,
            forall|j: int| 0 <= j < i ==> commits@[j]@ != ref_id@,
        decreases commits@.len() - i,
    {
        if commits[i] == *ref_id {
            proof {
                assert(seq_deep_view(commits@)[i as int] == ref_id@);
            }
            return false;
        }
        i = i + 1;
    }
    proof {
        if seq_deep_view(commits@).contains(ref_id@) {
            let j = choose|j: int|
                0 <= j < commits@.len() && seq_deep_view(commits@)[j] == ref_id@;
        }
    }
    commits.push(ref_id.clone());
    proof {
        assert(seq_deep_view(commits@) =~= seq_deep_view(old(commits)@).push(ref_id@));
    }
    true
}

} // verus!
