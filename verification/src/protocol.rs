//! High-level API for credential authorization.
//!
//! Connects key generation, Merkle membership, proof generation and
//! verification. Verifier entry points take the Merkle root only inside an
//! [`AuthenticatedRoot`], which binds it to the digest of the parameter set
//! it was authenticated for.

use vstd::prelude::*;
use rand::rngs::StdRng;
use crate::error::ProtocolError;
use crate::mlwe::{is_public_key, keygen, keygen_relation, mat_shape_ok, params_digest_spec, commitment_spec, MlweKeyPair, MlweParams};
use crate::poly::{vec_canonical, PolyVec, K};
use crate::sample::{is_cbd_draw, is_small_seq};
use crate::tree::MerkleProof;
use crate::zk_auth::{
    all_attempts_rejected, attempt_accepted, attempt_output, ct_eq_32, is_masking_vec, lemma_prove_then_verify, nullifier_spec, prove, statement_ok, verify, verify_spec, AuthProof,
};

verus! {

/// A credential key pair for the protocol.
///
/// The secret witness stays inside; the public key is what gets committed
/// into the authorization tree.
pub struct KeyPair {
    /// The underlying Module-LWE key pair.
    pub(crate) inner: MlweKeyPair,
}

/// Authenticated authorization root bound to a parameter set.
///
/// Constructing one records the application's decision to trust the root
/// for the parameters whose digest it carries.
#[derive(Debug, Clone, PartialEq, Eq)]
pub struct AuthenticatedRoot {
    root: [u8; 32],
    params_digest: [u8; 32],
}

impl AuthenticatedRoot {
    /// The root bytes.
    pub closed spec fn root_bytes(&self) -> [u8; 32] {
        self.root
    }

    /// The parameter digest bytes.
    pub closed spec fn digest_bytes(&self) -> [u8; 32] {
        self.params_digest
    }

    /// Marks `root` as trusted for `params`, binding the parameter digest.
    pub fn from_trusted_source(root: [u8; 32], params: &MlweParams) -> (r: AuthenticatedRoot)
        ensures
            r.root_bytes() == root,
            r.digest_bytes()@ == params_digest_spec(params.matrix_a@),
    {
        AuthenticatedRoot { root, params_digest: params.authentication_digest() }
    }

    /// Returns the authenticated Merkle root bytes.
    pub fn root(&self) -> (r: &[u8; 32])
        ensures
            *r == self.root_bytes(),
    {
        &self.root
    }

    /// Returns the parameter digest bound to this root.
    pub fn params_digest(&self) -> (r: &[u8; 32])
        ensures
            *r == self.digest_bytes(),
    {
        &self.params_digest
    }

    /// The bound digest is the digest of `params`.
    fn matches_params(&self, params: &MlweParams) -> (r: bool)
        ensures
            r == (self.digest_bytes()@ == params_digest_spec(params.matrix_a@)),
    {
        let digest = params.authentication_digest();
        ct_eq_32(&self.params_digest, &digest)
    }

    fn duplicate(&self) -> (r: AuthenticatedRoot)
        ensures
            r == *self,
    {
        AuthenticatedRoot { root: self.root, params_digest: self.params_digest }
    }
}

/// In-memory registry of roots that have passed the application's trust
/// policy.
#[derive(Debug, Clone)]
pub struct RootRegistry {
    roots: Vec<AuthenticatedRoot>,
}

/// The entry carries `root` and the digest of the parameters `a`.
pub open spec fn entry_matches(e: AuthenticatedRoot, root: [u8; 32], a: Seq<Seq<Seq<i64>>>) -> bool {
    e.root_bytes() == root && e.digest_bytes()@ == params_digest_spec(a)
}

impl RootRegistry {
    /// The registered roots, in registration order.
    pub closed spec fn entries(&self) -> Seq<AuthenticatedRoot> {
        self.roots@
    }

    /// Creates an empty registry.
    pub fn new() -> (r: RootRegistry)
        ensures
            r.entries() == Seq::<AuthenticatedRoot>::empty(),
    {
        RootRegistry { roots: Vec::new() }
    }

    /// Registers `root` as trusted for `params` and returns its wrapper.
    pub fn register_trusted_root(&mut self, root: [u8; 32], params: &MlweParams) -> (r: AuthenticatedRoot)
        ensures
            r.root_bytes() == root,
            r.digest_bytes()@ == params_digest_spec(params.matrix_a@),
            final(self).entries() == old(self).entries().push(r),
    {
        let authenticated = AuthenticatedRoot::from_trusted_source(root, params);
        self.roots.push(authenticated.duplicate());
        authenticated
    }

    /// Returns the wrapper for `root` under `params` only if that pair has
    /// been registered.
    pub fn authenticate(&self, root: &[u8; 32], params: &MlweParams) -> (r: Option<AuthenticatedRoot>)
        ensures
            r is Some <==> exists|i: int|
                0 <= i < self.entries().len() && #[trigger] entry_matches(self.entries()[i], *root, params.matrix_a@),
            r matches Some(e) ==> entry_matches(e, *root, params.matrix_a@) && exists|i: int|
                0 <= i < self.entries().len() && self.entries()[i] == e,
    {
        let digest = params.authentication_digest();
        let mut i: usize = 0;
        while i < self.roots.len()
            invariant
                0 <= i <= self.roots@.len(),
                digest@ == params_digest_spec(params.matrix_a@),
                forall|j: int| 0 <= j < i ==> !#[trigger] entry_matches(self.roots@[j], *root, params.matrix_a@),
            decreases self.roots@.len() - i,
        {
            let entry = &self.roots[i];
            let root_ok = ct_eq_32(entry.root(), root);
            let digest_ok = ct_eq_32(entry.params_digest(), &digest);
            if root_ok && digest_ok {
                proof {
                    assert(entry.root_bytes() =~= *root);
                    assert(entry_matches(self.roots@[i as int], *root, params.matrix_a@));
                    assert(entry_matches(self.entries()[i as int], *root, params.matrix_a@));
                }
                return Some(entry.duplicate());
            }
            proof {
                if entry_matches(self.roots@[i as int], *root, params.matrix_a@) {
                    assert(entry.root_bytes()@ == root@);
                }
            }
            i += 1;
        }
        None
    }
}

impl Default for RootRegistry {
    fn default() -> (r: RootRegistry)
        ensures
            r.entries() == Seq::<AuthenticatedRoot>::empty(),
    {
        RootRegistry::new()
    }
}

/// Public inputs that bind a proof to a root, a scope and a nullifier.
#[derive(Debug, Clone)]
pub struct PublicInputs {
    /// The authenticated authorization root and parameter digest.
    pub authenticated_root: AuthenticatedRoot,
    /// The session-specific challenge scope.
    pub scope: Vec<u8>,
    /// The expected nullifier.
    pub nullifier: [u8; 32],
}

impl PublicInputs {
    /// Constructs verifier public inputs from an authenticated root.
    pub fn new_authenticated(authenticated_root: AuthenticatedRoot, scope: Vec<u8>, nullifier: [u8; 32]) -> (r: PublicInputs)
        ensures
            r.authenticated_root == authenticated_root,
            r.scope@ == scope@,
            r.nullifier == nullifier,
    {
        PublicInputs { authenticated_root, scope, nullifier }
    }

    /// Returns the authenticated Merkle root bytes.
    pub fn merkle_root(&self) -> (r: &[u8; 32])
        ensures
            *r == self.authenticated_root.root_bytes(),
    {
        self.authenticated_root.root()
    }
}

impl KeyPair {
    /// The secret vector.
    pub closed spec fn secret(&self) -> Seq<Seq<i64>> {
        self.inner.secret()
    }

    /// The public vector.
    pub closed spec fn public(&self) -> Seq<Seq<i64>> {
        self.inner.public()
    }

    /// The secret has rank `K` with short coefficients and the public key
    /// has rank `K` with canonical coefficients.
    pub open spec fn wf(&self) -> bool {
        &&& self.secret().len() == K
        &&& forall|i: int| 0 <= i < K ==> #[trigger] is_small_seq(self.secret()[i])
        &&& vec_canonical(self.public())
    }

    /// Every key pair satisfies `wf`.
    pub fn check_wf(&self)
        ensures
            self.wf(),
    {
        self.inner.check_wf();
    }

    /// Generates a credential key pair under the supplied parameters.
    pub fn generate(params: &MlweParams, rng: &mut StdRng) -> (r: KeyPair)
        requires
            mat_shape_ok(params.matrix_a@),
        ensures
            r.wf(),
            keygen_relation(params.matrix_a@, r.secret(), r.public()),
            forall|i: int| 0 <= i < K ==> #[trigger] is_cbd_draw(r.secret()[i]),
            exists|e: Seq<Seq<i64>>|
                #[trigger] is_public_key(params.matrix_a@, r.secret(), e, r.public()) && e.len() == K && forall|i: int|
                    0 <= i < K ==> #[trigger] is_cbd_draw(e[i]) && is_small_seq(e[i]),
    {
        KeyPair { inner: keygen(params, rng) }
    }

    /// Consumes the key pair and wipes its secret and public vectors.
    pub fn wipe(self) {
        self.inner.wipe();
    }

    /// Returns the public key vector.
    pub fn public_key(&self) -> (r: &PolyVec)
        ensures
            r@ == self.public(),
    {
        self.inner.public_key()
    }

    /// Computes the credential commitment.
    pub fn commitment(&self) -> (h: [u8; 32])
        ensures
            h@ == commitment_spec(self.public()),
    {
        self.inner.commitment()
    }

    /// Derives the nullifier for a scope.
    pub fn nullifier(&self, scope: &[u8]) -> (h: [u8; 32])
        ensures
            h@ == nullifier_spec(self.secret(), scope@),
    {
        self.inner.nullifier(scope)
    }
}

/// Prover facade for credential membership proofs.
pub struct Prover;

impl Prover {
    /// Generates an authorization proof for the public inputs.
    ///
    /// Returns `ProtocolError::ChallengeFailure` exactly when the public
    /// nullifier does not belong to the key and scope;
    /// `ProtocolError::ProofGenerationFailure` when `MAX_ATTEMPTS` drawn
    /// masking vectors all give a long response.
    pub fn generate_proof(
        params: &MlweParams,
        keypair: &KeyPair,
        merkle_proof: &MerkleProof,
        public_inputs: &PublicInputs,
        rng: &mut StdRng,
    ) -> (r: Result<AuthProof, ProtocolError>)
        requires
            mat_shape_ok(params.matrix_a@),
        ensures
            ({
                let root = public_inputs.authenticated_root.root_bytes()@;
                let ok = nullifier_spec(keypair.secret(), public_inputs.scope@) == public_inputs.nullifier@;
                &&& !ok ==> r == Err::<AuthProof, ProtocolError>(ProtocolError::ChallengeFailure)
                &&& ok ==> (r matches Ok(p) ==> exists|y: Seq<Seq<i64>>|
                    #[trigger] is_masking_vec(y) && attempt_accepted(
                        params.matrix_a@,
                        keypair.secret(),
                        root,
                        public_inputs.nullifier@,
                        public_inputs.scope@,
                        y,
                    ) && attempt_output(
                        params.matrix_a@,
                        keypair.secret(),
                        keypair.public(),
                        *merkle_proof,
                        root,
                        public_inputs.nullifier@,
                        public_inputs.scope@,
                        y,
                        p,
                    ))
                &&& ok ==> (r matches Err(e) ==> e is ProofGenerationFailure)
                &&& r matches Err(ProtocolError::ProofGenerationFailure { .. }) ==> exists|ys: Seq<Seq<Seq<i64>>>|
                    #[trigger] all_attempts_rejected(
                        params.matrix_a@,
                        keypair.secret(),
                        root,
                        public_inputs.nullifier@,
                        public_inputs.scope@,
                        ys,
                    )
            }),
    {
        prove(
            params,
            &keypair.inner,
            merkle_proof,
            public_inputs.merkle_root(),
            &public_inputs.nullifier,
            public_inputs.scope.as_slice(),
            rng,
        )
    }
}

/// Verifier facade for credential authorization proofs.
pub struct Verifier;

impl Verifier {
    /// Verifies an authorization proof against authenticated public inputs:
    /// `Ok(false)` when the root was authenticated for other parameters,
    /// otherwise the outcome of every proof check.
    pub fn verify_proof(params: &MlweParams, proof: &AuthProof, public_inputs: &PublicInputs) -> (r: Result<bool, ProtocolError>)
        requires
            mat_shape_ok(params.matrix_a@),
        ensures
            r == Ok::<bool, ProtocolError>(
                public_inputs.authenticated_root.digest_bytes()@ == params_digest_spec(params.matrix_a@)
                    && verify_spec(
                    params.matrix_a@,
                    *proof,
                    public_inputs.authenticated_root.root_bytes()@,
                    public_inputs.nullifier@,
                    public_inputs.scope@,
                ),
            ),
    {
        if !public_inputs.authenticated_root.matches_params(params) {
            return Ok(false);
        }
        verify(params, proof, public_inputs.merkle_root(), &public_inputs.nullifier, public_inputs.scope.as_slice())
    }
}

/// A registry entry is determined by what it matches: two entries that both
/// carry `root` and the digest of `a` are the same entry.
pub proof fn lemma_matching_entries_equal(e1: AuthenticatedRoot, e2: AuthenticatedRoot, root: [u8; 32], a: Seq<Seq<Seq<i64>>>)
    requires
        entry_matches(e1, root, a),
        entry_matches(e2, root, a),
    ensures
        e1 == e2,
{
    assert(e1.params_digest =~= e2.params_digest) by {
        assert forall|i: int| 0 <= i < 32 implies e1.params_digest[i] == e2.params_digest[i] by {
            assert(e1.params_digest@[i] == e2.params_digest@[i]);
        }
    }
}

/// Registration law: after `register_trusted_root(root, params)` turned the
/// entries `before` into `after` and returned `r`, the pair `(root, params)`
/// authenticates, every wrapper that `authenticate` may return for it is
/// `r`, and every pair that authenticated before still authenticates, by an
/// entry at the same position.
pub proof fn lemma_registration_authenticates(
    before: RootRegistry,
    after: RootRegistry,
    r: AuthenticatedRoot,
    root: [u8; 32],
    a: Seq<Seq<Seq<i64>>>,
)
    requires
        after.entries() == before.entries().push(r),
        entry_matches(r, root, a),
    ensures
        exists|i: int| 0 <= i < after.entries().len() && #[trigger] entry_matches(after.entries()[i], root, a),
        forall|e: AuthenticatedRoot| #[trigger] entry_matches(e, root, a) ==> e == r,
        forall|i: int, root2: [u8; 32], a2: Seq<Seq<Seq<i64>>>|
            0 <= i < before.entries().len() && #[trigger] entry_matches(before.entries()[i], root2, a2) ==> i
                < after.entries().len() && entry_matches(after.entries()[i], root2, a2),
{
    let n = before.entries().len() as int;
    assert(after.entries()[n] == r);
    assert(entry_matches(after.entries()[n], root, a));
    assert forall|e: AuthenticatedRoot| #[trigger] entry_matches(e, root, a) implies e == r by {
        lemma_matching_entries_equal(e, r, root, a);
    }
    assert forall|i: int, root2: [u8; 32], a2: Seq<Seq<Seq<i64>>>|
        0 <= i < before.entries().len() && #[trigger] entry_matches(before.entries()[i], root2, a2) implies i
            < after.entries().len() && entry_matches(after.entries()[i], root2, a2) by {
        assert(after.entries()[i] == before.entries()[i]);
    }
}

/// Completeness of the protocol: a proof that `Prover::generate_proof`
/// returns for a generated key pair, a Merkle path of its commitment and
/// public inputs authenticated for the same parameters is accepted by
/// `Verifier::verify_proof`.
pub proof fn lemma_protocol_completeness(
    a: Seq<Seq<Seq<i64>>>,
    keypair: KeyPair,
    merkle_proof: MerkleProof,
    public_inputs: PublicInputs,
    proof: AuthProof,
)
    requires
        mat_shape_ok(a),
        keypair.wf(),
        keygen_relation(a, keypair.secret(), keypair.public()),
        public_inputs.authenticated_root.digest_bytes()@ == params_digest_spec(a),
        statement_ok(
            keypair.secret(),
            keypair.public(),
            merkle_proof,
            public_inputs.authenticated_root.root_bytes()@,
            public_inputs.nullifier@,
            public_inputs.scope@,
        ),
        exists|y: Seq<Seq<i64>>|
            #[trigger] is_masking_vec(y) && attempt_accepted(
                a,
                keypair.secret(),
                public_inputs.authenticated_root.root_bytes()@,
                public_inputs.nullifier@,
                public_inputs.scope@,
                y,
            ) && attempt_output(
                a,
                keypair.secret(),
                keypair.public(),
                merkle_proof,
                public_inputs.authenticated_root.root_bytes()@,
                public_inputs.nullifier@,
                public_inputs.scope@,
                y,
                proof,
            ),
    ensures
        public_inputs.authenticated_root.digest_bytes()@ == params_digest_spec(a) && verify_spec(
            a,
            proof,
            public_inputs.authenticated_root.root_bytes()@,
            public_inputs.nullifier@,
            public_inputs.scope@,
        ),
{
    lemma_prove_then_verify(
        a,
        keypair.secret(),
        keypair.public(),
        merkle_proof,
        public_inputs.authenticated_root.root_bytes()@,
        public_inputs.nullifier@,
        public_inputs.scope@,
        proof,
    );
}

} // verus!
