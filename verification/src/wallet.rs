//! Key pairs, and the transactions that they sign.

use vstd::prelude::*;
use crate::crypto::check_key;
use crate::crypto::clone_key;
use crate::crypto::curve_nid;
use crate::crypto::ecdsa_sign_der;
use crate::crypto::generate_key;
use crate::crypto::private_key_from_pem;
use crate::crypto::private_key_to_pem;
use crate::crypto::public_key_der;
use crate::crypto::sha256_digest;
use crate::transaction::PayerPublicKey;
use crate::transaction::Signature;
use crate::transaction::Transaction;
use crate::transaction::TransactionInput;
use crate::transaction::TransactionOutput;
use crate::transaction::inputs_view;
use crate::transaction::outputs_view;
verus! {

/// The number under which OpenSSL knows the curve secp256k1.
pub const SECP256K1_NID: i32 = 714;

/// The longest key file that `Wallet::from_pem` reads.
pub const MAX_PEM_LEN: usize = 0x7fff_ffff;

/// A private key with its serialized public key and the hash of that.
#[derive(Debug)]
pub struct Wallet {
    public_serialized: PayerPublicKey,
    public_hash: crate::hash::Hash,
    private_key: openssl::ec::EcKey<openssl::pkey::Private>,
}

impl PartialEq for Wallet {
    /// Two wallets are equal when their public keys are.
    fn eq(&self, other: &Self) -> (r: bool) {
        crate::encoding::same_bytes(
            self.public_serialized.0.as_slice(),
            other.public_serialized.0.as_slice(),
        )
    }
}

impl vstd::std_specs::cmp::PartialEqSpecImpl for Wallet {
    open spec fn obeys_eq_spec() -> bool {
        true
    }

    open spec fn eq_spec(&self, other: &Self) -> bool {
        self@ == other@
    }
}

impl View for Wallet {
    type V = Seq<u8>;

    /// The serialized public key.
    closed spec fn view(&self) -> Seq<u8> {
        self.public_serialized@
    }
}

impl Wallet {
    #[verifier::type_invariant]
    spec fn hash_is_current(self) -> bool {
        self.public_hash@ == sha256_digest(self.public_serialized@)
    }

    /// The wallet of a private key, given what OpenSSL says of the key:
    /// whether it passes its check, the number of its curve, and its
    /// public half in serialized form. There is a wallet when the key
    /// passes, lies on secp256k1 and has a public half; the wallet then
    /// carries that public half.
    pub fn from_parts(
        privkey: openssl::ec::EcKey<openssl::pkey::Private>,
        passes_check: bool,
        curve: Option<i32>,
        public_der: Option<Vec<u8>>,
    ) -> (w: Option<Wallet>)
        ensures
            w.is_some() == (passes_check && curve == Some(SECP256K1_NID) && public_der.is_some()),
            w.is_some() ==> w.unwrap()@ == public_der.unwrap()@,
            w.is_some() ==> w.unwrap().signing_key() == privkey,
    {
        if !passes_check {
            return None;
        }
        match curve {
            Some(nid) => {
                if nid != SECP256K1_NID {
                    return None;
                }
            },
            None => {
                return None;
            },
        }
        match public_der {
            Some(der) => {
                let public_hash = crate::hash::Hash::sha256(der.as_slice());
                Some(Wallet { public_serialized: PayerPublicKey(der), public_hash, private_key: privkey })
            },
            None => None,
        }
    }

    /// The wallet of a private key, if the key passes OpenSSL's own check,
    /// lies on secp256k1 and has a public half that serializes:
    /// `from_parts` decides on what OpenSSL answers. A wallet that comes
    /// back signs with the key that was given.
    pub fn from_privkey(privkey: openssl::ec::EcKey<openssl::pkey::Private>) -> (w: Option<Wallet>)
        ensures
            w.is_some() ==> w.unwrap().signing_key() == privkey,
    {
        let passes_check = check_key(&privkey).is_ok();
        let curve = curve_nid(&privkey);
        let public_der = match public_key_der(&privkey) {
            Ok(der) => Some(der),
            Err(_) => None,
        };
        Wallet::from_parts(privkey, passes_check, curve, public_der)
    }

    /// A wallet with a fresh key on secp256k1, if OpenSSL can make one.
    pub fn new() -> (w: Option<Wallet>) {
        match generate_key(SECP256K1_NID) {
            Ok(privkey) => Wallet::from_privkey(privkey),
            Err(_) => None,
        }
    }

    /// The wallet of the private key in a PEM file's bytes, if they hold a
    /// key that `from_privkey` takes.
    pub fn from_pem(pem: &[u8]) -> (w: Option<Wallet>)
        ensures
            pem@.len() > MAX_PEM_LEN ==> w.is_none(),
    {
        if pem.len() > MAX_PEM_LEN {
            return None;
        }
        match private_key_from_pem(pem) {
            Ok(privkey) => Wallet::from_privkey(privkey),
            Err(_) => None,
        }
    }

    /// The private key as the bytes of a PEM file, if OpenSSL can write
    /// them.
    pub fn to_pem(&self) -> (pem: Option<Vec<u8>>) {
        match private_key_to_pem(&self.private_key) {
            Ok(bytes) => Some(bytes),
            Err(_) => None,
        }
    }

    /// A second handle on the same wallet.
    pub fn duplicate(&self) -> (w: Wallet)
        ensures
            w@ == self@,
    {
        proof {
            use_type_invariant(self);
        }
        let bytes = crate::encoding::copy_bytes(self.public_serialized.0.as_slice());
        Wallet {
            public_serialized: PayerPublicKey(bytes),
            public_hash: self.public_hash,
            private_key: clone_key(&self.private_key),
        }
    }

    /// The serialized public key.
    pub fn public_serialized(&self) -> (p: &PayerPublicKey)
        ensures
            p@ == self@,
    {
        &self.public_serialized
    }

    /// The hash of the serialized public key: the wallet's name in outputs.
    pub fn public_key_hash(&self) -> (h: &crate::hash::Hash)
        ensures
            h@ == sha256_digest(self@),
    {
        proof {
            use_type_invariant(self);
        }
        &self.public_hash
    }

    /// A transaction from this wallet with the given inputs and outputs,
    /// signed with its key. There is none when OpenSSL fails to sign, or
    /// when the signature it made does not pass its own check.
    pub fn create_raw_transaction(
        &self,
        inputs: Vec<TransactionInput>,
        outputs: Vec<TransactionOutput>,
    ) -> (r: Option<Transaction>)
        ensures
            r.is_some() ==> {
                &&& r.unwrap()@.payer == self@
                &&& r.unwrap()@.inputs == inputs_view(inputs@)
                &&& r.unwrap()@.outputs == outputs_view(outputs@)
                &&& r.unwrap()@.signature_valid()
            },
    {
        let payer = PayerPublicKey(crate::encoding::copy_bytes(self.public_serialized.0.as_slice()));
        let unsigned = Transaction::new(payer, inputs, outputs, Signature(Vec::new()));
        let data = unsigned.to_signature_data();
        let digest = openssl::sha::sha256(data.as_slice());
        match ecdsa_sign_der(&self.private_key, &digest) {
            Ok(signature) => unsigned.signed(signature),
            Err(_) => None,
        }
    }
}

impl Wallet {
    /// A reward for this wallet: a transaction without inputs that pays
    /// the block reward to the wallet, signed with its key. There is none
    /// when the wallet fails to sign.
    pub fn create_reward(&self) -> (r: Option<Transaction>)
        ensures
            r.is_some() ==> {
                &&& r.unwrap()@.payer == self@
                &&& crate::ledger::is_reward(r.unwrap()@)
                &&& r.unwrap()@.outputs[0].recipient == sha256_digest(self@)
                &&& r.unwrap()@.signature_valid()
            },
    {
        let inputs: Vec<TransactionInput> = Vec::new();
        let mut outputs: Vec<TransactionOutput> = Vec::new();
        outputs.push(
            TransactionOutput {
                amount: crate::amount::Amount::block_reward(),
                recipient_hash: *self.public_key_hash(),
            },
        );
        self.create_raw_transaction(inputs, outputs)
    }
}

impl Wallet {
    /// The private key that the wallet signs with.
    pub closed spec fn signing_key(&self) -> openssl::ec::EcKey<openssl::pkey::Private> {
        self.private_key
    }
}

} // verus!
