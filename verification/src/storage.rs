use crate::codec::{dec_model, decode, enc_model, encode, lemma_dec_enc, model_bounded};
use crate::frc20::{skeys_sorted, LedgerModel, TokenError};
use crate::standard_token::StandardToken;
use crate::u256::{bytes_eq, copy_bytes};
use vstd::prelude::*;

verus! {

/// The digest the content-addressed store keys a block by: what Blake2b-256
/// returns for the block's bytes.
pub uninterp spec fn blake2b256_of(bytes: Seq<u8>) -> Seq<u8>;

/// Relies on blake2b_simd's Params::hash with a 32-byte output length: the
/// digest depends on the input bytes alone and is 32 bytes long.
#[verifier::external_body]
fn blake2b256(bytes: &Vec<u8>) -> (r: Vec<u8>)
    ensures
        r@ == blake2b256_of(bytes@),
        r@.len() == 32,
{
    blake2b_simd::Params::new().hash_length(32).hash(bytes.as_slice()).as_bytes().to_vec()
}

/// The mathematical content of the block store: the stored blocks, newest
/// first, and the root pointer.
#[verifier::ext_equal]
pub ghost struct StoreModel {
    pub blocks: Seq<(Seq<u8>, Seq<u8>)>,
    pub root: Option<Seq<u8>>,
}

/// The bytes stored under a content address; a newer block shadows an older
/// one with the same address.
pub open spec fn store_get(s: Seq<(Seq<u8>, Seq<u8>)>, k: Seq<u8>) -> Option<Seq<u8>>
    decreases s.len(),
{
    if s.len() == 0 {
        None
    } else if s[0].0 == k {
        Some(s[0].1)
    } else {
        store_get(s.drop_first(), k)
    }
}

/// What resolving the root yields: the decoded state under the root's
/// address, or the exact failure met on the way.
#[verifier::opaque]
pub open spec fn load_spec(m: StoreModel) -> Result<LedgerModel, TokenError> {
    match m.root {
        None => Err(TokenError::StateNotFound),
        Some(a) => match store_get(m.blocks, a) {
            None => Err(TokenError::StateNotFound),
            Some(bytes) => match dec_model(bytes) {
                None => Err(TokenError::SerializationFailure),
                Some(state) => Ok(state),
            },
        },
    }
}

/// The store after one save: the serialized state stored under its digest,
/// and the root repointed to that digest.
pub open spec fn save_spec(pre: StoreModel, state: LedgerModel) -> StoreModel {
    StoreModel {
        blocks: seq![(blake2b256_of(enc_model(state)), enc_model(state))] + pre.blocks,
        root: Some(blake2b256_of(enc_model(state))),
    }
}

/// An in-memory content-addressed block store with a single mutable root
/// pointer, standing for the external store the ledger persists through.
pub struct Blockstore {
    blocks: Vec<(Vec<u8>, Vec<u8>)>,
    root: Option<Vec<u8>>,
}

pub open spec fn bsmodel(s: Seq<(Vec<u8>, Vec<u8>)>) -> Seq<(Seq<u8>, Seq<u8>)> {
    s.map_values(|e: (Vec<u8>, Vec<u8>)| (e.0@, e.1@))
}

impl View for Blockstore {
    type V = StoreModel;

    closed spec fn view(&self) -> StoreModel {
        StoreModel {
            blocks: bsmodel(self.blocks@),
            root: match self.root {
                Some(v) => Some(v@),
                None => None,
            },
        }
    }
}

impl Blockstore {
    /// A fresh store: no blocks, no root.
    pub fn new() -> (s: Blockstore)
        ensures
            s@ == (StoreModel { blocks: Seq::<(Seq<u8>, Seq<u8>)>::empty(), root: None }),
    {
        let s = Blockstore { blocks: Vec::new(), root: None };
        proof {
            assert(bsmodel(s.blocks@) =~= Seq::<(Seq<u8>, Seq<u8>)>::empty());
            assert(s@ =~= (StoreModel {
                blocks: Seq::<(Seq<u8>, Seq<u8>)>::empty(),
                root: None,
            }));
        }
        s
    }
}

/// The first block stored under `key`, searched from position `i` on.
fn bs_find(blocks: &Vec<(Vec<u8>, Vec<u8>)>, i: usize, key: &Vec<u8>) -> (r: Option<Vec<u8>>)
    requires
        i <= blocks@.len(),
    ensures
        match r {
            Some(v) => store_get(bsmodel(blocks@).skip(i as int), key@) == Some(v@),
            None => store_get(bsmodel(blocks@).skip(i as int), key@) is None,
        },
    decreases blocks@.len() - i,
{
    if i == blocks.len() {
        proof {
            assert(bsmodel(blocks@).skip(i as int) =~= Seq::<(Seq<u8>, Seq<u8>)>::empty());
        }
        None
    } else {
        proof {
            assert(bsmodel(blocks@).skip(i as int)[0] == (blocks@[i as int].0@, blocks@[i as int].1@));
            assert(bsmodel(blocks@).skip(i as int).drop_first() =~= bsmodel(blocks@).skip(i + 1));
        }
        let e = &blocks[i];
        if bytes_eq(&e.0, key) {
            Some(copy_bytes(&e.1))
        } else {
            bs_find(blocks, i + 1, key)
        }
    }
}

/// The persistence adapter: wraps a ledger state and moves it between
/// memory and the content-addressed store.
pub struct Storage {
    pub contract: StandardToken,
}

impl Storage {
    /// Resolves the current root, fetches its block and decodes it. Fails
    /// with `StateNotFound` when the root is absent or dangling, and with
    /// `SerializationFailure` when the stored bytes do not decode.
    pub fn load(store: &Blockstore) -> (r: Result<StandardToken, TokenError>)
        ensures
            match r {
                Ok(t) => t.token_wf() && load_spec(store@) == Ok::<LedgerModel, TokenError>(t@),
                Err(e) => load_spec(store@) == Err::<LedgerModel, TokenError>(e),
            },
    {
        proof {
            reveal(load_spec);
            assert(bsmodel(store.blocks@).skip(0) =~= bsmodel(store.blocks@));
        }
        match &store.root {
            None => Err(TokenError::StateNotFound),
            Some(addr) => match bs_find(&store.blocks, 0, addr) {
                None => Err(TokenError::StateNotFound),
                Some(bytes) => match decode(&bytes) {
                    None => Err(TokenError::SerializationFailure),
                    Some(t) => Ok(t),
                },
            },
        }
    }

    /// Serializes the state, stores the bytes under their digest, and only
    /// then repoints the root; returns the new content address. A load
    /// right after yields exactly the saved state.
    pub fn save(&self, store: &mut Blockstore) -> (cid: Vec<u8>)
        requires
            self.contract.token_wf(),
        ensures
            cid@ == blake2b256_of(enc_model(self.contract@)),
            final(store)@ == save_spec(old(store)@, self.contract@),
            load_spec(final(store)@) == Ok::<LedgerModel, TokenError>(self.contract@),
    {
        let bytes = encode(&self.contract);
        let cid = blake2b256(&bytes);
        let key = copy_bytes(&cid);
        let rootv = copy_bytes(&cid);
        let ghost pre = store@;
        store.blocks.insert(0, (key, bytes));
        store.root = Some(rootv);
        proof {
            assert(store.blocks@.drop_first() =~= old(store).blocks@);
            assert(bsmodel(store.blocks@).drop_first() =~= bsmodel(old(store).blocks@));
            assert(bsmodel(store.blocks@)[0] == (
                blake2b256_of(enc_model(self.contract@)),
                enc_model(self.contract@),
            ));
            assert(bsmodel(store.blocks@) =~= seq![
                (blake2b256_of(enc_model(self.contract@)), enc_model(self.contract@)),
            ] + bsmodel(old(store).blocks@));
            reveal(load_spec);
            assert(store@ =~= save_spec(pre, self.contract@));
            lemma_dec_enc(self.contract@);
            assert(store_get(store@.blocks, blake2b256_of(enc_model(self.contract@)))
                == Some(enc_model(self.contract@)));
        }
        cid
    }
}

/// The persistence round trip: loading immediately after a save, with no
/// intervening writer, yields a state equal to the one saved, field for
/// field.
pub proof fn lemma_save_load_round_trip(pre: StoreModel, state: LedgerModel)
    requires
        model_bounded(state),
        skeys_sorted(state.balances),
        skeys_sorted(state.allowances),
    ensures
        load_spec(save_spec(pre, state)) == Ok::<LedgerModel, TokenError>(state),
{
    reveal(load_spec);
    let post = save_spec(pre, state);
    assert(post.blocks[0] == (blake2b256_of(enc_model(state)), enc_model(state)));
    assert(store_get(post.blocks, blake2b256_of(enc_model(state))) == Some(enc_model(state)));
    lemma_dec_enc(state);
}

} // verus!
