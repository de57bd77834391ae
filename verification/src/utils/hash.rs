use vstd::prelude::*;
use sha2::{Digest, Sha256};
use crate::ledger::block::Block;
use crate::ledger::transaction::{txs_view, TxView};
use crate::utils::encoding::{
    bytes_field, hex_lower, lemma_bytes_field_parse, lemma_hex_lower_injective, lemma_hex_lower_len,
    lemma_num_field_parse, num_field, push_bytes_field, push_hex_lower, push_num_field,
};
use vstd::utf8::{encode_utf8, encode_utf8_decode_utf8};

verus! {

/// The SHA-256 digest of a byte string.
pub uninterp spec fn sha256(data: Seq<u8>) -> Seq<u8>;

/// Calls `sha2::Sha256` (`new`, `update`, `finalize`) on `data`.
/// Trusted: the digest is `sha256(data)`, a function of the bytes alone, and it is
/// 32 bytes long (the output type of `Sha256` is an array of `U32` bytes).
#[verifier::external_body]
fn sha256_digest(data: &[u8]) -> (digest: Vec<u8>)
    ensures
        digest@ == sha256(data@),
        digest@.len() == 32,
{
    let mut hasher = Sha256::new();
    hasher.update(data);
    hasher.finalize().to_vec()
}

/// A transaction as it enters a block's hash: sender and receiver as byte-string fields
/// (their UTF-8 bytes, each behind its length), then the amount as a number field.
pub open spec fn tx_field(tx: TxView) -> Seq<u8> {
    bytes_field(encode_utf8(tx.sender)) + bytes_field(encode_utf8(tx.receiver)) + num_field(tx.amount as nat)
}

/// The transactions of a block, one field after the other.
pub open spec fn txs_fields(txs: Seq<TxView>) -> Seq<u8>
    decreases txs.len(),
{
    if txs.len() == 0 {
        Seq::empty()
    } else {
        tx_field(txs[0]) + txs_fields(txs.drop_first())
    }
}

/// The bytes that are hashed for a block: index, timestamp and number of transactions as
/// number fields, the transactions, then the previous hash as a byte-string field. Each field
/// ends, or says its length, so that the bytes determine the fields.
pub open spec fn hash_input(index: u32, timestamp: u64, txs: Seq<TxView>, prev_hash: Seq<char>) -> Seq<u8> {
    num_field(index as nat) + num_field(timestamp as nat) + num_field(txs.len()) + txs_fields(txs)
        + bytes_field(encode_utf8(prev_hash))
}

/// The hash of a block with these fields: the lower-case hexadecimal writing of the
/// SHA-256 digest of [`hash_input`].
pub open spec fn block_hash(index: u32, timestamp: u64, txs: Seq<TxView>, prev_hash: Seq<char>) -> Seq<char> {
    hex_lower(sha256(hash_input(index, timestamp, txs, prev_hash)))
}

proof fn lemma_encode_utf8_injective(x: Seq<char>, y: Seq<char>)
    requires
        encode_utf8(x) == encode_utf8(y),
    ensures
        x == y,
{
    encode_utf8_decode_utf8(x);
    encode_utf8_decode_utf8(y);
}

proof fn lemma_txs_fields_push(txs: Seq<TxView>, tx: TxView)
    ensures
        txs_fields(txs.push(tx)) == txs_fields(txs) + tx_field(tx),
    decreases txs.len(),
{
    if txs.len() == 0 {
        assert(txs.push(tx).drop_first() =~= Seq::<TxView>::empty());
        assert(txs_fields(txs.push(tx).drop_first()) == Seq::<u8>::empty());
        assert(txs.push(tx)[0] == tx);
        assert(txs_fields(txs.push(tx)) =~= txs_fields(txs) + tx_field(tx));
    } else {
        lemma_txs_fields_push(txs.drop_first(), tx);
        assert(txs.push(tx).drop_first() =~= txs.drop_first().push(tx));
        assert(txs.push(tx)[0] == txs[0]);
        assert(txs_fields(txs.push(tx)) == tx_field(txs[0]) + txs_fields(txs.drop_first().push(tx)));
        assert(txs_fields(txs.push(tx)) =~= txs_fields(txs) + tx_field(tx));
    }
}

proof fn lemma_tx_field_parse(t1: TxView, r1: Seq<u8>, t2: TxView, r2: Seq<u8>)
    requires
        tx_field(t1) + r1 == tx_field(t2) + r2,
    ensures
        t1 == t2,
        r1 == r2,
{
    let s1 = encode_utf8(t1.sender);
    let s2 = encode_utf8(t2.sender);
    let v1 = encode_utf8(t1.receiver);
    let v2 = encode_utf8(t2.receiver);
    let rest1 = bytes_field(v1) + (num_field(t1.amount as nat) + r1);
    let rest2 = bytes_field(v2) + (num_field(t2.amount as nat) + r2);
    assert(tx_field(t1) + r1 =~= bytes_field(s1) + rest1);
    assert(tx_field(t2) + r2 =~= bytes_field(s2) + rest2);
    lemma_bytes_field_parse(s1, rest1, s2, rest2);
    lemma_bytes_field_parse(v1, num_field(t1.amount as nat) + r1, v2, num_field(t2.amount as nat) + r2);
    lemma_num_field_parse(t1.amount as nat, r1, t2.amount as nat, r2);
    lemma_encode_utf8_injective(t1.sender, t2.sender);
    lemma_encode_utf8_injective(t1.receiver, t2.receiver);
}

proof fn lemma_txs_fields_parse(x: Seq<TxView>, r1: Seq<u8>, y: Seq<TxView>, r2: Seq<u8>)
    requires
        x.len() == y.len(),
        txs_fields(x) + r1 == txs_fields(y) + r2,
    ensures
        x == y,
        r1 == r2,
    decreases x.len(),
{
    if x.len() == 0 {
        assert(txs_fields(x) + r1 =~= r1);
        assert(txs_fields(y) + r2 =~= r2);
        assert(x =~= y);
    } else {
        let rest1 = txs_fields(x.drop_first()) + r1;
        let rest2 = txs_fields(y.drop_first()) + r2;
        assert(txs_fields(x) + r1 =~= tx_field(x[0]) + rest1);
        assert(txs_fields(y) + r2 =~= tx_field(y[0]) + rest2);
        lemma_tx_field_parse(x[0], rest1, y[0], rest2);
        lemma_txs_fields_parse(x.drop_first(), r1, y.drop_first(), r2);
        assert(x =~= seq![x[0]] + x.drop_first());
        assert(y =~= seq![y[0]] + y.drop_first());
    }
}

/// The hashed bytes determine every field of the block: two blocks whose fields differ
/// in anything are hashed over different bytes.
pub proof fn lemma_hash_input_injective(
    i1: u32, t1: u64, x1: Seq<TxView>, p1: Seq<char>,
    i2: u32, t2: u64, x2: Seq<TxView>, p2: Seq<char>,
)
    requires
        hash_input(i1, t1, x1, p1) == hash_input(i2, t2, x2, p2),
    ensures
        i1 == i2,
        t1 == t2,
        x1 == x2,
        p1 == p2,
{
    let f1 = txs_fields(x1);
    let f2 = txs_fields(x2);
    let e1 = bytes_field(encode_utf8(p1));
    let e2 = bytes_field(encode_utf8(p2));
    lemma_concat_assoc(num_field(i1 as nat) + num_field(t1 as nat) + num_field(x1.len()), f1, e1);
    lemma_concat_assoc(num_field(i2 as nat) + num_field(t2 as nat) + num_field(x2.len()), f2, e2);
    lemma_three_numbers_parse(i1 as nat, t1 as nat, x1.len(), f1 + e1, i2 as nat, t2 as nat, x2.len(), f2 + e2);
    lemma_txs_fields_parse(x1, e1, x2, e2);
    lemma_bytes_field_alone(encode_utf8(p1), encode_utf8(p2));
    lemma_encode_utf8_injective(p1, p2);
}

proof fn lemma_three_numbers_parse(a1: nat, b1: nat, c1: nat, r1: Seq<u8>, a2: nat, b2: nat, c2: nat, r2: Seq<u8>)
    requires
        num_field(a1) + num_field(b1) + num_field(c1) + r1 == num_field(a2) + num_field(b2) + num_field(c2) + r2,
    ensures
        a1 == a2,
        b1 == b2,
        c1 == c2,
        r1 == r2,
{
    let s1 = num_field(b1) + (num_field(c1) + r1);
    let s2 = num_field(b2) + (num_field(c2) + r2);
    assert(num_field(a1) + num_field(b1) + num_field(c1) + r1 =~= num_field(a1) + s1);
    assert(num_field(a2) + num_field(b2) + num_field(c2) + r2 =~= num_field(a2) + s2);
    lemma_num_field_parse(a1, s1, a2, s2);
    lemma_num_field_parse(b1, num_field(c1) + r1, b2, num_field(c2) + r2);
    lemma_num_field_parse(c1, r1, c2, r2);
}

proof fn lemma_concat_assoc(p: Seq<u8>, f: Seq<u8>, e: Seq<u8>)
    ensures
        p + f + e == p + (f + e),
{
    assert(p + f + e =~= p + (f + e));
}

proof fn lemma_bytes_field_alone(x: Seq<u8>, y: Seq<u8>)
    requires
        bytes_field(x) == bytes_field(y),
    ensures
        x == y,
{
    assert(bytes_field(x) + Seq::<u8>::empty() =~= bytes_field(x));
    assert(bytes_field(y) + Seq::<u8>::empty() =~= bytes_field(y));
    lemma_bytes_field_parse(x, Seq::empty(), y, Seq::empty());
}

/// Two blocks with the same hash have the same index, timestamp, transactions and previous
/// hash, unless SHA-256 maps their two (different) hashed byte strings to one digest.
pub proof fn lemma_block_hash_determines_fields(
    i1: u32, t1: u64, x1: Seq<TxView>, p1: Seq<char>,
    i2: u32, t2: u64, x2: Seq<TxView>, p2: Seq<char>,
)
    requires
        block_hash(i1, t1, x1, p1) == block_hash(i2, t2, x2, p2),
        sha256(hash_input(i1, t1, x1, p1)) == sha256(hash_input(i2, t2, x2, p2))
            ==> hash_input(i1, t1, x1, p1) == hash_input(i2, t2, x2, p2),
    ensures
        i1 == i2,
        t1 == t2,
        x1 == x2,
        p1 == p2,
{
    lemma_hex_lower_injective(sha256(hash_input(i1, t1, x1, p1)), sha256(hash_input(i2, t2, x2, p2)));
    lemma_hash_input_injective(i1, t1, x1, p1, i2, t2, x2, p2);
}

/// The hash of a block's index, timestamp, transactions and previous hash (its own
/// `hash` field does not enter).
pub fn calculate_hash(block: &Block) -> (h: String)
    ensures
        h@ == block_hash(block.index, block.timestamp, txs_view(block.data@), block.prev_hash@),
        h@.len() == 64,
{
    let mut input: Vec<u8> = Vec::new();
    push_num_field(&mut input, block.index as u64);
    push_num_field(&mut input, block.timestamp);
    push_num_field(&mut input, block.data.len() as u64);
    let ghost head = input@;
    let ghost txs = txs_view(block.data@);
    let n = block.data.len();
    let mut i: usize = 0;
    while i < n
        invariant
            n == block.data@.len(),
            txs == txs_view(block.data@),
            i <= n,
            input@ == head + txs_fields(txs.take(i as int)),
        decreases n - i,
    {
        let tx = &block.data[i];
        push_bytes_field(&mut input, tx.sender.as_str().as_bytes());
        push_bytes_field(&mut input, tx.receiver.as_str().as_bytes());
        push_num_field(&mut input, tx.amount as u64);
        proof {
            lemma_txs_fields_push(txs.take(i as int), tx@);
            assert(txs.take(i + 1) =~= txs.take(i as int).push(tx@));
        }
        assert(input@ =~= head + txs_fields(txs.take(i + 1)));
        i = i + 1;
    }
    assert(txs.take(n as int) =~= txs);
    push_bytes_field(&mut input, block.prev_hash.as_str().as_bytes());
    assert(input@ =~= hash_input(block.index, block.timestamp, txs, block.prev_hash@));
    let digest = sha256_digest(input.as_slice());
    let mut h = String::new();
    push_hex_lower(&mut h, digest.as_slice());
    assert(h@ =~= hex_lower(digest@));
    proof { lemma_hex_lower_len(digest@); }
    h
}

} // verus!
