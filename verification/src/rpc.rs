//! What the RPC endpoints compute: requests turned into transactions,
//! hashes read from text, replies built from digests, and the lookup of a
//! transaction by hash.
use vstd::prelude::*;
use vstd::string::StringExecFns;
use crate::address::{hex_decode, hex_decode_spec, parse_address, parsed_address, address_prefix};
use crate::blockdag::BlockDAG;
use crate::hashing::{BlockHash, hex_encode, hex_spec};
use crate::mempool::{TxDagMempool, MempoolTransaction};
use crate::transaction::{Transaction, TxPayload, same_tx, tx_hash_spec};

verus! {

/// Gas limit of the transactions the contract endpoints create.
pub const CONTRACT_GAS_LIMIT: u64 = 1_000_000;

/// Gas price of the transactions the contract endpoints create.
pub const CONTRACT_GAS_PRICE: u64 = 1;

/// The bytes of an optional hexadecimal argument: empty when absent or not
/// hexadecimal.
pub open spec fn optional_hex_bytes(s: Option<Seq<char>>) -> Seq<u8> {
    match s {
        Some(t) => match hex_decode_spec(t) {
            Some(b) => b,
            None => Seq::empty(),
        },
        None => Seq::empty(),
    }
}

/// Decodes an optional hexadecimal argument, empty when absent or invalid.
fn decode_optional(s: &Option<String>) -> (r: Vec<u8>)
    ensures
        r@ == optional_hex_bytes(match s { Some(t) => Some(t@), None => None }),
{
    match s {
        Some(t) => match hex_decode(t.as_str()) {
            Some(b) => b,
            None => Vec::new(),
        },
        None => Vec::new(),
    }
}

/// A block or transaction hash written as 64 hexadecimal digits.
pub fn parse_hash(s: &str) -> (r: Option<BlockHash>)
    ensures
        match r {
            Some(h) => hex_decode_spec(s@) == Some(h@),
            None => !(hex_decode_spec(s@) matches Some(b) && b.len() == 32),
        },
{
    match hex_decode(s) {
        Some(bytes) => {
            if bytes.len() != 32 {
                return None;
            }
            let mut h: BlockHash = [0u8; 32];
            let mut i: usize = 0;
            while i < 32
                invariant
                    0 <= i <= 32,
                    bytes@.len() == 32,
                    forall|j: int| 0 <= j < i ==> h@[j] == bytes@[j],
                decreases 32 - i,
            {
                h[i] = bytes[i];
                i = i + 1;
            }
            assert(h@ =~= bytes@);
            Some(h)
        },
        None => None,
    }
}

/// A request to deploy a contract.
#[derive(Debug, Clone)]
pub struct DeployContractRequest {
    pub from: String,
    pub nonce: u64,
    /// The contract code in hexadecimal.
    pub wasm_code: String,
    /// The constructor arguments in hexadecimal.
    pub init_args: Option<String>,
}

/// The reply to a deployment.
#[derive(Debug, Clone)]
pub struct DeployContractResponse {
    pub contract_address: String,
    pub tx_hash: String,
}

/// A request to call a contract.
#[derive(Debug, Clone)]
pub struct CallContractRequest {
    pub from: String,
    pub nonce: u64,
    pub contract_address: String,
    pub method: String,
    /// The call arguments in hexadecimal.
    pub args: Option<String>,
}

/// The reply to a contract call.
#[derive(Debug, Clone)]
pub struct CallContractResponse {
    pub status: String,
    pub result: Option<String>,
}

/// The optional text as characters.
pub open spec fn opt_chars(s: Option<String>) -> Option<Seq<char>> {
    match s {
        Some(t) => Some(t@),
        None => None,
    }
}

impl DeployContractRequest {
    /// The deployment transaction the request asks for: refused when the
    /// code is not hexadecimal or the sender is not an address; invalid
    /// constructor arguments are taken as none.
    pub fn to_transaction(&self) -> (r: Option<Transaction>)
        ensures
            r is Some <==> (hex_decode_spec(self.wasm_code@) is Some && parsed_address(self.from@) is Ok),
            r matches Some(tx) ==> {
                &&& tx.from@ == parsed_address(self.from@)->Ok_0
                &&& tx.payload matches TxPayload::ContractDeploy { wasm_code, init_args }
                    && wasm_code@ == hex_decode_spec(self.wasm_code@)->0
                    && init_args@ == optional_hex_bytes(opt_chars(self.init_args))
                &&& tx.nonce == self.nonce
                &&& tx.gas_limit == CONTRACT_GAS_LIMIT
                &&& tx.gas_price == CONTRACT_GAS_PRICE
            },
    {
        let wasm = match hex_decode(self.wasm_code.as_str()) {
            Some(w) => w,
            None => return None,
        };
        let init = decode_optional(&self.init_args);
        let from = match parse_address(self.from.as_str()) {
            Ok(a) => a,
            Err(_) => return None,
        };
        Some(Transaction::new_deploy(from, wasm, init, self.nonce, CONTRACT_GAS_LIMIT, CONTRACT_GAS_PRICE))
    }
}

impl DeployContractResponse {
    /// The reply for a deployment whose transaction digest is `digest`: the
    /// contract address is `cyt` and the first 20 digest bytes in hex.
    pub fn from_digest(digest: &[u8; 32]) -> (r: DeployContractResponse)
        ensures
            r.contract_address@ == address_prefix() + hex_spec(digest@.subrange(0, 20)),
            r.tx_hash@ == hex_spec(digest@),
    {
        let mut address = String::from_str("cyt");
        let head = hex_encode(&digest[0..20]);
        address.append(head.as_str());
        proof {
            reveal_strlit("cyt");
        }
        DeployContractResponse { contract_address: address, tx_hash: hex_encode(digest) }
    }
}

impl CallContractRequest {
    /// The call transaction the request asks for: refused when the contract
    /// or the sender is not an address; invalid arguments are taken as none.
    pub fn to_transaction(&self) -> (r: Option<Transaction>)
        ensures
            r is Some <==> (parsed_address(self.contract_address@) is Ok && parsed_address(self.from@) is Ok),
            r matches Some(tx) ==> {
                &&& tx.from@ == parsed_address(self.from@)->Ok_0
                &&& tx.payload matches TxPayload::ContractCall { contract_address, method, args }
                    && contract_address@ == parsed_address(self.contract_address@)->Ok_0
                    && method@ == self.method@
                    && args@ == optional_hex_bytes(opt_chars(self.args))
                &&& tx.nonce == self.nonce
                &&& tx.gas_limit == CONTRACT_GAS_LIMIT
                &&& tx.gas_price == CONTRACT_GAS_PRICE
            },
    {
        let contract = match parse_address(self.contract_address.as_str()) {
            Ok(a) => a,
            Err(_) => return None,
        };
        let args = decode_optional(&self.args);
        let from = match parse_address(self.from.as_str()) {
            Ok(a) => a,
            Err(_) => return None,
        };
        Some(Transaction::new_call(from, contract, self.method.clone(), args, self.nonce, CONTRACT_GAS_LIMIT, CONTRACT_GAS_PRICE))
    }
}

impl CallContractResponse {
    /// The reply to an accepted call.
    pub fn submitted() -> (r: CallContractResponse)
        ensures
            r.status@ == "success"@,
            r.result is None,
    {
        CallContractResponse { status: String::from_str("success"), result: None }
    }
}

/// Some transaction of the blocks has hash `h`.
pub open spec fn in_blocks(blocks: Seq<crate::block::Block>, h: Seq<u8>) -> bool {
    exists|i: int, j: int| 0 <= i < blocks.len() && 0 <= j < blocks[i].transactions@.len()
        && tx_hash_spec(#[trigger] blocks[i].transactions@[j]) == h
}

/// `r` answers a lookup of `hash`: the pending transaction when the pool
/// holds it; otherwise a transaction of the blocks with that hash, and
/// none only when no block holds one.
pub open spec fn lookup_answer(
    pool: Map<[u8; 32], MempoolTransaction>,
    blocks: Seq<crate::block::Block>,
    hash: BlockHash,
    r: Option<Transaction>,
) -> bool {
    &&& pool.contains_key(hash) ==> (r matches Some(t) && same_tx(t, pool[hash].transaction))
    &&& !pool.contains_key(hash) ==> (r is Some <==> in_blocks(blocks, hash@))
    &&& !pool.contains_key(hash) ==> (r matches Some(t) ==> exists|i: int, j: int|
        0 <= i < blocks.len() && 0 <= j < blocks[i].transactions@.len()
        && tx_hash_spec(#[trigger] blocks[i].transactions@[j]) == hash@
        && same_tx(t, blocks[i].transactions@[j]))
}

/// The transaction with hash `hash`: from the mempool if it is pending
/// there, else from the first stored block that holds it.
pub fn find_transaction(mempool: &TxDagMempool, dag: &BlockDAG, hash: &BlockHash) -> (r: Option<Transaction>)
    requires
        mempool.wf(),
    ensures
        lookup_answer(mempool.pool(), dag.blocks(), *hash, r),
{
    if let Some(entry) = mempool.get_transaction(hash) {
        return Some(entry.transaction);
    }
    let blocks = dag.stored_blocks();
    let mut i: usize = 0;
    while i < blocks.len()
        invariant
            blocks@ == dag.blocks(),
            !mempool.pool().contains_key(*hash),
            0 <= i <= blocks@.len(),
            forall|p: int, q: int| 0 <= p < i && 0 <= q < blocks@[p].transactions@.len()
                ==> tx_hash_spec(#[trigger] blocks@[p].transactions@[q]) != hash@,
        decreases blocks@.len() - i,
    {
        let txs = &blocks[i].transactions;
        let mut j: usize = 0;
        while j < txs.len()
            invariant
                blocks@ == dag.blocks(),
                !mempool.pool().contains_key(*hash),
                0 <= i < blocks@.len(),
                *txs == blocks@[i as int].transactions,
                0 <= j <= txs@.len(),
                forall|p: int, q: int| 0 <= p < i && 0 <= q < blocks@[p].transactions@.len()
                    ==> tx_hash_spec(#[trigger] blocks@[p].transactions@[q]) != hash@,
                forall|q: int| 0 <= q < j ==> tx_hash_spec(#[trigger] txs@[q]) != hash@,
            decreases txs@.len() - j,
        {
            let h = txs[j].hash();
            if crate::hashing::hash_eq(&h, hash) {
                let t = txs[j].copy();
                proof {
                    assert(tx_hash_spec(blocks@[i as int].transactions@[j as int]) == hash@);
                }
                return Some(t);
            }
            proof {
                if h@ == hash@ {
                    crate::hashing::lemma_hash_view_eq(h, *hash);
                }
            }
            j = j + 1;
        }
        i = i + 1;
    }
    None
}

/// The reply to a transaction lookup: the hash as asked, and the
/// transaction when one was found.
#[derive(Debug, Clone)]
pub struct TransactionResponse {
    pub hash: String,
    pub transaction: Option<Transaction>,
}

/// Answers a lookup of the transaction whose hash is written in
/// `hash_str`: `None`, a bad request, when the text is not 32 bytes in
/// hexadecimal; otherwise the text back with the pending transaction of
/// that hash, or one from a block, or none.
pub fn get_transaction(mempool: &TxDagMempool, dag: &BlockDAG, hash_str: String) -> (r: Option<TransactionResponse>)
    requires
        mempool.wf(),
    ensures
        r is None <==> !(hex_decode_spec(hash_str@) matches Some(b) && b.len() == 32),
        r matches Some(resp) ==> resp.hash@ == hash_str@ && exists|h: BlockHash|
            h@ == hex_decode_spec(hash_str@)->0 && #[trigger] lookup_answer(mempool.pool(), dag.blocks(), h, resp.transaction),
{
    let hash = match parse_hash(hash_str.as_str()) {
        Some(h) => h,
        None => return None,
    };
    let transaction = find_transaction(mempool, dag, &hash);
    Some(TransactionResponse { hash: hash_str, transaction })
}

/// The reply to a node information request.
#[derive(Debug, Clone)]
pub struct NodeInfoResponse {
    pub peer_id: String,
    pub connected_peers: Vec<String>,
    pub mempool_size: usize,
    pub dag_height: usize,
}

/// The node information: the local peer id is not known here and reads
/// "unknown"; the height is the number of stored blocks.
pub fn get_node_info(connected_peers: Vec<String>, mempool: &TxDagMempool, dag: &BlockDAG) -> (r: NodeInfoResponse)
    requires
        mempool.wf(),
    ensures
        r.peer_id@ == seq!['u', 'n', 'k', 'n', 'o', 'w', 'n'],
        r.connected_peers@ == connected_peers@,
        r.mempool_size == mempool.pool().len(),
        r.dag_height == dag.blocks().len(),
{
    proof {
        reveal_strlit("unknown");
    }
    NodeInfoResponse {
        peer_id: String::from_str("unknown"),
        connected_peers,
        mempool_size: mempool.tx_count(),
        dag_height: dag.block_count(),
    }
}

} // verus!
