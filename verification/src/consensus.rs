//! The adapter surface around the opaque consensus engine: verdict and
//! callback-code translation, the baker registry with its routing rules, the
//! engine's outbound queues, and the orderly-shutdown protocol. The engine
//! itself runs behind a foreign interface; this module decides what is sent
//! to which baker and what every answer code means, and the embedding
//! performs the foreign calls.

use vstd::prelude::*;
use crate::block::Block;
use crate::wire::copy_bytes;

verus! {

/// What the engine says about a datum it was handed.
#[derive(Clone, Copy, Debug, PartialEq, Eq, Structural)]
pub enum ConsensusFfiResponse {
    /// The datum was accepted.
    Accepted,
    /// The datum was already known.
    Duplicate,
    /// The datum awaits a prerequisite inside the engine.
    Pending,
    /// The datum is invalid.
    Invalid,
    /// The engine is shutting down.
    ShutDown,
}

impl ConsensusFfiResponse {
    /// The verdict a foreign return code denotes; the code itself when it
    /// names none, which the embedding treats as fatal.
    pub fn try_from(code: i64) -> (r: Result<ConsensusFfiResponse, i64>)
        ensures
            code == 0 ==> r == Ok::<ConsensusFfiResponse, i64>(ConsensusFfiResponse::Accepted),
            code == 1 ==> r == Ok::<ConsensusFfiResponse, i64>(ConsensusFfiResponse::Duplicate),
            code == 2 ==> r == Ok::<ConsensusFfiResponse, i64>(ConsensusFfiResponse::Pending),
            code == 3 ==> r == Ok::<ConsensusFfiResponse, i64>(ConsensusFfiResponse::Invalid),
            code == 4 ==> r == Ok::<ConsensusFfiResponse, i64>(ConsensusFfiResponse::ShutDown),
            !(0 <= code <= 4) ==> r == Err::<ConsensusFfiResponse, i64>(code),
    {
        if code == 0 {
            Ok(ConsensusFfiResponse::Accepted)
        } else if code == 1 {
            Ok(ConsensusFfiResponse::Duplicate)
        } else if code == 2 {
            Ok(ConsensusFfiResponse::Pending)
        } else if code == 3 {
            Ok(ConsensusFfiResponse::Invalid)
        } else if code == 4 {
            Ok(ConsensusFfiResponse::ShutDown)
        } else {
            Err(code)
        }
    }
}

/// Whether this node sits in the baking committee.
#[derive(Clone, Copy, Debug, PartialEq, Eq, Structural)]
pub enum ConsensusIsInCommitteeResponse {
    NotInCommittee,
    AddedButNotActiveInCommittee,
    AddedAndActiveInCommittee,
}

impl ConsensusIsInCommitteeResponse {
    /// The committee answer a foreign return code denotes.
    pub fn try_from(code: u8) -> (r: Result<ConsensusIsInCommitteeResponse, u8>)
        ensures
            code == 0 ==> r == Ok::<ConsensusIsInCommitteeResponse, u8>(
                ConsensusIsInCommitteeResponse::NotInCommittee,
            ),
            code == 1 ==> r == Ok::<ConsensusIsInCommitteeResponse, u8>(
                ConsensusIsInCommitteeResponse::AddedButNotActiveInCommittee,
            ),
            code == 2 ==> r == Ok::<ConsensusIsInCommitteeResponse, u8>(
                ConsensusIsInCommitteeResponse::AddedAndActiveInCommittee,
            ),
            code > 2 ==> r == Err::<ConsensusIsInCommitteeResponse, u8>(code),
    {
        if code == 0 {
            Ok(ConsensusIsInCommitteeResponse::NotInCommittee)
        } else if code == 1 {
            Ok(ConsensusIsInCommitteeResponse::AddedButNotActiveInCommittee)
        } else if code == 2 {
            Ok(ConsensusIsInCommitteeResponse::AddedAndActiveInCommittee)
        } else {
            Err(code)
        }
    }
}

/// The kind of packet an engine callback carries.
#[derive(Clone, Copy, Debug, PartialEq, Eq, Structural)]
pub enum CallbackType {
    Block,
    FinalizationMessage,
    FinalizationRecord,
    CatchUpStatus,
}

impl CallbackType {
    /// The callback kind a code denotes: block, finalization message,
    /// finalization record, catch-up status; anything else is unknown and
    /// is logged and dropped by the embedding.
    pub fn try_from(byte: u8) -> (r: Result<CallbackType, u8>)
        ensures
            byte == 0 ==> r == Ok::<CallbackType, u8>(CallbackType::Block),
            byte == 1 ==> r == Ok::<CallbackType, u8>(CallbackType::FinalizationMessage),
            byte == 2 ==> r == Ok::<CallbackType, u8>(CallbackType::FinalizationRecord),
            byte == 3 ==> r == Ok::<CallbackType, u8>(CallbackType::CatchUpStatus),
            byte > 3 ==> r == Err::<CallbackType, u8>(byte),
    {
        if byte == 0 {
            Ok(CallbackType::Block)
        } else if byte == 1 {
            Ok(CallbackType::FinalizationMessage)
        } else if byte == 2 {
            Ok(CallbackType::FinalizationRecord)
        } else if byte == 3 {
            Ok(CallbackType::CatchUpStatus)
        } else {
            Err(byte)
        }
    }
}

/// The subsystem an engine log line comes from.
#[derive(Clone, Copy, Debug, PartialEq, Eq, Structural)]
pub enum ConsensusLogCategory {
    Runner,
    Afgjort,
    Birk,
    Crypto,
    Kontrol,
    Skov,
    Baker,
    External,
}

impl ConsensusLogCategory {
    /// The subsystem a log identifier denotes; unknown identifiers come
    /// from outside the engine.
    pub fn from_code(id: u8) -> (r: ConsensusLogCategory)
        ensures
            id == 1 ==> r == ConsensusLogCategory::Runner,
            id == 2 ==> r == ConsensusLogCategory::Afgjort,
            id == 3 ==> r == ConsensusLogCategory::Birk,
            id == 4 ==> r == ConsensusLogCategory::Crypto,
            id == 5 ==> r == ConsensusLogCategory::Kontrol,
            id == 6 ==> r == ConsensusLogCategory::Skov,
            id == 7 ==> r == ConsensusLogCategory::Baker,
            (id == 0 || id > 7) ==> r == ConsensusLogCategory::External,
    {
        if id == 1 {
            ConsensusLogCategory::Runner
        } else if id == 2 {
            ConsensusLogCategory::Afgjort
        } else if id == 3 {
            ConsensusLogCategory::Birk
        } else if id == 4 {
            ConsensusLogCategory::Crypto
        } else if id == 5 {
            ConsensusLogCategory::Kontrol
        } else if id == 6 {
            ConsensusLogCategory::Skov
        } else if id == 7 {
            ConsensusLogCategory::Baker
        } else {
            ConsensusLogCategory::External
        }
    }
}

/// How loud an engine log line is.
#[derive(Clone, Copy, Debug, PartialEq, Eq, Structural)]
pub enum ConsensusLogLevel {
    Error,
    Warning,
    Info,
    Debug,
    Trace,
}

impl ConsensusLogLevel {
    /// The level a log code denotes: error, warning, info, debug; anything
    /// else is trace.
    pub fn from_code(level: u8) -> (r: ConsensusLogLevel)
        ensures
            level == 1 ==> r == ConsensusLogLevel::Error,
            level == 2 ==> r == ConsensusLogLevel::Warning,
            level == 3 ==> r == ConsensusLogLevel::Info,
            level == 4 ==> r == ConsensusLogLevel::Debug,
            (level == 0 || level > 4) ==> r == ConsensusLogLevel::Trace,
    {
        if level == 1 {
            ConsensusLogLevel::Error
        } else if level == 2 {
            ConsensusLogLevel::Warning
        } else if level == 3 {
            ConsensusLogLevel::Info
        } else if level == 4 {
            ConsensusLogLevel::Debug
        } else {
            ConsensusLogLevel::Trace
        }
    }
}

/// A query or delivery for the engine; the embedding performs the foreign
/// call it names against the chosen baker and interprets the answer through
/// `ConsensusFfiResponse`.
pub enum EngineQuery {
    ConsensusStatus,
    BlockInfo(Vec<u8>),
    Ancestors(Vec<u8>, u64),
    Branches,
    LastFinalAccountList,
    LastFinalInstances,
    LastFinalAccountInfo(Vec<u8>),
    LastFinalInstanceInfo(Vec<u8>),
    BlockByHash(Vec<u8>),
    BlockByDelta(Vec<u8>, u64),
    CatchUpStatus,
    ReceiveCatchUpStatus(u64, Vec<u8>, i64),
    InBakingCommittee,
    InFinalizationCommittee,
}

/// A VRF nonce: a hash with its proof.
pub struct Nonce {
    pub hash: Vec<u8>,
    pub proof: Vec<u8>,
}

impl Nonce {
    /// Wraps a hash and its proof.
    pub fn new(hash: Vec<u8>, proof: Vec<u8>) -> (r: Nonce)
        ensures
            r.hash@ == hash@,
            r.proof@ == proof@,
    {
        Nonce { hash, proof }
    }
}

/// One baker the node runs: its index and the data it was started with.
pub struct ConsensusBaker {
    pub id: u64,
    pub genesis_data: Vec<u8>,
    pub private_data: Vec<u8>,
}

impl ConsensusBaker {
    /// Registers a baker; the embedding starts its engine instance with the
    /// same data.
    pub fn new(baker_id: u64, genesis_data: Vec<u8>, private_data: Vec<u8>) -> (r: ConsensusBaker)
        ensures
            r.id == baker_id,
            r.genesis_data@ == genesis_data@,
            r.private_data@ == private_data@,
    {
        ConsensusBaker { id: baker_id, genesis_data, private_data }
    }

    /// The bytes of a block to hand to this baker's engine instance.
    pub fn send_block(&self, data: &Block) -> (r: (u64, Vec<u8>))
        ensures
            r.0 == self.id,
            r.1@ == data@.spec_serialize(),
    {
        (self.id, data.serialize())
    }

    /// The bytes of a finalization message to hand to this baker.
    pub fn send_finalization(&self, data: Vec<u8>) -> (r: (u64, Vec<u8>))
        ensures
            r.0 == self.id,
            r.1@ == data@,
    {
        (self.id, data)
    }

    /// The bytes of a finalization record to hand to this baker.
    pub fn send_finalization_record(&self, data: Vec<u8>) -> (r: (u64, Vec<u8>))
        ensures
            r.0 == self.id,
            r.1@ == data@,
    {
        (self.id, data)
    }

    /// The bytes of a transaction to hand to this baker.
    pub fn send_transaction(&self, data: Vec<u8>) -> (r: (u64, Vec<u8>))
        ensures
            r.0 == self.id,
            r.1@ == data@,
    {
        (self.id, data)
    }

    /// Asks this baker for the consensus status.
    pub fn get_consensus_status(&self) -> (r: (u64, EngineQuery))
        ensures
            r.0 == self.id,
            r.1 is ConsensusStatus,
    {
        (self.id, EngineQuery::ConsensusStatus)
    }

    /// Asks this baker for the block tree's branches.
    pub fn get_branches(&self) -> (r: (u64, EngineQuery))
        ensures
            r.0 == self.id,
            r.1 is Branches,
    {
        (self.id, EngineQuery::Branches)
    }

    /// Asks this baker for the account list at the last finalized block.
    pub fn get_last_final_account_list(&self) -> (r: (u64, EngineQuery))
        ensures
            r.0 == self.id,
            r.1 is LastFinalAccountList,
    {
        (self.id, EngineQuery::LastFinalAccountList)
    }

    /// Asks this baker for the instance list at the last finalized block.
    pub fn get_last_final_instances(&self) -> (r: (u64, EngineQuery))
        ensures
            r.0 == self.id,
            r.1 is LastFinalInstances,
    {
        (self.id, EngineQuery::LastFinalInstances)
    }

    /// Asks this baker about an account at the last finalized block.
    pub fn get_last_final_account_info(&self, account_address: &Vec<u8>) -> (r: (u64, EngineQuery))
        ensures
            r.0 == self.id,
            r.1 matches EngineQuery::LastFinalAccountInfo(a) && a@ == account_address@,
    {
        (self.id, EngineQuery::LastFinalAccountInfo(copy_bytes(account_address)))
    }

    /// Asks this baker about a contract instance at the last finalized
    /// block.
    pub fn get_last_final_instance_info(&self, contract_address: &Vec<u8>) -> (r: (
        u64,
        EngineQuery,
    ))
        ensures
            r.0 == self.id,
            r.1 matches EngineQuery::LastFinalInstanceInfo(a) && a@ == contract_address@,
    {
        (self.id, EngineQuery::LastFinalInstanceInfo(copy_bytes(contract_address)))
    }
}

/// Why a queue operation yielded nothing.
#[derive(Clone, Copy, Debug, PartialEq, Eq, Structural)]
pub enum QueueError {
    /// The queue holds no message.
    Empty,
    /// The queue is at its depth; the caller chooses drop or backpressure.
    Overflow,
}

/// The queues the engine's callbacks feed: baked blocks, finalization
/// messages and finalization records on their way out to the network. The
/// embedding wraps them in its synchronization and wakes consumers on every
/// push; these operations are the exact bookkeeping.
pub struct ConsensusOutQueue {
    pub blocks: Vec<Block>,
    pub finalizations: Vec<Vec<u8>>,
    pub finalization_records: Vec<Vec<u8>>,
}

impl ConsensusOutQueue {
    /// Fresh, empty queues.
    pub fn new() -> (r: ConsensusOutQueue)
        ensures
            r.blocks@.len() == 0,
            r.finalizations@.len() == 0,
            r.finalization_records@.len() == 0,
    {
        ConsensusOutQueue { blocks: Vec::new(), finalizations: Vec::new(), finalization_records: Vec::new() }
    }

    /// Queues a baked block.
    pub fn send_block(&mut self, data: Block) -> (r: Result<(), QueueError>)
        ensures
            r is Ok,
            final(self).blocks@ == old(self).blocks@.push(data),
            final(self).finalizations@ == old(self).finalizations@,
            final(self).finalization_records@ == old(self).finalization_records@,
    {
        self.blocks.push(data);
        Ok(())
    }

    /// Takes the oldest queued block, if any.
    pub fn try_recv_block(&mut self) -> (r: Result<Block, QueueError>)
        ensures
            final(self).finalizations@ == old(self).finalizations@,
            final(self).finalization_records@ == old(self).finalization_records@,
            old(self).blocks@.len() == 0 ==> r == Err::<Block, QueueError>(QueueError::Empty)
                && final(self).blocks@ == old(self).blocks@,
            old(self).blocks@.len() > 0 ==> (r matches Ok(b) && b == old(self).blocks@[0] && final(self).blocks@ == old(self).blocks@.skip(1)),
    {
        if self.blocks.len() == 0 {
            Err(QueueError::Empty)
        } else {
            let b = self.blocks.remove(0);
            proof {
                assert(self.blocks@ =~= old(self).blocks@.skip(1));
            }
            Ok(b)
        }
    }

    /// Takes the oldest queued block; the embedding blocks until one is
    /// there, this core reports `Empty` instead.
    pub fn recv_block(&mut self) -> (r: Result<Block, QueueError>)
        ensures
            final(self).finalizations@ == old(self).finalizations@,
            final(self).finalization_records@ == old(self).finalization_records@,
            old(self).blocks@.len() == 0 ==> r == Err::<Block, QueueError>(QueueError::Empty)
                && final(self).blocks@ == old(self).blocks@,
            old(self).blocks@.len() > 0 ==> (r matches Ok(b) && b == old(self).blocks@[0] && final(self).blocks@ == old(self).blocks@.skip(1)),
    {
        self.try_recv_block()
    }

    /// Like `recv_block`, under the embedding's deadline.
    pub fn recv_timeout_block(&mut self, timeout_millis: u64) -> (r: Result<Block, QueueError>)
        ensures
            final(self).finalizations@ == old(self).finalizations@,
            final(self).finalization_records@ == old(self).finalization_records@,
            old(self).blocks@.len() == 0 ==> r == Err::<Block, QueueError>(QueueError::Empty)
                && final(self).blocks@ == old(self).blocks@,
            old(self).blocks@.len() > 0 ==> (r matches Ok(b) && b == old(self).blocks@[0] && final(self).blocks@ == old(self).blocks@.skip(1)),
    {
        let _deadline = timeout_millis;
        self.try_recv_block()
    }

    /// Queues an outbound finalization message.
    pub fn send_finalization(&mut self, data: Vec<u8>) -> (r: Result<(), QueueError>)
        ensures
            r is Ok,
            final(self).finalizations@ == old(self).finalizations@.push(data),
            final(self).blocks@ == old(self).blocks@,
            final(self).finalization_records@ == old(self).finalization_records@,
    {
        self.finalizations.push(data);
        Ok(())
    }

    /// Takes the oldest queued finalization message, if any.
    pub fn try_recv_finalization(&mut self) -> (r: Result<Vec<u8>, QueueError>)
        ensures
            final(self).blocks@ == old(self).blocks@,
            final(self).finalization_records@ == old(self).finalization_records@,
            old(self).finalizations@.len() == 0 ==> r == Err::<Vec<u8>, QueueError>(
                QueueError::Empty,
            ) && final(self).finalizations@ == old(self).finalizations@,
            old(self).finalizations@.len() > 0 ==> (r matches Ok(b) && b == old(self).finalizations@[0] && final(self).finalizations@ == old(self).finalizations@.skip(1)),
    {
        if self.finalizations.len() == 0 {
            Err(QueueError::Empty)
        } else {
            let b = self.finalizations.remove(0);
            proof {
                assert(self.finalizations@ =~= old(self).finalizations@.skip(1));
            }
            Ok(b)
        }
    }

    /// Takes the oldest queued finalization message; the embedding blocks
    /// until one is there, this core reports `Empty` instead.
    pub fn recv_finalization(&mut self) -> (r: Result<Vec<u8>, QueueError>)
        ensures
            final(self).blocks@ == old(self).blocks@,
            final(self).finalization_records@ == old(self).finalization_records@,
            old(self).finalizations@.len() == 0 ==> r == Err::<Vec<u8>, QueueError>(
                QueueError::Empty,
            ) && final(self).finalizations@ == old(self).finalizations@,
            old(self).finalizations@.len() > 0 ==> (r matches Ok(b) && b == old(self).finalizations@[0] && final(self).finalizations@ == old(self).finalizations@.skip(1)),
    {
        self.try_recv_finalization()
    }

    /// Like `recv_finalization`, under the embedding's deadline.
    pub fn recv_timeout_finalization(&mut self, timeout_millis: u64) -> (r: Result<
        Vec<u8>,
        QueueError,
    >)
        ensures
            final(self).blocks@ == old(self).blocks@,
            final(self).finalization_records@ == old(self).finalization_records@,
            old(self).finalizations@.len() == 0 ==> r == Err::<Vec<u8>, QueueError>(
                QueueError::Empty,
            ) && final(self).finalizations@ == old(self).finalizations@,
            old(self).finalizations@.len() > 0 ==> (r matches Ok(b) && b == old(self).finalizations@[0] && final(self).finalizations@ == old(self).finalizations@.skip(1)),
    {
        let _deadline = timeout_millis;
        self.try_recv_finalization()
    }

    /// Queues an outbound finalization record.
    pub fn send_finalization_record(&mut self, data: Vec<u8>) -> (r: Result<(), QueueError>)
        ensures
            r is Ok,
            final(self).finalization_records@ == old(self).finalization_records@.push(data),
            final(self).blocks@ == old(self).blocks@,
            final(self).finalizations@ == old(self).finalizations@,
    {
        self.finalization_records.push(data);
        Ok(())
    }

    /// Takes the oldest queued finalization record, if any.
    pub fn try_recv_finalization_record(&mut self) -> (r: Result<Vec<u8>, QueueError>)
        ensures
            final(self).blocks@ == old(self).blocks@,
            final(self).finalizations@ == old(self).finalizations@,
            old(self).finalization_records@.len() == 0 ==> r == Err::<Vec<u8>, QueueError>(
                QueueError::Empty,
            ) && final(self).finalization_records@ == old(self).finalization_records@,
            old(self).finalization_records@.len() > 0 ==> (r matches Ok(b) && b == old(self).finalization_records@[0] && final(self).finalization_records@ == old(self).finalization_records@.skip(1)),
    {
        if self.finalization_records.len() == 0 {
            Err(QueueError::Empty)
        } else {
            let b = self.finalization_records.remove(0);
            proof {
                assert(self.finalization_records@ =~= old(self).finalization_records@.skip(1));
            }
            Ok(b)
        }
    }

    /// Takes the oldest queued finalization record; the embedding blocks
    /// until one is there, this core reports `Empty` instead.
    pub fn recv_finalization_record(&mut self) -> (r: Result<Vec<u8>, QueueError>)
        ensures
            final(self).blocks@ == old(self).blocks@,
            final(self).finalizations@ == old(self).finalizations@,
            old(self).finalization_records@.len() == 0 ==> r == Err::<Vec<u8>, QueueError>(
                QueueError::Empty,
            ) && final(self).finalization_records@ == old(self).finalization_records@,
            old(self).finalization_records@.len() > 0 ==> (r matches Ok(b) && b == old(self).finalization_records@[0] && final(self).finalization_records@ == old(self).finalization_records@.skip(1)),
    {
        self.try_recv_finalization_record()
    }

    /// Like `recv_finalization_record`, under the embedding's deadline.
    pub fn recv_timeout_finalization_record(&mut self, timeout_millis: u64) -> (r: Result<
        Vec<u8>,
        QueueError,
    >)
        ensures
            final(self).blocks@ == old(self).blocks@,
            final(self).finalizations@ == old(self).finalizations@,
            old(self).finalization_records@.len() == 0 ==> r == Err::<Vec<u8>, QueueError>(
                QueueError::Empty,
            ) && final(self).finalization_records@ == old(self).finalization_records@,
            old(self).finalization_records@.len() > 0 ==> (r matches Ok(b) && b == old(self).finalization_records@[0] && final(self).finalization_records@ == old(self).finalization_records@.skip(1)),
    {
        let _deadline = timeout_millis;
        self.try_recv_finalization_record()
    }

    /// Drops everything still queued; how many messages of each kind were
    /// dropped.
    pub fn clear(&mut self) -> (dropped: (usize, usize, usize))
        ensures
            final(self).blocks@.len() == 0,
            final(self).finalizations@.len() == 0,
            final(self).finalization_records@.len() == 0,
            dropped.0 == old(self).blocks@.len(),
            dropped.1 == old(self).finalizations@.len(),
            dropped.2 == old(self).finalization_records@.len(),
    {
        let dropped = (self.blocks.len(), self.finalizations.len(), self.finalization_records.len());
        self.blocks = Vec::new();
        self.finalizations = Vec::new();
        self.finalization_records = Vec::new();
        dropped
    }
}

/// The registry of running bakers and the outbound queues they feed.
pub struct ConsensusContainer {
    pub genesis_data: Vec<u8>,
    pub bakers: Vec<ConsensusBaker>,
    pub out_queue: ConsensusOutQueue,
}

impl ConsensusContainer {
    /// A container around the given genesis data, with no bakers yet.
    pub fn new(genesis_data: Vec<u8>) -> (r: ConsensusContainer)
        ensures
            r.genesis_data@ == genesis_data@,
            r.bakers@.len() == 0,
            r.out_queue.blocks@.len() == 0,
            r.out_queue.finalizations@.len() == 0,
            r.out_queue.finalization_records@.len() == 0,
    {
        ConsensusContainer { genesis_data, bakers: Vec::new(), out_queue: ConsensusOutQueue::new() }
    }

    /// The position of a baker in the registry.
    fn baker_position(&self, baker_id: u64) -> (r: Option<usize>)
        ensures
            match r {
                Some(p) => p < self.bakers@.len() && self.bakers@[p as int].id == baker_id,
                None => forall|i: int|
                    0 <= i < self.bakers@.len() ==> (#[trigger] self.bakers@[i]).id != baker_id,
            },
    {
        let mut i: usize = 0;
        let n = self.bakers.len();
        while i < n
            invariant
                i <= n,
                n == self.bakers@.len(),
                forall|j: int| 0 <= j < i ==> (#[trigger] self.bakers@[j]).id != baker_id,
            decreases n - i,
        {
            if self.bakers[i].id == baker_id {
                return Some(i);
            }
            i = i + 1;
        }
        None
    }

    /// Registers a baker under its id, replacing a baker already registered
    /// under the same id; the embedding starts the engine instance.
    pub fn start_baker(&mut self, baker_id: u64, private_data: Vec<u8>)
        ensures
            final(self).genesis_data@ == old(self).genesis_data@,
            final(self).out_queue == old(self).out_queue,
            exists|i: int|
                0 <= i < final(self).bakers@.len() && (#[trigger] final(self).bakers@[i]).id
                    == baker_id,
    {
        let gd = copy_bytes(&self.genesis_data);
        let baker = ConsensusBaker::new(baker_id, gd, private_data);
        match self.baker_position(baker_id) {
            Some(pos) => {
                self.bakers[pos] = baker;
                proof {
                    assert((self.bakers@[pos as int]).id == baker_id);
                }
            },
            None => {
                self.bakers.push(baker);
                proof {
                    assert((self.bakers@[old(self).bakers@.len() as int]).id == baker_id);
                }
            },
        }
    }

    /// Unregisters a baker; once no baker is left, the outbound queues are
    /// drained. Returns whether the baker was found; the embedding stops
    /// the engine instance.
    pub fn stop_baker(&mut self, baker_id: u64) -> (r: bool)
        ensures
            final(self).genesis_data@ == old(self).genesis_data@,
            r == exists|i: int|
                0 <= i < old(self).bakers@.len() && (#[trigger] old(self).bakers@[i]).id
                    == baker_id,
            r ==> final(self).bakers@.len() == old(self).bakers@.len() - 1,
            !r ==> final(self).bakers@ == old(self).bakers@ && final(self).out_queue == old(self).out_queue,
            r && final(self).bakers@.len() == 0 ==> final(self).out_queue.blocks@.len() == 0 && final(self).out_queue.finalizations@.len() == 0 && final(self).out_queue.finalization_records@.len() == 0,
    {
        match self.baker_position(baker_id) {
            Some(pos) => {
                self.bakers.remove(pos);
                if self.bakers.len() == 0 {
                    self.out_queue.clear();
                }
                proof {
                    assert((old(self).bakers@[pos as int]).id == baker_id);
                }
                true
            },
            None => false,
        }
    }

    /// The outbound queues, for the embedding to drain.
    pub fn out_queue(&mut self) -> (r: &mut ConsensusOutQueue)
        ensures
            *r == old(self).out_queue,
            final(self).out_queue == *final(r),
            final(self).genesis_data@ == old(self).genesis_data@,
            final(self).bakers@ == old(self).bakers@,
    {
        &mut self.out_queue
    }

    /// Routes a block to the first baker that did not bake it; `None` when
    /// no such baker runs here.
    pub fn send_block(&self, block: &Block) -> (r: Option<(u64, Vec<u8>)>)
        ensures
            match r {
                Some(p) => exists|i: int|
                    0 <= i < self.bakers@.len() && (#[trigger] self.bakers@[i]).id
                        != block@.baker_id && p.0 == self.bakers@[i].id,
                None => forall|i: int|
                    0 <= i < self.bakers@.len() ==> (#[trigger] self.bakers@[i]).id
                        == block@.baker_id,
            },
            r matches Some(p) ==> p.1@ == block@.spec_serialize(),
    {
        let mut i: usize = 0;
        let n = self.bakers.len();
        while i < n
            invariant
                i <= n,
                n == self.bakers@.len(),
                forall|j: int| 0 <= j < i ==> (#[trigger] self.bakers@[j]).id == block@.baker_id,
            decreases n - i,
        {
            if self.bakers[i].id != block.baker_id {
                return Some(self.bakers[i].send_block(block));
            }
            i = i + 1;
        }
        None
    }

    /// Hands a finalization message to the first running baker.
    pub fn send_finalization(&self, pkt: &Vec<u8>) -> (r: Option<(u64, Vec<u8>)>)
        ensures
            self.bakers@.len() == 0 <==> r is None,
            r matches Some(p) ==> p.0 == self.bakers@[0].id && p.1@ == pkt@,
    {
        if self.bakers.len() == 0 {
            None
        } else {
            Some(self.bakers[0].send_finalization(copy_bytes(pkt)))
        }
    }

    /// Hands a finalization record to the first running baker.
    pub fn send_finalization_record(&self, pkt: &Vec<u8>) -> (r: Option<(u64, Vec<u8>)>)
        ensures
            self.bakers@.len() == 0 <==> r is None,
            r matches Some(p) ==> p.0 == self.bakers@[0].id && p.1@ == pkt@,
    {
        if self.bakers.len() == 0 {
            None
        } else {
            Some(self.bakers[0].send_finalization_record(copy_bytes(pkt)))
        }
    }

    /// Hands a transaction to the first running baker.
    pub fn send_transaction(&self, tx: &Vec<u8>) -> (r: Option<(u64, Vec<u8>)>)
        ensures
            self.bakers@.len() == 0 <==> r is None,
            r matches Some(p) ==> p.0 == self.bakers@[0].id && p.1@ == tx@,
    {
        if self.bakers.len() == 0 {
            None
        } else {
            Some(self.bakers[0].send_transaction(copy_bytes(tx)))
        }
    }

    /// Queries the first running baker.
    fn first_baker_query(&self, q: EngineQuery) -> (r: Option<(u64, EngineQuery)>)
        ensures
            self.bakers@.len() == 0 <==> r is None,
            r matches Some(p) ==> p.0 == self.bakers@[0].id && p.1 == q,
    {
        if self.bakers.len() == 0 {
            None
        } else {
            Some((self.bakers[0].id, q))
        }
    }

    /// Asks the first running baker for the consensus status.
    pub fn get_consensus_status(&self) -> (r: Option<(u64, EngineQuery)>)
        ensures
            self.bakers@.len() == 0 <==> r is None,
            r matches Some(p) ==> p.0 == self.bakers@[0].id && p.1 is ConsensusStatus,
    {
        self.first_baker_query(EngineQuery::ConsensusStatus)
    }

    /// Asks the first running baker about one block.
    pub fn get_block_info(&self, block_hash: &Vec<u8>) -> (r: Option<(u64, EngineQuery)>)
        ensures
            self.bakers@.len() == 0 <==> r is None,
            r matches Some(p) ==> {
                                &&& p.0 == self.bakers@[0].id 
                &&& p.1 matches EngineQuery::BlockInfo( h, ) 
                &&& h@ == block_hash@
            },
    {
        self.first_baker_query(EngineQuery::BlockInfo(copy_bytes(block_hash)))
    }

    /// Asks the first running baker for a block's ancestors.
    pub fn get_ancestors(&self, block_hash: &Vec<u8>, amount: u64) -> (r: Option<(
        u64,
        EngineQuery,
    )>)
        ensures
            self.bakers@.len() == 0 <==> r is None,
            r matches Some(p) ==> {
                                &&& p.0 == self.bakers@[0].id 
                &&& p.1 matches EngineQuery::Ancestors( h, a, ) 
                &&& h@ == block_hash@ 
                &&& a == amount
            },
    {
        self.first_baker_query(EngineQuery::Ancestors(copy_bytes(block_hash), amount))
    }

    /// Asks the first running baker for the block tree's branches.
    pub fn get_branches(&self) -> (r: Option<(u64, EngineQuery)>)
        ensures
            self.bakers@.len() == 0 <==> r is None,
            r matches Some(p) ==> p.0 == self.bakers@[0].id && p.1 is Branches,
    {
        self.first_baker_query(EngineQuery::Branches)
    }

    /// Asks the first running baker for the account list at the last
    /// finalized block.
    pub fn get_last_final_account_list(&self) -> (r: Option<(u64, EngineQuery)>)
        ensures
            self.bakers@.len() == 0 <==> r is None,
            r matches Some(p) ==> p.0 == self.bakers@[0].id && p.1 is LastFinalAccountList,
    {
        self.first_baker_query(EngineQuery::LastFinalAccountList)
    }

    /// Asks the first running baker for the instance list at the last
    /// finalized block.
    pub fn get_last_final_instances(&self) -> (r: Option<(u64, EngineQuery)>)
        ensures
            self.bakers@.len() == 0 <==> r is None,
            r matches Some(p) ==> p.0 == self.bakers@[0].id && p.1 is LastFinalInstances,
    {
        self.first_baker_query(EngineQuery::LastFinalInstances)
    }

    /// Asks the first running baker about an account at the last finalized
    /// block.
    pub fn get_last_final_account_info(&self, block_hash: &Vec<u8>) -> (r: Option<(
        u64,
        EngineQuery,
    )>)
        ensures
            self.bakers@.len() == 0 <==> r is None,
            r matches Some(p) ==> {
                                &&& p.0 == self.bakers@[0].id 
                &&& p.1 matches EngineQuery::LastFinalAccountInfo(h) 
                &&& h@ == block_hash@
            },
    {
        self.first_baker_query(EngineQuery::LastFinalAccountInfo(copy_bytes(block_hash)))
    }

    /// Asks the first running baker about a contract instance at the last
    /// finalized block.
    pub fn get_last_final_instance_info(&self, block_hash: &Vec<u8>) -> (r: Option<(
        u64,
        EngineQuery,
    )>)
        ensures
            self.bakers@.len() == 0 <==> r is None,
            r matches Some(p) ==> {
                                &&& p.0 == self.bakers@[0].id 
                &&& p.1 matches EngineQuery::LastFinalInstanceInfo(h) 
                &&& h@ == block_hash@
            },
    {
        self.first_baker_query(EngineQuery::LastFinalInstanceInfo(copy_bytes(block_hash)))
    }

    /// Asks the first running baker for one block by hash.
    pub fn get_block(&self, block_hash: &Vec<u8>) -> (r: Option<(u64, EngineQuery)>)
        ensures
            self.bakers@.len() == 0 <==> r is None,
            r matches Some(p) ==> {
                                &&& p.0 == self.bakers@[0].id 
                &&& p.1 matches EngineQuery::BlockByHash(h) 
                &&& h@ == block_hash@
            },
    {
        self.first_baker_query(EngineQuery::BlockByHash(copy_bytes(block_hash)))
    }

    /// Asks the first running baker for the block a number of generations
    /// above a given one.
    pub fn get_block_by_delta(&self, block_hash: &Vec<u8>, delta: u64) -> (r: Option<(
        u64,
        EngineQuery,
    )>)
        ensures
            self.bakers@.len() == 0 <==> r is None,
            r matches Some(p) ==> {
                                &&& p.0 == self.bakers@[0].id 
                &&& p.1 matches EngineQuery::BlockByDelta(h, d) 
                &&& h@ == block_hash@ 
                &&& d == delta
            },
    {
        self.first_baker_query(EngineQuery::BlockByDelta(copy_bytes(block_hash), delta))
    }

    /// Asks the first running baker for this node's catch-up status packet.
    pub fn get_catch_up_status(&self) -> (r: Option<(u64, EngineQuery)>)
        ensures
            self.bakers@.len() == 0 <==> r is None,
            r matches Some(p) ==> p.0 == self.bakers@[0].id && p.1 is CatchUpStatus,
    {
        self.first_baker_query(EngineQuery::CatchUpStatus)
    }

    /// Hands a peer's catch-up status packet to the first running baker,
    /// with the per-round object limit.
    pub fn receive_catch_up_status(&self, request: &Vec<u8>, peer_id: u64, object_limit: i64) -> (r:
        Option<(u64, EngineQuery)>)
        ensures
            self.bakers@.len() == 0 <==> r is None,
            r matches Some(p) ==> {
                                &&& p.0 == self.bakers@[0].id 
                &&& p.1 matches EngineQuery::ReceiveCatchUpStatus(peer, b, lim) 
                &&& peer == peer_id 
                &&& b@ == request@ 
                &&& lim == object_limit
            },
    {
        self.first_baker_query(
            EngineQuery::ReceiveCatchUpStatus(peer_id, copy_bytes(request), object_limit),
        )
    }

    /// Asks the first running baker whether this node bakes.
    pub fn in_baking_committee(&self) -> (r: Option<(u64, EngineQuery)>)
        ensures
            self.bakers@.len() == 0 <==> r is None,
            r matches Some(p) ==> p.0 == self.bakers@[0].id && p.1 is InBakingCommittee,
    {
        self.first_baker_query(EngineQuery::InBakingCommittee)
    }

    /// Asks the first running baker whether this node finalizes.
    pub fn in_finalization_committee(&self) -> (r: Option<(u64, EngineQuery)>)
        ensures
            self.bakers@.len() == 0 <==> r is None,
            r matches Some(p) ==> p.0 == self.bakers@[0].id && p.1 is InFinalizationCommittee,
    {
        self.first_baker_query(EngineQuery::InFinalizationCommittee)
    }
}

/// The orderly-shutdown protocol: the dispatcher queues stop first, then the
/// engine, and only then may the foreign runtime be torn down. Tearing the
/// runtime down earlier is an ordering violation this state machine forbids.
pub struct ShutdownSequence {
    pub queues_stopped: bool,
    pub engine_stopped: bool,
    pub runtime_stopped: bool,
}

impl ShutdownSequence {
    /// A running node: nothing stopped yet.
    pub fn new() -> (r: ShutdownSequence)
        ensures
            !r.queues_stopped,
            !r.engine_stopped,
            !r.runtime_stopped,
    {
        ShutdownSequence { queues_stopped: false, engine_stopped: false, runtime_stopped: false }
    }

    /// Both dispatcher queues have observed `Stop` and quiesced.
    pub fn note_queues_stopped(&mut self)
        ensures
            final(self).queues_stopped,
            final(self).engine_stopped == old(self).engine_stopped,
            final(self).runtime_stopped == old(self).runtime_stopped,
    {
        self.queues_stopped = true;
    }

    /// The engine may stop only after the queues have quiesced.
    pub fn note_engine_stopped(&mut self)
        requires
            old(self).queues_stopped,
            !old(self).engine_stopped,
        ensures
            final(self).queues_stopped,
            final(self).engine_stopped,
            final(self).runtime_stopped == old(self).runtime_stopped,
    {
        self.engine_stopped = true;
    }
}

/// Marks the foreign runtime as torn down: allowed only once, and only after
/// the engine has stopped; the embedding performs the actual teardown at
/// exactly this point.
pub fn stop_haskell(sequence: &mut ShutdownSequence)
    requires
        old(sequence).engine_stopped,
        !old(sequence).runtime_stopped,
    ensures
        final(sequence).queues_stopped == old(sequence).queues_stopped,
        final(sequence).engine_stopped,
        final(sequence).runtime_stopped,
{
    sequence.runtime_stopped = true;
}

} // verus!
