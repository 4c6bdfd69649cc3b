use vstd::prelude::*;

verus! {

/// Position of a block in the chain.
#[derive(Clone, Debug)]
pub struct Clock {
    pub id: String,
    pub number: u64,
}

/// One block of the stream, with the table changes it carries.
#[derive(Clone, Debug)]
pub struct BlockScopedData {
    pub clock: Clock,
    /// The highest block the source considers irreversible.
    pub final_block_height: u64,
    /// Resume token for this block.
    pub cursor: String,
    /// Encoded table changes of the block.
    pub payload: Vec<u8>,
    /// Type name of the payload, for information only.
    pub type_url: String,
}

impl Clock {
    pub fn new(id: String, number: u64) -> (r: Clock)
        ensures
            r.id@ == id@,
            r.number == number,
    {
        Clock { id, number }
    }
}

impl BlockScopedData {
    pub fn new(clock: Clock, final_block_height: u64, cursor: String, payload: Vec<u8>) -> (r:
        BlockScopedData)
        ensures
            r.clock == clock,
            r.final_block_height == final_block_height,
            r.cursor == cursor,
            r.payload == payload,
            r.type_url@.len() == 0,
    {
        BlockScopedData { clock, final_block_height, cursor, payload, type_url: String::new() }
    }

    /// Whether the block is final by its own finality height.
    pub open spec fn is_final(&self) -> bool {
        self.clock.number <= self.final_block_height
    }
}

} // verus!
