use vstd::prelude::*;

use crate::fs::FsPath;
use crate::state::{BlockContext, TableContext};

verus! {

/// The host: the root of the running store, holding the contexts that
/// serve each kind of state.
pub struct Host {
    table_context: TableContext,
    block_context: BlockContext,
}

impl Host {
    /// The context that serves raw block state, as contracts see it.
    pub closed spec fn spec_block_context(&self) -> BlockContext {
        self.block_context
    }

    /// A host over the given workspace directory.
    pub fn new(workspace: FsPath) -> (r: Host)
        ensures
            r.spec_block_context().spec_drive() == workspace@,
    {
        let block_context = BlockContext::new(workspace);
        let table_context = TableContext::new();
        Host { table_context, block_context }
    }

    pub fn block_context(&self) -> (r: &BlockContext)
        ensures
            *r == self.spec_block_context(),
    {
        &self.block_context
    }

    pub fn table_context(&self) -> (r: &TableContext)
    {
        &self.table_context
    }

    /// Relies on `std::time::SystemTime`: the nanoseconds since the Unix
    /// epoch at the moment of the call. The clock is outside the model, so
    /// nothing is promised of the value.
    #[verifier::external_body]
    pub fn time(&self) -> u128 {
        std::time::SystemTime::now()
            .duration_since(std::time::UNIX_EPOCH)
            .map(|d| d.as_nanos())
            .unwrap_or(0)
    }
}

} // verus!
