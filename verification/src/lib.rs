//! A transactional storage substrate: a bounded block cache, per-value
//! transactional locks, transactional files with per-transaction version
//! directories, a typed collator with ordered indices over it, and the
//! dense/sparse tensor block layer whose coordinate maps tie logical
//! indices to block offsets. Every operation carries its contract, and the
//! laws the store relies on — cache accounting, snapshot isolation, commit
//! atomicity, finalize cleanup, and the coordinate bijections — are proved
//! alongside the code. The ordered index and the tensors verify the
//! collection logic itself on in-memory state; persistence runs through
//! the transactional file alone, whose commit and finalize carry the
//! on-disk contract for every block a collection stores through it.

mod btree;
mod cache;
mod collator;
mod error;
mod fs;
mod host;
mod number;
mod state;
mod tensor;
mod transaction;
mod transform;
mod txn_dir;
mod txn_file;
mod txn_lock;
mod value;

pub use btree::{BTreeFile, BTreeRange, BTreeSlice, Selector};
pub use cache::{Block, Cache, CacheEntry};
pub use collator::Collator;
pub use error::{io_error_class, ErrorKind, IoKind, TCError};
pub use fs::{fs_path, Disk, FsPath, PathSegment};
pub use host::Host;
pub use state::{BlockContext, State, Table, TableContext, TableRequest};
pub use number::{Int, IntType, Number, NumberType, Numeric, UInt, UIntType};
pub use tensor::{DenseTensor, SparseTensor, PER_BLOCK};
pub use transaction::{Transaction, TransactionId};
pub use txn_dir::TxnDir;
pub use txn_file::{BlockId, TxnFile};
pub use txn_lock::TxnLock;
pub use value::{label, Label, TCType, Value, ValueId};
pub use transform::{AxisBounds, Bounds, Broadcast, Coord, Expand, Reduce, Shape, Slice, Transpose};
