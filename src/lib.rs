//! A typed heterogeneous attribute store: named, typed attribute keys, containers
//! that hold one value per attribute name, a pool of containers reached through
//! handles, attribute indexes kept in step with every write, transactions that
//! batch writes in order, and a tagged serialized form for containers and pools.

pub mod attribute;
pub mod container;
pub mod error;
pub mod handle;
pub mod index;
pub mod named;
pub mod pool;
pub mod serial;
pub mod transaction;
pub mod value;

pub use attribute::Attribute;
pub use container::AttributeContainer;
pub use error::RuleError;
pub use handle::Handle;
pub use index::Index;
pub use pool::{GatheredResult, Pool};
pub use serial::{ContainerRecord, Payload, PoolRecord, TaggedValue};
pub use transaction::{AddContainerModification, AttributeModification, Modification, Transaction, TransactionError};
pub use value::{AttributeValue, Value};
