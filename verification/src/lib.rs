//! A RESP cache-store: a wire-protocol front end over a hybrid-log key-value
//! engine, with machine-checked contracts.
use crate::log::{Fraction, LogSettings};
use crate::store::StoreSettings;
use vstd::prelude::*;

pub mod aof;
pub mod arguments;
pub mod bytes;
pub mod callbacks;
pub mod chain;
pub mod checkpoint;
pub mod commands;
pub mod device;
pub mod epoch;
pub mod functions;
pub mod glob;
pub mod hash;
pub mod image;
pub mod index;
pub mod keyspace;
pub mod laws;
pub mod le;
pub mod log;
pub mod math;
pub mod meaning;
pub mod record;
pub mod recovery;
pub mod replay;
pub mod resp;
pub mod scan;
pub mod server;
pub mod shared;
pub mod steps;
pub mod store;
pub mod transactions;
pub mod watching;
pub mod wire;

verus! {

/// Small store settings, for tests and for a small in-memory server.
pub fn store_settings_small() -> (r: StoreSettings)
    ensures
        r.ok(),
        r.index_buckets == 0x1000,
        r.log.page_bits == 16,
        r.log.memory_pages == 8,
        r.log.mutable_fraction.num == 9,
        r.log.mutable_fraction.den == 10,
{
    StoreSettings {
        index_buckets: 0x1000,
        log: LogSettings {
            page_bits: 16,
            memory_pages: 8,
            mutable_fraction: Fraction { num: 9, den: 10 },
        },
    }
}

} // verus!
