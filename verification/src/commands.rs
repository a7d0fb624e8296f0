//! The decisions behind the commands that the user interface calls. The
//! commands themselves read the stores and talk to the chain; what they
//! find goes in here as plain values.

use vstd::prelude::*;
use crate::network::{Network, DEV_CHAIN_ID};

verus! {

/// A chain, told apart from other chains with the same chain id.
#[derive(Debug, Clone, Copy, PartialEq, Eq, Structural)]
pub struct DedupChainId {
    pub chain_id: u32,
    pub dedup_id: u32,
}

/// Why a command was refused.
#[derive(Debug, Clone, Copy, PartialEq, Eq, Structural)]
pub enum CommandError {
    /// No network with this chain id is known, so nothing can stick to it.
    InvalidChainId(u32),
    /// No network with this chain id is known.
    InvalidNetwork(u32),
}

/// Where the native balance of an address comes from.
#[derive(Debug, Clone, Copy, PartialEq, Eq, Structural)]
pub enum BalanceSource {
    /// Ask the development node itself.
    DevNode,
    /// Take what the store has synced.
    Store,
}

/// The chain that is announced when the affinity of a domain is set. A
/// sticky affinity names its chain, which has to be known (`sticky_known`
/// says whether it is). Every other affinity follows the current network.
pub fn affinity_chain(sticky: Option<DedupChainId>, sticky_known: bool, current: DedupChainId) -> (r: Result<
    DedupChainId,
    CommandError,
>)
    ensures
        r == match sticky {
            Some(id) => if sticky_known {
                Ok::<DedupChainId, CommandError>(id)
            } else {
                Err(CommandError::InvalidChainId(id.chain_id))
            },
            None => Ok(current),
        },
{
    match sticky {
        Some(id) => {
            if sticky_known {
                Ok(id)
            } else {
                Err(CommandError::InvalidChainId(id.chain_id))
            }
        },
        None => Ok(current),
    }
}

/// Where to take the native balance on `chain_id` from. `network` is the
/// network with that chain id, if one is known, and `answers_as_dev_node`
/// says whether the node at its address answers as a development node.
pub fn balance_source(chain_id: u32, network: Option<&Network>, answers_as_dev_node: bool) -> (r: Result<
    BalanceSource,
    CommandError,
>)
    ensures
        r == match network {
            Some(n) => Ok::<BalanceSource, CommandError>(
                if n.chain_id == DEV_CHAIN_ID || answers_as_dev_node {
                    BalanceSource::DevNode
                } else {
                    BalanceSource::Store
                },
            ),
            None => Err(CommandError::InvalidNetwork(chain_id)),
        },
{
    match network {
        Some(n) => {
            if n.is_dev(answers_as_dev_node) {
                Ok(BalanceSource::DevNode)
            } else {
                Ok(BalanceSource::Store)
            }
        },
        None => Err(CommandError::InvalidNetwork(chain_id)),
    }
}

} // verus!
