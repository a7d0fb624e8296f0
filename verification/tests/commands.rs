use abi_watch::commands::{affinity_chain, balance_source, BalanceSource, CommandError, DedupChainId};
use abi_watch::network::Network;

fn chain(chain_id: u32, dedup_id: u32) -> DedupChainId {
    DedupChainId { chain_id, dedup_id }
}

#[test]
fn sticky_affinity_names_its_chain() {
    assert_eq!(affinity_chain(Some(chain(10, 2)), true, chain(1, 0)), Ok(chain(10, 2)));
    assert_eq!(affinity_chain(Some(chain(1, 0)), true, chain(1, 0)), Ok(chain(1, 0)));
}

#[test]
fn sticky_affinity_to_an_unknown_chain_is_refused() {
    assert_eq!(affinity_chain(Some(chain(10, 2)), false, chain(1, 0)), Err(CommandError::InvalidChainId(10)));
}

#[test]
fn other_affinities_follow_the_current_network() {
    assert_eq!(affinity_chain(None, false, chain(1, 0)), Ok(chain(1, 0)));
    assert_eq!(affinity_chain(None, true, chain(31337, 4)), Ok(chain(31337, 4)));
}

#[test]
fn balance_of_an_unknown_network_is_refused() {
    assert_eq!(balance_source(5, None, false), Err(CommandError::InvalidNetwork(5)));
    assert_eq!(balance_source(5, None, true), Err(CommandError::InvalidNetwork(5)));
}

#[test]
fn balance_comes_from_the_node_on_development_chains() {
    assert_eq!(balance_source(31337, Some(&Network::anvil()), false), Ok(BalanceSource::DevNode));
    assert_eq!(balance_source(1, Some(&Network::mainnet()), true), Ok(BalanceSource::DevNode));
    assert_eq!(balance_source(1, Some(&Network::mainnet()), false), Ok(BalanceSource::Store));
}
