use abi_watch::network::{
    default_current_name, Network, COMPUTE_UNITS_PER_SECOND, DEV_CHAIN_ID, INITIAL_BACKOFF_MILLIS, MAX_RATE_LIMIT_RETRIES,
};

fn named(name: &str, chain_id: u32, http_url: &str, ws_url: Option<&str>) -> Network {
    Network {
        name: name.to_string(),
        chain_id,
        explorer_url: None,
        http_url: http_url.to_string(),
        ws_url: ws_url.map(|u| u.to_string()),
        currency: "ETH".to_string(),
        decimals: 18,
    }
}

#[test]
fn mainnet_fields() {
    let n = Network::mainnet();
    assert_eq!(n.name, "Mainnet");
    assert_eq!(n.chain_id, 1);
    assert_eq!(n.explorer_url.as_deref(), Some("https://etherscan.io/search?q="));
    assert_eq!(n.http_url, "https://eth.llamarpc.com");
    assert_eq!(n.ws_url, None);
    assert_eq!(n.currency, "ETH");
    assert_eq!(n.decimals, 18);
}

#[test]
fn sepolia_fields() {
    let n = Network::sepolia();
    assert_eq!(n.name, "Sepolia");
    assert_eq!(n.chain_id, 11155111);
    assert_eq!(n.explorer_url.as_deref(), Some("https://sepolia.etherscan.io/search?q="));
    assert_eq!(n.http_url, "https://ethereum-sepolia-rpc.publicnode.com");
    assert_eq!(n.ws_url, None);
    assert_eq!(n.currency, "ETH");
    assert_eq!(n.decimals, 18);
}

#[test]
fn anvil_fields() {
    let n = Network::anvil();
    assert_eq!(n.name, "Anvil");
    assert_eq!(n.chain_id, 31337);
    assert_eq!(n.explorer_url, None);
    assert_eq!(n.http_url, "http://localhost:8545");
    assert_eq!(n.ws_url.as_deref(), Some("ws://localhost:8545"));
    assert_eq!(n.currency, "ETH");
    assert_eq!(n.decimals, 18);
}

#[test]
fn default_networks_in_order() {
    assert_eq!(Network::all_default(), vec![Network::anvil(), Network::mainnet(), Network::sepolia()]);
}

#[test]
fn chain_id_in_hex() {
    assert_eq!(Network::mainnet().chain_id_hex(), "0x1");
    assert_eq!(Network::sepolia().chain_id_hex(), "0xaa36a7");
    assert_eq!(Network::anvil().chain_id_hex(), "0x7a69");
    assert_eq!(named("zero", 0, "http://x", None).chain_id_hex(), "0x0");
    assert_eq!(named("ten", 10, "http://x", None).chain_id_hex(), "0xa");
    assert_eq!(named("sixteen", 16, "http://x", None).chain_id_hex(), "0x10");
    assert_eq!(named("max", u32::MAX, "http://x", None).chain_id_hex(), "0xffffffff");
    assert_eq!(named("mixed", 0x1020_0304, "http://x", None).chain_id_hex(), "0x10200304");
}

#[test]
fn websocket_address() {
    assert_eq!(Network::anvil().ws_url(), "ws://localhost:8545");
    assert_eq!(Network::mainnet().ws_url(), "wss://eth.llamarpc.com");
    assert_eq!(Network::sepolia().ws_url(), "wss://ethereum-sepolia-rpc.publicnode.com");
    assert_eq!(named("n", 5, "http://localhost:8545", None).ws_url(), "ws://localhost:8545");
    assert_eq!(named("n", 5, "http://localhost:8545", Some("ws://other:1")).ws_url(), "ws://other:1");
    // every occurrence is replaced, as the text goes
    assert_eq!(named("n", 5, "http://http.example/http", None).ws_url(), "ws://ws.example/ws");
    assert_eq!(named("n", 5, "hhttphttpp://htt", None).ws_url(), "hwswsp://htt");
    assert_eq!(named("n", 5, "", None).ws_url(), "");
    assert_eq!(named("n", 5, "htt", None).ws_url(), "htt");
    assert_eq!(named("n", 5, "ftp://höst/http", None).ws_url(), "ftp://höst/ws");
}

#[test]
fn development_nodes() {
    assert_eq!(DEV_CHAIN_ID, 31337);
    assert!(Network::anvil().is_dev(false));
    assert!(Network::anvil().is_dev(true));
    assert!(Network::mainnet().is_dev(true));
    assert!(!Network::mainnet().is_dev(false));
}

#[test]
fn written_out() {
    assert_eq!(Network::mainnet().to_text(), "1-Mainnet");
    assert_eq!(Network::sepolia().to_text(), "11155111-Sepolia");
    assert_eq!(Network::anvil().to_text(), "31337-Anvil");
    assert_eq!(named("", 0, "http://x", None).to_text(), "0-");
    assert_eq!(named("a-b", 4294967295, "http://x", None).to_text(), "4294967295-a-b");
}

#[test]
fn address_of_the_node_as_url() {
    let url = Network::mainnet().provider_url().unwrap();
    assert_eq!(url.text(), "https://eth.llamarpc.com");
    assert_eq!(url.into_inner().as_str(), "https://eth.llamarpc.com/");
    assert_eq!(Network::anvil().provider_url().unwrap().into_inner().port(), Some(8545));
    assert_eq!(named("n", 5, "not a url", None).provider_url().err(), Some(url::ParseError::RelativeUrlWithoutBase));
    assert_eq!(named("n", 5, "", None).provider_url().err(), Some(url::ParseError::RelativeUrlWithoutBase));
    assert_eq!(named("n", 5, "http://[::1", None).provider_url().err(), Some(url::ParseError::InvalidIpv6Address));
}

#[test]
fn name_of_the_current_network_before_anything_is_saved() {
    assert_eq!(default_current_name(), "mainnet");
}

#[test]
fn settings_of_a_client_that_tries_again() {
    assert_eq!(MAX_RATE_LIMIT_RETRIES, 10);
    assert_eq!(INITIAL_BACKOFF_MILLIS, 500);
    assert_eq!(COMPUTE_UNITS_PER_SECOND, 300);
}
