use evm_indexer::chains::{get_chain, get_chains, Chain, Provider};
use evm_indexer::error::ConfigError;

fn chain(name: &str) -> Chain {
    get_chain(String::from(name)).unwrap()
}

#[test]
fn mainnet_over_ankr_is_addressed_as_eth() {
    let p = chain("mainnet").get_provider(String::from("abc"), String::from("ankr"));
    assert_eq!(p.name, "ankr");
    assert_eq!(p.http, "https://rpc.ankr.com/eth/abc");
    assert_eq!(p.wss, "wss://rpc.ankr.com/eth/ws/abc");
    assert!(p.is_available(&chain("mainnet")));
}

#[test]
fn mainnet_over_llamanodes_is_addressed_as_eth() {
    let p = chain("mainnet").get_provider(String::from("k1"), String::from("llamanodes"));
    assert_eq!(p.name, "llamanodes");
    assert_eq!(p.http, "https://eth-ski.llamarpc.com/rpc/k1");
    assert_eq!(p.wss, "wss://eth-ski.llamarpc.com/rpc/k1");
}

#[test]
fn fantom_over_llamanodes_is_addressed_as_ftm() {
    let p = chain("fantom").get_provider(String::from("abc"), String::from("llamanodes"));
    assert!(p.http.contains("ftm"));
    assert_eq!(p.http, "https://ftm-ski.llamarpc.com/rpc/abc");
    assert_eq!(p.wss, "wss://ftm-ski.llamarpc.com/rpc/abc");
}

#[test]
fn fantom_over_ankr_keeps_its_name() {
    let p = chain("fantom").get_provider(String::from("abc"), String::from("ankr"));
    assert_eq!(p.http, "https://rpc.ankr.com/fantom/abc");
    assert_eq!(p.wss, "wss://rpc.ankr.com/fantom/ws/abc");
}

#[test]
fn polygon_keeps_its_name_under_both_providers() {
    let a = chain("polygon").get_provider(String::from("k"), String::from("ankr"));
    let l = chain("polygon").get_provider(String::from("k"), String::from("llamanodes"));
    assert_eq!(a.http, "https://rpc.ankr.com/polygon/k");
    assert_eq!(l.wss, "wss://polygon-ski.llamarpc.com/rpc/k");
}

#[test]
fn empty_key_never_gives_a_usable_provider() {
    for c in get_chains() {
        for identity in ["ankr", "llamanodes", "infura", ""] {
            let p = c.get_provider(String::new(), String::from(identity));
            assert_eq!(p.name, "");
            assert_eq!(p.http, "");
            assert_eq!(p.wss, "");
            for other in get_chains() {
                assert!(!p.is_available(&other));
            }
        }
    }
}

#[test]
fn unknown_identity_gives_no_provider() {
    let p = chain("mainnet").get_provider(String::from("abc"), String::from("infura"));
    assert_eq!(p.name, "");
    assert_eq!(p.http, "");
    assert_eq!(p.wss, "");
    assert!(!p.is_available(&chain("mainnet")));
}

#[test]
fn excluded_provider_is_not_resolved() {
    let p = chain("optimism").get_provider(String::from("abc"), String::from("llamanodes"));
    assert_eq!(p.http, "");
    assert!(!p.is_available(&chain("optimism")));
    let q = chain("arbitrum").get_provider(String::from("abc"), String::from("ankr"));
    assert_eq!(q.wss, "");
    let r = chain("optimism").get_provider(String::from("abc"), String::from("ankr"));
    assert_eq!(r.http, "https://rpc.ankr.com/optimism/abc");
    assert!(r.is_available(&chain("optimism")));
}

#[test]
fn resolved_provider_is_usable_exactly_when_it_serves_the_chain() {
    for c in get_chains() {
        for (identity, serves) in [("ankr", c.ankr_available), ("llamanodes", c.llamanodes_available)] {
            let p = c.get_provider(String::from("key"), String::from(identity));
            assert_eq!(p.is_available(&c), serves);
        }
    }
}

#[test]
fn availability_goes_by_the_chains_flags_and_the_endpoints() {
    let ankr = Provider {
        name: String::from("ankr"),
        http: String::from("https://h"),
        wss: String::from("wss://w"),
    };
    assert!(ankr.is_available(&chain("mainnet")));
    assert!(!ankr.is_available(&chain("bsc")));
    let llama = Provider {
        name: String::from("llamanodes"),
        http: String::from("https://h"),
        wss: String::from("wss://w"),
    };
    assert!(llama.is_available(&chain("polygon")));
    assert!(!llama.is_available(&chain("gnosis")));
    let other = Provider {
        name: String::from("own"),
        http: String::from("https://h"),
        wss: String::from("wss://w"),
    };
    assert!(other.is_available(&chain("bsc")));
    let half = Provider { name: String::from("own"), http: String::from("https://h"), wss: String::new() };
    assert!(!half.is_available(&chain("mainnet")));
    let none = Provider::none();
    assert!(!none.is_available(&chain("mainnet")));
}

#[test]
fn catalog_holds_eight_chains_with_distinct_names() {
    let chains = get_chains();
    assert_eq!(chains.len(), 8);
    let names: Vec<&str> = chains.iter().map(|c| c.name).collect();
    assert_eq!(
        names,
        vec!["mainnet", "polygon", "fantom", "optimism", "arbitrum", "gnosis", "bsc", "avalanche"]
    );
    for (i, a) in chains.iter().enumerate() {
        assert!(a.blocks_reorg >= 0);
        for b in chains.iter().skip(i + 1) {
            assert_ne!(a.name, b.name);
        }
    }
}

#[test]
fn catalog_entries_hold_their_values() {
    let m = chain("mainnet");
    assert_eq!((m.id, m.blocks_reorg, m.ankr_available, m.llamanodes_available), (1, 12, true, true));
    let p = chain("polygon");
    assert_eq!((p.id, p.blocks_reorg), (137, 128));
    let f = chain("fantom");
    assert_eq!((f.id, f.blocks_reorg), (250, 5));
    let o = chain("optimism");
    assert_eq!((o.id, o.blocks_reorg, o.ankr_available, o.llamanodes_available), (10, 20, true, false));
    let a = chain("arbitrum");
    assert_eq!((a.id, a.blocks_reorg, a.ankr_available, a.llamanodes_available), (42161, 20, false, false));
    let g = chain("gnosis");
    assert_eq!((g.id, g.blocks_reorg, g.ankr_available), (20, 20, true));
    let b = chain("bsc");
    assert_eq!((b.id, b.blocks_reorg, b.ankr_available), (56, 16, false));
    let v = chain("avalanche");
    assert_eq!((v.id, v.blocks_reorg, v.ankr_available), (43114, 16, true));
}

#[test]
fn unknown_chain_is_reported() {
    assert_eq!(get_chain(String::from("dogechain")).err(), Some(ConfigError::UnknownChain));
    assert_eq!(get_chain(String::new()).err(), Some(ConfigError::UnknownChain));
    assert_eq!(get_chain(String::from("Mainnet")).err(), Some(ConfigError::UnknownChain));
}

#[test]
fn copy_of_a_chain_holds_the_same_values() {
    let f = chain("fantom");
    let c = Chain::new_from_borrowed(&f);
    assert_eq!(c.id, f.id);
    assert_eq!(c.name, f.name);
    assert_eq!(c.blocks_reorg, f.blocks_reorg);
    assert_eq!(c.ankr_available, f.ankr_available);
    assert_eq!(c.llamanodes_available, f.llamanodes_available);
}
