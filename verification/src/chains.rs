//! The catalog of supported chains and the resolution of a provider's
//! endpoints for one of them.

use crate::error::ConfigError;
use vstd::prelude::*;
use vstd::string::*;

verus! {

/// Endpoints of one RPC provider for one chain. All three fields are empty
/// when resolution failed.
#[derive(Debug, Clone)]
pub struct Provider {
    pub name: String,
    pub http: String,
    pub wss: String,
}

/// What a `Provider` holds, as plain text.
pub struct ProviderView {
    pub name: Seq<char>,
    pub http: Seq<char>,
    pub wss: Seq<char>,
}

impl View for Provider {
    type V = ProviderView;

    open spec fn view(&self) -> ProviderView {
        ProviderView { name: self.name@, http: self.http@, wss: self.wss@ }
    }
}

/// One supported chain.
#[derive(Debug, Clone, Copy)]
pub struct Chain {
    pub id: i64,
    pub name: &'static str,
    /// Number of trailing blocks that may still be replaced.
    pub blocks_reorg: i64,
    pub ankr_available: bool,
    pub llamanodes_available: bool,
}

/// What a `Chain` holds, as plain values.
pub struct ChainView {
    pub id: int,
    pub name: Seq<char>,
    pub blocks_reorg: int,
    pub ankr_available: bool,
    pub llamanodes_available: bool,
}

impl View for Chain {
    type V = ChainView;

    open spec fn view(&self) -> ChainView {
        ChainView {
            id: self.id as int,
            name: self.name@,
            blocks_reorg: self.blocks_reorg as int,
            ankr_available: self.ankr_available,
            llamanodes_available: self.llamanodes_available,
        }
    }
}

/// The provider that stands for "no endpoint".
pub open spec fn no_provider() -> ProviderView {
    ProviderView { name: Seq::empty(), http: Seq::empty(), wss: Seq::empty() }
}

/// The path segment under which `provider` addresses the chain called `chain_name`.
pub open spec fn slug_of(chain_name: Seq<char>, provider: Seq<char>) -> Seq<char> {
    if chain_name == "fantom"@ && provider == "llamanodes"@ {
        "ftm"@
    } else if chain_name == "mainnet"@ {
        "eth"@
    } else {
        chain_name
    }
}

/// Whether `provider` is a known identity that serves `chain`.
pub open spec fn serves(chain: ChainView, provider: Seq<char>) -> bool {
    ||| provider == "llamanodes"@ && chain.llamanodes_available
    ||| provider == "ankr"@ && chain.ankr_available
}

/// The endpoints of `provider` for `chain` with the credential `key`.
pub open spec fn resolve(chain: ChainView, key: Seq<char>, provider: Seq<char>) -> ProviderView {
    let slug = slug_of(chain.name, provider);
    if key.len() == 0 || !serves(chain, provider) {
        no_provider()
    } else if provider == "llamanodes"@ {
        ProviderView {
            name: "llamanodes"@,
            http: "https://"@ + slug + "-ski.llamarpc.com/rpc/"@ + key,
            wss: "wss://"@ + slug + "-ski.llamarpc.com/rpc/"@ + key,
        }
    } else {
        ProviderView {
            name: "ankr"@,
            http: "https://rpc.ankr.com/"@ + slug + "/"@ + key,
            wss: "wss://rpc.ankr.com/"@ + slug + "/ws/"@ + key,
        }
    }
}

/// Whether the endpoints `p` can be used for `chain`.
pub open spec fn usable(p: ProviderView, chain: ChainView) -> bool {
    &&& p.name == "ankr"@ ==> chain.ankr_available
    &&& p.name == "llamanodes"@ ==> chain.llamanodes_available
    &&& p.http.len() > 0
    &&& p.wss.len() > 0
}

/// The two provider identities are different words.
pub proof fn lemma_identities_differ()
    ensures
        "ankr"@ != "llamanodes"@,
        "ankr"@.len() == 4,
        "llamanodes"@.len() == 10,
{
    reveal_strlit("ankr");
    reveal_strlit("llamanodes");
    assert("ankr"@.len() == 4);
    assert("llamanodes"@.len() == 10);
}

/// Whether `s` reads `word`.
fn text_is(s: &String, word: &str) -> (same: bool)
    ensures
        same == (s@ == word@),
{
    let w = String::from_str(word);
    *s == w
}

/// The four pieces one after the other.
fn join4(head: &str, mid: &str, tail: &str, last: &str) -> (out: String)
    ensures
        out@ == head@ + mid@ + tail@ + last@,
{
    String::from_str(head).concat(mid).concat(tail).concat(last)
}

impl Provider {
    /// The provider with three empty fields.
    pub fn none() -> (p: Provider)
        ensures
            p@ == no_provider(),
    {
        Provider { name: String::new(), http: String::new(), wss: String::new() }
    }

    pub fn is_available(&self, chain: &Chain) -> (ok: bool)
        ensures
            ok == usable(self@, chain@),
    {
        if text_is(&self.name, "ankr") && !chain.ankr_available {
            return false;
        }
        if text_is(&self.name, "llamanodes") && !chain.llamanodes_available {
            return false;
        }
        !self.http.as_str().is_empty() && !self.wss.as_str().is_empty()
    }
}

impl Chain {
    /// A chain's reorg depth is never negative.
    pub open spec fn wf(&self) -> bool {
        self.blocks_reorg >= 0
    }

    pub fn new_from_borrowed(chain: &Chain) -> (copy: Self)
        ensures
            copy == *chain,
    {
        Self {
            id: chain.id,
            name: chain.name,
            blocks_reorg: chain.blocks_reorg,
            ankr_available: chain.ankr_available,
            llamanodes_available: chain.llamanodes_available,
        }
    }

    /// The path segment under which `provider` addresses this chain.
    fn slug(&self, provider: &String) -> (slug: &'static str)
        ensures
            slug@ == slug_of(self.name@, provider@),
    {
        let name = String::from_str(self.name);
        if text_is(&name, "fantom") && text_is(provider, "llamanodes") {
            "ftm"
        } else if text_is(&name, "mainnet") {
            "eth"
        } else {
            self.name
        }
    }

    /// The endpoints of `provider` for this chain, or why there are none:
    /// the key is empty, the identity is unknown, or the provider does not
    /// serve the chain.
    pub fn resolve(&self, key: String, provider: String) -> (resolved: Result<Provider, ConfigError>)
        ensures
            resolved is Ok <==> key@.len() > 0 && serves(self@, provider@),
            match resolved {
                Ok(p) => p@ == resolve(self@, key@, provider@) && usable(p@, self@),
                Err(e) => e == ConfigError::UnusableProvider,
            },
    {
        proof {
            lemma_resolved_usable(self@, key@, provider@);
        }
        let p = self.get_provider(key, provider);
        if p.is_available(self) {
            Ok(p)
        } else {
            Err(ConfigError::UnusableProvider)
        }
    }

    pub fn get_provider(&self, key: String, provider: String) -> (p: Provider)
        ensures
            p@ == resolve(self@, key@, provider@),
    {
        if key.as_str().is_empty() {
            return Provider::none();
        }
        let slug = self.slug(&provider);
        proof {
            lemma_identities_differ();
        }
        if text_is(&provider, "llamanodes") && self.llamanodes_available {
            Provider {
                name: String::from_str("llamanodes"),
                http: join4("https://", slug, "-ski.llamarpc.com/rpc/", key.as_str()),
                wss: join4("wss://", slug, "-ski.llamarpc.com/rpc/", key.as_str()),
            }
        } else if text_is(&provider, "ankr") && self.ankr_available {
            Provider {
                name: String::from_str("ankr"),
                http: join4("https://rpc.ankr.com/", slug, "/", key.as_str()),
                wss: join4("wss://rpc.ankr.com/", slug, "/ws/", key.as_str()),
            }
        } else {
            Provider::none()
        }
    }
}

/// The catalog: every chain that can be indexed, in a fixed order.
pub open spec fn registry() -> Seq<Chain> {
    seq![
        Chain {
            id: 1,
            name: "mainnet",
            blocks_reorg: 12,
            ankr_available: true,
            llamanodes_available: true,
        },
        Chain {
            id: 137,
            name: "polygon",
            blocks_reorg: 128,
            ankr_available: true,
            llamanodes_available: true,
        },
        Chain {
            id: 250,
            name: "fantom",
            blocks_reorg: 5,
            ankr_available: true,
            llamanodes_available: true,
        },
        Chain {
            id: 10,
            name: "optimism",
            blocks_reorg: 20,
            ankr_available: true,
            llamanodes_available: false,
        },
        Chain {
            id: 42161,
            name: "arbitrum",
            blocks_reorg: 20,
            ankr_available: false,
            llamanodes_available: false,
        },
        Chain {
            id: 20,
            name: "gnosis",
            blocks_reorg: 20,
            ankr_available: true,
            llamanodes_available: false,
        },
        Chain {
            id: 56,
            name: "bsc",
            blocks_reorg: 16,
            ankr_available: false,
            llamanodes_available: false,
        },
        Chain {
            id: 43114,
            name: "avalanche",
            blocks_reorg: 16,
            ankr_available: true,
            llamanodes_available: false,
        },
    ]
}

/// Whether the catalog has a chain called `name`.
pub open spec fn known(name: Seq<char>) -> bool {
    exists|i: int| 0 <= i < registry().len() && (#[trigger] registry()[i]).name@ == name
}

/// Every chain of the catalog, in the catalog's order.
pub fn get_chains() -> (chains: Vec<Chain>)
    ensures
        chains@ == registry(),
{
    let mut chains: Vec<Chain> = Vec::new();
    chains.push(
        Chain {
            id: 1,
            name: "mainnet",
            blocks_reorg: 12,
            ankr_available: true,
            llamanodes_available: true,
        },
    );
    chains.push(
        Chain {
            id: 137,
            name: "polygon",
            blocks_reorg: 128,
            ankr_available: true,
            llamanodes_available: true,
        },
    );
    chains.push(
        Chain {
            id: 250,
            name: "fantom",
            blocks_reorg: 5,
            ankr_available: true,
            llamanodes_available: true,
        },
    );
    chains.push(
        Chain {
            id: 10,
            name: "optimism",
            blocks_reorg: 20,
            ankr_available: true,
            llamanodes_available: false,
        },
    );
    chains.push(
        Chain {
            id: 42161,
            name: "arbitrum",
            blocks_reorg: 20,
            ankr_available: false,
            llamanodes_available: false,
        },
    );
    chains.push(
        Chain {
            id: 20,
            name: "gnosis",
            blocks_reorg: 20,
            ankr_available: true,
            llamanodes_available: false,
        },
    );
    chains.push(
        Chain {
            id: 56,
            name: "bsc",
            blocks_reorg: 16,
            ankr_available: false,
            llamanodes_available: false,
        },
    );
    chains.push(
        Chain {
            id: 43114,
            name: "avalanche",
            blocks_reorg: 16,
            ankr_available: true,
            llamanodes_available: false,
        },
    );
    assert(chains@ =~= registry());
    chains
}

/// The chain of the catalog that is called `chain`.
pub fn get_chain(chain: String) -> (found: Result<Chain, ConfigError>)
    ensures
        found is Ok <==> known(chain@),
        match found {
            Ok(c) => registry().contains(c) && c.name@ == chain@,
            Err(e) => e == ConfigError::UnknownChain,
        },
{
    let chains = get_chains();
    let mut i: usize = 0;
    while i < chains.len()
        invariant
            i <= chains.len(),
            chains@ == registry(),
            forall|j: int| 0 <= j < i ==> (#[trigger] registry()[j]).name@ != chain@,
        decreases chains.len() - i,
    {
        if text_is(&chain, chains[i].name) {
            return Ok(Chain::new_from_borrowed(&chains[i]));
        }
        i = i + 1;
    }
    Err(ConfigError::UnknownChain)
}

/// No two chains of the catalog share a name, and none has a negative reorg depth.
pub proof fn lemma_registry_sound()
    ensures
        forall|i: int, j: int|
            0 <= i < registry().len() && 0 <= j < registry().len() && (#[trigger] registry()[i]).name@
                == (#[trigger] registry()[j]).name@ ==> i == j,
        forall|i: int| 0 <= i < registry().len() ==> (#[trigger] registry()[i]).wf(),
{
    reveal_strlit("mainnet");
    reveal_strlit("polygon");
    reveal_strlit("fantom");
    reveal_strlit("optimism");
    reveal_strlit("arbitrum");
    reveal_strlit("gnosis");
    reveal_strlit("bsc");
    reveal_strlit("avalanche");
    assert("mainnet"@.len() == 7 && "mainnet"@[0] == 'm');
    assert("polygon"@.len() == 7 && "polygon"@[0] == 'p');
    assert("fantom"@.len() == 6 && "fantom"@[0] == 'f');
    assert("optimism"@.len() == 8 && "optimism"@[0] == 'o');
    assert("arbitrum"@.len() == 8 && "arbitrum"@[0] == 'a');
    assert("gnosis"@.len() == 6 && "gnosis"@[0] == 'g');
    assert("bsc"@.len() == 3);
    assert("avalanche"@.len() == 9);
}

/// A resolved provider can be used for its chain exactly when the key is
/// not empty and the provider is a known identity that serves the chain.
/// With an empty key, then, no chain and no identity give a usable provider.
pub proof fn lemma_resolved_usable(chain: ChainView, key: Seq<char>, provider: Seq<char>)
    ensures
        usable(resolve(chain, key, provider), chain) <==> key.len() > 0 && serves(chain, provider),
        key.len() == 0 ==> resolve(chain, key, provider) == no_provider(),
        forall|other: ChainView| !usable(no_provider(), other),
{
    lemma_identities_differ();
}

} // verus!
