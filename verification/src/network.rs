//! The networks that can be seeded.
use vstd::prelude::*;

verus! {

/// A network that can be seeded.
#[derive(Debug, Clone, Copy, PartialEq, Eq, Structural)]
pub enum NetworkId {
    Mainnet,
    Testnet11,
}

/// The network that has the given id, if one has.
pub open spec fn network_named(id: Seq<char>) -> Option<NetworkId> {
    if id == "mainnet"@ {
        Some(NetworkId::Mainnet)
    } else if id == "testnet11"@ {
        Some(NetworkId::Testnet11)
    } else {
        None
    }
}

/// The network of the given id, if it is one that can be seeded.
pub fn select_network(id: &str) -> (network: Option<NetworkId>)
    ensures
        network == if id@ == "mainnet"@ {
            Some(NetworkId::Mainnet)
        } else if id@ == "testnet11"@ {
            Some(NetworkId::Testnet11)
        } else {
            None
        },
        network == network_named(id@),
{
    let id = id.to_owned();
    if id == "mainnet".to_owned() {
        Some(NetworkId::Mainnet)
    } else if id == "testnet11".to_owned() {
        Some(NetworkId::Testnet11)
    } else {
        None
    }
}

/// Each network has one id, letter for letter, and no other text is one.
pub proof fn law_networks_by_id(id: Seq<char>)
    ensures
        network_named(id) == Some(NetworkId::Mainnet) <==> id == seq![
            'm',
            'a',
            'i',
            'n',
            'n',
            'e',
            't',
        ],
        network_named(id) == Some(NetworkId::Testnet11) <==> id == seq![
            't',
            'e',
            's',
            't',
            'n',
            'e',
            't',
            '1',
            '1',
        ],
{
    reveal_strlit("mainnet");
    reveal_strlit("testnet11");
    assert("mainnet"@ =~= seq!['m', 'a', 'i', 'n', 'n', 'e', 't']);
    assert("testnet11"@ =~= seq!['t', 'e', 's', 't', 'n', 'e', 't', '1', '1']);
    assert("mainnet"@.len() != "testnet11"@.len());
}

} // verus!
