use vstd::prelude::*;

pub mod closest;
pub mod content;
pub mod distance;
pub mod gossip;
pub mod handlers;
pub mod hex;
pub mod lookup;
pub mod offer;
pub mod routing;
pub mod store;

verus! {

/// The peertest id of a node. The bootnode, started without a bootnode record to join
/// through, keeps its own index; every other node is shifted up by one to leave room
/// for the bootnode.
pub fn get_peertest_id_for_node(id: u8, bootnode_enr: Option<&String>) -> (r: u16)
    requires
        bootnode_enr is Some ==> id < 255,
    ensures
        r as int == if bootnode_enr is Some { id as int + 1 } else { id as int },
{
    let mut id = id;
    if bootnode_enr.is_some() {
        id = id + 1;
    }
    id as u16
}

/// The discovery port of the peertest node with the given peertest id.
pub fn peertest_discovery_port(peertest_id: u16) -> (r: u16)
    requires
        peertest_id <= 56535,
    ensures
        r == 9000 + peertest_id,
{
    9000 + peertest_id
}

} // verus!
