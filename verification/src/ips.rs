use vstd::prelude::*;
use vstd::string::StringExecFns;

verus! {

/// The views of a list of addresses.
pub open spec fn addrs_view(v: Seq<String>) -> Seq<Seq<char>> {
    v.map_values(|s: String| s@)
}

/// Appends `node` to the list of known remote addresses.
pub fn add_node(remote: &mut Vec<String>, node: String)
    ensures
        final(remote)@ == old(remote)@.push(node),
{
    remote.push(node);
}

/// The addresses of `remote` other than `this_ip`, in their order: the peers
/// that this node asks whether they are alive.
pub fn peers_to_probe(remote: &Vec<String>, this_ip: &String) -> (r: Vec<String>)
    ensures
        addrs_view(r@) == addrs_view(remote@).filter(|a: Seq<char>| a != this_ip@),
        !addrs_view(r@).contains(this_ip@),
{
    let ghost pred = |a: Seq<char>| a != this_ip@;
    let mut out: Vec<String> = Vec::new();
    let mut i: usize = 0;
    proof {
        reveal(Seq::filter);
        assert(addrs_view(remote@).take(0) =~= Seq::<Seq<char>>::empty());
        assert(addrs_view(out@) =~= addrs_view(remote@).take(0).filter(pred));
    }
    while i < remote.len()
        invariant
            0 <= i <= remote@.len(),
            pred == (|a: Seq<char>| a != this_ip@),
            addrs_view(out@) == addrs_view(remote@).take(i as int).filter(pred),
        decreases remote@.len() - i,
    {
        let ghost before = addrs_view(remote@).take(i as int);
        let ghost after = addrs_view(remote@).take(i + 1);
        proof {
            assert(after =~= before.push(remote@[i as int]@));
            assert(after.drop_last() =~= before);
            reveal(Seq::filter);
        }
        if remote[i] != *this_ip {
            let a = remote[i].clone();
            out.push(a);
            assert(addrs_view(out@) =~= after.filter(pred));
        } else {
            assert(addrs_view(out@) =~= after.filter(pred));
        }
        i = i + 1;
    }
    assert(addrs_view(remote@).take(remote@.len() as int) =~= addrs_view(remote@));
    proof {
        let f = addrs_view(remote@).filter(pred);
        if f.contains(this_ip@) {
            let j = choose|j: int| 0 <= j < f.len() && f[j] == this_ip@;
            addrs_view(remote@).lemma_filter_pred(pred, j);
        }
    }
    out
}

/// The address `ip:port` under which a node is known to its peers.
pub fn node_address(ip: &str, port: &str) -> (r: String)
    ensures
        r@ == ip@ + ":"@ + port@,
{
    ip.to_owned().concat(":").concat(port)
}

/// The URL of `route` on the node at `addr`, over plain HTTP.
pub fn node_url(addr: &str, route: &str) -> (r: String)
    ensures
        r@ == "http://"@ + addr@ + route@,
{
    "http://".to_owned().concat(addr).concat(route)
}

} // verus!
