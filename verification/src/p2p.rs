//! The peer layer's verified half: the peer registry that discovery feeds,
//! and the artifact server's response decision over the result cache.
//! Multicast discovery, the HTTP listener and peer fetches live with the
//! embedding program.

use vstd::prelude::*;
use crate::store::KvStore;
use crate::symbol_graph::{
    assoc, find_key, lemma_assoc_none_keys, lemma_assoc_push_new, lemma_assoc_remove_other,
    lemma_assoc_update_keep,
};
use crate::syntax::{contains_chars, contains_sub};

verus! {

/// A peer discovered on the local network.
#[derive(Debug)]
pub struct PeerInfo {
    /// The advertised service name.
    pub id: String,
    /// The peer's socket address, rendered as text.
    pub addr: String,
    /// The peer's host name.
    pub hostname: String,
}

impl PeerInfo {
    /// An identical copy of the record, field by field.
    pub fn duplicate(&self) -> (r: PeerInfo)
        ensures
            r.id@ == self.id@,
            r.addr@ == self.addr@,
            r.hostname@ == self.hostname@,
    {
        PeerInfo {
            id: self.id.clone(),
            addr: self.addr.clone(),
            hostname: self.hostname.clone(),
        }
    }
}

/// The peers currently known, keyed by advertised name, plus this process's
/// own short identifier.
pub struct PeerRegistry {
    local_id: String,
    peers: Vec<(String, PeerInfo)>,
}

impl PeerRegistry {
    /// The registry's own identifier.
    pub closed spec fn spec_local_id(self) -> Seq<char> {
        self.local_id@
    }

    /// The stored peers.
    pub closed spec fn spec_peers(self) -> Seq<(String, PeerInfo)> {
        self.peers@
    }

    /// Advertised names are pairwise distinct and each record is stored
    /// under its own name.
    pub closed spec fn wf(self) -> bool {
        &&& forall|i: int, j: int|
            0 <= i < j < self.peers@.len() ==> (#[trigger] self.peers@[i].0@) != (
            #[trigger] self.peers@[j].0@)
        &&& forall|i: int|
            0 <= i < self.peers@.len() ==> (#[trigger] self.peers@[i]).0@
                == self.peers@[i].1.id@
    }

    /// A registry with no peers, carrying the given local identifier.
    pub fn new(local_id: String) -> (r: PeerRegistry)
        ensures
            r.wf(),
            r.spec_local_id() == local_id@,
            r.spec_peers().len() == 0,
    {
        PeerRegistry { local_id, peers: Vec::new() }
    }

    /// This process's own identifier.
    pub fn local_id(&self) -> (r: &String)
        ensures
            r@ == self.spec_local_id(),
    {
        &self.local_id
    }

    /// Record a resolved peer under its advertised name, replacing an
    /// earlier record of the same name and touching no other entry. A
    /// service whose name carries the local identifier is this process
    /// itself and is skipped.
    pub fn add_peer(&mut self, peer: PeerInfo)
        requires
            old(self).wf(),
        ensures
            final(self).wf(),
            final(self).spec_local_id() == old(self).spec_local_id(),
            contains_chars(peer.id@, old(self).spec_local_id()) ==> final(self).spec_peers() == old(
                self,
            ).spec_peers(),
            !contains_chars(peer.id@, old(self).spec_local_id()) ==> (assoc(
                final(self).spec_peers(),
                peer.id@,
            ) matches Some(p) && p.id@ == peer.id@ && p.addr@ == peer.addr@ && p.hostname@
                == peer.hostname@),
            forall|k: Seq<char>|
                k != peer.id@ ==> assoc(final(self).spec_peers(), k) == assoc(
                    old(self).spec_peers(),
                    k,
                ),
    {
        if contains_sub(&peer.id, self.local_id.as_str()) {
            return ;
        }
        match find_key(&self.peers, &peer.id) {
            Some(i) => {
                let ghost pre = self.peers@;
                let key = peer.id.clone();
                let ghost peerg = peer;
                self.peers[i] = (key, peer);
                proof {
                    let kv = self.peers@[i as int];
                    assert(self.peers@ =~= pre.update(i as int, kv));
                    assert(kv.0@ == pre[i as int].0@);
                    assert(kv.1 == peerg);
                    lemma_assoc_update_keep(pre, i as int, kv);
                    assert(assoc(self.peers@, peerg.id@) == Some(kv.1));
                    assert forall|a: int, b: int|
                        0 <= a < b < self.peers@.len() implies (#[trigger] self.peers@[a].0@) != (
                    #[trigger] self.peers@[b].0@) by {
                        assert(self.peers@[a].0@ == pre[a].0@);
                        assert(self.peers@[b].0@ == pre[b].0@);
                    }
                    assert forall|a: int|
                        0 <= a < self.peers@.len() implies (#[trigger] self.peers@[a]).0@
                        == self.peers@[a].1.id@ by {
                        if a != i {
                            assert(self.peers@[a] == pre[a]);
                        }
                    }
                }
            },
            None => {
                let key = peer.id.clone();
                let ghost peerg = peer;
                let ghost pre = self.peers@;
                self.peers.push((key, peer));
                proof {
                    let kv = self.peers@[self.peers@.len() - 1];
                    assert(self.peers@ == pre.push(kv));
                    assert(kv.0@ == peerg.id@ && kv.1 == peerg);
                    lemma_assoc_none_keys(pre, peerg.id@);
                    assert forall|j: int| 0 <= j < pre.len() implies (#[trigger] pre[j].0@)
                        != kv.0@ by {}
                    lemma_assoc_push_new(pre, kv);
                    assert(assoc(self.peers@, peerg.id@) == Some(kv.1));
                    assert forall|a: int, b: int|
                        0 <= a < b < self.peers@.len() implies (#[trigger] self.peers@[a].0@) != (
                    #[trigger] self.peers@[b].0@) by {
                        if b < pre.len() {
                            assert(self.peers@[a] == pre[a] && self.peers@[b] == pre[b]);
                        } else {
                            assert(self.peers@[a] == pre[a]);
                        }
                    }
                    assert forall|a: int|
                        0 <= a < self.peers@.len() implies (#[trigger] self.peers@[a]).0@
                        == self.peers@[a].1.id@ by {
                        if a < pre.len() {
                            assert(self.peers@[a] == pre[a]);
                        }
                    }
                }
            },
        }
    }

    /// Drop the peer advertised under the given name: no entry of that name
    /// remains and every other entry is untouched.
    pub fn remove_peer(&mut self, name: &String)
        requires
            old(self).wf(),
        ensures
            final(self).wf(),
            final(self).spec_local_id() == old(self).spec_local_id(),
            assoc(final(self).spec_peers(), name@) is None,
            forall|k: Seq<char>|
                k != name@ ==> assoc(final(self).spec_peers(), k) == assoc(
                    old(self).spec_peers(),
                    k,
                ),
    {
        match find_key(&self.peers, name) {
            Some(i) => {
                let ghost pre = self.peers@;
                let _ = self.peers.remove(i);
                proof {
                    let cur = pre.remove(i as int);
                    assert(self.peers@ == cur);
                    assert forall|a: int, b: int|
                        0 <= a < b < cur.len() implies (#[trigger] cur[a].0@) != (
                    #[trigger] cur[b].0@) by {
                        if b < i {
                            assert(cur[a] == pre[a] && cur[b] == pre[b]);
                        } else if a < i {
                            assert(cur[a] == pre[a] && cur[b] == pre[b + 1]);
                        } else {
                            assert(cur[a] == pre[a + 1] && cur[b] == pre[b + 1]);
                        }
                    }
                    assert forall|a: int|
                        0 <= a < cur.len() implies (#[trigger] cur[a]).0@ == cur[a].1.id@ by {
                        if a < i {
                            assert(cur[a] == pre[a]);
                        } else {
                            assert(cur[a] == pre[a + 1]);
                        }
                    }
                    assert forall|a: int| 0 <= a < cur.len() implies (#[trigger] cur[a].0@)
                        != name@ by {
                        if a < i {
                            assert(cur[a] == pre[a]);
                        } else {
                            assert(cur[a] == pre[a + 1]);
                        }
                    }
                    lemma_assoc_none_keys_rev(cur, name@);
                    assert forall|k: Seq<char>| k != name@ implies assoc(self.peers@, k) == assoc(
                        pre,
                        k,
                    ) by {
                        lemma_assoc_remove_other(pre, i as int, k);
                    }
                }
            },
            None => {},
        }
    }

    /// Copies of every known peer, in storage order.
    pub fn get_peers(&self) -> (r: Vec<PeerInfo>)
        ensures
            r@.len() == self.spec_peers().len(),
            forall|i: int|
                0 <= i < r@.len() ==> (#[trigger] r@[i]).id@ == self.spec_peers()[i].1.id@
                    && r@[i].addr@ == self.spec_peers()[i].1.addr@ && r@[i].hostname@
                    == self.spec_peers()[i].1.hostname@,
    {
        let mut r: Vec<PeerInfo> = Vec::new();
        let mut i: usize = 0;
        while i < self.peers.len()
            invariant
                i <= self.peers@.len(),
                r@.len() == i,
                forall|j: int|
                    0 <= j < i ==> (#[trigger] r@[j]).id@ == self.peers@[j].1.id@ && r@[j].addr@
                        == self.peers@[j].1.addr@ && r@[j].hostname@
                        == self.peers@[j].1.hostname@,
            decreases self.peers@.len() - i,
        {
            r.push(self.peers[i].1.duplicate());
            i = i + 1;
        }
        r
    }
}

/// Keys all differing from `k` mean an empty lookup.
proof fn lemma_assoc_none_keys_rev(s: Seq<(String, PeerInfo)>, k: Seq<char>)
    requires
        forall|j: int| 0 <= j < s.len() ==> (#[trigger] s[j].0@) != k,
    ensures
        assoc(s, k) is None,
    decreases s,
{
    if s.len() > 0 {
        assert forall|j: int|
            0 <= j < s.drop_first().len() implies (#[trigger] s.drop_first()[j].0@) != k by {
            assert(s.drop_first()[j] == s[j + 1]);
        }
        lemma_assoc_none_keys_rev(s.drop_first(), k);
    }
}

/// The artifact server's reply for a cache-key request: the stored bytes
/// with status 200, status 404 on a miss, status 500 when the store fails.
pub fn artifact_response(store: &KvStore, key: &String) -> (r: (u16, Vec<u8>))
    ensures
        store.contents().contains_key(vstd::utf8::encode_utf8(key@)) ==> (r.0 == 200 || r.0
            == 500),
        r.0 == 200 ==> store.contents().contains_key(vstd::utf8::encode_utf8(key@)) && r.1@
            == store.contents()[vstd::utf8::encode_utf8(key@)],
        r.0 == 404 ==> !store.contents().contains_key(vstd::utf8::encode_utf8(key@)),
        r.0 == 200 || r.0 == 404 || r.0 == 500,
{
    let kb = key.as_str().as_bytes_vec();
    match store.get(&kb) {
        Ok(Some(data)) => (200, data),
        Ok(None) => (404, Vec::new()),
        Err(_) => (500, Vec::new()),
    }
}

/// The health endpoint's fixed reply.
pub fn health_response() -> (r: String)
    ensures
        r@ == "OK"@,
{
    String::from_str("OK")
}

} // verus!
