//! The machine: the user-facing owner of node records.
//!
//! The machine keeps the set of registered nodes, orchestrates their
//! registration with the relayer, and builds signed messages for the
//! surrounding runtime to enqueue. A node is stored only after every step
//! of its registration succeeded; a duplicate name changes nothing.

use vstd::prelude::*;
use crate::crypto::{pub_of, rsa_sig_of, rsa_sign_ok, rsa_verify_of, sha256_of, sign};
use crate::message::BridgeMessage;
use crate::node::Node;
use crate::message::RegisterInfo;
use crate::relayer::{lemma_neq_by_len, Relayer};

verus! {

broadcast use vstd::string::group_string_axioms;

/// The machine's error strings are pairwise distinct, so each one names
/// its failure unambiguously.
proof fn lemma_machine_strings_distinct()
    ensures
        "sender do not exist or init!"@ != "receiver do not exist or init!"@,
        "sender do not exist or init!"@ != "sign failed"@,
        "receiver do not exist or init!"@ != "sign failed"@,
        "node already exitst"@ != "failed to generate a key"@,
{
    reveal_strlit("sender do not exist or init!");
    reveal_strlit("receiver do not exist or init!");
    reveal_strlit("sign failed");
    reveal_strlit("node already exitst");
    reveal_strlit("failed to generate a key");
    assert("sender do not exist or init!"@.len() == 28);
    assert("receiver do not exist or init!"@.len() == 30);
    assert("sign failed"@.len() == 11);
    assert("node already exitst"@.len() == 19);
    assert("failed to generate a key"@.len() == 24);
    lemma_neq_by_len("sender do not exist or init!"@, "receiver do not exist or init!"@);
    lemma_neq_by_len("sender do not exist or init!"@, "sign failed"@);
    lemma_neq_by_len("receiver do not exist or init!"@, "sign failed"@);
    lemma_neq_by_len("node already exitst"@, "failed to generate a key"@);
}

/// The user-facing owner of node records.
pub struct Machine {
    nodes: Vec<Node>,
}

impl Machine {
    /// Node names are unique: at most one record per name.
    pub closed spec fn wf(self) -> bool {
        forall|i: int, j: int| 0 <= i < self.nodes@.len() && 0 <= j < self.nodes@.len()
            && #[trigger] self.nodes@[i].spec_name() == #[trigger] self.nodes@[j].spec_name()
            ==> i == j
    }

    pub closed spec fn has_name(self, name: Seq<char>) -> bool {
        exists|k: int| 0 <= k < self.nodes@.len()
            && #[trigger] self.nodes@[k].spec_name() == name
    }

    pub closed spec fn node_ix(self, name: Seq<char>) -> int {
        choose|k: int| 0 <= k < self.nodes@.len()
            && #[trigger] self.nodes@[k].spec_name() == name
    }

    /// The record filed under a registered name.
    pub closed spec fn spec_node(self, name: Seq<char>) -> Node {
        self.nodes@[self.node_ix(name)]
    }

    /// The group of the node registered under `name`.
    pub open spec fn group_of(self, name: Seq<char>) -> Seq<char> {
        self.spec_node(name).spec_group()
    }

    /// A node is ready to send once its input handle is installed.
    pub open spec fn ready(self, name: Seq<char>) -> bool {
        self.has_name(name) && self.spec_node(name).has_input()
    }

    /// The set of registered names.
    pub closed spec fn names(self) -> Set<Seq<char>> {
        Set::new(|x: Seq<char>| self.has_name(x))
    }

    pub fn new() -> (r: Machine)
        ensures
            r.wf(),
            r.names() == Set::<Seq<char>>::empty(),
    {
        let r = Machine { nodes: Vec::new() };
        proof {
            assert(r.names() =~= Set::<Seq<char>>::empty());
        }
        r
    }

    /// The record filed under `name`, if any.
    pub fn get_node(&self, name: &String) -> (r: Option<&Node>)
        requires
            self.wf(),
        ensures
            match r {
                Some(n) => self.has_name(name@) && *n == self.spec_node(name@),
                None => !self.has_name(name@),
            },
    {
        let mut i: usize = 0;
        while i < self.nodes.len()
            invariant
                i <= self.nodes@.len(),
                self.wf(),
                forall|k: int| 0 <= k < i ==> #[trigger] self.nodes@[k].spec_name() != name@,
            decreases self.nodes@.len() - i,
        {
            if *self.nodes[i].get_name() == *name {
                proof {
                    assert(self.has_name(name@));
                    let j = self.node_ix(name@);
                    assert(self.nodes@[j].spec_name() == self.nodes@[i as int].spec_name());
                    assert(j == i as int);
                }
                return Some(&self.nodes[i]);
            }
            i = i + 1;
        }
        proof {
            if self.has_name(name@) {
                let k = choose|k: int| 0 <= k < self.nodes@.len()
                    && #[trigger] self.nodes@[k].spec_name() == name@;
            }
        }
        None
    }

    /// Build and sign one message from `from` to `to`. The sender must be
    /// registered with a live input handle and the recipient must be
    /// registered; the signature covers the sender's source id. The caller
    /// enqueues the result on the sender's input queue.
    pub fn send_message(&self, from: String, to: String, content: String)
        -> (r: Result<BridgeMessage, String>)
        requires
            self.wf(),
        ensures
            (!self.ready(from@)) <==> (r matches Err(e) && e@ == "sender do not exist or init!"@),
            (self.ready(from@) && !self.has_name(to@))
                <==> (r matches Err(e) && e@ == "receiver do not exist or init!"@),
            self.ready(from@) && self.has_name(to@) ==> ({
                let key = self.spec_node(from@).spec_private_key();
                let digest = sha256_of(from@ + self.group_of(from@));
                &&& (r is Ok <==> rsa_sign_ok(key, digest))
                &&& match r {
                    Ok(m) => m@.from_name == from@ && m@.from_group == self.group_of(from@)
                        && m@.to_name == to@ && m@.to_group == self.group_of(to@)
                        && m@.message == content@ && m@.error_msg is None
                        && m@.sig == Some(rsa_sig_of(key, digest))
                        && rsa_verify_of(pub_of(key), digest, rsa_sig_of(key, digest)),
                    Err(e) => e@ == "sign failed"@,
                }
            }),
    {
        proof {
            lemma_machine_strings_distinct();
        }
        let sender_node = match self.get_node(&from) {
            Some(n) => n,
            None => {
                return Err(String::from_str("sender do not exist or init!"));
            },
        };
        if sender_node.get_input().is_none() {
            return Err(String::from_str("sender do not exist or init!"));
        }
        let priv_key = sender_node.get_private_key();
        let from_group = sender_node.get_group().clone();
        let to_node = match self.get_node(&to) {
            Some(n) => n,
            None => {
                return Err(String::from_str("receiver do not exist or init!"));
            },
        };
        let to_group = to_node.get_group().clone();
        let mut bridge_message = BridgeMessage {
            from_name: from,
            from_group,
            to_name: to,
            to_group,
            message: content,
            error_msg: None,
            sig: None,
        };
        let source_id = bridge_message.get_source_id();
        let sig = match sign(source_id.as_str(), priv_key) {
            Ok(s) => s,
            Err(e) => {
                return Err(e);
            },
        };
        bridge_message.sig = Some(sig);
        Ok(bridge_message)
    }

    /// Register a node: generate its keys, reject a duplicate name, file
    /// its public key with the relayer, and store the record with its
    /// input handle. The returned registration record goes on to the
    /// relayer's connection listener; on any failure neither the machine
    /// nor the relayer retains a trace of the node.
    pub fn register_node(
        &mut self,
        relayer: &mut Relayer,
        name: &str,
        group: &str,
        addr: &str,
        input_tx: tokio::sync::mpsc::Sender<BridgeMessage>,
    ) -> (r: Result<RegisterInfo, String>)
        requires
            old(self).wf(),
        ensures
            final(self).wf(),
            r is Err ==> *final(self) == *old(self),
            r is Err ==> *final(relayer) == *old(relayer),
            old(self).has_name(name@) ==> (r matches Err(e)
                && (e@ == "node already exitst"@ || e@ == "failed to generate a key"@)),
            !old(relayer).keys_live() || !old(relayer).register_live() ==> r is Err,
            !old(self).has_name(name@) && old(relayer).keys_live()
                && old(relayer).register_live()
                ==> (r matches Err(e) ==> e@ == "failed to generate a key"@),
            r matches Ok(info) ==> !old(self).has_name(name@)
                && final(self).names() == old(self).names().insert(name@)
                && final(self).has_name(name@)
                && final(self).group_of(name@) == group@
                && final(self).ready(name@)
                && final(self).spec_node(name@).spec_public_key()
                    == pub_of(final(self).spec_node(name@).spec_private_key())
                && info.name@ == name@ && info.group@ == group@ && info.addr@ == addr@
                && final(relayer).key_ids()
                    == old(relayer).key_ids().insert(name@ + group@),
            r is Ok && old(relayer).tables_wf() ==> final(relayer).tables_wf()
                && final(relayer).key_of(name@ + group@)
                    == final(self).spec_node(name@).spec_public_key()
                && (forall|x: Seq<char>| old(relayer).key_ids().contains(x)
                    && x != name@ + group@
                    ==> #[trigger] final(relayer).key_of(x) == old(relayer).key_of(x)),
            final(relayer).route_ids() == old(relayer).route_ids(),
            final(relayer).routes_live() == old(relayer).routes_live(),
            final(relayer).keys_live() == old(relayer).keys_live(),
            final(relayer).register_live() == old(relayer).register_live(),
    {
        proof {
            lemma_machine_strings_distinct();
        }
        let mut node = match Node::new(addr, name, group) {
            Ok(n) => n,
            Err(e) => {
                return Err(e);
            },
        };
        let name_key = String::from_str(name);
        if self.get_node(&name_key).is_some() {
            return Err(String::from_str("node already exitst"));
        }
        let register_info = node.build_relayer_register_info();
        let register_info_out = node.build_relayer_register_info();
        let pub_key = node.get_public_key();
        match relayer.register_node(register_info, pub_key) {
            Ok(()) => {},
            Err(e) => {
                return Err(e);
            },
        }
        node.set_input(input_tx);
        let ghost pre = self.nodes@;
        self.nodes.push(node);
        proof {
            let post = self.nodes@;
            assert(post[post.len() - 1].spec_name() == name@);
            assert forall|i: int, j: int| 0 <= i < post.len() && 0 <= j < post.len()
                && #[trigger] post[i].spec_name() == #[trigger] post[j].spec_name()
                implies i == j by {
                if i < post.len() - 1 && j == post.len() - 1 {
                    assert(pre[i].spec_name() != name@);
                }
                if j < post.len() - 1 && i == post.len() - 1 {
                    assert(pre[j].spec_name() != name@);
                }
            }
            assert(final(self).has_name(name@));
            assert forall|x: Seq<char>|
                final(self).names().contains(x) == old(self).names().insert(name@).contains(x) by {
                if x != name@ {
                    if final(self).has_name(x) {
                        let k = choose|k: int| 0 <= k < post.len()
                            && #[trigger] post[k].spec_name() == x;
                        assert(k < post.len() - 1);
                        assert(pre[k].spec_name() == x);
                        assert(old(self).has_name(x));
                    }
                    if old(self).has_name(x) {
                        let k = choose|k: int| 0 <= k < pre.len()
                            && #[trigger] pre[k].spec_name() == x;
                        assert(post[k].spec_name() == x);
                        assert(final(self).has_name(x));
                    }
                }
            }
            assert(final(self).names() =~= old(self).names().insert(name@));
            let ix = final(self).node_ix(name@);
            assert(post[ix].spec_name() == post[post.len() - 1].spec_name());
            assert(ix == post.len() - 1);
        }
        Ok(register_info_out)
    }
}

} // verus!
