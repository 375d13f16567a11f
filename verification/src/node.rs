//! One registered node: identity, address, RSA key pair, and the handle
//! that feeds its outbound session.

use vstd::prelude::*;
use crate::crypto::{get_rsa, pub_of};
use crate::message::{BridgeMessage, RegisterInfo};
use rsa::{RsaPrivateKey, RsaPublicKey};

verus! {

/// What the node-session spawner needs: the node's name and address, the
/// receiving end of its input queue, and the sending end of its output
/// queue.
pub struct LaunchInfo {
    pub name: String,
    pub addr: String,
    pub input: tokio::sync::mpsc::Receiver<BridgeMessage>,
    pub output: tokio::sync::mpsc::Sender<BridgeMessage>,
}

/// Relies on `RsaPublicKey::clone`, derived in the rsa crate: a clone is
/// the same key.
#[verifier::external_body]
fn clone_public_key(k: &RsaPublicKey) -> (r: RsaPublicKey)
    ensures
        r == *k,
{
    k.clone()
}

/// A node the machine owns: name, group, listening address, key pair, and
/// — once its session stands — the sending end of its input queue.
pub struct Node {
    pub input: Option<tokio::sync::mpsc::Sender<BridgeMessage>>,
    addr: String,
    name: String,
    group: String,
    private_key: RsaPrivateKey,
    public_key: RsaPublicKey,
}

impl Node {
    pub closed spec fn spec_name(self) -> Seq<char> {
        self.name@
    }

    pub closed spec fn spec_group(self) -> Seq<char> {
        self.group@
    }

    pub closed spec fn spec_addr(self) -> Seq<char> {
        self.addr@
    }

    pub closed spec fn spec_private_key(self) -> RsaPrivateKey {
        self.private_key
    }

    pub closed spec fn spec_public_key(self) -> RsaPublicKey {
        self.public_key
    }

    /// Whether the input handle is installed.
    pub closed spec fn has_input(self) -> bool {
        self.input is Some
    }

    /// The node's routing key: name and group concatenated.
    pub open spec fn spec_source_id(self) -> Seq<char> {
        self.spec_name() + self.spec_group()
    }

    /// Make a node with a fresh 2048-bit key pair and no session yet.
    pub fn new(addr: &str, name: &str, group: &str) -> (r: Result<Node, String>)
        ensures
            r matches Ok(n) ==> n.spec_name() == name@ && n.spec_group() == group@
                && n.spec_addr() == addr@ && !n.has_input()
                && n.spec_public_key() == pub_of(n.spec_private_key()),
            r matches Err(e) ==> e@ == "failed to generate a key"@,
    {
        let (pri_key, pub_key) = match get_rsa() {
            Ok(pair) => pair,
            Err(e) => {
                return Err(e);
            },
        };
        Ok(Node {
            addr: String::from_str(addr),
            name: String::from_str(name),
            group: String::from_str(group),
            private_key: pri_key,
            public_key: pub_key,
            input: None,
        })
    }

    /// Install the input handle once the session stands.
    pub fn set_input(&mut self, input: tokio::sync::mpsc::Sender<BridgeMessage>)
        ensures
            final(self).has_input(),
            final(self).spec_name() == old(self).spec_name(),
            final(self).spec_group() == old(self).spec_group(),
            final(self).spec_addr() == old(self).spec_addr(),
            final(self).spec_private_key() == old(self).spec_private_key(),
            final(self).spec_public_key() == old(self).spec_public_key(),
    {
        self.input = Some(input);
    }

    pub fn get_input(&self) -> (r: Option<&tokio::sync::mpsc::Sender<BridgeMessage>>)
        ensures
            r is Some <==> self.has_input(),
    {
        self.input.as_ref()
    }

    pub fn get_name(&self) -> (r: &String)
        ensures
            r@ == self.spec_name(),
    {
        &self.name
    }

    pub fn get_group(&self) -> (r: &String)
        ensures
            r@ == self.spec_group(),
    {
        &self.group
    }

    pub fn get_source_id(&self) -> (r: String)
        ensures
            r@ == self.spec_source_id(),
    {
        let mut ans = self.name.clone();
        ans.append(self.group.as_str());
        ans
    }

    pub fn get_private_key(&self) -> (r: &RsaPrivateKey)
        ensures
            *r == self.spec_private_key(),
    {
        &self.private_key
    }

    pub fn get_public_key(&self) -> (r: RsaPublicKey)
        ensures
            r == self.spec_public_key(),
    {
        clone_public_key(&self.public_key)
    }

    /// The registration record the relayer files this node under.
    pub fn build_relayer_register_info(&self) -> (r: RegisterInfo)
        ensures
            r.name@ == self.spec_name(),
            r.group@ == self.spec_group(),
            r.addr@ == self.spec_addr(),
    {
        RegisterInfo {
            addr: self.addr.clone(),
            name: self.name.clone(),
            group: self.group.clone(),
        }
    }

    /// The launch record the node-session spawner consumes.
    pub fn build_machine_register_info(
        &self,
        biz_input: tokio::sync::mpsc::Receiver<BridgeMessage>,
        biz_output: tokio::sync::mpsc::Sender<BridgeMessage>,
    ) -> (r: LaunchInfo)
        ensures
            r.name@ == self.spec_name(),
            r.addr@ == self.spec_addr(),
    {
        LaunchInfo {
            addr: self.addr.clone(),
            name: self.name.clone(),
            input: biz_input,
            output: biz_output,
        }
    }
}

} // verus!
