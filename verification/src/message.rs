//! The bridge message: the envelope that carries one payload between nodes,
//! together with the registration record handed to the relayer.

use vstd::prelude::*;

verus! {

/// Mathematical view of a bridge message: every field as a sequence.
pub struct BridgeView {
    pub from_name: Seq<char>,
    pub from_group: Seq<char>,
    pub to_name: Seq<char>,
    pub to_group: Seq<char>,
    pub message: Seq<char>,
    pub error_msg: Option<Seq<char>>,
    pub sig: Option<Seq<u8>>,
}

impl BridgeView {
    /// The routing key of the sender: name and group concatenated, no separator.
    pub open spec fn source_id(self) -> Seq<char> {
        self.from_name + self.from_group
    }

    /// The routing key of the recipient.
    pub open spec fn target_id(self) -> Seq<char> {
        self.to_name + self.to_group
    }

    /// The same message with an error annotation attached.
    pub open spec fn with_error_msg(self, error_msg: Seq<char>) -> BridgeView {
        BridgeView { error_msg: Some(error_msg), ..self }
    }
}

/// The envelope carrying one payload plus endpoint metadata and signature.
///
/// `sig`, when present, is an RSA-PKCS#1 v1.5 signature over SHA-256 of the
/// sender's source id. `error_msg` is set by the relayer when it bounces a
/// message back to its sender.
#[derive(Debug, PartialEq)]
pub struct BridgeMessage {
    pub from_name: String,
    pub from_group: String,
    pub to_name: String,
    pub to_group: String,
    pub message: String,
    pub error_msg: Option<String>,
    pub sig: Option<Vec<u8>>,
}

impl View for BridgeMessage {
    type V = BridgeView;

    open spec fn view(&self) -> BridgeView {
        BridgeView {
            from_name: self.from_name@,
            from_group: self.from_group@,
            to_name: self.to_name@,
            to_group: self.to_group@,
            message: self.message@,
            error_msg: match self.error_msg {
                Some(ref e) => Some(e@),
                None => None,
            },
            sig: match self.sig {
                Some(ref s) => Some(s@),
                None => None,
            },
        }
    }
}

impl DeepView for BridgeMessage {
    type V = BridgeView;

    open spec fn deep_view(&self) -> BridgeView {
        self.view()
    }
}

impl Clone for BridgeMessage {
    fn clone(&self) -> (r: Self)
        ensures
            r@ == self@,
    {
        BridgeMessage {
            from_name: self.from_name.clone(),
            from_group: self.from_group.clone(),
            to_name: self.to_name.clone(),
            to_group: self.to_group.clone(),
            message: self.message.clone(),
            error_msg: match self.error_msg {
                Some(ref e) => Some(e.clone()),
                None => None,
            },
            sig: match self.sig {
                Some(ref s) => Some(clone_bytes(s)),
                None => None,
            },
        }
    }
}

/// Clone a byte vector, keeping its contents.
fn clone_bytes(v: &Vec<u8>) -> (r: Vec<u8>)
    ensures
        r@ == v@,
{
    let mut r: Vec<u8> = Vec::new();
    let mut i: usize = 0;
    while i < v.len()
        invariant
            i <= v.len(),
            r@ == v@.subrange(0, i as int),
        decreases v.len() - i,
    {
        r.push(v[i]);
        i = i + 1;
        proof {
            assert(r@ =~= v@.subrange(0, i as int));
        }
    }
    proof {
        assert(r@ =~= v@);
    }
    r
}

impl BridgeMessage {
    /// The sender's routing key: `from_name` and `from_group` concatenated.
    pub fn get_source_id(&self) -> (r: String)
        ensures
            r@ == self@.source_id(),
    {
        let mut ans = self.from_name.clone();
        ans.append(self.from_group.as_str());
        ans
    }

    /// The recipient's routing key: `to_name` and `to_group` concatenated.
    pub fn get_target_id(&self) -> (r: String)
        ensures
            r@ == self@.target_id(),
    {
        let mut ans = self.to_name.clone();
        ans.append(self.to_group.as_str());
        ans
    }
}

/// What every relayed envelope offers: an error annotation slot and an
/// optional signature.
pub trait Message: Sized {
    /// The error annotation, as the specification sees it.
    spec fn spec_error_msg(&self) -> Option<Seq<char>>;

    /// The signature, as the specification sees it.
    spec fn spec_sig(&self) -> Option<Seq<u8>>;

    fn set_error_msg(&mut self, error_msg: String)
        ensures
            final(self).spec_error_msg() == Some(error_msg@),
    ;

    fn get_signature(&self) -> (r: Option<&Vec<u8>>)
        ensures
            match r {
                Some(s) => self.spec_sig() == Some(s@),
                None => self.spec_sig() is None,
            },
    ;
}

impl Message for BridgeMessage {
    open spec fn spec_error_msg(&self) -> Option<Seq<char>> {
        self@.error_msg
    }

    open spec fn spec_sig(&self) -> Option<Seq<u8>> {
        self@.sig
    }

    fn set_error_msg(&mut self, error_msg: String)
        ensures
            final(self)@ == old(self)@.with_error_msg(error_msg@),
    {
        self.error_msg = Some(error_msg);
    }

    fn get_signature(&self) -> (r: Option<&Vec<u8>>) {
        self.sig.as_ref()
    }
}

/// The registration record a node hands to the relayer: where to dial, and
/// under which (name, group) identity to file the connection.
#[derive(Debug, PartialEq)]
pub struct RegisterInfo {
    pub addr: String,
    pub name: String,
    pub group: String,
}

impl RegisterInfo {
    /// The node's routing key: `name` and `group` concatenated.
    pub fn get_source_id(&self) -> (r: String)
        ensures
            r@ == self.name@ + self.group@,
    {
        let mut ans = self.name.clone();
        ans.append(self.group.as_str());
        ans
    }
}

} // verus!
