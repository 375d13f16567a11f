//! The relayer: the central switchboard.
//!
//! The relayer keeps two tables keyed by source id — one mapping each
//! registered node to its outbound broadcast queue, one to its public key —
//! and moves each inbound message through a verify-and-forward pipeline:
//! look up the sender's key, check the signature over the sender's source
//! id, then either forward the message to its target's queue, bounce it
//! back to a known sender with an error annotation, or drop it.

use vstd::prelude::*;
use crate::crypto::{rsa_verify_of, sha256_of, verify};
use crate::message::{BridgeMessage, BridgeView, Message, RegisterInfo};
use crate::transport::channel_send;
use rsa::RsaPublicKey;

verus! {

broadcast use vstd::string::group_string_axioms;

// ---------------------------------------------------------------------------
// Tables keyed by source id
// ---------------------------------------------------------------------------

/// One table entry: a source id and its value.
pub struct Entry<V> {
    pub id: String,
    pub value: V,
}

/// A small map from source id to a value, insertion-only in steady state.
pub struct Table<V> {
    entries: Vec<Entry<V>>,
}

/// The index of the first entry filed under `id`; the length when none is.
spec fn first_with<V>(entries: Seq<Entry<V>>, id: Seq<char>) -> int
    decreases entries.len(),
{
    if entries.len() == 0 {
        0
    } else if entries[0].id@ == id {
        0
    } else {
        1 + first_with(entries.drop_first(), id)
    }
}

proof fn lemma_first_with_at<V>(entries: Seq<Entry<V>>, id: Seq<char>, k: int)
    requires
        0 <= k < entries.len(),
        entries[k].id@ == id,
        forall|j: int| 0 <= j < k ==> #[trigger] entries[j].id@ != id,
    ensures
        first_with(entries, id) == k,
    decreases k,
{
    if k == 0 {
    } else {
        assert(entries[0].id@ != id);
        let e1 = entries.drop_first();
        assert(e1[k - 1] == entries[k]);
        assert forall|j: int| 0 <= j < k - 1 implies #[trigger] e1[j].id@ != id by {
            assert(e1[j] == entries[j + 1]);
        }
        lemma_first_with_at(e1, id, k - 1);
    }
}

impl<V> Table<V> {
    /// The set of ids the table holds.
    pub closed spec fn ids(self) -> Set<Seq<char>> {
        Set::new(|x: Seq<char>| exists|k: int|
            0 <= k < self.entries@.len() && #[trigger] self.entries@[k].id@ == x)
    }

    /// At most one entry per id: what `new` makes and `insert` keeps.
    pub closed spec fn wf(self) -> bool {
        forall|i: int, j: int| 0 <= i < self.entries@.len() && 0 <= j < self.entries@.len()
            && #[trigger] self.entries@[i].id@ == #[trigger] self.entries@[j].id@ ==> i == j
    }

    /// The value filed under `id` (meaningful when the id is filed).
    pub closed spec fn val_of(self, id: Seq<char>) -> V {
        self.entries@[first_with(self.entries@, id)].value
    }

    pub fn new() -> (r: Table<V>)
        ensures
            r.ids() == Set::<Seq<char>>::empty(),
            r.wf(),
    {
        let r = Table { entries: Vec::new() };
        proof {
            assert(r.ids() =~= Set::<Seq<char>>::empty());
        }
        r
    }

    /// File `value` under `id`, replacing what was there.
    pub fn insert(&mut self, id: String, value: V)
        ensures
            final(self).ids() == old(self).ids().insert(id@),
            old(self).wf() ==> final(self).wf(),
            old(self).wf() ==> final(self).val_of(id@) == value,
            old(self).wf() ==> forall|x: Seq<char>| old(self).ids().contains(x) && x != id@
                ==> #[trigger] final(self).val_of(x) == old(self).val_of(x),
    {
        let ghost pre = self.entries@;
        let mut idx: Option<usize> = None;
        let mut i: usize = 0;
        while i < self.entries.len()
            invariant
                i <= self.entries@.len(),
                self.entries@ == pre,
                match idx {
                    Some(j) => j < i && pre[j as int].id@ == id@,
                    None => forall|k: int| 0 <= k < i ==> #[trigger] pre[k].id@ != id@,
                },
            decreases self.entries@.len() - i,
        {
            if idx.is_none() && self.entries[i].id == id {
                idx = Some(i);
            }
            i = i + 1;
        }
        let ghost mid: Seq<Entry<V>>;
        match idx {
            Some(j) => {
                self.entries.remove(j);
                proof {
                    mid = self.entries@;
                }
            },
            None => {
                proof {
                    mid = self.entries@;
                }
            },
        }
        self.entries.push(Entry { id, value });
        proof {
            let post = self.entries@;
            assert forall|x: Seq<char>|
                final(self).ids().contains(x) == old(self).ids().insert(id@).contains(x) by {
                if x == id@ {
                    assert(post[post.len() - 1].id@ == x);
                    assert(final(self).ids().contains(x));
                } else {
                    if final(self).ids().contains(x) {
                        let k = choose|k: int| 0 <= k < post.len()
                            && #[trigger] post[k].id@ == x;
                        assert(k < post.len() - 1);
                        match idx {
                            Some(j) => {
                                if k < j {
                                    assert(pre[k].id@ == x);
                                } else {
                                    assert(mid[k] == pre[k + 1]);
                                    assert(pre[k + 1].id@ == x);
                                }
                            },
                            None => {
                                assert(pre[k].id@ == x);
                            },
                        }
                        assert(old(self).ids().contains(x));
                    }
                    if old(self).ids().contains(x) {
                        let k = choose|k: int| 0 <= k < pre.len()
                            && #[trigger] pre[k].id@ == x;
                        match idx {
                            Some(j) => {
                                assert(k != j);
                                if k < j {
                                    assert(post[k] == pre[k]);
                                    assert(post[k].id@ == x);
                                } else {
                                    assert(post[k - 1] == pre[k]);
                                    assert(post[k - 1].id@ == x);
                                }
                            },
                            None => {
                                assert(post[k] == pre[k]);
                                assert(post[k].id@ == x);
                            },
                        }
                        assert(final(self).ids().contains(x));
                    }
                }
            }
            assert(final(self).ids() =~= old(self).ids().insert(id@));
            if old(self).wf() {
                // no entry but the pushed one is filed under `id`
                assert forall|k: int| 0 <= k < post.len() - 1
                    implies #[trigger] post[k].id@ != id@ by {
                    match idx {
                        Some(j) => {
                            if k < j {
                                assert(post[k] == pre[k]);
                                if pre[k].id@ == id@ {
                                    assert(pre[j as int].id@ == id@);
                                    assert(k == j as int);
                                }
                            } else {
                                assert(mid[k] == pre[k + 1]);
                                assert(post[k] == pre[k + 1]);
                                if pre[k + 1].id@ == id@ {
                                    assert(pre[j as int].id@ == id@);
                                    assert(k + 1 == j as int);
                                }
                            }
                        },
                        None => {
                            assert(post[k] == pre[k]);
                        },
                    }
                }
                // uniqueness is kept
                assert forall|a: int, b: int| 0 <= a < post.len() && 0 <= b < post.len()
                    && #[trigger] post[a].id@ == #[trigger] post[b].id@ implies a == b by {
                    if a < post.len() - 1 && b < post.len() - 1 {
                        match idx {
                            Some(j) => {
                                let pa: int = if a < j { a } else { a + 1 };
                                let pb: int = if b < j { b } else { b + 1 };
                                if a >= j { assert(mid[a] == pre[a + 1]); }
                                if b >= j { assert(mid[b] == pre[b + 1]); }
                                assert(post[a] == pre[pa]);
                                assert(post[b] == pre[pb]);
                                assert(pre[pa].id@ == pre[pb].id@);
                                assert(pa == pb);
                            },
                            None => {
                                assert(post[a] == pre[a]);
                                assert(post[b] == pre[b]);
                                assert(pre[a].id@ == pre[b].id@);
                                assert(a == b);
                            },
                        }
                    } else if a == post.len() - 1 && b < post.len() - 1 {
                        assert(post[b].id@ != id@);
                    } else if b == post.len() - 1 && a < post.len() - 1 {
                        assert(post[a].id@ != id@);
                    }
                }
                // the pushed value is what `id` is filed under
                lemma_first_with_at(post, id@, post.len() - 1);
                assert(final(self).val_of(id@) == value);
                // every other filed value is untouched
                assert forall|x: Seq<char>| old(self).ids().contains(x) && x != id@
                    implies #[trigger] final(self).val_of(x) == old(self).val_of(x) by {
                    let k = choose|k: int| 0 <= k < pre.len() && #[trigger] pre[k].id@ == x;
                    assert forall|j: int| 0 <= j < k implies #[trigger] pre[j].id@ != x by {
                        if pre[j].id@ == x {
                            assert(j == k);
                        }
                    }
                    lemma_first_with_at(pre, x, k);
                    assert(old(self).val_of(x) == pre[k].value);
                    match idx {
                        Some(j) => {
                            assert(pre[j as int].id@ == id@);
                            assert(k != j as int);
                            let k2: int = if k < j { k } else { k - 1 };
                            if k > j { assert(mid[k - 1] == pre[k]); }
                            assert(post[k2] == pre[k]);
                            assert(0 <= k2 < post.len() - 1);
                            assert forall|j2: int| 0 <= j2 < k2
                                implies #[trigger] post[j2].id@ != x by {
                                let pj: int = if j2 < j { j2 } else { j2 + 1 };
                                if j2 >= j { assert(mid[j2] == pre[j2 + 1]); }
                                assert(post[j2] == pre[pj]);
                                assert(pj < k);
                                if pre[pj].id@ == x {
                                    assert(pj == k);
                                }
                            }
                            lemma_first_with_at(post, x, k2);
                            assert(final(self).val_of(x) == post[k2].value);
                        },
                        None => {
                            assert(post[k] == pre[k]);
                            assert(0 <= k < post.len() - 1);
                            assert forall|j2: int| 0 <= j2 < k
                                implies #[trigger] post[j2].id@ != x by {
                                assert(post[j2] == pre[j2]);
                            }
                            lemma_first_with_at(post, x, k);
                            assert(final(self).val_of(x) == post[k].value);
                        },
                    }
                }
            }
        }
    }

    /// The value filed under `id`, if any.
    pub fn get(&self, id: &String) -> (r: Option<&V>)
        ensures
            r is Some <==> self.ids().contains(id@),
            self.wf() ==> (r matches Some(v) ==> *v == self.val_of(id@)),
    {
        let mut i: usize = 0;
        while i < self.entries.len()
            invariant
                i <= self.entries@.len(),
                forall|k: int| 0 <= k < i ==> #[trigger] self.entries@[k].id@ != id@,
            decreases self.entries@.len() - i,
        {
            if self.entries[i].id == *id {
                proof {
                    if self.wf() {
                        lemma_first_with_at(self.entries@, id@, i as int);
                    }
                }
                return Some(&self.entries[i].value);
            }
            i = i + 1;
        }
        proof {
            if self.ids().contains(id@) {
                let k = choose|k: int| 0 <= k < self.entries@.len()
                    && #[trigger] self.entries@[k].id@ == id@;
            }
        }
        None
    }
}

/// The route table: source id to the node's relayer-side outbound queue.
pub type RouteTable = Table<tokio::sync::broadcast::Sender<BridgeMessage>>;

/// The public-key table: source id to the node's registered RSA key.
pub type PubKeyTable = Table<RsaPublicKey>;

// ---------------------------------------------------------------------------
// The verify-and-forward pipeline
// ---------------------------------------------------------------------------

/// What the relayer did with an accepted message.
pub enum Transferred {
    /// The message went out unchanged on its target's queue.
    Forwarded(BridgeMessage),
    /// The target was unknown; the message went back out on its sender's
    /// queue, annotated with an error.
    Bounced(BridgeMessage),
}

/// The routing verdict for an authenticated message, as the specification
/// sees it.
pub enum Verdict {
    Forwarded(BridgeView),
    Bounced(BridgeView),
    NoRoute,
}

/// Where an authenticated message goes, given the set of routed ids: to
/// its target if routed, else back to its sender with an error annotation
/// if the sender is routed, else nowhere.
pub open spec fn route_verdict(routes: Set<Seq<char>>, m: BridgeView) -> Verdict {
    if routes.contains(m.target_id()) {
        Verdict::Forwarded(m)
    } else if routes.contains(m.source_id()) {
        Verdict::Bounced(m.with_error_msg("can't find target"@))
    } else {
        Verdict::NoRoute
    }
}

pub(crate) proof fn lemma_neq_by_len(a: Seq<char>, b: Seq<char>)
    requires
        a.len() != b.len(),
    ensures
        a != b,
{
}

/// The pipeline's error strings are pairwise distinct, so each one names
/// its failure unambiguously.
proof fn lemma_error_strings_distinct()
    ensures
        "miss public key"@ != "miss signature"@,
        "miss public key"@ != "verify failed"@,
        "miss public key"@ != "relayer can't find both source and target"@,
        "miss signature"@ != "verify failed"@,
        "miss signature"@ != "relayer can't find both source and target"@,
        "verify failed"@ != "relayer can't find both source and target"@,
{
    reveal_strlit("miss public key");
    reveal_strlit("miss signature");
    reveal_strlit("verify failed");
    reveal_strlit("relayer can't find both source and target");
    assert("miss public key"@.len() == 15);
    assert("miss signature"@.len() == 14);
    assert("verify failed"@.len() == 13);
    assert("relayer can't find both source and target"@.len() == 41);
    lemma_neq_by_len("miss public key"@, "miss signature"@);
    lemma_neq_by_len("miss public key"@, "verify failed"@);
    lemma_neq_by_len("miss public key"@, "relayer can't find both source and target"@);
    lemma_neq_by_len("miss signature"@, "verify failed"@);
    lemma_neq_by_len("miss signature"@, "relayer can't find both source and target"@);
    lemma_neq_by_len("verify failed"@, "relayer can't find both source and target"@);
}

/// Check a message's signature against its sender's registered key: the
/// signature must be present and must verify over the sender's source id.
pub fn verify_signature(item: &BridgeMessage, public_key: Option<&RsaPublicKey>)
    -> (r: Result<(), String>)
    ensures
        (public_key is None) <==> (r matches Err(e) && e@ == "miss public key"@),
        (public_key is Some && item@.sig is None)
            <==> (r matches Err(e) && e@ == "miss signature"@),
        public_key is Some && item@.sig is Some ==> (r is Ok <==> rsa_verify_of(
            *public_key.unwrap(), sha256_of(item@.source_id()), item@.sig.unwrap())),
        r matches Err(e) ==> e@ == "miss public key"@ || e@ == "miss signature"@
            || e@ == "verify failed"@,
        r is Ok ==> public_key is Some && item@.sig is Some,
{
    proof {
        lemma_error_strings_distinct();
    }
    let public_key = match public_key {
        Some(k) => k,
        None => {
            return Err(String::from_str("miss public key"));
        },
    };
    let sig = match item.get_signature() {
        Some(s) => s,
        None => {
            return Err(String::from_str("miss signature"));
        },
    };
    let source_id = item.get_source_id();
    verify(source_id.as_str(), public_key, sig)
}

/// Route an authenticated message: forward it to its target's queue, or
/// bounce it back to its sender annotated `can't find target`, or report
/// that neither endpoint is known.
pub fn route_message(route_table: &RouteTable, parsed: BridgeMessage)
    -> (r: Result<Transferred, String>)
    ensures
        match r {
            Ok(Transferred::Forwarded(f)) =>
                route_verdict(route_table.ids(), parsed@) == Verdict::Forwarded(f@),
            Ok(Transferred::Bounced(b)) =>
                route_verdict(route_table.ids(), parsed@) == Verdict::Bounced(b@),
            Err(e) => e@ == "relayer can't find both source and target"@
                && route_verdict(route_table.ids(), parsed@) is NoRoute,
        },
{
    let mut parsed = parsed;
    let target_id = parsed.get_target_id();
    let source_id = parsed.get_source_id();
    match route_table.get(&target_id) {
        Some(sender) => {
            let out = parsed.clone();
            channel_send(sender, out);
            Ok(Transferred::Forwarded(parsed))
        },
        None => {
            match route_table.get(&source_id) {
                Some(sender) => {
                    parsed.error_msg = Some(String::from_str("can't find target"));
                    let out = parsed.clone();
                    channel_send(sender, out);
                    Ok(Transferred::Bounced(parsed))
                },
                None => Err(String::from_str("relayer can't find both source and target")),
            }
        },
    }
}

/// The whole per-message pipeline: authenticate, then route.
///
/// The message is routed only when its signature was checked against the
/// sender's registered key; everything after that check is pinned by
/// `route_verdict`.
pub fn transfer_msg(route_table: &RouteTable, pub_keys: &PubKeyTable, parsed: BridgeMessage)
    -> (r: Result<Transferred, String>)
    ensures
        (!pub_keys.ids().contains(parsed@.source_id()))
            <==> (r matches Err(e) && e@ == "miss public key"@),
        (pub_keys.ids().contains(parsed@.source_id()) && parsed@.sig is None)
            <==> (r matches Err(e) && e@ == "miss signature"@),
        pub_keys.ids().contains(parsed@.source_id()) && parsed@.sig is Some ==> match r {
            Ok(Transferred::Forwarded(f)) =>
                route_verdict(route_table.ids(), parsed@) == Verdict::Forwarded(f@),
            Ok(Transferred::Bounced(b)) =>
                route_verdict(route_table.ids(), parsed@) == Verdict::Bounced(b@),
            Err(e) => e@ == "verify failed"@
                || (e@ == "relayer can't find both source and target"@
                    && route_verdict(route_table.ids(), parsed@) is NoRoute),
        },
        r is Ok ==> pub_keys.ids().contains(parsed@.source_id()) && parsed@.sig is Some,
        pub_keys.wf() && pub_keys.ids().contains(parsed@.source_id()) && parsed@.sig is Some
            ==> ({
            let ok = rsa_verify_of(pub_keys.val_of(parsed@.source_id()),
                sha256_of(parsed@.source_id()), parsed@.sig.unwrap());
            &&& ((!ok) <==> (r matches Err(e) && e@ == "verify failed"@))
            &&& (ok ==> match r {
                Ok(Transferred::Forwarded(f)) =>
                    route_verdict(route_table.ids(), parsed@) == Verdict::Forwarded(f@),
                Ok(Transferred::Bounced(b)) =>
                    route_verdict(route_table.ids(), parsed@) == Verdict::Bounced(b@),
                Err(e) => e@ == "relayer can't find both source and target"@
                    && route_verdict(route_table.ids(), parsed@) is NoRoute,
            })
        }),
{
    proof {
        lemma_error_strings_distinct();
    }
    let source_id = parsed.get_source_id();
    match verify_signature(&parsed, pub_keys.get(&source_id)) {
        Ok(()) => {},
        Err(e) => {
            return Err(e);
        },
    }
    route_message(route_table, parsed)
}

// ---------------------------------------------------------------------------
// The relayer's observable states
// ---------------------------------------------------------------------------

/// The central switchboard. Fresh from `new` it holds nothing; `launch`
/// installs the two tables and the registration endpoint; afterwards it
/// accepts registrations and transfers messages.
pub struct Relayer {
    route_table: Option<RouteTable>,
    pub_keys: Option<PubKeyTable>,
    register: Option<tokio::sync::mpsc::Sender<RegisterInfo>>,
}

impl Relayer {
    pub closed spec fn routes_live(self) -> bool {
        self.route_table is Some
    }

    pub closed spec fn keys_live(self) -> bool {
        self.pub_keys is Some
    }

    pub closed spec fn register_live(self) -> bool {
        self.register is Some
    }

    /// Ready means: both tables and the registration endpoint are in place.
    pub open spec fn spec_ready(self) -> bool {
        self.routes_live() && self.keys_live() && self.register_live()
    }

    /// The ids with a routed outbound queue.
    pub closed spec fn route_ids(self) -> Set<Seq<char>> {
        match self.route_table {
            Some(t) => t.ids(),
            None => Set::empty(),
        }
    }

    /// The ids with a registered public key.
    pub closed spec fn key_ids(self) -> Set<Seq<char>> {
        match self.pub_keys {
            Some(t) => t.ids(),
            None => Set::empty(),
        }
    }

    /// The two tables list exactly the same ids: every fully registered
    /// node is routed if and only if its key is on file.
    pub open spec fn tables_agree(self) -> bool {
        self.route_ids() == self.key_ids()
    }

    /// Both tables hold at most one entry per id: what `launch` makes and
    /// every registration keeps.
    pub closed spec fn tables_wf(self) -> bool {
        &&& match self.route_table {
            Some(t) => t.wf(),
            None => true,
        }
        &&& match self.pub_keys {
            Some(t) => t.wf(),
            None => true,
        }
    }

    /// The public key filed under an id (meaningful when the id is filed).
    pub closed spec fn key_of(self, id: Seq<char>) -> RsaPublicKey {
        self.pub_keys.unwrap().val_of(id)
    }

    pub fn new() -> (r: Relayer)
        ensures
            !r.routes_live(),
            !r.keys_live(),
            !r.register_live(),
    {
        Relayer { route_table: None, pub_keys: None, register: None }
    }

    /// Install empty tables and the registration endpoint whose receiving
    /// end the surrounding runtime drains.
    pub fn launch(&mut self, register: tokio::sync::mpsc::Sender<RegisterInfo>)
        ensures
            final(self).spec_ready(),
            final(self).route_ids() == Set::<Seq<char>>::empty(),
            final(self).key_ids() == Set::<Seq<char>>::empty(),
            final(self).tables_agree(),
            final(self).tables_wf(),
    {
        self.route_table = Some(Table::new());
        self.pub_keys = Some(Table::new());
        self.register = Some(register);
    }

    /// Whether all three internal handles are populated.
    pub fn is_ready(&self) -> (r: bool)
        ensures
            r == self.spec_ready(),
    {
        match self.route_table {
            None => {
                return false;
            },
            _ => (),
        }
        match self.pub_keys {
            None => {
                return false;
            },
            _ => (),
        }
        match self.register {
            None => {
                return false;
            },
            _ => (),
        }
        true
    }

    /// File a registering node's public key under its source id, once both
    /// the key table and the registration endpoint stand; a failed
    /// registration retains nothing. The caller then hands the
    /// registration on to the connection listener.
    pub fn register_node(&mut self, register_info: RegisterInfo, pub_key: RsaPublicKey)
        -> (r: Result<(), String>)
        ensures
            r is Ok <==> old(self).keys_live() && old(self).register_live(),
            r is Err ==> *final(self) == *old(self),
            !old(self).keys_live() ==> (r matches Err(e) ==> e@ == "relayer not ready"@),
            old(self).keys_live() && !old(self).register_live()
                ==> (r matches Err(e) ==> e@ == "register not exist"@),
            r is Ok ==> final(self).key_ids()
                == old(self).key_ids().insert(register_info.name@ + register_info.group@),
            r is Ok && old(self).tables_wf() ==> final(self).tables_wf()
                && final(self).key_of(register_info.name@ + register_info.group@) == pub_key
                && (forall|x: Seq<char>| old(self).key_ids().contains(x)
                    && x != register_info.name@ + register_info.group@
                    ==> #[trigger] final(self).key_of(x) == old(self).key_of(x)),
            final(self).route_ids() == old(self).route_ids(),
            final(self).routes_live() == old(self).routes_live(),
            final(self).keys_live() == old(self).keys_live(),
            final(self).register_live() == old(self).register_live(),
    {
        proof {
            reveal_strlit("relayer not ready");
            reveal_strlit("register not exist");
        }
        match &self.pub_keys {
            Some(_) => {},
            None => {
                return Err(String::from_str("relayer not ready"));
            },
        }
        match &self.register {
            Some(_register) => {},
            None => {
                return Err(String::from_str("register not exist"));
            },
        }
        let source_id = register_info.get_source_id();
        match &mut self.pub_keys {
            Some(pub_key_map) => {
                pub_key_map.insert(source_id, pub_key);
            },
            None => {
                proof {
                    assert(false);
                }
            },
        }
        Ok(())
    }

    /// File a connected node's outbound queue under its source id. The
    /// caller does this once its connection to the node stands.
    pub fn install_route(
        &mut self,
        id: String,
        sender: tokio::sync::broadcast::Sender<BridgeMessage>,
    ) -> (r: Result<(), String>)
        ensures
            r is Ok <==> old(self).routes_live(),
            !old(self).routes_live() ==> (r matches Err(e) ==> e@ == "relayer not ready"@)
                && *final(self) == *old(self),
            old(self).routes_live() ==> final(self).route_ids()
                == old(self).route_ids().insert(id@),
            old(self).tables_wf() ==> final(self).tables_wf(),
            final(self).key_ids() == old(self).key_ids(),
            forall|x: Seq<char>| #[trigger] final(self).key_of(x) == old(self).key_of(x),
            final(self).routes_live() == old(self).routes_live(),
            final(self).keys_live() == old(self).keys_live(),
            final(self).register_live() == old(self).register_live(),
    {
        proof {
            reveal_strlit("relayer not ready");
        }
        match &mut self.route_table {
            Some(table) => {
                table.insert(id, sender);
                Ok(())
            },
            None => Err(String::from_str("relayer not ready")),
        }
    }

    /// Run one message through the verify-and-forward pipeline.
    pub fn transfer(&self, parsed: BridgeMessage) -> (r: Result<Transferred, String>)
        ensures
            !self.spec_ready() ==> (r matches Err(e) && e@ == "relayer not ready"@),
            self.spec_ready() ==> (
                (!self.key_ids().contains(parsed@.source_id()))
                    <==> (r matches Err(e) && e@ == "miss public key"@)),
            self.spec_ready() ==> (
                (self.key_ids().contains(parsed@.source_id()) && parsed@.sig is None)
                    <==> (r matches Err(e) && e@ == "miss signature"@)),
            self.spec_ready() && self.key_ids().contains(parsed@.source_id())
                && parsed@.sig is Some ==> match r {
                Ok(Transferred::Forwarded(f)) =>
                    route_verdict(self.route_ids(), parsed@) == Verdict::Forwarded(f@),
                Ok(Transferred::Bounced(b)) =>
                    route_verdict(self.route_ids(), parsed@) == Verdict::Bounced(b@),
                Err(e) => e@ == "verify failed"@
                    || (e@ == "relayer can't find both source and target"@
                        && route_verdict(self.route_ids(), parsed@) is NoRoute),
            },
            r is Ok ==> self.key_ids().contains(parsed@.source_id()) && parsed@.sig is Some,
            self.spec_ready() && self.tables_wf()
                && self.key_ids().contains(parsed@.source_id()) && parsed@.sig is Some
                ==> ({
                let ok = rsa_verify_of(self.key_of(parsed@.source_id()),
                    sha256_of(parsed@.source_id()), parsed@.sig.unwrap());
                &&& ((!ok) <==> (r matches Err(e) && e@ == "verify failed"@))
                &&& (ok ==> match r {
                    Ok(Transferred::Forwarded(f)) =>
                        route_verdict(self.route_ids(), parsed@) == Verdict::Forwarded(f@),
                    Ok(Transferred::Bounced(b)) =>
                        route_verdict(self.route_ids(), parsed@) == Verdict::Bounced(b@),
                    Err(e) => e@ == "relayer can't find both source and target"@
                        && route_verdict(self.route_ids(), parsed@) is NoRoute,
                })
            }),
    {
        proof {
            reveal_strlit("relayer not ready");
        }
        match (&self.route_table, &self.pub_keys, &self.register) {
            (Some(route_table), Some(pub_keys), Some(_)) => {
                transfer_msg(route_table, pub_keys, parsed)
            },
            _ => Err(String::from_str("relayer not ready")),
        }
    }
}

// ---------------------------------------------------------------------------
// Laws of the pipeline
// ---------------------------------------------------------------------------

/// Every message the routing stage emits is accounted for: a forwarded
/// message is the authenticated original, unchanged, bound for its routed
/// target; a bounced message differs from the original only in its error
/// annotation, reads `can't find target`, and goes out on the queue of the
/// original's sender. Nothing else ever leaves the relayer.
pub proof fn lemma_outbound_accounted(routes: Set<Seq<char>>, m: BridgeView)
    ensures
        route_verdict(routes, m) matches Verdict::Forwarded(f) ==>
            f == m && routes.contains(m.target_id()),
        route_verdict(routes, m) matches Verdict::Bounced(b) ==>
            b.error_msg == Some("can't find target"@)
                && b.source_id() == m.source_id()
                && b.target_id() == m.target_id()
                && b.from_name == m.from_name && b.from_group == m.from_group
                && b.to_name == m.to_name && b.to_group == m.to_group
                && b.message == m.message && b.sig == m.sig
                && !routes.contains(m.target_id())
                && routes.contains(m.source_id()),
        route_verdict(routes, m) is NoRoute ==>
            !routes.contains(m.target_id()) && !routes.contains(m.source_id()),
{
}

/// Self-send: a message a node addresses to itself names one id as both
/// source and target. When that id is routed, the verdict forwards the
/// message, unchanged, to the node that sent it.
pub proof fn lemma_self_send(routes: Set<Seq<char>>, m: BridgeView)
    requires
        m.from_name == m.to_name,
        m.from_group == m.to_group,
        routes.contains(m.source_id()),
    ensures
        route_verdict(routes, m) == Verdict::Forwarded(m),
{
    assert(m.target_id() == m.source_id());
}

/// A full registration files one id in the key table and then in the
/// route table. Tables that listed the same ids before list the same ids
/// after, with the new id in both: a node is routed if and only if its key
/// is on file.
pub proof fn lemma_full_registration(pre: Relayer, mid: Relayer, post: Relayer, id: Seq<char>)
    requires
        pre.tables_agree(),
        mid.key_ids() == pre.key_ids().insert(id),
        mid.route_ids() == pre.route_ids(),
        post.route_ids() == mid.route_ids().insert(id),
        post.key_ids() == mid.key_ids(),
    ensures
        post.tables_agree(),
        post.key_ids().contains(id),
        post.route_ids().contains(id),
{
    assert(post.route_ids() =~= post.key_ids());
}

} // verus!
