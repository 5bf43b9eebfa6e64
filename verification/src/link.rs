//! The unicast-link data model: what a link reports about itself, the
//! identity two link values are compared by, the authenticated identity a
//! link carries, and the listener bookkeeping of a link manager.
//!
//! A link is a duplex byte channel between two opaque locators. Its
//! equality is deliberately weak: two link values are the same link exactly
//! when their (source, destination) endpoints coincide, whatever their MTU,
//! reliability or other attributes say — that lets a link reached through a
//! listener-accept path be deduplicated against one reached through an
//! explicit connect. The transport I/O itself lives outside this crate;
//! here lives everything that can be stated about the values.

use vstd::prelude::*;
use vstd::std_specs::cmp::PartialEqSpec;

verus! {

/// Failure in the link layer's bookkeeping.
#[derive(Clone, Copy, PartialEq, Eq, Structural, Debug)]
pub enum LinkError {
    /// The endpoint is not registered: deleting a listener nobody bound is
    /// an error, never a silent success.
    NotFound,
    /// The endpoint is already registered.
    AlreadyExists,
}

/// The authenticated identity attached to a link, as the policy layer
/// consumes it: absence of both fields means "unauthenticated".
#[derive(Clone, Debug, Hash, PartialEq, Eq)]
pub struct AuthIdentifier {
    pub username: Option<String>,
    pub tls_cert_name: Option<String>,
}

impl AuthIdentifier {
    /// An unauthenticated identity: no credential of any kind.
    pub fn unauthenticated() -> (r: AuthIdentifier)
        ensures
            r.username is None,
            r.tls_cert_name is None,
    {
        AuthIdentifier { username: None, tls_cert_name: None }
    }
}

/// The kind of credential a link presented during its handshake.
#[derive(Clone, Copy, PartialEq, Eq, Structural, Debug)]
pub enum AuthIdType {
    Unauthenticated,
    Tls,
    Username,
}

/// A link's credential: its kind, and the value (certificate common name
/// or user name) for the kinds that carry one. Set once during the
/// handshake, immutable afterwards.
pub struct AuthId {
    pub auth_type: AuthIdType,
    pub auth_value: Option<String>,
}

impl AuthId {
    /// An identity without a kind carries no value.
    pub open spec fn wf(&self) -> bool {
        self.auth_type == AuthIdType::Unauthenticated ==> self.auth_value is None
    }

    /// A fresh builder with nothing set.
    pub fn builder() -> (b: AuthIdBuilder)
        ensures
            b.auth_type is None,
            b.auth_value is None,
    {
        AuthIdBuilder { auth_type: None, auth_value: None }
    }

    /// The kind of this credential.
    pub fn get_type(&self) -> (t: AuthIdType)
        ensures
            t == self.auth_type,
    {
        self.auth_type
    }

    /// The credential's value, to be matched against access-control rules.
    pub fn get_value(&self) -> (v: &Option<String>)
        ensures
            v == &self.auth_value,
    {
        &self.auth_value
    }

    /// The policy-layer identifier this credential stands for: the value
    /// lands in the field its kind selects, the other stays empty.
    pub fn into_identifier(self) -> (r: AuthIdentifier)
        ensures
            r.username == (if self.auth_type == AuthIdType::Username {
                self.auth_value
            } else {
                None::<String>
            }),
            r.tls_cert_name == (if self.auth_type == AuthIdType::Tls {
                self.auth_value
            } else {
                None::<String>
            }),
    {
        match self.auth_type {
            AuthIdType::Username => AuthIdentifier { username: self.auth_value, tls_cert_name: None },
            AuthIdType::Tls => AuthIdentifier { username: None, tls_cert_name: self.auth_value },
            AuthIdType::Unauthenticated => AuthIdentifier { username: None, tls_cert_name: None },
        }
    }
}

/// Builds an [`AuthId`] step by step, for handshakes that learn the kind
/// and the value at different times.
pub struct AuthIdBuilder {
    pub auth_type: Option<AuthIdType>,
    pub auth_value: Option<String>,
}

impl AuthIdBuilder {
    /// A fresh builder with nothing set.
    pub fn new() -> (b: AuthIdBuilder)
        ensures
            b.auth_type is None,
            b.auth_value is None,
    {
        AuthIdBuilder { auth_type: None, auth_value: None }
    }

    /// Sets the credential kind.
    pub fn id_type(self, auth_id_type: AuthIdType) -> (b: AuthIdBuilder)
        ensures
            b.auth_type == Some(auth_id_type),
            b.auth_value == self.auth_value,
    {
        AuthIdBuilder { auth_type: Some(auth_id_type), auth_value: self.auth_value }
    }

    /// Sets the credential value.
    pub fn value(self, auth_id_value: String) -> (b: AuthIdBuilder)
        ensures
            b.auth_type == self.auth_type,
            b.auth_value == Some(auth_id_value),
    {
        AuthIdBuilder { auth_type: self.auth_type, auth_value: Some(auth_id_value) }
    }

    /// The finished credential: an unset kind means no identity, and a
    /// kind that carries no value drops any value set by mistake.
    pub fn build(self) -> (id: AuthId)
        ensures
            id.auth_type == (match self.auth_type {
                Some(t) => t,
                None => AuthIdType::Unauthenticated,
            }),
            id.auth_value == (if (match self.auth_type {
                Some(t) => t,
                None => AuthIdType::Unauthenticated,
            }) == AuthIdType::Unauthenticated {
                None::<String>
            } else {
                self.auth_value
            }),
            id.wf(),
    {
        let t = match self.auth_type {
            Some(t) => t,
            None => AuthIdType::Unauthenticated,
        };
        let v = if t == AuthIdType::Unauthenticated {
            None
        } else {
            self.auth_value
        };
        AuthId { auth_type: t, auth_value: v }
    }
}

/// What one credential contributes to a link's policy subjects: the value
/// of a certificate credential, nothing otherwise.
pub open spec fn subject_of(a: AuthId) -> Seq<Seq<char>> {
    if a.auth_type == AuthIdType::Tls && a.auth_value is Some {
        seq![a.auth_value->0@]
    } else {
        Seq::<Seq<char>>::empty()
    }
}

/// The subjects contributed by the credentials from index `i` on.
pub open spec fn subjects_from(s: Seq<AuthId>, i: int) -> Seq<Seq<char>>
    decreases s.len() - i,
{
    if i < 0 || i >= s.len() {
        Seq::<Seq<char>>::empty()
    } else {
        subject_of(s[i]) + subjects_from(s, i + 1)
    }
}

/// The subject names the policy layer matches access rules against: the
/// certificate common names among a link's credentials, in order. Other
/// credential kinds contribute no subject.
pub fn subject_names(ids: &Vec<AuthId>) -> (v: Vec<String>)
    ensures
        v@.map_values(|s: String| s@) == subjects_from(ids@, 0),
{
    let mut v: Vec<String> = Vec::new();
    let mut i: usize = 0;
    proof {
        assert(v@.map_values(|s: String| s@) =~= Seq::<Seq<char>>::empty());
    }
    while i < ids.len()
        invariant
            i <= ids@.len(),
            subjects_from(ids@, 0) == v@.map_values(|s: String| s@)
                + subjects_from(ids@, i as int),
        decreases ids@.len() - i,
    {
        let ghost vpre = v@;
        if ids[i].auth_type == AuthIdType::Tls {
            match &ids[i].auth_value {
                Some(name) => {
                    v.push(name.clone());
                    proof {
                        assert(v@.map_values(|s: String| s@)
                            =~= vpre.map_values(|s: String| s@) + subject_of(ids@[i as int]));
                    }
                },
                None => {
                    proof {
                        assert(v@.map_values(|s: String| s@)
                            =~= vpre.map_values(|s: String| s@) + subject_of(ids@[i as int]));
                    }
                },
            }
        } else {
            proof {
                assert(v@.map_values(|s: String| s@)
                    =~= vpre.map_values(|s: String| s@) + subject_of(ids@[i as int]));
            }
        }
        i = i + 1;
        proof {
            assert(subjects_from(ids@, 0) =~= v@.map_values(|s: String| s@)
                + subjects_from(ids@, i as int));
        }
    }
    proof {
        assert(subjects_from(ids@, i as int) =~= Seq::<Seq<char>>::empty());
        assert(subjects_from(ids@, 0) =~= v@.map_values(|s: String| s@));
    }
    v
}

/// The endpoint pair that identifies a link.
#[derive(Clone, Debug, Hash, PartialEq, Eq)]
pub struct LinkId {
    pub src: String,
    pub dst: String,
}

/// What a unicast link reports about itself: the capability set every
/// transport backend implements. The core never branches on a concrete
/// transport kind, only on these attributes (a non-streamed link needs the
/// caller to impose message boundaries; a streamed one preserves them).
pub struct LinkUnicast {
    pub src: String,
    pub dst: String,
    pub mtu: u16,
    pub reliable: bool,
    pub streamed: bool,
    pub interfaces: Vec<String>,
    pub auth: AuthIdentifier,
}

impl LinkUnicast {
    /// The endpoint pair equality and hashing go by.
    pub open spec fn spec_identity(&self) -> (Seq<char>, Seq<char>) {
        (self.src@, self.dst@)
    }

    pub fn get_mtu(&self) -> (m: u16)
        ensures
            m == self.mtu,
    {
        self.mtu
    }

    pub fn get_src(&self) -> (s: &String)
        ensures
            s == &self.src,
    {
        &self.src
    }

    pub fn get_dst(&self) -> (d: &String)
        ensures
            d == &self.dst,
    {
        &self.dst
    }

    pub fn is_reliable(&self) -> (b: bool)
        ensures
            b == self.reliable,
    {
        self.reliable
    }

    pub fn is_streamed(&self) -> (b: bool)
        ensures
            b == self.streamed,
    {
        self.streamed
    }

    pub fn get_interface_names(&self) -> (v: &Vec<String>)
        ensures
            v == &self.interfaces,
    {
        &self.interfaces
    }

    pub fn get_auth_identifier(&self) -> (a: &AuthIdentifier)
        ensures
            a == &self.auth,
    {
        &self.auth
    }

    /// The pair this link is identified, deduplicated and hashed by.
    pub fn identity(&self) -> (id: LinkId)
        ensures
            id.src@ == self.src@,
            id.dst@ == self.dst@,
    {
        LinkId { src: self.src.clone(), dst: self.dst.clone() }
    }
}

impl PartialEq for LinkUnicast {
    /// Two links are equal exactly when their endpoints coincide.
    fn eq(&self, other: &LinkUnicast) -> (r: bool) {
        self.src == other.src && self.dst == other.dst
    }
}

impl vstd::std_specs::cmp::PartialEqSpecImpl for LinkUnicast {
    open spec fn obeys_eq_spec() -> bool {
        true
    }

    open spec fn eq_spec(&self, other: &LinkUnicast) -> bool {
        self.spec_identity() == other.spec_identity()
    }
}

impl Eq for LinkUnicast {}

/// Link identity: two link values built over the same (source,
/// destination) endpoints are the same link — they compare equal and their
/// identity pairs coincide — whatever their MTU, reliability, streaming
/// mode, interfaces or authentication say.
pub proof fn lemma_link_identity(a: LinkUnicast, b: LinkUnicast)
    requires
        a.src@ == b.src@,
        a.dst@ == b.dst@,
    ensures
        PartialEqSpec::eq_spec(&a, &b),
        a.spec_identity() == b.spec_identity(),
{
}

/// The listener bookkeeping of a link manager: which endpoints it is bound
/// on. Endpoints are held as opaque locator strings, each at most once.
pub struct ListenerRegistry {
    eps: Vec<String>,
}

impl ListenerRegistry {
    /// The endpoints currently bound, in binding order.
    pub closed spec fn view(&self) -> Seq<Seq<char>> {
        self.eps@.map_values(|e: String| e@)
    }

    /// No endpoint is bound twice.
    pub open spec fn wf(&self) -> bool {
        forall|i: int, j: int| 0 <= i < j < self@.len() ==> self@[i] != self@[j]
    }

    pub fn new() -> (r: ListenerRegistry)
        ensures
            r.wf(),
            r@ == Seq::<Seq<char>>::empty(),
    {
        let r = ListenerRegistry { eps: Vec::new() };
        proof {
            assert(r@ =~= Seq::<Seq<char>>::empty());
        }
        r
    }

    /// Whether `endpoint` is bound.
    pub fn has_listener(&self, endpoint: &String) -> (r: bool)
        ensures
            r == self@.contains(endpoint@),
    {
        let mut i: usize = 0;
        while i < self.eps.len()
            invariant
                i <= self.eps@.len(),
                self@.len() == self.eps@.len(),
                forall|k: int| 0 <= k < i ==> self@[k] != endpoint@,
                forall|k: int| 0 <= k < self.eps@.len() ==> self@[k] == self.eps@[k]@,
            decreases self.eps@.len() - i,
        {
            if self.eps[i] == *endpoint {
                proof {
                    assert(self@[i as int] == endpoint@);
                }
                return true;
            }
            i = i + 1;
        }
        proof {
            assert(forall|k: int| 0 <= k < self@.len() ==> self@[k] != endpoint@);
        }
        false
    }

    /// Binds a new listener; rejects an endpoint that is already bound, so
    /// the registry stays duplicate-free.
    pub fn add_listener(&mut self, endpoint: String) -> (r: Result<(), LinkError>)
        requires
            old(self).wf(),
        ensures
            final(self).wf(),
            match r {
                Ok(()) => !old(self)@.contains(endpoint@)
                    && final(self)@ == old(self)@.push(endpoint@),
                Err(e) => e == LinkError::AlreadyExists
                    && old(self)@.contains(endpoint@)
                    && final(self)@ == old(self)@,
            },
    {
        if self.has_listener(&endpoint) {
            return Err(LinkError::AlreadyExists);
        }
        self.eps.push(endpoint);
        proof {
            assert(self@ =~= old(self)@.push(endpoint@));
        }
        Ok(())
    }

    /// Removes a bound listener; an endpoint nobody listens on fails with
    /// a not-found error rather than succeeding silently, since silent
    /// success would mask configuration errors.
    pub fn del_listener(&mut self, endpoint: &String) -> (r: Result<(), LinkError>)
        requires
            old(self).wf(),
        ensures
            final(self).wf(),
            match r {
                Ok(()) => old(self)@.contains(endpoint@)
                    && !final(self)@.contains(endpoint@)
                    && final(self)@.len() == old(self)@.len() - 1,
                Err(e) => e == LinkError::NotFound
                    && !old(self)@.contains(endpoint@)
                    && final(self)@ == old(self)@,
            },
    {
        let mut i: usize = 0;
        while i < self.eps.len()
            invariant
                self == old(self),
                old(self).wf(),
                i <= self.eps@.len(),
                self@.len() == self.eps@.len(),
                forall|k: int| 0 <= k < i ==> self@[k] != endpoint@,
                forall|k: int| 0 <= k < self.eps@.len() ==> self@[k] == self.eps@[k]@,
            decreases self.eps@.len() - i,
        {
            if self.eps[i] == *endpoint {
                self.eps.remove(i);
                proof {
                    assert(self@ =~= old(self)@.subrange(0, i as int)
                        + old(self)@.subrange(i as int + 1, old(self)@.len() as int));
                    assert(old(self)@[i as int] == endpoint@);
                    assert forall|k: int| 0 <= k < self@.len() implies self@[k] != endpoint@ by {
                        if k < i {
                            assert(self@[k] == old(self)@[k]);
                        } else {
                            assert(self@[k] == old(self)@[k + 1]);
                            assert(old(self)@[k + 1] != old(self)@[i as int]);
                        }
                    }
                    assert forall|a: int, b: int| 0 <= a < b < self@.len()
                        implies self@[a] != self@[b] by {
                        let a2: int = if a < i { a } else { a + 1 };
                        let b2: int = if b < i { b } else { b + 1 };
                        assert(self@[a] == old(self)@[a2]);
                        assert(self@[b] == old(self)@[b2]);
                    }
                }
                return Ok(());
            }
            i = i + 1;
        }
        proof {
            assert(forall|k: int| 0 <= k < self@.len() ==> self@[k] != endpoint@);
        }
        Err(LinkError::NotFound)
    }

    /// The endpoints currently bound.
    pub fn get_listeners(&self) -> (v: &Vec<String>)
        ensures
            v@.map_values(|e: String| e@) == self@,
    {
        &self.eps
    }
}

} // verus!
