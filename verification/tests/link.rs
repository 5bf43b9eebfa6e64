use std::collections::hash_map::DefaultHasher;
use std::hash::{Hash, Hasher};

use zenoh_wire::link::{
    subject_names, AuthId, AuthIdBuilder, AuthIdType, AuthIdentifier, LinkError, LinkUnicast,
    ListenerRegistry,
};

fn hash_of<T: Hash>(value: &T) -> u64 {
    let mut h = DefaultHasher::new();
    value.hash(&mut h);
    h.finish()
}

fn link(src: &str, dst: &str, mtu: u16, reliable: bool, streamed: bool) -> LinkUnicast {
    LinkUnicast {
        src: src.to_string(),
        dst: dst.to_string(),
        mtu,
        reliable,
        streamed,
        interfaces: vec!["eth0".to_string()],
        auth: AuthIdentifier { username: None, tls_cert_name: None },
    }
}

#[test]
fn link_identity_ignores_attributes() {
    // same endpoints, different MTU/reliability/streaming: the same link
    let a = link("tcp/10.0.0.1:7447", "tcp/10.0.0.2:7447", 1500, true, true);
    let b = link("tcp/10.0.0.1:7447", "tcp/10.0.0.2:7447", 9000, false, false);
    assert!(a == b);
    assert_eq!(hash_of(&a.identity()), hash_of(&b.identity()));
    assert_eq!(a.identity(), b.identity());
}

#[test]
fn link_identity_distinguishes_endpoints() {
    let a = link("tcp/10.0.0.1:7447", "tcp/10.0.0.2:7447", 1500, true, true);
    let c = link("tcp/10.0.0.1:7447", "tcp/10.0.0.3:7447", 1500, true, true);
    assert!(a != c);
    assert_ne!(a.identity(), c.identity());
}

#[test]
fn link_reports_its_attributes() {
    let a = link("udp/h1:1", "udp/h2:2", 1472, false, false);
    assert_eq!(a.get_mtu(), 1472);
    assert_eq!(a.get_src(), "udp/h1:1");
    assert_eq!(a.get_dst(), "udp/h2:2");
    assert!(!a.is_reliable());
    assert!(!a.is_streamed());
    assert_eq!(a.get_interface_names(), &vec!["eth0".to_string()]);
    assert!(a.get_auth_identifier().username.is_none());
}

#[test]
fn auth_id_builder_username() {
    let id = AuthId::builder()
        .id_type(AuthIdType::Username)
        .value("alice".to_string())
        .build();
    assert!(matches!(id.get_type(), AuthIdType::Username));
    assert_eq!(id.get_value().as_deref(), Some("alice"));
    let ident = id.into_identifier();
    assert_eq!(ident.username.as_deref(), Some("alice"));
    assert!(ident.tls_cert_name.is_none());
}

#[test]
fn auth_id_builder_tls() {
    let id = AuthIdBuilder::new()
        .id_type(AuthIdType::Tls)
        .value("CN=server".to_string())
        .build();
    assert!(matches!(id.get_type(), AuthIdType::Tls));
    let ident = id.into_identifier();
    assert!(ident.username.is_none());
    assert_eq!(ident.tls_cert_name.as_deref(), Some("CN=server"));
}

#[test]
fn auth_id_without_kind_is_unauthenticated() {
    // a value set without a kind is dropped: no kind, no identity
    let id = AuthIdBuilder::new().value("stray".to_string()).build();
    assert!(matches!(id.get_type(), AuthIdType::Unauthenticated));
    assert!(id.get_value().is_none());
    let ident = id.into_identifier();
    assert!(ident.username.is_none() && ident.tls_cert_name.is_none());
    assert_eq!(ident, AuthIdentifier::unauthenticated());
}

#[test]
fn listener_registry_bookkeeping() {
    let mut reg = ListenerRegistry::new();
    let ep1 = "tcp/0.0.0.0:7447".to_string();
    let ep2 = "udp/0.0.0.0:7447".to_string();
    assert!(reg.add_listener(ep1.clone()).is_ok());
    assert!(reg.add_listener(ep2.clone()).is_ok());
    assert_eq!(reg.add_listener(ep1.clone()), Err(LinkError::AlreadyExists));
    assert!(reg.has_listener(&ep1));
    assert_eq!(reg.get_listeners(), &vec![ep1.clone(), ep2.clone()]);
    assert_eq!(reg.del_listener(&ep1), Ok(()));
    assert!(!reg.has_listener(&ep1));
    // deleting an endpoint nobody listens on is not a silent success
    assert_eq!(reg.del_listener(&ep1), Err(LinkError::NotFound));
    assert_eq!(reg.get_listeners(), &vec![ep2.clone()]);
}

#[test]
fn subject_names_keep_certificate_names_only() {
    let ids = vec![
        AuthId { auth_type: AuthIdType::Username, auth_value: Some("alice".to_string()) },
        AuthId { auth_type: AuthIdType::Tls, auth_value: Some("CN=gateway".to_string()) },
        AuthId { auth_type: AuthIdType::Unauthenticated, auth_value: None },
        AuthId { auth_type: AuthIdType::Tls, auth_value: Some("CN=relay".to_string()) },
    ];
    let names = subject_names(&ids);
    assert_eq!(names, vec!["CN=gateway".to_string(), "CN=relay".to_string()]);
    assert_eq!(subject_names(&Vec::new()), Vec::<String>::new());
}
