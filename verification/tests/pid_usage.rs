use fo_proto_format::errors::ProtoError;
use fo_proto_format::pid_usage::Proto;

#[test]
fn accumulates_used_identifiers() {
    let mut p = Proto::default();
    p.inner.insert().unwrap();
    p.inner.directive(b"ProtoId", Some(b"2007")).unwrap();
    p.inner.directive(b"Type", Some(b"3")).unwrap();
    p.inner.directive(b"Weight", Some(b"50")).unwrap();
    p.inner.insert().unwrap();
    p.inner.directive(b"Type", Some(b"1")).unwrap();
    p.inner.directive(b"ProtoId", Some(b"9")).unwrap();
    p.inner.insert().unwrap();
    let used = p._used();
    assert_eq!(used.keys, vec![9, 2007]);
    assert_eq!(used.vals, vec![1, 3]);
}

#[test]
fn two_identifiers_in_one_section() {
    let mut p = Proto::new();
    p.inner.directive(b"ProtoId", Some(b"5")).unwrap();
    assert_eq!(
        p.inner.directive(b"ProtoId", Some(b"6")),
        Err(ProtoError::DuplicateField)
    );
}

#[test]
fn record_without_identifier_or_type() {
    let mut p = Proto::new();
    p.inner.directive(b"Type", Some(b"3")).unwrap();
    assert_eq!(p.inner.insert(), Err(ProtoError::IncompleteRecord));
    let mut q = Proto::new();
    q.inner.directive(b"ProtoId", Some(b"5")).unwrap();
    assert_eq!(q.inner.insert(), Err(ProtoError::IncompleteRecord));
}

#[test]
fn repeated_identifier_collides() {
    let mut p = Proto::new();
    p.inner.directive(b"ProtoId", Some(b"5")).unwrap();
    p.inner.directive(b"Type", Some(b"1")).unwrap();
    p.inner.insert().unwrap();
    p.inner.directive(b"ProtoId", Some(b"5")).unwrap();
    p.inner.directive(b"Type", Some(b"2")).unwrap();
    assert_eq!(
        p.inner.insert(),
        Err(ProtoError::IdentifierCollision { pid: 5 })
    );
}

#[test]
fn malformed_directive_value() {
    let mut p = Proto::new();
    assert_eq!(
        p.inner.directive(b"ProtoId", Some(b"many")),
        Err(ProtoError::DecodeMismatch)
    );
    assert_eq!(
        p.inner.directive(b"Type", None),
        Err(ProtoError::DecodeMismatch)
    );
}
