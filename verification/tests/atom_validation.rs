use gate1::{Action, AtomRef, Error, OwnedAtom, Principal, Resource, MAX_ATOM_LEN};

#[test]
fn atom_rejects_uppercase_and_unicode() {
    assert!(matches!(
        AtomRef::new("Admin"),
        Err(Error::InvalidAtomChar { .. })
    ));
    assert!(matches!(
        AtomRef::new("münchen"),
        Err(Error::InvalidAtomChar { .. })
    ));
}

#[test]
fn atom_accepts_expected_characters() {
    let atom = AtomRef::new("svc.api/read:user-42").unwrap();
    assert_eq!(atom.as_str(), "svc.api/read:user-42");
}

#[test]
fn atom_reports_first_invalid_byte() {
    assert_eq!(
        AtomRef::new("Admin"),
        Err(Error::InvalidAtomChar { index: 0, byte: b'A' })
    );
    // 'ü' is encoded as 0xC3 0xBC; the first offending byte is at index 1.
    assert_eq!(
        AtomRef::new("münchen"),
        Err(Error::InvalidAtomChar { index: 1, byte: 0xc3 })
    );
    assert_eq!(
        AtomRef::new("user alice"),
        Err(Error::InvalidAtomChar { index: 4, byte: b' ' })
    );
    assert_eq!(
        AtomRef::new("ok:Bad!"),
        Err(Error::InvalidAtomChar { index: 3, byte: b'B' })
    );
}

#[test]
fn atom_rejects_empty_and_too_long() {
    assert_eq!(AtomRef::new(""), Err(Error::EmptyAtom));
    let longest = "a".repeat(MAX_ATOM_LEN);
    assert!(AtomRef::new(&longest).is_ok());
    let too_long = "a".repeat(MAX_ATOM_LEN + 1);
    assert_eq!(
        AtomRef::new(&too_long),
        Err(Error::AtomTooLong { limit: 64, actual: 65 })
    );
    // Length is checked before characters.
    let long_and_bad = "A".repeat(70);
    assert_eq!(
        OwnedAtom::new(&long_and_bad),
        Err(Error::AtomTooLong { limit: 64, actual: 70 })
    );
}

#[test]
fn typed_atoms_keep_their_bytes() {
    assert_eq!(Principal::new("user:alice").unwrap().as_atom().as_str(), "user:alice");
    assert_eq!(Action::new("read").unwrap().as_atom().as_str(), "read");
    assert_eq!(Resource::new("invoice:0123").unwrap().as_atom().as_str(), "invoice:0123");
    assert_eq!(Principal::new("user:Alice"), Err(Error::InvalidAtomChar { index: 5, byte: b'A' }));
    let owned = OwnedAtom::new("tenant:acme").unwrap();
    assert_eq!(owned.as_str(), "tenant:acme");
    assert_eq!(owned.as_atom().as_str(), "tenant:acme");
    assert_eq!(owned.clone(), owned);
}
