use gate1::{AtomRef, Context, ContextEntry, Error, ValueRef, MAX_CONTEXT_ENTRIES};

#[test]
fn context_rejects_duplicate_keys() {
    let key = AtomRef::new("tenant").unwrap();
    let entries = [
        ContextEntry::new(key, ValueRef::Str(AtomRef::new("a").unwrap())),
        ContextEntry::new(key, ValueRef::Str(AtomRef::new("b").unwrap())),
    ];

    assert!(matches!(
        Context::new(&entries),
        Err(Error::DuplicateContextKey { first: 0, second: 1 })
    ));
}

#[test]
fn context_reports_first_duplicate_pair() {
    let a = AtomRef::new("a").unwrap();
    let b = AtomRef::new("b").unwrap();
    let c = AtomRef::new("c").unwrap();
    // Pairs (0, 3) and (1, 2) both repeat a key; (0, 3) comes first.
    let entries = [
        ContextEntry::new(a, ValueRef::Int(1)),
        ContextEntry::new(b, ValueRef::Int(2)),
        ContextEntry::new(b, ValueRef::Int(3)),
        ContextEntry::new(a, ValueRef::Int(4)),
        ContextEntry::new(c, ValueRef::Int(5)),
    ];
    assert_eq!(
        Context::new(&entries).err(),
        Some(Error::DuplicateContextKey { first: 0, second: 3 })
    );
}

#[test]
fn context_rejects_too_many_entries() {
    let names: Vec<String> = (0..17).map(|i| format!("k{}", i)).collect();
    let entries: Vec<ContextEntry> = names
        .iter()
        .map(|n| ContextEntry::new(AtomRef::new(n).unwrap(), ValueRef::Bool(true)))
        .collect();
    assert_eq!(
        Context::new(&entries).err(),
        Some(Error::TooManyContextEntries { limit: MAX_CONTEXT_ENTRIES, actual: 17 })
    );
    assert!(Context::new(&entries[..16]).is_ok());
}

#[test]
fn context_get_finds_each_key() {
    let entries = [
        ContextEntry::new(AtomRef::new("mfa").unwrap(), ValueRef::Bool(true)),
        ContextEntry::new(AtomRef::new("level").unwrap(), ValueRef::Int(-7)),
        ContextEntry::new(
            AtomRef::new("tenant").unwrap(),
            ValueRef::Str(AtomRef::new("acme").unwrap()),
        ),
    ];
    let ctx = Context::new(&entries).unwrap();
    assert_eq!(ctx.get(AtomRef::new("mfa").unwrap()), Some(ValueRef::Bool(true)));
    assert_eq!(ctx.get(AtomRef::new("level").unwrap()), Some(ValueRef::Int(-7)));
    assert_eq!(
        ctx.get(AtomRef::new("tenant").unwrap()),
        Some(ValueRef::Str(AtomRef::new("acme").unwrap()))
    );
    assert_eq!(ctx.get(AtomRef::new("missing").unwrap()), None);
    assert_eq!(ctx.entries().len(), 3);
    assert_eq!(entries[1].key().as_str(), "level");
    assert_eq!(entries[1].value(), ValueRef::Int(-7));
}
