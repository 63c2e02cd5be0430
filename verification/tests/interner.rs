use weibian::interner::{NodeId, NodeInterner};

#[test]
fn intern_returns_stable_handles() {
    let mut interner = NodeInterner::new();
    let a = interner.intern("alpha");
    let b = interner.intern("beta");
    assert_eq!(a, NodeId(0));
    assert_eq!(b, NodeId(1));
    assert_eq!(interner.intern("alpha"), a);
    assert_eq!(interner.len(), 2);
}

#[test]
fn name_reads_back_what_was_interned() {
    let mut interner = NodeInterner::new();
    let id = interner.intern("gamma");
    assert_eq!(interner.name(id), "gamma");
}

#[test]
fn get_finds_only_interned_names() {
    let mut interner = NodeInterner::new();
    let id = interner.intern("delta");
    assert_eq!(interner.get("delta"), Some(id));
    assert_eq!(interner.get("epsilon"), None);
}
