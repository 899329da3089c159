use mega::codec::{encode_object, decode_object};
use mega::errors::GitError;
use mega::graph::{is_ancestor, fast_forward_possible, merge_base};
use mega::object::{GitObject, Identity, ObjectKind, TreeEntry};
use mega::oid::hash_bytes;
use mega::pack::encode_pack;
use mega::refs::{Head, RefStore, RefTarget};
use mega::store::ObjectStore;
use mega::model::CommonResult;
use mega::proto::{session_step, SessionAction, SessionEvent, SessionState, compute_wants, finalize_clone};

fn blob(data: &[u8]) -> GitObject {
    GitObject::Blob { data: data.to_vec() }
}

fn ident(name: &[u8], timestamp: u64) -> Identity {
    Identity { name: name.to_vec(), timestamp }
}

fn commit(store: &mut ObjectStore, parents: Vec<mega::oid::Oid>, msg: &[u8]) -> mega::oid::Oid {
    let tree_oid = store.put(GitObject::Tree { entries: vec![] });
    store.put(GitObject::Commit {
        tree: tree_oid,
        parents,
        author: ident(b"ada", 1),
        committer: ident(b"ada", 2),
        message: msg.to_vec(),
        signature: None,
    })
}

#[test]
fn blob_round_trip() {
    let o = blob(b"hello world");
    let bytes = encode_object(&o);
    let back = decode_object(&bytes).unwrap();
    match back {
        GitObject::Blob { data } => assert_eq!(data, b"hello world".to_vec()),
        _ => panic!("wrong kind"),
    }
}

#[test]
fn tree_and_tag_round_trip() {
    let child = hash_bytes(&b"x".to_vec());
    let tree = GitObject::Tree {
        entries: vec![
            TreeEntry { mode: 0o100644, name: b"a.txt".to_vec(), child, kind: ObjectKind::Blob },
            TreeEntry { mode: 0o100644, name: b"b.txt".to_vec(), child, kind: ObjectKind::Blob },
        ],
    };
    let bytes = encode_object(&tree);
    let back = decode_object(&bytes).unwrap();
    match back {
        GitObject::Tree { entries } => {
            assert_eq!(entries.len(), 2);
            assert_eq!(entries[0].name, b"a.txt".to_vec());
            assert_eq!(entries[1].mode, 0o100644);
        }
        _ => panic!("wrong kind"),
    }
    let tag = GitObject::Tag {
        target: child,
        target_kind: ObjectKind::Blob,
        tagger: ident(b"t", 9),
        message: b"v1".to_vec(),
    };
    let bytes = encode_object(&tag);
    match decode_object(&bytes).unwrap() {
        GitObject::Tag { message, .. } => assert_eq!(message, b"v1".to_vec()),
        _ => panic!("wrong kind"),
    }
}

#[test]
fn commit_round_trip_with_signature() {
    let t = hash_bytes(&b"tree".to_vec());
    let p = hash_bytes(&b"parent".to_vec());
    let c = GitObject::Commit {
        tree: t,
        parents: vec![p],
        author: ident(b"alice", 100),
        committer: ident(b"bob", 200),
        message: b"first".to_vec(),
        signature: Some(b"sig".to_vec()),
    };
    let bytes = encode_object(&c);
    match decode_object(&bytes).unwrap() {
        GitObject::Commit { tree, parents, author, message, signature, .. } => {
            assert_eq!(tree, t);
            assert_eq!(parents, vec![p]);
            assert_eq!(author.name, b"alice".to_vec());
            assert_eq!(message, b"first".to_vec());
            assert_eq!(signature, Some(b"sig".to_vec()));
        }
        _ => panic!("wrong kind"),
    }
}

#[test]
fn truncated_encoding_is_corrupt() {
    let o = blob(b"abc");
    let mut bytes = encode_object(&o);
    bytes.pop();
    assert_eq!(decode_object(&bytes).unwrap_err(), GitError::CorruptPack);
}

#[test]
fn hash_deterministic_and_sensitive() {
    let a = hash_bytes(&b"content".to_vec());
    let b = hash_bytes(&b"content".to_vec());
    assert_eq!(a, b);
    let c = hash_bytes(&b"contenu".to_vec());
    assert_ne!(a, c);
    let d = hash_bytes(&b"contents".to_vec());
    assert_ne!(a, d);
}

#[test]
fn store_put_is_idempotent() {
    let mut store = ObjectStore::new();
    let o1 = store.put(blob(b"same"));
    let n1 = store.count();
    let o2 = store.put(blob(b"same"));
    assert_eq!(o1, o2);
    assert_eq!(store.count(), n1);
    assert!(store.contains(&o1));
    assert_eq!(store.get(&hash_bytes(&b"missing".to_vec())).unwrap_err(), GitError::ObjectNotFound);
}

#[test]
fn cas_race_exactly_one_wins() {
    let mut refs = RefStore::new(b"heads/main".to_vec());
    let base = hash_bytes(&b"c0".to_vec());
    let w = hash_bytes(&b"winner".to_vec());
    let l = hash_bytes(&b"loser".to_vec());
    let name = b"heads/main".to_vec();
    refs.update(&name, None, base).unwrap();
    assert!(refs.update(&name, Some(base), w).is_ok());
    assert_eq!(refs.update(&name, Some(base), l).unwrap_err(), GitError::RefConflict);
    assert_eq!(refs.resolve(&name).unwrap(), w);
}

#[test]
fn ref_resolution_and_head() {
    let mut refs = RefStore::new(b"heads/main".to_vec());
    assert_eq!(refs.resolve_head().unwrap_err(), GitError::RefNotFound);
    let c = hash_bytes(&b"tip".to_vec());
    refs.update(&b"heads/main".to_vec(), None, c).unwrap();
    assert_eq!(refs.resolve_head().unwrap(), c);
    refs.set_head(Head::Detached { oid: c });
    assert_eq!(refs.resolve_head().unwrap(), c);
    let listed = refs.list(&b"heads/".to_vec());
    assert_eq!(listed.len(), 1);
    assert_eq!(listed[0].0, b"heads/main".to_vec());
    assert_eq!(listed[0].1, c);
}

#[test]
fn list_is_sorted_by_name() {
    let mut refs = RefStore::new(b"heads/main".to_vec());
    let c = hash_bytes(&b"c".to_vec());
    refs.update(&b"heads/zeta".to_vec(), None, c).unwrap();
    refs.update(&b"heads/alpha".to_vec(), None, c).unwrap();
    refs.update(&b"tags/v1".to_vec(), None, c).unwrap();
    let listed = refs.list(&b"heads/".to_vec());
    assert_eq!(listed.len(), 2);
    assert_eq!(listed[0].0, b"heads/alpha".to_vec());
    assert_eq!(listed[1].0, b"heads/zeta".to_vec());
}

#[test]
fn ancestry_linear_and_diverged() {
    let mut store = ObjectStore::new();
    let c1 = commit(&mut store, vec![], b"one");
    let c2 = commit(&mut store, vec![c1], b"two");
    let c3 = commit(&mut store, vec![c2], b"three");
    assert!(is_ancestor(&store, &c1, &c3));
    assert!(!is_ancestor(&store, &c3, &c1));
    assert!(fast_forward_possible(&store, &c1, &c3));
    assert!(!fast_forward_possible(&store, &c3, &c1));
    let side = commit(&mut store, vec![c1], b"side");
    assert!(!fast_forward_possible(&store, &c2, &side));
    assert!(fast_forward_possible(&store, &c1, &side));
}

#[test]
fn merge_base_is_deterministic() {
    let mut store = ObjectStore::new();
    let a = commit(&mut store, vec![], b"a");
    let b = commit(&mut store, vec![], b"b");
    let x = commit(&mut store, vec![a, b], b"x");
    let y = commit(&mut store, vec![b, a], b"y");
    let first = merge_base(&store, &x, &y);
    for _ in 0..5 {
        assert_eq!(merge_base(&store, &x, &y), first);
    }
    let m = merge_base(&store, &a, &x).unwrap();
    assert_eq!(m, a);
    let lone = commit(&mut store, vec![], b"lone");
    assert_eq!(merge_base(&store, &lone, &a), None);
}

#[test]
fn walk_reachable_visits_each_once() {
    let mut store = ObjectStore::new();
    let c1 = commit(&mut store, vec![], b"one");
    let c2 = commit(&mut store, vec![c1], b"two");
    let reached = store.walk_reachable(&vec![c2]);
    assert!(reached.contains(&c1));
    assert!(reached.contains(&c2));
    let mut dedup = reached.clone();
    dedup.sort_by(|a, b| format!("{:?}", a).cmp(&format!("{:?}", b)));
    dedup.dedup();
    assert_eq!(dedup.len(), reached.len());
}

#[test]
fn pack_encodes_reachable_set() {
    let mut store = ObjectStore::new();
    let c1 = commit(&mut store, vec![], b"one");
    let c2 = commit(&mut store, vec![c1], b"two");
    let reached = store.walk_reachable(&vec![c2]);
    let pack = encode_pack(&store, &reached).unwrap();
    assert!(pack.len() > 32);
    let missing = hash_bytes(&b"nowhere".to_vec());
    assert_eq!(encode_pack(&store, &vec![missing]).unwrap_err(), GitError::ObjectNotFound);
}

#[test]
fn common_result_envelopes() {
    let ok: CommonResult<u32> = CommonResult::success(Some(7));
    assert!(ok.req_result);
    assert_eq!(ok.data, Some(7));
    assert_eq!(ok.err_message, "");
    let bad: CommonResult<u32> = CommonResult::failed("boom");
    assert!(!bad.req_result);
    assert!(bad.data.is_none());
    assert_eq!(bad.err_message, "boom");
}

#[test]
fn pack_round_trip_into_fresh_store() {
    let mut store = ObjectStore::new();
    let c1 = commit(&mut store, vec![], b"one");
    let c2 = commit(&mut store, vec![c1], b"two");
    let reached = store.walk_reachable(&vec![c2]);
    let pack = encode_pack(&store, &reached).unwrap();
    let mut fresh = ObjectStore::new();
    let ids = mega::pack::ingest_pack(&mut fresh, &pack).unwrap();
    assert_eq!(ids.len(), reached.len());
    let rewalk = fresh.walk_reachable(&vec![c2]);
    let mut a = reached.clone();
    let mut b = rewalk.clone();
    a.sort_by(|x, y| format!("{:?}", x).cmp(&format!("{:?}", y)));
    b.sort_by(|x, y| format!("{:?}", x).cmp(&format!("{:?}", y)));
    assert_eq!(a, b);
    let mut broken = pack.clone();
    let n = broken.len();
    broken[n - 1] = broken[n - 1].wrapping_add(1);
    let mut other = ObjectStore::new();
    assert_eq!(mega::pack::ingest_pack(&mut other, &broken).unwrap_err(), GitError::CorruptPack);
    assert_eq!(other.count(), 0);
}

#[test]
fn session_walks_to_done() {
    let (s1, a1) = session_step(SessionState::Advertising, SessionEvent::Advertisement { ref_count: 2 });
    assert_eq!(s1, SessionState::Negotiating);
    assert_eq!(a1, SessionAction::SendWants);
    let (s2, _) = session_step(s1, SessionEvent::NegotiationSettled);
    let (s3, _) = session_step(s2, SessionEvent::PackIngested);
    let (s4, a4) = session_step(s3, SessionEvent::RefsApplied);
    assert_eq!(s4, SessionState::Done);
    assert_eq!(a4, SessionAction::Complete);
    let (e1, ea) = session_step(SessionState::Advertising, SessionEvent::Advertisement { ref_count: 0 });
    assert_eq!(e1, SessionState::Finalizing);
    assert_eq!(ea, SessionAction::FinishEmpty);
    let (f1, _) = session_step(SessionState::Transferring, SessionEvent::PackCorrupt);
    assert_eq!(f1, SessionState::Failed { error: GitError::CorruptPack });
    let (f2, _) = session_step(f1, SessionEvent::RefsApplied);
    assert_eq!(f2, SessionState::Failed { error: GitError::CorruptPack });
    let (f3, _) = session_step(SessionState::Negotiating, SessionEvent::TransportError);
    assert_eq!(f3, SessionState::Failed { error: GitError::TransferFailed });
}

#[test]
fn wants_and_finalize_clone() {
    let mut store = ObjectStore::new();
    let have = store.put(blob(b"already here"));
    let miss = hash_bytes(&b"not here".to_vec());
    let adv = vec![(b"heads/main".to_vec(), miss), (b"heads/old".to_vec(), have)];
    let wants = compute_wants(&store, &adv);
    assert_eq!(wants, vec![miss]);
    let mut refs = RefStore::new(b"heads/main".to_vec());
    finalize_clone(&mut refs, &adv, Some(b"heads/main".to_vec())).unwrap();
    assert_eq!(refs.resolve(&b"heads/main".to_vec()).unwrap(), miss);
    assert_eq!(refs.resolve_head().unwrap(), miss);
    let again = finalize_clone(&mut refs, &adv, None).unwrap_err();
    assert_eq!(again, GitError::RefConflict);
    let mut refs2 = RefStore::new(b"heads/main".to_vec());
    finalize_clone(&mut refs2, &vec![], None).unwrap();
    assert_eq!(refs2.resolve_head().unwrap_err(), GitError::RefNotFound);
    assert_eq!(refs2.list(&Vec::new()).len(), 0);
}
