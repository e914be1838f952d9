use std::io::Write;

use pgit::cat_file::{get_file_contents, GetFileContentsReturnType};
use pgit::object::{
    object_location, Body, CommitField, HashAlgo, Malformed, Object, ObjectError, ObjectType,
};

fn compress(data: &[u8]) -> Vec<u8> {
    let mut enc = flate2::write::ZlibEncoder::new(Vec::new(), flate2::Compression::default());
    enc.write_all(data).unwrap();
    enc.finish().unwrap()
}

fn wrap(kind: &str, body: &[u8]) -> Vec<u8> {
    let mut raw = format!("{} {}", kind, body.len()).into_bytes();
    raw.push(0);
    raw.extend_from_slice(body);
    raw
}

fn id(seed: u8) -> Vec<u8> {
    (0..20u8).map(|i| seed.wrapping_add(i)).collect()
}

fn tree_body(entries: &[(&str, &str, Vec<u8>)]) -> Vec<u8> {
    let mut body = Vec::new();
    for (mode, name, hash) in entries {
        body.extend_from_slice(mode.as_bytes());
        body.push(b' ');
        body.extend_from_slice(name.as_bytes());
        body.push(0);
        body.extend_from_slice(hash);
    }
    body
}

const HASH: &str = "abcdef0123456789abcdef0123456789abcdef01";

fn decode(raw: &[u8]) -> Result<Object, ObjectError> {
    Object::new(HASH.to_string(), &compress(raw), HashAlgo::Sha1)
}

#[test]
fn blob_round_trip_keeps_every_byte() {
    let b: Vec<u8> = vec![0, 1, 2, 255, b' ', b'\n', 0, b'x', b'\t', b'\n'];
    let o = decode(&wrap("blob", &b)).unwrap();
    assert_eq!(o.obj_type, ObjectType::Blob);
    assert_eq!(o.size, b.len() as u32);
    assert_eq!(o.data, b);
    assert_eq!(o.body, Body::Blob);
    assert_eq!(o.get_contents(), b);
}

#[test]
fn empty_blob_decodes() {
    let o = decode(b"blob 0\0").unwrap();
    assert_eq!(o.size, 0);
    assert!(o.data.is_empty());
}

#[test]
fn end_to_end_hello_blob() {
    let (dir, file) = object_location(HASH).unwrap();
    assert_eq!(dir, "ab");
    assert_eq!(file, "cdef0123456789abcdef0123456789abcdef01");
    let o = decode(b"blob 5\0hello").unwrap();
    assert_eq!(o.obj_type, ObjectType::Blob);
    assert_eq!(o.size, 5);
    assert_eq!(o.hash, HASH);
    assert_eq!(o.data, b"hello".to_vec());
    assert_eq!(o.get_contents(), b"hello".to_vec());
    let text = get_file_contents(
        HASH.to_string(),
        &compress(b"blob 5\0hello"),
        HashAlgo::Sha1,
        GetFileContentsReturnType::Contents,
    );
    assert_eq!(text, Ok("hello".to_string()));
}

#[test]
fn tree_with_two_entries_in_order() {
    let id1 = id(1);
    let id2 = id(100);
    let body = tree_body(&[("100644", "a.txt", id1.clone()), ("040000", "dir", id2.clone())]);
    let o = decode(&wrap("tree", &body)).unwrap();
    assert_eq!(o.obj_type, ObjectType::Tree);
    match o.body {
        Body::Tree(es) => {
            assert_eq!(es.len(), 2);
            assert_eq!(es[0].mode, b"100644".to_vec());
            assert_eq!(es[0].filename, b"a.txt".to_vec());
            assert_eq!(es[0].hash, id1);
            assert_eq!(es[1].mode, b"040000".to_vec());
            assert_eq!(es[1].filename, b"dir".to_vec());
            assert_eq!(es[1].hash, id2);
        }
        other => panic!("not a tree: {:?}", other),
    }
}

#[test]
fn tree_identifiers_may_hold_nul_bytes() {
    let mut id1 = id(7);
    id1[0] = 0;
    id1[5] = 0;
    id1[19] = 0;
    let id2 = vec![0u8; 20];
    let id3 = vec![b' '; 20];
    let body = tree_body(&[
        ("100644", "first name", id1.clone()),
        ("100755", "run.sh", id2.clone()),
        ("40000", "sub", id3.clone()),
    ]);
    let o = decode(&wrap("tree", &body)).unwrap();
    match o.body {
        Body::Tree(es) => {
            assert_eq!(es.len(), 3);
            assert_eq!(es[0].filename, b"first name".to_vec());
            assert_eq!(es[0].hash, id1);
            assert_eq!(es[1].mode, b"100755".to_vec());
            assert_eq!(es[1].hash, id2);
            assert_eq!(es[2].mode, b"40000".to_vec());
            assert_eq!(es[2].hash, id3);
        }
        other => panic!("not a tree: {:?}", other),
    }
}

#[test]
fn tree_with_wide_identifiers() {
    let wide: Vec<u8> = (0..32u8).collect();
    let body = tree_body(&[("100644", "x", wide.clone())]);
    let o = Object::new(HASH.to_string(), &compress(&wrap("tree", &body)), HashAlgo::Sha256)
        .unwrap();
    match o.body {
        Body::Tree(es) => {
            assert_eq!(es.len(), 1);
            assert_eq!(es[0].hash, wide);
        }
        other => panic!("not a tree: {:?}", other),
    }
}

#[test]
fn tree_listing_shows_hex_identifiers() {
    let id1 = id(0);
    let id2 = vec![0xffu8; 20];
    let body = tree_body(&[("100644", "a.txt", id1), ("040000", "dir", id2)]);
    let o = decode(&wrap("tree", &body)).unwrap();
    let listing = String::from_utf8(o.get_contents()).unwrap();
    assert_eq!(
        listing,
        "100644 a.txt\n\
         000102030405060708090a0b0c0d0e0f10111213040000 dir\n\
         ffffffffffffffffffffffffffffffffffffffff"
    );
}

#[test]
fn empty_tree_lists_nothing() {
    let o = decode(b"tree 0\0").unwrap();
    assert_eq!(o.body, Body::Tree(vec![]));
    assert!(o.get_contents().is_empty());
}

#[test]
fn one_entry_listing_starts_with_mode_and_name() {
    let body = tree_body(&[("1", "a", vec![0u8; 20])]);
    let o = decode(&wrap("tree", &body)).unwrap();
    let listing = String::from_utf8(o.get_contents()).unwrap();
    assert_eq!(listing, "1 a\n0000000000000000000000000000000000000000");
}

#[test]
fn truncated_tree_entry_is_refused() {
    let mut body = tree_body(&[("100644", "a.txt", id(1))]);
    body.truncate(body.len() - 3);
    assert_eq!(
        decode(&wrap("tree", &body)),
        Err(ObjectError::Malformed(Malformed::TruncatedTreeEntry))
    );
}

#[test]
fn tree_entry_without_space_is_refused() {
    let mut body = b"100644a.txt".to_vec();
    body.push(0);
    body.extend_from_slice(&id(1));
    assert_eq!(
        decode(&wrap("tree", &body)),
        Err(ObjectError::Malformed(Malformed::BadTreeEntry))
    );
}

#[test]
fn missing_nul_is_refused() {
    assert_eq!(
        decode(b"blob 5 hello"),
        Err(ObjectError::Malformed(Malformed::MissingHeaderTerminator))
    );
    assert_eq!(decode(b""), Err(ObjectError::Malformed(Malformed::MissingHeaderTerminator)));
}

#[test]
fn header_with_one_token_is_refused() {
    assert_eq!(decode(b"blob\0hello"), Err(ObjectError::Malformed(Malformed::BadHeader)));
    assert_eq!(decode(b"  \0"), Err(ObjectError::Malformed(Malformed::BadHeader)));
    assert_eq!(decode(b"blob 5 x\0hello"), Err(ObjectError::Malformed(Malformed::BadHeader)));
}

#[test]
fn header_whitespace_is_trimmed() {
    let o = decode(b" blob \t 5 \0hello").unwrap();
    assert_eq!(o.size, 5);
    assert_eq!(o.data, b"hello".to_vec());
}

#[test]
fn unknown_kind_is_refused() {
    assert_eq!(decode(b"blub 5\0hello"), Err(ObjectError::Malformed(Malformed::UnknownKind)));
    assert_eq!(decode(b"Blob 5\0hello"), Err(ObjectError::Malformed(Malformed::UnknownKind)));
}

#[test]
fn bad_size_is_refused() {
    assert_eq!(decode(b"blob five\0hello"), Err(ObjectError::Malformed(Malformed::BadSize)));
    assert_eq!(decode(b"blob -5\0hello"), Err(ObjectError::Malformed(Malformed::BadSize)));
    assert_eq!(
        decode(b"blob 4294967296\0hello"),
        Err(ObjectError::Malformed(Malformed::BadSize))
    );
}

#[test]
fn size_mismatch_is_detected() {
    assert_eq!(decode(b"blob 4\0hello"), Err(ObjectError::Malformed(Malformed::SizeMismatch)));
    assert_eq!(decode(b"blob 6\0hello"), Err(ObjectError::Malformed(Malformed::SizeMismatch)));
    assert_eq!(
        decode(b"blob 4294967295\0hello"),
        Err(ObjectError::Malformed(Malformed::SizeMismatch))
    );
}

#[test]
fn unreadable_stream_is_refused() {
    let r = Object::new(HASH.to_string(), b"not zlib at all", HashAlgo::Sha1);
    assert_eq!(r, Err(ObjectError::Malformed(Malformed::UnreadableStream)));
    let mut cut = compress(b"blob 5\0hello");
    cut.truncate(cut.len() / 2);
    assert!(Object::new(HASH.to_string(), &cut, HashAlgo::Sha1).is_err());
}

const TREE_ID: &str = "4b825dc642cb6eb9a060e54bf8d69288fbee4904";
const PARENT_ID: &str = "0123456789abcdef0123456789abcdef01234567";

fn commit_text(parents: &[&str]) -> Vec<u8> {
    let mut t = format!("tree {}\n", TREE_ID);
    for p in parents {
        t += &format!("parent {}\n", p);
    }
    t += "author Jane Doe <jane@example.com> 1700000000 +0100\n";
    t += "committer Joe <joe@example.com> 1700000123 -0500\n";
    t += "\nmessage line\n";
    t.into_bytes()
}

#[test]
fn commit_metadata_is_read() {
    let o = decode(&wrap("commit", &commit_text(&[PARENT_ID]))).unwrap();
    assert_eq!(o.obj_type, ObjectType::Commit);
    match o.body {
        Body::Commit(m) => {
            assert_eq!(m.tree, TREE_ID.as_bytes().to_vec());
            assert_eq!(m.parents, vec![PARENT_ID.as_bytes().to_vec()]);
            assert_eq!(m.author.name, b"Jane Doe".to_vec());
            assert_eq!(m.author.email, b"jane@example.com".to_vec());
            assert_eq!(m.author.time, 1700000000);
            assert_eq!(m.author.zone, b"+0100".to_vec());
            assert_eq!(m.committer.name, b"Joe".to_vec());
            assert_eq!(m.committer.email, b"joe@example.com".to_vec());
            assert_eq!(m.committer.time, 1700000123);
            assert_eq!(m.committer.zone, b"-0500".to_vec());
        }
        other => panic!("not a commit: {:?}", other),
    }
}

#[test]
fn merge_commit_keeps_parents_in_order() {
    let second = "89abcdef0123456789abcdef0123456789abcdef";
    let o = decode(&wrap("commit", &commit_text(&[PARENT_ID, second]))).unwrap();
    match o.body {
        Body::Commit(m) => {
            assert_eq!(
                m.parents,
                vec![PARENT_ID.as_bytes().to_vec(), second.as_bytes().to_vec()]
            );
        }
        other => panic!("not a commit: {:?}", other),
    }
}

#[test]
fn commit_without_parent_is_refused() {
    let r = decode(&wrap("commit", &commit_text(&[])));
    let expected = Malformed::BadCommitField(CommitField::Parent);
    assert_eq!(r, Err(ObjectError::Malformed(expected)));
    assert_eq!(expected.reason(), "bad commit field: parent");
}

#[test]
fn commit_field_errors_name_the_field() {
    let no_tree = b"parent x\nauthor A <a> 1 +0000\ncommitter C <c> 2 +0000\n".to_vec();
    assert_eq!(
        decode(&wrap("commit", &no_tree)),
        Err(ObjectError::Malformed(Malformed::BadCommitField(CommitField::Tree)))
    );
    let bad_author = b"tree t\nparent p\nauthor A a 1 +0000\ncommitter C <c> 2 +0000\n".to_vec();
    assert_eq!(
        decode(&wrap("commit", &bad_author)),
        Err(ObjectError::Malformed(Malformed::BadCommitField(CommitField::Author)))
    );
    let bad_committer = b"tree t\nparent p\nauthor A <a> 1 +0000\ncommitter C <c> soon +0000\n".to_vec();
    assert_eq!(
        decode(&wrap("commit", &bad_committer)),
        Err(ObjectError::Malformed(Malformed::BadCommitField(CommitField::Committer)))
    );
    let ends_early = b"tree t\nparent p".to_vec();
    assert_eq!(
        decode(&wrap("commit", &ends_early)),
        Err(ObjectError::Malformed(Malformed::BadCommitField(CommitField::Author)))
    );
    assert_eq!(
        decode(&wrap("commit", b"")),
        Err(ObjectError::Malformed(Malformed::BadCommitField(CommitField::Tree)))
    );
}

#[test]
fn tag_is_passed_through() {
    let body = b"object abc\ntype commit\ntag v1\n".to_vec();
    let o = decode(&wrap("tag", &body)).unwrap();
    assert_eq!(o.obj_type, ObjectType::Tag);
    assert_eq!(o.body, Body::Tag);
    assert_eq!(o.get_contents(), body);
}

#[test]
fn file_contents_reports() {
    let stored = compress(b"blob 11\0hello world");
    let ask = |rt| get_file_contents(HASH.to_string(), &stored, HashAlgo::Sha1, rt);
    assert_eq!(ask(GetFileContentsReturnType::Size), Ok("11".to_string()));
    assert_eq!(ask(GetFileContentsReturnType::Type), Ok("blob".to_string()));
    assert_eq!(ask(GetFileContentsReturnType::Contents), Ok("hello world".to_string()));
    assert_eq!(ask(GetFileContentsReturnType::NoReturn), Ok(String::new()));
    let commit = compress(&wrap("commit", &commit_text(&[PARENT_ID])));
    let t = get_file_contents(HASH.to_string(), &commit, HashAlgo::Sha1, GetFileContentsReturnType::Type);
    assert_eq!(t, Ok("commit".to_string()));
    let bad = get_file_contents(
        HASH.to_string(),
        &compress(b"blob 2\0hello"),
        HashAlgo::Sha1,
        GetFileContentsReturnType::Size,
    );
    assert_eq!(bad, Err(ObjectError::Malformed(Malformed::SizeMismatch)));
}

#[test]
fn invalid_utf8_contents_become_replacement_characters() {
    let stored = compress(b"blob 3\0a\xffb");
    let t = get_file_contents(HASH.to_string(), &stored, HashAlgo::Sha1, GetFileContentsReturnType::Contents);
    assert_eq!(t, Ok("a\u{fffd}b".to_string()));
}

#[test]
fn kind_tokens() {
    assert_eq!(ObjectType::Tree.token(), b"tree".to_vec());
    assert_eq!(ObjectType::from_token(b"commit"), Some(ObjectType::Commit));
    assert_eq!(ObjectType::from_token(b"tags"), None);
    assert_eq!(HashAlgo::Sha1.width(), 20);
    assert_eq!(HashAlgo::Sha256.width(), 32);
}

#[test]
fn short_identifiers_have_no_location() {
    assert_eq!(object_location("a"), None);
    assert_eq!(object_location(""), None);
    assert_eq!(object_location("ab"), Some(("ab", "")));
    let o = decode(b"blob 0\0").unwrap();
    assert_eq!(o.get_path(), Some(("ab", "cdef0123456789abcdef0123456789abcdef01")));
}

#[test]
fn inflated_bytes_decode_directly() {
    let o = Object::from_raw(HASH.to_string(), b"blob 5\0hello", HashAlgo::Sha1).unwrap();
    assert_eq!(o.data, b"hello".to_vec());
    assert_eq!(
        Object::from_raw(HASH.to_string(), b"tree 1\0x", HashAlgo::Sha1),
        Err(Malformed::TruncatedTreeEntry)
    );
    assert_eq!(Malformed::SizeMismatch.reason(), "size does not match body length");
}
