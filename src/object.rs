use vstd::prelude::*;
use vstd::string::StringSliceAdditionalSpecFns;
use vstd::utf8::encode_utf8;

use crate::codec::{hex_bytes, inflate, zlib_inflated};
use crate::bytes::{
    hex_spec,
    copy_range, copy_trimmed, decimal_value, find_byte, has_prefix, lemma_span, parse_decimal,
    span, split_whitespace, split_ws, starts_with_at, trim_end, views,
};

verus! {

/// The type tag of a stored object.
#[derive(Clone, Copy, Debug, PartialEq, Eq, Structural)]
pub enum ObjectType {
    Blob,
    Tree,
    Commit,
    Tag,
}

/// The header token that names each kind: `blob`, `tree`, `commit`, `tag`.
pub open spec fn kind_token(k: ObjectType) -> Seq<u8> {
    match k {
        ObjectType::Blob => seq![98u8, 108u8, 111u8, 98u8],
        ObjectType::Tree => seq![116u8, 114u8, 101u8, 101u8],
        ObjectType::Commit => seq![99u8, 111u8, 109u8, 109u8, 105u8, 116u8],
        ObjectType::Tag => seq![116u8, 97u8, 103u8],
    }
}

/// The kind that a header token names, if any.
pub open spec fn kind_of_token(t: Seq<u8>) -> Option<ObjectType> {
    if t == kind_token(ObjectType::Blob) {
        Some(ObjectType::Blob)
    } else if t == kind_token(ObjectType::Tree) {
        Some(ObjectType::Tree)
    } else if t == kind_token(ObjectType::Commit) {
        Some(ObjectType::Commit)
    } else if t == kind_token(ObjectType::Tag) {
        Some(ObjectType::Tag)
    } else {
        None
    }
}

impl ObjectType {
    /// The kind's name as it stands in an object header.
    pub fn token(&self) -> (r: Vec<u8>)
        ensures
            r@ == kind_token(*self),
    {
        let r = match self {
            ObjectType::Blob => vec![98u8, 108u8, 111u8, 98u8],
            ObjectType::Tree => vec![116u8, 114u8, 101u8, 101u8],
            ObjectType::Commit => vec![99u8, 111u8, 109u8, 109u8, 105u8, 116u8],
            ObjectType::Tag => vec![116u8, 97u8, 103u8],
        };
        assert(r@ =~= kind_token(*self));
        r
    }

    /// The kind that `t` names; unknown tokens are refused.
    pub fn from_token(t: &[u8]) -> (r: Option<ObjectType>)
        ensures
            r == kind_of_token(t@),
    {
        let blob = ObjectType::Blob.token();
        let tree = ObjectType::Tree.token();
        let commit = ObjectType::Commit.token();
        let tag = ObjectType::Tag.token();
        if crate::bytes::bytes_eq(t, blob.as_slice()) {
            Some(ObjectType::Blob)
        } else if crate::bytes::bytes_eq(t, tree.as_slice()) {
            Some(ObjectType::Tree)
        } else if crate::bytes::bytes_eq(t, commit.as_slice()) {
            Some(ObjectType::Commit)
        } else if crate::bytes::bytes_eq(t, tag.as_slice()) {
            Some(ObjectType::Tag)
        } else {
            None
        }
    }
}

/// The hash algorithm of a repository, which fixes the width of raw identifiers.
#[derive(Clone, Copy, Debug, PartialEq, Eq, Structural)]
pub enum HashAlgo {
    Sha1,
    Sha256,
}

impl HashAlgo {
    /// Number of bytes in a raw identifier, in the model.
    pub open spec fn spec_width(self) -> nat {
        match self {
            HashAlgo::Sha1 => 20,
            HashAlgo::Sha256 => 32,
        }
    }

    /// Number of bytes in a raw identifier.
    pub fn width(&self) -> (r: usize)
        ensures
            r == self.spec_width(),
    {
        match self {
            HashAlgo::Sha1 => 20,
            HashAlgo::Sha256 => 32,
        }
    }
}

/// The commit header line that failed to parse.
#[derive(Clone, Copy, Debug, PartialEq, Eq, Structural)]
pub enum CommitField {
    Tree,
    Parent,
    Author,
    Committer,
}

/// The text that opens each commit header line: `tree `, `parent `, `author `, `committer `.
pub open spec fn field_prefix(f: CommitField) -> Seq<u8> {
    match f {
        CommitField::Tree => seq![116u8, 114u8, 101u8, 101u8, 32u8],
        CommitField::Parent => seq![112u8, 97u8, 114u8, 101u8, 110u8, 116u8, 32u8],
        CommitField::Author => seq![97u8, 117u8, 116u8, 104u8, 111u8, 114u8, 32u8],
        CommitField::Committer => seq![99u8, 111u8, 109u8, 109u8, 105u8, 116u8, 116u8, 101u8, 114u8, 32u8],
    }
}

impl CommitField {
    /// The text that opens this field's line.
    pub fn prefix(&self) -> (r: Vec<u8>)
        ensures
            r@ == field_prefix(*self),
    {
        let r = match self {
            CommitField::Tree => vec![116u8, 114u8, 101u8, 101u8, 32u8],
            CommitField::Parent => vec![112u8, 97u8, 114u8, 101u8, 110u8, 116u8, 32u8],
            CommitField::Author => vec![97u8, 117u8, 116u8, 104u8, 111u8, 114u8, 32u8],
            CommitField::Committer => vec![99u8, 111u8, 109u8, 109u8, 105u8, 116u8, 116u8, 101u8, 114u8, 32u8],
        };
        assert(r@ =~= field_prefix(*self));
        r
    }
}

/// Why an object could not be decoded.
#[derive(Clone, Copy, Debug, PartialEq, Eq, Structural)]
pub enum Malformed {
    UnreadableStream,
    MissingHeaderTerminator,
    BadHeader,
    UnknownKind,
    BadSize,
    SizeMismatch,
    TruncatedTreeEntry,
    BadTreeEntry,
    BadCommitField(CommitField),
}

/// The reason given for each decoding failure.
pub open spec fn reason_text(m: Malformed) -> Seq<char> {
    match m {
        Malformed::UnreadableStream => "unreadable stream"@,
        Malformed::MissingHeaderTerminator => "missing header terminator"@,
        Malformed::BadHeader => "bad header"@,
        Malformed::UnknownKind => "unknown object kind"@,
        Malformed::BadSize => "bad size"@,
        Malformed::SizeMismatch => "size does not match body length"@,
        Malformed::TruncatedTreeEntry => "truncated tree entry"@,
        Malformed::BadTreeEntry => "bad tree entry"@,
        Malformed::BadCommitField(CommitField::Tree) => "bad commit field: tree"@,
        Malformed::BadCommitField(CommitField::Parent) => "bad commit field: parent"@,
        Malformed::BadCommitField(CommitField::Author) => "bad commit field: author"@,
        Malformed::BadCommitField(CommitField::Committer) => "bad commit field: committer"@,
    }
}

impl Malformed {
    /// A short human-readable reason.
    pub fn reason(&self) -> (r: &'static str)
        ensures
            r@ == reason_text(*self),
    {
        match self {
            Malformed::UnreadableStream => "unreadable stream",
            Malformed::MissingHeaderTerminator => "missing header terminator",
            Malformed::BadHeader => "bad header",
            Malformed::UnknownKind => "unknown object kind",
            Malformed::BadSize => "bad size",
            Malformed::SizeMismatch => "size does not match body length",
            Malformed::TruncatedTreeEntry => "truncated tree entry",
            Malformed::BadTreeEntry => "bad tree entry",
            Malformed::BadCommitField(CommitField::Tree) => "bad commit field: tree",
            Malformed::BadCommitField(CommitField::Parent) => "bad commit field: parent",
            Malformed::BadCommitField(CommitField::Author) => "bad commit field: author",
            Malformed::BadCommitField(CommitField::Committer) => "bad commit field: committer",
        }
    }
}

/// The failures of a lookup: no object file, or one that does not decode.
#[derive(Clone, Copy, Debug, PartialEq, Eq, Structural)]
pub enum ObjectError {
    NotFound,
    Malformed(Malformed),
}

/// One record of a tree: mode and name as written, and the child's raw identifier.
#[derive(Debug, PartialEq, Eq)]
pub struct TreeEntry {
    pub mode: Vec<u8>,
    pub filename: Vec<u8>,
    pub hash: Vec<u8>,
}

/// A tree entry as byte strings.
pub struct EntryView {
    pub mode: Seq<u8>,
    pub filename: Seq<u8>,
    pub hash: Seq<u8>,
}

impl View for TreeEntry {
    type V = EntryView;

    open spec fn view(&self) -> EntryView {
        EntryView { mode: self.mode@, filename: self.filename@, hash: self.hash@ }
    }
}

/// The views of a list of entries.
pub open spec fn entry_views(v: Seq<TreeEntry>) -> Seq<EntryView> {
    v.map_values(|e: TreeEntry| e@)
}

/// An author or committer line: name, address, seconds since the epoch, zone.
#[derive(Debug, PartialEq, Eq)]
pub struct User {
    pub name: Vec<u8>,
    pub email: Vec<u8>,
    pub time: u64,
    pub zone: Vec<u8>,
}

/// A user line as byte strings and a timestamp.
pub struct UserView {
    pub name: Seq<u8>,
    pub email: Seq<u8>,
    pub time: u64,
    pub zone: Seq<u8>,
}

impl View for User {
    type V = UserView;

    open spec fn view(&self) -> UserView {
        UserView { name: self.name@, email: self.email@, time: self.time, zone: self.zone@ }
    }
}

/// The metadata of a commit: its tree, its parents in order, author and committer.
#[derive(Debug, PartialEq, Eq)]
pub struct Meta {
    pub tree: Vec<u8>,
    pub parents: Vec<Vec<u8>>,
    pub author: User,
    pub committer: User,
}

/// Commit metadata as byte strings.
pub struct MetaView {
    pub tree: Seq<u8>,
    pub parents: Seq<Seq<u8>>,
    pub author: UserView,
    pub committer: UserView,
}

impl View for Meta {
    type V = MetaView;

    open spec fn view(&self) -> MetaView {
        MetaView {
            tree: self.tree@,
            parents: views(self.parents@),
            author: self.author@,
            committer: self.committer@,
        }
    }
}

/// What the body of an object was read as.
#[derive(Debug, PartialEq, Eq)]
pub enum Body {
    Blob,
    Tree(Vec<TreeEntry>),
    Commit(Meta),
    Tag,
}

/// What a body was read as, in terms of byte strings.
pub enum BodyView {
    Blob,
    Tree(Seq<EntryView>),
    Commit(MetaView),
    Tag,
}

impl View for Body {
    type V = BodyView;

    open spec fn view(&self) -> BodyView {
        match self {
            Body::Blob => BodyView::Blob,
            Body::Tree(es) => BodyView::Tree(entry_views(es@)),
            Body::Commit(m) => BodyView::Commit(m@),
            Body::Tag => BodyView::Tag,
        }
    }
}

/// A decoded object: kind, identifier, declared size, body bytes and their reading.
#[derive(Debug, PartialEq, Eq)]
pub struct Object {
    pub obj_type: ObjectType,
    pub hash: String,
    pub size: u32,
    pub data: Vec<u8>,
    pub body: Body,
}

/// A decoded object in terms of byte strings.
pub struct ObjectView {
    pub obj_type: ObjectType,
    pub hash: Seq<char>,
    pub size: u32,
    pub data: Seq<u8>,
    pub body: BodyView,
}

impl View for Object {
    type V = ObjectView;

    open spec fn view(&self) -> ObjectView {
        ObjectView {
            obj_type: self.obj_type,
            hash: self.hash@,
            size: self.size,
            data: self.data@,
            body: self.body@,
        }
    }
}

// ---------------------------------------------------------------- tree bodies

/// Reads the tree entries that start at `i`: `<mode> <name>\0` and then exactly
/// `w` raw identifier bytes, repeated up to the end of `b`.
pub open spec fn parse_entries_from(b: Seq<u8>, w: nat, i: int) -> Result<Seq<EntryView>, Malformed>
    decreases b.len() - i,
{
    if i >= b.len() {
        Ok(seq![])
    } else {
        let z = i + span(b, 0, i, b.len() as int);
        if z + 1 + w > b.len() {
            Err(Malformed::TruncatedTreeEntry)
        } else {
            let sp = i + span(b, 32, i, z);
            if sp >= z {
                Err(Malformed::BadTreeEntry)
            } else {
                let e = EntryView {
                    mode: b.subrange(i, sp),
                    filename: b.subrange(sp + 1, z),
                    hash: b.subrange(z + 1, z + 1 + w),
                };
                match parse_entries_from(b, w, z + 1 + w) {
                    Ok(rest) => Ok(seq![e] + rest),
                    Err(m) => Err(m),
                }
            }
        }
    }
}

/// The entries of a tree body whose identifiers are `w` bytes wide.
pub open spec fn parse_tree(b: Seq<u8>, w: nat) -> Result<Seq<EntryView>, Malformed> {
    parse_entries_from(b, w, 0)
}

pub open spec fn prepend_entries(
    acc: Seq<EntryView>,
    r: Result<Seq<EntryView>, Malformed>,
) -> Result<Seq<EntryView>, Malformed> {
    match r {
        Ok(es) => Ok(acc + es),
        Err(m) => Err(m),
    }
}

/// Reads a tree body with a cursor that alternates between text up to a NUL
/// byte and a fixed number of raw identifier bytes.
pub fn parse_tree_body(b: &[u8], w: usize) -> (r: Result<Vec<TreeEntry>, Malformed>)
    ensures
        match r {
            Ok(es) => parse_tree(b@, w as nat) == Ok::<Seq<EntryView>, Malformed>(entry_views(es@)),
            Err(m) => parse_tree(b@, w as nat) == Err::<Seq<EntryView>, Malformed>(m),
        },
{
    let n = b.len();
    let mut out: Vec<TreeEntry> = Vec::new();
    let mut i: usize = 0;
    assert(entry_views(out@) + seq![] =~= seq![]);
    assert forall|r: Result<Seq<EntryView>, Malformed>| prepend_entries(seq![], r) == r by {
        match r {
            Ok(es) => {
                assert(Seq::<EntryView>::empty() + es =~= es);
            },
            Err(_) => {},
        }
    }
    while i < n
        invariant
            i <= n == b@.len(),
            parse_tree(b@, w as nat) == prepend_entries(entry_views(out@), parse_entries_from(b@, w as nat, i as int)),
        decreases n - i,
    {
        let z = find_byte(b, 0, i, n);
        if z >= n || w > n - z - 1 {
            return Err(Malformed::TruncatedTreeEntry);
        }
        let sp = find_byte(b, 32, i, z);
        if sp >= z {
            return Err(Malformed::BadTreeEntry);
        }
        let e = TreeEntry {
            mode: copy_range(b, i, sp),
            filename: copy_range(b, sp + 1, z),
            hash: copy_range(b, z + 1, z + 1 + w),
        };
        let ghost before = entry_views(out@);
        let ghost next = (z + 1 + w) as int;
        out.push(e);
        proof {
            assert(entry_views(out@) =~= before.push(e@));
            match parse_entries_from(b@, w as nat, next) {
                Ok(es) => {
                    assert(before + (seq![e@] + es) =~= before.push(e@) + es);
                },
                Err(_) => {},
            }
        }
        i = z + 1 + w;
    }
    assert(entry_views(out@) + seq![] =~= entry_views(out@));
    Ok(out)
}

// ---------------------------------------------------------------- commit bodies

/// Where the line that starts at `i` ends: the next line feed, or the end of `b`.
pub open spec fn line_end(b: Seq<u8>, i: int) -> int {
    i + span(b, 10, i, b.len() as int)
}

/// Whether a line starts at `i` and begins with the given field's prefix.
pub open spec fn field_at(b: Seq<u8>, i: int, f: CommitField) -> bool {
    0 <= i <= b.len() && starts_with_at(b, i, line_end(b, i), field_prefix(f))
}

/// The rest of that line after the prefix.
pub open spec fn field_value(b: Seq<u8>, i: int, f: CommitField) -> Seq<u8> {
    b.subrange(i + field_prefix(f).len(), line_end(b, i))
}

#[via_fn]
proof fn parents_decreases(b: Seq<u8>, i: int) {
    if 0 <= i <= b.len() {
        lemma_span(b, 10, i, b.len() as int);
    }
}

/// The identifiers of the consecutive `parent` lines from `i` on.
pub open spec fn parents_from(b: Seq<u8>, i: int) -> Seq<Seq<u8>>
    decreases b.len() + 1 - i via parents_decreases
{
    if field_at(b, i, CommitField::Parent) {
        seq![field_value(b, i, CommitField::Parent)] + parents_from(b, line_end(b, i) + 1)
    } else {
        seq![]
    }
}

#[via_fn]
proof fn after_parents_decreases(b: Seq<u8>, i: int) {
    if 0 <= i <= b.len() {
        lemma_span(b, 10, i, b.len() as int);
    }
}

/// Where the first line after those `parent` lines starts.
pub open spec fn after_parents(b: Seq<u8>, i: int) -> int
    decreases b.len() + 1 - i via after_parents_decreases
{
    if field_at(b, i, CommitField::Parent) {
        after_parents(b, line_end(b, i) + 1)
    } else {
        i
    }
}

/// Reads `<name> <email> <epoch> <zone>` from `b[lo..hi]`, the address between
/// `<` and `>`, the name before it without trailing whitespace.
pub open spec fn parse_user(b: Seq<u8>, lo: int, hi: int) -> Option<UserView> {
    let lt = lo + span(b, 60, lo, hi);
    if lt >= hi {
        None
    } else {
        let gt = lt + 1 + span(b, 62, lt + 1, hi);
        if gt >= hi {
            None
        } else {
            let toks = split_ws(b.subrange(gt + 1, hi));
            if toks.len() != 2 {
                None
            } else {
                match decimal_value(toks[0], 0xffff_ffff_ffff_ffffu64) {
                    Some(t) => Some(
                        UserView {
                            name: trim_end(b.subrange(lo, lt)),
                            email: b.subrange(lt + 1, gt),
                            time: t,
                            zone: toks[1],
                        },
                    ),
                    None => None,
                }
            }
        }
    }
}

/// Reads the user line `f` at `i`.
pub open spec fn user_field(b: Seq<u8>, i: int, f: CommitField) -> Option<UserView> {
    if field_at(b, i, f) {
        parse_user(b, i + field_prefix(f).len(), line_end(b, i))
    } else {
        None
    }
}

/// The metadata of a commit body: a `tree` line, one or more `parent` lines,
/// an `author` line and a `committer` line; what follows is not read.
pub open spec fn parse_commit(b: Seq<u8>) -> Result<MetaView, Malformed> {
    if !field_at(b, 0, CommitField::Tree) {
        Err(Malformed::BadCommitField(CommitField::Tree))
    } else {
        let i1 = line_end(b, 0) + 1;
        let parents = parents_from(b, i1);
        let i2 = after_parents(b, i1);
        if parents.len() == 0 {
            Err(Malformed::BadCommitField(CommitField::Parent))
        } else {
            match user_field(b, i2, CommitField::Author) {
                None => Err(Malformed::BadCommitField(CommitField::Author)),
                Some(author) => {
                    match user_field(b, line_end(b, i2) + 1, CommitField::Committer) {
                        None => Err(Malformed::BadCommitField(CommitField::Committer)),
                        Some(committer) => Ok(
                            MetaView {
                                tree: field_value(b, 0, CommitField::Tree),
                                parents,
                                author,
                                committer,
                            },
                        ),
                    }
                },
            }
        }
    }
}

/// Reads one user line from `b[lo..hi]`.
pub fn read_user(b: &[u8], lo: usize, hi: usize) -> (r: Option<User>)
    requires
        lo <= hi <= b@.len(),
    ensures
        match r {
            Some(u) => parse_user(b@, lo as int, hi as int) == Some(u@),
            None => parse_user(b@, lo as int, hi as int).is_none(),
        },
{
    let lt = find_byte(b, 60, lo, hi);
    if lt >= hi {
        return None;
    }
    let gt = find_byte(b, 62, lt + 1, hi);
    if gt >= hi {
        return None;
    }
    let toks = split_whitespace(b, gt + 1, hi);
    if toks.len() != 2 {
        return None;
    }
    assert(toks@[0]@ == views(toks@)[0]);
    assert(toks@[1]@ == views(toks@)[1]);
    let time = match parse_decimal(toks[0].as_slice(), 0xffff_ffff_ffff_ffffu64) {
        Some(t) => t,
        None => {
            return None;
        },
    };
    let zone = copy_range(toks[1].as_slice(), 0, toks[1].len());
    assert(toks@[1]@.subrange(0, toks@[1]@.len() as int) =~= toks@[1]@);
    Some(User { name: copy_trimmed(b, lo, lt), email: copy_range(b, lt + 1, gt), time, zone })
}

/// Reads the user line `f` that starts at `i`, whose end is `e`.
fn read_user_field(b: &[u8], i: usize, e: usize, f: CommitField) -> (r: Option<User>)
    requires
        i <= e <= b@.len(),
        e == line_end(b@, i as int),
    ensures
        match r {
            Some(u) => user_field(b@, i as int, f) == Some(u@),
            None => user_field(b@, i as int, f).is_none(),
        },
{
    let p = f.prefix();
    if !has_prefix(b, i, e, p.as_slice()) {
        return None;
    }
    read_user(b, i + p.len(), e)
}

/// Reads the metadata of a commit body.
pub fn parse_commit_body(b: &[u8]) -> (r: Result<Meta, Malformed>)
    ensures
        match r {
            Ok(m) => parse_commit(b@) == Ok::<MetaView, Malformed>(m@),
            Err(e) => parse_commit(b@) == Err::<MetaView, Malformed>(e),
        },
{
    let n = b.len();
    let tp = CommitField::Tree.prefix();
    let e0 = find_byte(b, 10, 0, n);
    if !has_prefix(b, 0, e0, tp.as_slice()) {
        return Err(Malformed::BadCommitField(CommitField::Tree));
    }
    let tree = copy_range(b, tp.len(), e0);
    if e0 == n {
        return Err(Malformed::BadCommitField(CommitField::Parent));
    }
    let ghost i1 = e0 + 1;
    let pp = CommitField::Parent.prefix();
    let mut parents: Vec<Vec<u8>> = Vec::new();
    let mut i: usize = e0 + 1;
    let mut e: usize = find_byte(b, 10, i, n);
    assert(views(parents@) + parents_from(b@, i as int) =~= parents_from(b@, i as int));
    while has_prefix(b, i, e, pp.as_slice())
        invariant
            i <= e <= n == b@.len(),
            e == line_end(b@, i as int),
            pp@ == field_prefix(CommitField::Parent),
            parents_from(b@, i1) == views(parents@) + parents_from(b@, i as int),
            after_parents(b@, i1) == after_parents(b@, i as int),
            parents@.len() > 0 || i == i1,
            field_at(b@, 0, CommitField::Tree),
            i1 == line_end(b@, 0) + 1,
            tree@ == field_value(b@, 0, CommitField::Tree),
        decreases n - i,
    {
        let v = copy_range(b, i + pp.len(), e);
        let ghost before = views(parents@);
        let ghost rest = parents_from(b@, e + 1);
        parents.push(v);
        assert(views(parents@) =~= before.push(v@));
        assert(before + (seq![v@] + rest) =~= before.push(v@) + rest);
        if e == n {
            assert(!field_at(b@, n + 1, CommitField::Parent));
            assert(!field_at(b@, n + 1, CommitField::Author));
            assert(after_parents(b@, n + 1) == n + 1);
            assert(parents_from(b@, n + 1) == Seq::<Seq<u8>>::empty());
            assert(views(parents@) + Seq::<Seq<u8>>::empty() =~= views(parents@));
            return Err(Malformed::BadCommitField(CommitField::Author));
        }
        i = e + 1;
        e = find_byte(b, 10, i, n);
    }
    assert(views(parents@) + seq![] =~= views(parents@));
    if parents.len() == 0 {
        return Err(Malformed::BadCommitField(CommitField::Parent));
    }
    let author = match read_user_field(b, i, e, CommitField::Author) {
        Some(u) => u,
        None => {
            return Err(Malformed::BadCommitField(CommitField::Author));
        },
    };
    if e == n {
        assert(!field_at(b@, n + 1, CommitField::Committer));
        return Err(Malformed::BadCommitField(CommitField::Committer));
    }
    let i3 = e + 1;
    let e3 = find_byte(b, 10, i3, n);
    let committer = match read_user_field(b, i3, e3, CommitField::Committer) {
        Some(u) => u,
        None => {
            return Err(Malformed::BadCommitField(CommitField::Committer));
        },
    };
    Ok(Meta { tree, parents, author, committer })
}

// ---------------------------------------------------------------- whole objects

/// How a body of the given kind is read.
pub open spec fn parse_body(kind: ObjectType, body: Seq<u8>, w: nat) -> Result<BodyView, Malformed> {
    match kind {
        ObjectType::Blob => Ok(BodyView::Blob),
        ObjectType::Tree => match parse_tree(body, w) {
            Ok(es) => Ok(BodyView::Tree(es)),
            Err(m) => Err(m),
        },
        ObjectType::Commit => match parse_commit(body) {
            Ok(m) => Ok(BodyView::Commit(m)),
            Err(e) => Err(e),
        },
        ObjectType::Tag => Ok(BodyView::Tag),
    }
}

/// Decodes the inflated form `<kind> <size>\0<body>` of the object `hash`.
/// The header is what precedes the first NUL byte; it holds exactly two
/// whitespace-separated tokens, a known kind and a decimal size that fits in
/// `u32` and equals the length of the body.
pub open spec fn parse_object(hash: Seq<char>, raw: Seq<u8>, w: nat) -> Result<ObjectView, Malformed> {
    let n = raw.len() as int;
    let z = span(raw, 0, 0, n) as int;
    if z >= n {
        Err(Malformed::MissingHeaderTerminator)
    } else {
        let toks = split_ws(raw.subrange(0, z));
        if toks.len() != 2 {
            Err(Malformed::BadHeader)
        } else {
            match kind_of_token(toks[0]) {
                None => Err(Malformed::UnknownKind),
                Some(kind) => match decimal_value(toks[1], 0xffff_ffffu64) {
                    None => Err(Malformed::BadSize),
                    Some(size) => {
                        let body = raw.subrange(z + 1, n);
                        if body.len() != size {
                            Err(Malformed::SizeMismatch)
                        } else {
                            match parse_body(kind, body, w) {
                                Ok(bv) => Ok(
                                    ObjectView {
                                        obj_type: kind,
                                        hash,
                                        size: size as u32,
                                        data: body,
                                        body: bv,
                                    },
                                ),
                                Err(m) => Err(m),
                            }
                        }
                    },
                },
            }
        }
    }
}

/// Decodes a stored (compressed) object: inflation failure is `UnreadableStream`.
pub open spec fn decode_object(hash: Seq<char>, stored: Seq<u8>, w: nat) -> Result<ObjectView, ObjectError> {
    match zlib_inflated(stored) {
        None => Err(ObjectError::Malformed(Malformed::UnreadableStream)),
        Some(raw) => match parse_object(hash, raw, w) {
            Ok(o) => Ok(o),
            Err(m) => Err(ObjectError::Malformed(m)),
        },
    }
}

/// The view of a decoding result.
pub open spec fn object_result<E>(r: Result<Object, E>) -> Result<ObjectView, E> {
    match r {
        Ok(o) => Ok(o@),
        Err(e) => Err(e),
    }
}

/// Whether the kind of body matches the kind tag.
pub open spec fn body_matches(kind: ObjectType, b: BodyView) -> bool {
    match b {
        BodyView::Blob => kind == ObjectType::Blob,
        BodyView::Tree(_) => kind == ObjectType::Tree,
        BodyView::Commit(_) => kind == ObjectType::Commit,
        BodyView::Tag => kind == ObjectType::Tag,
    }
}

/// The part of a tree listing that one entry contributes: its mode and name,
/// a line feed, then its identifier in hexadecimal. The next entry's mode and
/// name follow the hexadecimal digits directly.
pub open spec fn entry_chunk(e: EntryView) -> Seq<u8> {
    e.mode + seq![32u8] + e.filename + seq![10u8] + hex_spec(e.hash)
}

/// A tree listing: the first line is the first entry's `<mode> <name>`; each
/// further line is an entry's hexadecimal identifier followed by the next
/// entry's `<mode> <name>` (nothing after the last), in entry order.
pub open spec fn tree_listing(es: Seq<EntryView>) -> Seq<u8>
    decreases es.len(),
{
    if es.len() == 0 {
        seq![]
    } else {
        tree_listing(es.drop_last()) + entry_chunk(es.last())
    }
}

/// What a decoded object reads as: a listing for a tree, the body bytes otherwise.
pub open spec fn contents_of(o: ObjectView) -> Seq<u8> {
    match o.body {
        BodyView::Tree(es) => tree_listing(es),
        _ => o.data,
    }
}

/// Appends `s` to `out`.
pub fn append(out: &mut Vec<u8>, s: &[u8])
    ensures
        final(out)@ == old(out)@ + s@,
{
    let ghost start = out@;
    let mut i: usize = 0;
    while i < s.len()
        invariant
            i <= s@.len(),
            out@ == start + s@.subrange(0, i as int),
        decreases s@.len() - i,
    {
        out.push(s[i]);
        i = i + 1;
        assert(out@ =~= start + s@.subrange(0, i as int));
    }
    assert(s@.subrange(0, i as int) =~= s@);
}

/// Whether `s` has at least two bytes and a character boundary after the second.
pub open spec fn location_ok(s: Seq<u8>) -> bool {
    s.len() >= 2 && vstd::utf8::is_char_boundary(s, 2)
}

/// Splits an identifier into the directory and file names under `objects/`:
/// its first two characters and the rest.
pub fn object_location(hash: &str) -> (r: Option<(&str, &str)>)
    ensures
        r.is_some() == location_ok(hash.spec_bytes()),
        match r {
            Some((d, f)) => d.spec_bytes() == hash.spec_bytes().subrange(0, 2) && f.spec_bytes()
                == hash.spec_bytes().subrange(2, hash.spec_bytes().len() as int),
            None => true,
        },
{
    let n = hash.as_bytes().len();
    if n >= 2 && hash.is_char_boundary(2) {
        Some(hash.split_at(2))
    } else {
        None
    }
}

impl Object {
    /// The body was read as the kind says, and the declared size is its length.
    pub open spec fn wf(&self) -> bool {
        body_matches(self.obj_type, self.body@) && self.data@.len() == self.size
    }

    /// Decodes the inflated bytes of the object `hash`.
    pub fn from_raw(hash: String, raw: &[u8], algo: HashAlgo) -> (r: Result<Object, Malformed>)
        ensures
            object_result(r) == parse_object(hash@, raw@, algo.spec_width()),
            r matches Ok(o) ==> o.wf(),
    {
        let n = raw.len();
        let z = find_byte(raw, 0, 0, n);
        if z >= n {
            return Err(Malformed::MissingHeaderTerminator);
        }
        let toks = split_whitespace(raw, 0, z);
        if toks.len() != 2 {
            return Err(Malformed::BadHeader);
        }
        assert(toks@[0]@ == views(toks@)[0]);
        assert(toks@[1]@ == views(toks@)[1]);
        let kind = match ObjectType::from_token(toks[0].as_slice()) {
            Some(k) => k,
            None => {
                return Err(Malformed::UnknownKind);
            },
        };
        let size = match parse_decimal(toks[1].as_slice(), 0xffff_ffffu64) {
            Some(v) => v,
            None => {
                return Err(Malformed::BadSize);
            },
        };
        let data = copy_range(raw, z + 1, n);
        if data.len() as u64 != size {
            return Err(Malformed::SizeMismatch);
        }
        let body = match kind {
            ObjectType::Blob => Body::Blob,
            ObjectType::Tree => match parse_tree_body(data.as_slice(), algo.width()) {
                Ok(es) => Body::Tree(es),
                Err(m) => {
                    return Err(m);
                },
            },
            ObjectType::Commit => match parse_commit_body(data.as_slice()) {
                Ok(m) => Body::Commit(m),
                Err(e) => {
                    return Err(e);
                },
            },
            ObjectType::Tag => Body::Tag,
        };
        Ok(Object { obj_type: kind, hash, size: size as u32, data, body })
    }

    /// Inflates the stored bytes of the object `hash` and decodes them.
    pub fn new(hash: String, stored: &[u8], algo: HashAlgo) -> (r: Result<Object, ObjectError>)
        ensures
            object_result(r) == decode_object(hash@, stored@, algo.spec_width()),
            r matches Ok(o) ==> o.wf(),
    {
        match inflate(stored) {
            None => Err(ObjectError::Malformed(Malformed::UnreadableStream)),
            Some(raw) => match Object::from_raw(hash, raw.as_slice(), algo) {
                Ok(o) => Ok(o),
                Err(m) => Err(ObjectError::Malformed(m)),
            },
        }
    }

    /// The directory and file names of this object under `objects/`.
    pub fn get_path(&self) -> (r: Option<(&str, &str)>)
        ensures
            r.is_some() == location_ok(encode_utf8(self.hash@)),
            match r {
                Some((d, f)) => d.spec_bytes() == encode_utf8(self.hash@).subrange(0, 2)
                    && f.spec_bytes() == encode_utf8(self.hash@).subrange(2, encode_utf8(self.hash@).len() as int),
                None => true,
            },
    {
        object_location(self.hash.as_str())
    }

    /// The object read as content: for a tree one line per entry, in order,
    /// with the identifier in hexadecimal; for any other kind the body bytes
    /// unchanged.
    pub fn get_contents(&self) -> (r: Vec<u8>)
        ensures
            r@ == contents_of(self@),
    {
        match &self.body {
            Body::Tree(es) => {
                let mut out: Vec<u8> = Vec::new();
                let mut k: usize = 0;
                while k < es.len()
                    invariant
                        k <= es@.len(),
                        out@ == tree_listing(entry_views(es@).take(k as int)),
                    decreases es@.len() - k,
                {
                    let ghost prev = entry_views(es@).take(k as int);
                    let e = &es[k];
                    append(&mut out, e.mode.as_slice());
                    out.push(32u8);
                    append(&mut out, e.filename.as_slice());
                    out.push(10u8);
                    let h = hex_bytes(e.hash.as_slice());
                    append(&mut out, h.as_slice());
                    proof {
                        let cur = entry_views(es@).take(k + 1);
                        assert(cur.drop_last() =~= prev);
                        assert(cur.last() == e@);
                        assert(out@ =~= tree_listing(prev) + entry_chunk(e@));
                    }
                    k = k + 1;
                }
                assert(entry_views(es@).take(k as int) =~= entry_views(es@));
                out
            },
            _ => copy_range(self.data.as_slice(), 0, self.data.len()),
        }
    }
}

} // verus!
