//! A RAM-backed filesystem with a real inode tree: a node is a file or a directory (from
//! names to inodes), and carries extended attributes. Callers walk paths of several segments
//! one lookup at a time.

use vstd::prelude::*;
use vstd::string::*;
use vstd::utf8::encode_utf8;
use crate::bytes::{overwrite, set_bytes};
use crate::text::same_text;

verus! {

/// An inode's number.
#[derive(Debug, Clone, Copy, PartialEq, Eq, Structural)]
pub struct InodeId(pub u32);

impl InodeId {
    #[must_use]
    pub fn new(n: u32) -> (r: Self)
        ensures
            r == InodeId(n),
    {
        InodeId(n)
    }

    #[must_use]
    pub fn as_u32(self) -> (r: u32)
        ensures
            r == self.0,
    {
        self.0
    }
}

/// The root directory's inode.
pub const ROOT: u32 = 0;

/// What a node is.
#[derive(Debug, Clone, Copy, PartialEq, Eq, Structural)]
pub enum NodeKind {
    File,
    Dir,
}

/// Why an operation was refused.
#[derive(Debug, Clone, Copy, PartialEq, Eq, Structural)]
pub enum FsError {
    /// No such inode, name or attribute.
    NotFound,
    /// A directory was needed.
    NotADir,
    /// A file was needed.
    IsADir,
}

/// What a node is, and how large.
#[derive(Debug, Clone, Copy, PartialEq, Eq, Structural)]
pub struct Stat {
    pub kind: NodeKind,
    pub size: u64,
}

/// One name in a directory.
#[derive(Debug, Clone, PartialEq, Eq)]
pub struct DirEntry {
    pub name: String,
    pub ino: InodeId,
    pub kind: NodeKind,
}

/// What a [`DirEntry`] says.
pub struct DirEntryView {
    pub name: Seq<char>,
    pub ino: InodeId,
    pub kind: NodeKind,
}

impl View for DirEntry {
    type V = DirEntryView;

    open spec fn view(&self) -> DirEntryView {
        DirEntryView { name: self.name@, ino: self.ino, kind: self.kind }
    }
}

/// One entry of a seed image that carries attributes: `(path, content, attributes)`.
pub type SeedEntry<'a> = (&'a str, &'a [u8], &'a [(&'a str, &'a [u8])]);

// The order of names.

/// Whether one byte string comes before another, as in a dictionary.
pub open spec fn lex_before(a: Seq<u8>, b: Seq<u8>) -> bool
    decreases a.len(),
{
    if b.len() == 0 {
        false
    } else if a.len() == 0 {
        true
    } else if a[0] != b[0] {
        a[0] < b[0]
    } else {
        lex_before(a.skip(1), b.skip(1))
    }
}

/// Whether one name comes before another: by their bytes.
pub open spec fn precedes(a: Seq<char>, b: Seq<char>) -> bool {
    lex_before(encode_utf8(a), encode_utf8(b))
}

proof fn lemma_lex_irreflexive(a: Seq<u8>)
    ensures
        !lex_before(a, a),
    decreases a.len(),
{
    if a.len() > 0 {
        lemma_lex_irreflexive(a.skip(1));
    }
}

proof fn lemma_lex_transitive(a: Seq<u8>, b: Seq<u8>, c: Seq<u8>)
    requires
        lex_before(a, b),
        lex_before(b, c),
    ensures
        lex_before(a, c),
    decreases a.len(),
{
    if a.len() > 0 && a[0] == b[0] && b[0] == c[0] {
        lemma_lex_transitive(a.skip(1), b.skip(1), c.skip(1));
    }
}

proof fn lemma_lex_total(a: Seq<u8>, b: Seq<u8>)
    ensures
        lex_before(a, b) || lex_before(b, a) || a == b,
    decreases a.len(),
{
    if a.len() > 0 && b.len() > 0 {
        if a[0] == b[0] {
            lemma_lex_total(a.skip(1), b.skip(1));
            if a.skip(1) == b.skip(1) {
                assert(a =~= seq![a[0]] + a.skip(1));
                assert(b =~= seq![b[0]] + b.skip(1));
            }
        }
    } else if a.len() == 0 && b.len() == 0 {
        assert(a =~= b);
    }
}

proof fn lemma_order(a: Seq<char>, b: Seq<char>, c: Seq<char>)
    ensures
        !precedes(a, a),
        precedes(a, b) && precedes(b, c) ==> precedes(a, c),
        precedes(a, b) || precedes(b, a) || a == b,
{
    lemma_lex_irreflexive(encode_utf8(a));
    if precedes(a, b) && precedes(b, c) {
        lemma_lex_transitive(encode_utf8(a), encode_utf8(b), encode_utf8(c));
    }
    lemma_lex_total(encode_utf8(a), encode_utf8(b));
    vstd::utf8::encode_utf8_decode_utf8(a);
    vstd::utf8::encode_utf8_decode_utf8(b);
}

/// Whether name `a` comes before name `b`.
fn comes_before(a: &str, b: &str) -> (r: bool)
    ensures
        r == precedes(a@, b@),
{
    let x: &[u8] = a.as_bytes();
    let y: &[u8] = b.as_bytes();
    let mut i: usize = 0;
    proof {
        assert(x@.skip(0) =~= x@);
        assert(y@.skip(0) =~= y@);
    }
    while i < x.len() && i < y.len()
        invariant
            x@ == encode_utf8(a@),
            y@ == encode_utf8(b@),
            i <= x@.len(),
            i <= y@.len(),
            lex_before(x@, y@) == lex_before(x@.skip(i as int), y@.skip(i as int)),
        decreases x@.len() - i,
    {
        if x[i] != y[i] {
            return x[i] < y[i];
        }
        proof {
            assert(x@.skip(i as int).skip(1) =~= x@.skip(i + 1));
            assert(y@.skip(i as int).skip(1) =~= y@.skip(i + 1));
        }
        i += 1;
    }
    i < y.len()
}

// Tables from names to values, sorted by name.

/// How many of the names from the `i`th on come before `name`, and so where it belongs.
pub open spec fn rank(names: Seq<Seq<char>>, name: Seq<char>, i: int) -> int
    decreases names.len() - i,
{
    if i < 0 || i >= names.len() || !precedes(names[i], name) {
        i
    } else {
        rank(names, name, i + 1)
    }
}

/// The names of a table.
pub open spec fn names_of<V>(t: Seq<(Seq<char>, V)>) -> Seq<Seq<char>> {
    t.map_values(|e: (Seq<char>, V)| e.0)
}

/// Where `name` is, or belongs.
pub open spec fn place_of<V>(t: Seq<(Seq<char>, V)>, name: Seq<char>) -> int {
    rank(names_of(t), name, 0)
}

/// Whether the table has `name`.
pub open spec fn names<V>(t: Seq<(Seq<char>, V)>, name: Seq<char>) -> bool {
    place_of(t, name) < t.len() && t[place_of(t, name)].0 == name
}

/// What the table has under `name`.
pub open spec fn get<V>(t: Seq<(Seq<char>, V)>, name: Seq<char>) -> Option<V> {
    if names(t, name) {
        Some(t[place_of(t, name)].1)
    } else {
        None
    }
}

/// The table with `value` under `name`.
pub open spec fn put<V>(t: Seq<(Seq<char>, V)>, name: Seq<char>, value: V) -> Seq<
    (Seq<char>, V),
> {
    if names(t, name) {
        t.update(place_of(t, name), (name, value))
    } else {
        t.insert(place_of(t, name), (name, value))
    }
}

/// The table without `name`.
pub open spec fn without<V>(t: Seq<(Seq<char>, V)>, name: Seq<char>) -> Seq<(Seq<char>, V)> {
    if names(t, name) {
        t.remove(place_of(t, name))
    } else {
        t
    }
}

/// Whether a table's names rise, each occurring once.
#[verifier::opaque]
pub open spec fn sorted<V>(t: Seq<(Seq<char>, V)>) -> bool {
    forall|i: int, j: int|
        0 <= i < j < t.len() ==> precedes((#[trigger] t[i]).0, (#[trigger] t[j]).0)
}

proof fn lemma_rank(names: Seq<Seq<char>>, name: Seq<char>, i: int)
    requires
        0 <= i <= names.len(),
    ensures
        i <= rank(names, name, i) <= names.len(),
        forall|k: int| i <= k < rank(names, name, i) ==> precedes(#[trigger] names[k], name),
        rank(names, name, i) < names.len() ==> !precedes(names[rank(names, name, i)], name),
    decreases names.len() - i,
{
    if i < names.len() && precedes(names[i], name) {
        lemma_rank(names, name, i + 1);
    }
}

pub proof fn lemma_place<V>(t: Seq<(Seq<char>, V)>, name: Seq<char>)
    ensures
        0 <= place_of(t, name) <= t.len(),
        forall|k: int| 0 <= k < place_of(t, name) ==> precedes((#[trigger] t[k]).0, name),
        place_of(t, name) < t.len() ==> !precedes(t[place_of(t, name)].0, name),
{
    lemma_rank(names_of(t), name, 0);
    assert forall|k: int| 0 <= k < place_of(t, name) implies precedes((#[trigger] t[k]).0, name) by {
        assert(names_of(t)[k] == t[k].0);
    }
}

/// In a sorted table a name is found where it stands.
pub proof fn lemma_found<V>(t: Seq<(Seq<char>, V)>, name: Seq<char>, i: int)
    requires
        sorted(t),
        0 <= i < t.len(),
        t[i].0 == name,
    ensures
        place_of(t, name) == i,
        names(t, name),
{
    reveal(sorted);
    lemma_place(t, name);
    lemma_order(name, name, name);
    let p = place_of(t, name);
    if p > i {
        assert(precedes(t[i].0, name));
    } else if p < i {
        assert(precedes(t[p].0, t[i].0));
    }
}

/// A table stays sorted as names are put in and taken out.
pub proof fn law_tables_stay_sorted<V>(t: Seq<(Seq<char>, V)>, name: Seq<char>, value: V)
    requires
        sorted(t),
    ensures
        sorted(put(t, name, value)),
        sorted(without(t, name)),
{
    reveal(sorted);
    lemma_place(t, name);
    let p = place_of(t, name);
    if !names(t, name) {
        let u = t.insert(p, (name, value));
        if p < t.len() {
            lemma_order(t[p].0, name, name);
        }
        assert forall|i: int, j: int| 0 <= i < j < u.len() implies precedes(
            (#[trigger] u[i]).0,
            (#[trigger] u[j]).0,
        ) by {
            if i < p && j > p {
                assert(precedes(t[i].0, t[j - 1].0));
            } else if i == p {
                if j - 1 > p {
                    assert(precedes(t[p].0, t[j - 1].0));
                    lemma_order(name, t[p].0, t[j - 1].0);
                }
            } else if i > p {
                assert(precedes(t[i - 1].0, t[j - 1].0));
            }
        }
    } else {
        let w = t.remove(p);
        assert forall|i: int, j: int| 0 <= i < j < w.len() implies precedes(
            (#[trigger] w[i]).0,
            (#[trigger] w[j]).0,
        ) by {
            let a = if i < p {
                i
            } else {
                i + 1
            };
            let b = if j < p {
                j
            } else {
                j + 1
            };
            assert(precedes(t[a].0, t[b].0));
        }
    }
}

/// What is put under a name is found under it.
pub proof fn law_a_put_is_found<V>(t: Seq<(Seq<char>, V)>, name: Seq<char>, value: V)
    requires
        sorted(t),
    ensures
        get(put(t, name, value), name) == Some(value),
{
    lemma_place(t, name);
    law_tables_stay_sorted(t, name, value);
    lemma_found(put(t, name, value), name, place_of(t, name));
}

/// Where two sorted tables agree about one name's place, they agree about it.
proof fn lemma_agree<V>(
    t: Seq<(Seq<char>, V)>,
    u: Seq<(Seq<char>, V)>,
    other: Seq<char>,
    to: spec_fn(int) -> int,
    back: spec_fn(int) -> int,
)
    requires
        sorted(t),
        sorted(u),
        forall|i: int|
            0 <= i < t.len() && (#[trigger] t[i]).0 == other ==> 0 <= to(i) < u.len() && u[to(i)]
                == t[i],
        forall|i: int|
            0 <= i < u.len() && (#[trigger] u[i]).0 == other ==> 0 <= back(i) < t.len()
                && t[back(i)] == u[i],
    ensures
        get(u, other) == get(t, other),
{
    lemma_place(t, other);
    lemma_place(u, other);
    if names(t, other) {
        lemma_found(u, other, to(place_of(t, other)));
    } else if names(u, other) {
        lemma_found(t, other, back(place_of(u, other)));
    }
}

/// Putting and removing one name leaves what is under every other.
pub proof fn law_other_names_are_untouched<V>(
    t: Seq<(Seq<char>, V)>,
    name: Seq<char>,
    value: V,
    other: Seq<char>,
)
    requires
        sorted(t),
        other != name,
    ensures
        get(put(t, name, value), other) == get(t, other),
        get(without(t, name), other) == get(t, other),
{
    law_tables_stay_sorted(t, name, value);
    lemma_place(t, name);
    let p = place_of(t, name);
    let same = |i: int| i;
    let up = |i: int|
        if i < p {
            i
        } else {
            i + 1
        };
    let down = |i: int|
        if i < p {
            i
        } else {
            i - 1
        };
    if names(t, name) {
        lemma_agree(t, t.update(p, (name, value)), other, same, same);
        lemma_agree(t, t.remove(p), other, down, up);
    } else {
        lemma_agree(t, t.insert(p, (name, value)), other, up, down);
    }
}

/// What is removed is gone.
pub proof fn law_a_removed_name_is_gone<V>(t: Seq<(Seq<char>, V)>, name: Seq<char>)
    requires
        sorted(t),
    ensures
        get(without(t, name), name) is None,
{
    lemma_place(t, name);
    let w = without(t, name);
    lemma_place(w, name);
    if names(w, name) && names(t, name) {
        let b = place_of(w, name);
        let i = if b < place_of(t, name) {
            b
        } else {
            b + 1
        };
        lemma_found(t, name, i);
    }
}

/// The names of the entries, as text.
spec fn keys<V>(entries: Seq<(String, V)>) -> Seq<Seq<char>> {
    entries.map_values(|e: (String, V)| e.0@)
}

/// Where `name` is, or belongs, and whether it is there.
fn search<V>(entries: &Vec<(String, V)>, name: &str) -> (r: (usize, bool))
    ensures
        r.0 == rank(keys(entries@), name@, 0),
        r.0 <= entries@.len(),
        r.1 == (r.0 < entries@.len() && entries@[r.0 as int].0@ == name@),
{
    let mut i: usize = 0;
    while i < entries.len() && comes_before(entries[i].0.as_str(), name)
        invariant
            i <= entries@.len(),
            rank(keys(entries@), name@, 0) == rank(keys(entries@), name@, i as int),
        decreases entries@.len() - i,
    {
        i += 1;
    }
    let there: bool = i < entries.len() && same_text(entries[i].0.as_str(), name);
    (i, there)
}

// Nodes.

/// What a node holds.
pub enum BodyState {
    File(Seq<u8>),
    Dir(Seq<(Seq<char>, InodeId)>),
}

/// A node: what it holds, and its extended attributes.
pub struct NodeState {
    pub body: BodyState,
    pub xattrs: Seq<(Seq<char>, Seq<u8>)>,
}

enum Body {
    File(Vec<u8>),
    Dir(Vec<(String, InodeId)>),
}

/// An inode. Attributes are part of it: they live and die with it.
struct Node {
    body: Body,
    xattrs: Vec<(String, Vec<u8>)>,
}

spec fn entries_view(s: Seq<(String, InodeId)>) -> Seq<(Seq<char>, InodeId)> {
    s.map_values(|e: (String, InodeId)| (e.0@, e.1))
}

spec fn xattrs_view(s: Seq<(String, Vec<u8>)>) -> Seq<(Seq<char>, Seq<u8>)> {
    s.map_values(|e: (String, Vec<u8>)| (e.0@, e.1@))
}

impl View for Node {
    type V = NodeState;

    closed spec fn view(&self) -> NodeState {
        NodeState {
            body: match self.body {
                Body::File(data) => BodyState::File(data@),
                Body::Dir(entries) => BodyState::Dir(entries_view(entries@)),
            },
            xattrs: xattrs_view(self.xattrs@),
        }
    }
}

/// A byte string cut or zero-filled to `n` bytes.
pub open spec fn resized(s: Seq<u8>, n: nat) -> Seq<u8> {
    Seq::new(
        n,
        |i: int|
            if i < s.len() {
                s[i]
            } else {
                0
            },
    )
}

/// A file with `data` at `off`, grown by zeros where it ends before.
pub open spec fn written_at(file: Seq<u8>, off: int, data: Seq<u8>) -> Seq<u8> {
    overwrite(
        if file.len() < off + data.len() {
            resized(file, (off + data.len()) as nat)
        } else {
            file
        },
        off,
        data,
    )
}

/// What a file has from `off` on, `room` bytes at most.
pub open spec fn read_at(file: Seq<u8>, off: int, room: int) -> Seq<u8> {
    if off >= file.len() {
        Seq::empty()
    } else if file.len() - off <= room {
        file.skip(off)
    } else {
        file.subrange(off, off + room)
    }
}

/// An empty node of a kind.
pub open spec fn empty_node(kind: NodeKind) -> NodeState {
    NodeState {
        body: match kind {
            NodeKind::File => BodyState::File(Seq::empty()),
            NodeKind::Dir => BodyState::Dir(Seq::empty()),
        },
        xattrs: Seq::empty(),
    }
}

/// Make a file `n` bytes long.
fn resize(file: &mut Vec<u8>, n: usize)
    ensures
        final(file)@ == resized(old(file)@, n as nat),
{
    let ghost start = file@;
    if n <= file.len() {
        file.truncate(n);
        proof {
            assert(file@ =~= resized(start, n as nat));
        }
        return;
    }
    while file.len() < n
        invariant
            start.len() <= file@.len() <= n,
            file@ == resized(start, file@.len()),
        decreases n - file@.len(),
    {
        file.push(0);
        proof {
            assert(file@ =~= resized(start, file@.len()));
        }
    }
}

impl Node {
    fn new(kind: NodeKind) -> (r: Self)
        ensures
            r@ == empty_node(kind),
    {
        let r = Node {
            body: match kind {
                NodeKind::File => Body::File(Vec::new()),
                NodeKind::Dir => Body::Dir(Vec::new()),
            },
            xattrs: Vec::new(),
        };
        proof {
            assert(r@.xattrs =~= Seq::empty());
            match r@.body {
                BodyState::File(s) => assert(s =~= Seq::empty()),
                BodyState::Dir(s) => assert(s =~= Seq::empty()),
            }
        }
        r
    }

    fn kind(&self) -> (r: NodeKind)
        ensures
            r == kind_of(self@),
    {
        match &self.body {
            Body::File(_) => NodeKind::File,
            Body::Dir(_) => NodeKind::Dir,
        }
    }

    /// Write to a file.
    fn write(&mut self, off: usize, data: &[u8]) -> (r: Result<usize, FsError>)
        requires
            old(self)@.body is File ==> off + data@.len() <= usize::MAX,
        ensures
            match old(self)@.body {
                BodyState::Dir(_) => r == Err::<usize, FsError>(FsError::IsADir) && final(self)@
                    == old(self)@,
                BodyState::File(file) => r == Ok::<usize, FsError>(data@.len() as usize)
                    && final(self)@ == (NodeState {
                    body: BodyState::File(written_at(file, off as int, data@)),
                    ..old(self)@
                }),
            },
    {
        match &mut self.body {
            Body::Dir(_) => Err(FsError::IsADir),
            Body::File(file) => {
                let end: usize = off + data.len();
                if file.len() < end {
                    resize(file, end);
                }
                set_bytes(file, off, data);
                Ok(data.len())
            },
        }
    }

    /// Cut or grow a file.
    fn truncate(&mut self, len: usize) -> (r: Result<(), FsError>)
        ensures
            match old(self)@.body {
                BodyState::Dir(_) => r == Err::<(), FsError>(FsError::IsADir) && final(self)@
                    == old(self)@,
                BodyState::File(file) => r is Ok && final(self)@ == (NodeState {
                    body: BodyState::File(resized(file, len as nat)),
                    ..old(self)@
                }),
            },
    {
        match &mut self.body {
            Body::Dir(_) => Err(FsError::IsADir),
            Body::File(file) => {
                resize(file, len);
                Ok(())
            },
        }
    }

    /// Find a name.
    fn lookup(&self, name: &str) -> (r: Result<InodeId, FsError>)
        ensures
            r == match self@.body {
                BodyState::File(_) => Err::<InodeId, FsError>(FsError::NotADir),
                BodyState::Dir(entries) => match get(entries, name@) {
                    Some(ino) => Ok::<InodeId, FsError>(ino),
                    None => Err::<InodeId, FsError>(FsError::NotFound),
                },
            },
    {
        match &self.body {
            Body::File(_) => Err(FsError::NotADir),
            Body::Dir(entries) => {
                proof {
                    assert(names_of(entries_view(entries@)) =~= keys(entries@));
                }
                let (i, there): (usize, bool) = search(entries, name);
                if there {
                    Ok(entries[i].1)
                } else {
                    Err(FsError::NotFound)
                }
            },
        }
    }

    /// Add a name, or give it another inode.
    fn link(&mut self, name: &str, ino: InodeId)
        requires
            old(self)@.body is Dir,
        ensures
            final(self)@ == (NodeState {
                body: BodyState::Dir(put(old(self)@.body->Dir_0, name@, ino)),
                ..old(self)@
            }),
    {
        match &mut self.body {
            Body::File(_) => {},
            Body::Dir(entries) => {
                let ghost t = entries_view(entries@);
                proof {
                    assert(names_of(t) =~= keys(entries@));
                }
                let (i, there): (usize, bool) = search(entries, name);
                if there {
                    entries[i] = (name.to_owned(), ino);
                } else {
                    entries.insert(i, (name.to_owned(), ino));
                }
                proof {
                    assert(entries_view(entries@) =~= put(t, name@, ino));
                }
            },
        }
    }

    /// Take a name out.
    fn unlink(&mut self, name: &str) -> (r: Result<(), FsError>)
        ensures
            match old(self)@.body {
                BodyState::File(_) => r == Err::<(), FsError>(FsError::NotADir) && final(self)@
                    == old(self)@,
                BodyState::Dir(entries) => r == (if names(entries, name@) {
                    Ok::<(), FsError>(())
                } else {
                    Err::<(), FsError>(FsError::NotFound)
                }) && final(self)@ == (NodeState {
                    body: BodyState::Dir(without(entries, name@)),
                    ..old(self)@
                }),
            },
    {
        match &mut self.body {
            Body::File(_) => Err(FsError::NotADir),
            Body::Dir(entries) => {
                let ghost t = entries_view(entries@);
                proof {
                    assert(names_of(t) =~= keys(entries@));
                }
                let (i, there): (usize, bool) = search(entries, name);
                if there {
                    let _ = entries.remove(i);
                    proof {
                        assert(entries_view(entries@) =~= without(t, name@));
                    }
                    Ok(())
                } else {
                    Err(FsError::NotFound)
                }
            },
        }
    }

    /// Read an attribute.
    fn getxattr(&self, name: &str) -> (r: Result<Vec<u8>, FsError>)
        ensures
            match get(self@.xattrs, name@) {
                Some(value) => r matches Ok(v) && v@ == value,
                None => r matches Err(e) && e == FsError::NotFound,
            },
    {
        proof {
            assert(names_of(self@.xattrs) =~= keys(self.xattrs@));
        }
        let (i, there): (usize, bool) = search(&self.xattrs, name);
        if there {
            Ok(vstd::slice::slice_to_vec(self.xattrs[i].1.as_slice()))
        } else {
            Err(FsError::NotFound)
        }
    }

    /// Set an attribute.
    fn setxattr(&mut self, name: &str, value: &[u8])
        ensures
            final(self)@ == (NodeState {
                xattrs: put(old(self)@.xattrs, name@, value@),
                ..old(self)@
            }),
    {
        proof {
            assert(names_of(self@.xattrs) =~= keys(self.xattrs@));
        }
        let (i, there): (usize, bool) = search(&self.xattrs, name);
        if there {
            self.xattrs[i] = (name.to_owned(), vstd::slice::slice_to_vec(value));
        } else {
            self.xattrs.insert(i, (name.to_owned(), vstd::slice::slice_to_vec(value)));
        }
        proof {
            assert(self@.xattrs =~= put(old(self)@.xattrs, name@, value@));
        }
    }
}

/// What a node is.
pub open spec fn kind_of(n: NodeState) -> NodeKind {
    match n.body {
        BodyState::File(_) => NodeKind::File,
        BodyState::Dir(_) => NodeKind::Dir,
    }
}

// The filesystem.

/// The nodes of a filesystem, by inode.
pub struct FsState {
    pub nodes: Seq<NodeState>,
}

impl FsState {
    /// An empty root directory.
    pub open spec fn empty() -> Self {
        FsState { nodes: seq![empty_node(NodeKind::Dir)] }
    }

    /// Whether an inode exists.
    pub open spec fn has_node(self, ino: InodeId) -> bool {
        ino.0 < self.nodes.len()
    }

    /// The node of an inode.
    pub open spec fn node(self, ino: InodeId) -> NodeState {
        self.nodes[ino.0 as int]
    }

    /// Whether an inode is a file.
    pub open spec fn is_file(self, ino: InodeId) -> bool {
        self.has_node(ino) && self.node(ino).body is File
    }

    /// Whether an inode is a directory.
    pub open spec fn is_dir(self, ino: InodeId) -> bool {
        self.has_node(ino) && self.node(ino).body is Dir
    }

    /// Why an inode is not a directory.
    pub open spec fn dir_error(self, ino: InodeId) -> FsError {
        if self.has_node(ino) {
            FsError::NotADir
        } else {
            FsError::NotFound
        }
    }

    /// Why an inode is not a file.
    pub open spec fn file_error(self, ino: InodeId) -> FsError {
        if self.has_node(ino) {
            FsError::IsADir
        } else {
            FsError::NotFound
        }
    }

    /// A file's content.
    pub open spec fn content(self, ino: InodeId) -> Seq<u8> {
        self.node(ino).body->File_0
    }

    /// A directory's entries.
    pub open spec fn entries(self, ino: InodeId) -> Seq<(Seq<char>, InodeId)> {
        self.node(ino).body->Dir_0
    }

    /// The filesystem with another body for an inode.
    pub open spec fn with_body(self, ino: InodeId, body: BodyState) -> Self {
        FsState {
            nodes: self.nodes.update(ino.0 as int, NodeState { body, ..self.node(ino) }),
        }
    }

    /// What looking a name up in a directory gives.
    pub open spec fn looked_up(self, dir: InodeId, name: Seq<char>) -> Result<InodeId, FsError> {
        if self.is_dir(dir) {
            match get(self.entries(dir), name) {
                Some(ino) => Ok(ino),
                None => Err(FsError::NotFound),
            }
        } else {
            Err(self.dir_error(dir))
        }
    }

    /// The inode that the next node gets.
    pub open spec fn next_ino(self) -> InodeId {
        InodeId((self.nodes.len() % 0x1_0000_0000) as u32)
    }

    /// The filesystem with a new node under `name` in a directory.
    pub open spec fn created(self, dir: InodeId, name: Seq<char>, kind: NodeKind) -> Self {
        let grown = FsState { nodes: self.nodes.push(empty_node(kind)) };
        grown.with_body(dir, BodyState::Dir(put(self.entries(dir), name, self.next_ino())))
    }

    /// The filesystem with `data` written to a file.
    pub open spec fn with_data(self, ino: InodeId, off: int, data: Seq<u8>) -> Self {
        self.with_body(ino, BodyState::File(written_at(self.content(ino), off, data)))
    }

    /// The filesystem with an attribute set.
    pub open spec fn with_xattr(self, ino: InodeId, name: Seq<char>, value: Seq<u8>) -> Self {
        FsState {
            nodes: self.nodes.update(
                ino.0 as int,
                NodeState { xattrs: put(self.node(ino).xattrs, name, value), ..self.node(ino) },
            ),
        }
    }

    /// The filesystem with a file made at the end of a path, from directory `dir` on, and
    /// the file's inode: missing directories on the way are made. `None` where something on
    /// the way is a file, or no inode is left.
    pub open spec fn planted(self, dir: InodeId, path: Seq<Seq<char>>, data: Seq<u8>) -> Option<
        (FsState, InodeId),
    >
        decreases path.len(),
    {
        if path.len() == 0 {
            Some((self, dir))
        } else if !self.is_dir(dir) || self.nodes.len() >= 0x1_0000_0000 {
            None
        } else if path.len() == 1 {
            Some(
                (
                    self.created(dir, path[0], NodeKind::File).with_data(self.next_ino(), 0, data),
                    self.next_ino(),
                ),
            )
        } else {
            match get(self.entries(dir), path[0]) {
                Some(next) => self.planted(next, path.skip(1), data),
                None => self.created(dir, path[0], NodeKind::Dir).planted(
                    self.next_ino(),
                    path.skip(1),
                    data,
                ),
            }
        }
    }

    /// The filesystem with attributes set, one after the other.
    pub open spec fn with_xattrs(self, ino: InodeId, xattrs: Seq<(Seq<char>, Seq<u8>)>) -> Self
        decreases xattrs.len(),
    {
        if xattrs.len() == 0 {
            self
        } else {
            self.with_xattr(ino, xattrs[0].0, xattrs[0].1).with_xattrs(ino, xattrs.skip(1))
        }
    }
}

/// An entry of a seed image: path, content, attributes.
pub type SeedView = (Seq<char>, Seq<u8>, Seq<(Seq<char>, Seq<u8>)>);

/// A filesystem with these entries planted, one after the other.
pub open spec fn seeded_from(fs: FsState, files: Seq<SeedView>) -> Option<FsState>
    decreases files.len(),
{
    if files.len() == 0 {
        Some(fs)
    } else {
        match fs.planted(InodeId(ROOT), segments(files[0].0, 0, 0), files[0].1) {
            Some((next, ino)) => seeded_from(next.with_xattrs(ino, files[0].2), files.skip(1)),
            None => None,
        }
    }
}

/// Attributes as given.
pub open spec fn pairs(s: Seq<(&str, &[u8])>) -> Seq<(Seq<char>, Seq<u8>)> {
    s.map_values(|e: (&str, &[u8])| (e.0@, e.1@))
}

/// Seed entries without attributes.
pub open spec fn plain(s: Seq<(&str, &[u8])>) -> Seq<SeedView> {
    s.map_values(|e: (&str, &[u8])| (e.0@, e.1@, Seq::<(Seq<char>, Seq<u8>)>::empty()))
}

/// Seed entries with attributes.
pub open spec fn attributed(s: Seq<SeedEntry>) -> Seq<SeedView> {
    s.map_values(|e: SeedEntry| (e.0@, e.1@, pairs(e.2@)))
}

proof fn lemma_planted(fs: FsState, dir: InodeId, path: Seq<Seq<char>>, data: Seq<u8>)
    requires
        path.len() > 0 || fs.has_node(dir),
    ensures
        match fs.planted(dir, path, data) {
            Some((next, ino)) => next.nodes.len() >= fs.nodes.len() && next.has_node(ino),
            None => true,
        },
    decreases path.len(),
{
    if path.len() > 1 && fs.is_dir(dir) && fs.nodes.len() < 0x1_0000_0000 {
        match get(fs.entries(dir), path[0]) {
            Some(next) => lemma_planted(fs, next, path.skip(1), data),
            None => lemma_planted(
                fs.created(dir, path[0], NodeKind::Dir),
                fs.next_ino(),
                path.skip(1),
                data,
            ),
        }
    }
}

/// The segments of a path: what is between slashes and not empty. The current one began at
/// `start`, and `i` is next to be looked at.
pub open spec fn segments(path: Seq<char>, start: int, i: int) -> Seq<Seq<char>>
    decreases path.len() - i,
{
    let here = if start < i {
        seq![path.subrange(start, i)]
    } else {
        Seq::empty()
    };
    if i >= path.len() {
        here
    } else if path[i] == '/' {
        here + segments(path, i + 1, i + 1)
    } else {
        segments(path, start, i + 1)
    }
}

/// The texts of string slices.
pub open spec fn texts(s: Seq<&str>) -> Seq<Seq<char>> {
    s.map_values(|t: &str| t@)
}

/// Split a path into its segments.
fn split_path<'a>(path: &'a str) -> (r: Vec<&'a str>)
    ensures
        texts(r@) == segments(path@, 0, 0),
{
    let n: usize = path.unicode_len();
    let mut out: Vec<&'a str> = Vec::new();
    let mut start: usize = 0;
    let mut i: usize = 0;
    proof {
        assert(texts(out@) + segments(path@, 0, 0) =~= segments(path@, 0, 0));
    }
    while i < n
        invariant
            n == path@.len(),
            start <= i <= n,
            segments(path@, 0, 0) == texts(out@) + segments(path@, start as int, i as int),
        decreases n - i,
    {
        if path.get_char(i) == '/' {
            let ghost before = out@;
            if start < i {
                out.push(path.substring_char(start, i));
            }
            proof {
                let rest = segments(path@, i + 1, i + 1);
                assert(texts(before) + segments(path@, start as int, i as int) =~= texts(out@)
                    + rest);
            }
            start = i + 1;
        }
        i += 1;
    }
    let ghost before = out@;
    if start < i {
        out.push(path.substring_char(start, i));
    }
    proof {
        assert(texts(before) + segments(path@, start as int, i as int) =~= texts(out@));
    }
    out
}

/// A RAM-backed filesystem. An empty root directory exists from the start.
pub struct RamFs {
    nodes: Vec<Node>,
}

impl View for RamFs {
    type V = FsState;

    closed spec fn view(&self) -> FsState {
        FsState { nodes: self.nodes@.map_values(|n: Node| n@) }
    }
}

impl Default for RamFs {
    fn default() -> (r: Self)
        ensures
            r@ == FsState::empty(),
    {
        RamFs::new()
    }
}

impl RamFs {
    #[must_use]
    pub fn new() -> (r: Self)
        ensures
            r@ == FsState::empty(),
    {
        let mut nodes: Vec<Node> = Vec::new();
        nodes.push(Node::new(NodeKind::Dir));
        let r = RamFs { nodes };
        proof {
            assert(r@.nodes =~= FsState::empty().nodes);
        }
        r
    }

    /// A filesystem populated from `(path, bytes)` pairs. Directories on the way are made and
    /// shared, so that `"bin/view"` lands a file `view` in a directory `bin`.
    #[must_use]
    pub fn seeded(files: &[(&str, &[u8])]) -> (r: Self)
        requires
            seeded_from(FsState::empty(), plain(files@)) is Some,
        ensures
            Some(r@) == seeded_from(FsState::empty(), plain(files@)),
    {
        let mut fs: RamFs = RamFs::new();
        let ghost goal = seeded_from(FsState::empty(), plain(files@));
        let mut i: usize = 0;
        proof {
            assert(plain(files@).skip(0) =~= plain(files@));
        }
        while i < files.len()
            invariant
                i <= files@.len(),
                goal is Some,
                goal == seeded_from(fs@, plain(files@).skip(i as int)),
            decreases files@.len() - i,
        {
            let ghost rest = plain(files@).skip(i as int);
            proof {
                assert(rest.skip(1) =~= plain(files@).skip(i + 1));
            }
            let _ = fs.insert_file(files[i].0, files[i].1);
            i += 1;
        }
        fs
    }

    /// Like [`seeded`](Self::seeded), but each entry also carries extended attributes, which
    /// the file at the end of its path gets.
    #[must_use]
    pub fn seeded_with_xattrs(files: &[SeedEntry]) -> (r: Self)
        requires
            seeded_from(FsState::empty(), attributed(files@)) is Some,
        ensures
            Some(r@) == seeded_from(FsState::empty(), attributed(files@)),
    {
        let mut fs: RamFs = RamFs::new();
        let ghost goal = seeded_from(FsState::empty(), attributed(files@));
        let mut i: usize = 0;
        proof {
            assert(attributed(files@).skip(0) =~= attributed(files@));
        }
        while i < files.len()
            invariant
                i <= files@.len(),
                goal is Some,
                fs@.nodes.len() > 0,
                goal == seeded_from(fs@, attributed(files@).skip(i as int)),
            decreases files@.len() - i,
        {
            let ghost rest = attributed(files@).skip(i as int);
            proof {
                assert(rest.skip(1) =~= attributed(files@).skip(i + 1));
                lemma_planted(fs@, InodeId(ROOT), segments(rest[0].0, 0, 0), rest[0].1);
            }
            let ino: InodeId = fs.insert_file(files[i].0, files[i].1);
            let xattrs: &[(&str, &[u8])] = files[i].2;
            let ghost whole = fs@.with_xattrs(ino, pairs(xattrs@));
            let mut k: usize = 0;
            proof {
                assert(pairs(xattrs@).skip(0) =~= pairs(xattrs@));
            }
            while k < xattrs.len()
                invariant
                    k <= xattrs@.len(),
                    fs@.has_node(ino),
                    whole == fs@.with_xattrs(ino, pairs(xattrs@).skip(k as int)),
                decreases xattrs@.len() - k,
            {
                proof {
                    assert(pairs(xattrs@).skip(k as int).skip(1) =~= pairs(xattrs@).skip(k + 1));
                }
                let _ = fs.setxattr(ino, xattrs[k].0, xattrs[k].1);
                k += 1;
            }
            i += 1;
        }
        fs
    }

    /// Make `path`, directories on the way included, write `bytes` to the file at its end,
    /// and give the file's inode.
    fn insert_file(&mut self, path: &str, bytes: &[u8]) -> (r: InodeId)
        requires
            old(self)@.planted(InodeId(ROOT), segments(path@, 0, 0), bytes@) is Some,
        ensures
            Some((final(self)@, r)) == old(self)@.planted(
                InodeId(ROOT),
                segments(path@, 0, 0),
                bytes@,
            ),
    {
        let parts: Vec<&str> = split_path(path);
        let ghost names = segments(path@, 0, 0);
        let ghost goal = self@.planted(InodeId(ROOT), names, bytes@);
        let mut dir: InodeId = InodeId(ROOT);
        let mut k: usize = 0;
        proof {
            assert(names.skip(0) =~= names);
        }
        while k < parts.len()
            invariant
                k <= parts@.len(),
                texts(parts@) == names,
                goal is Some,
                goal == self@.planted(dir, names.skip(k as int), bytes@),
            decreases parts@.len() - k,
        {
            let part: &str = parts[k];
            let ghost rest = names.skip(k as int);
            proof {
                assert(rest[0] == texts(parts@)[k as int]);
                assert(rest.skip(1) =~= names.skip(k + 1));
            }
            if k + 1 < parts.len() {
                // On the way: reuse the directory if it is there.
                dir = match self.lookup(dir, part) {
                    Ok(next) => next,
                    Err(_) => match self.create(dir, part, NodeKind::Dir) {
                        Ok(made) => made,
                        Err(_) => dir,
                    },
                };
            } else {
                // The file itself.
                match self.create(dir, part, NodeKind::File) {
                    Ok(made) => {
                        proof {
                            assert(bytes@.len() == bytes.len());
                        }
                        let _ = self.write(made, 0, bytes);
                        dir = made;
                    },
                    Err(_) => {},
                }
            }
            k += 1;
        }
        dir
    }

    /// Where an inode's node is.
    fn slot(&self, ino: InodeId) -> (r: Option<usize>)
        ensures
            match r {
                Some(i) => self@.has_node(ino) && i == ino.0 && i < self.nodes@.len()
                    && self.nodes@[i as int]@ == self@.node(ino),
                None => !self@.has_node(ino),
            },
    {
        if (ino.0 as u64) < self.nodes.len() as u64 {
            Some(ino.0 as usize)
        } else {
            None
        }
    }

    /// The root directory.
    #[must_use]
    pub fn root(&self) -> (r: InodeId)
        ensures
            r == InodeId(ROOT),
    {
        InodeId(ROOT)
    }

    /// The inode under `name` in a directory.
    pub fn lookup(&self, dir: InodeId, name: &str) -> (r: Result<InodeId, FsError>)
        ensures
            r == self@.looked_up(dir, name@),
    {
        match self.slot(dir) {
            None => Err(FsError::NotFound),
            Some(i) => self.nodes[i].lookup(name),
        }
    }

    /// What an inode is, and how large: a directory counts as empty.
    pub fn stat(&self, ino: InodeId) -> (r: Result<Stat, FsError>)
        ensures
            r == if !self@.has_node(ino) {
                Err::<Stat, FsError>(FsError::NotFound)
            } else if self@.is_dir(ino) {
                Ok::<Stat, FsError>(Stat { kind: NodeKind::Dir, size: 0 })
            } else {
                Ok::<Stat, FsError>(
                    Stat { kind: NodeKind::File, size: self@.content(ino).len() as u64 },
                )
            },
    {
        match self.slot(ino) {
            None => Err(FsError::NotFound),
            Some(i) => match &self.nodes[i].body {
                Body::Dir(_) => Ok(Stat { kind: NodeKind::Dir, size: 0 }),
                Body::File(data) => Ok(Stat { kind: NodeKind::File, size: data.len() as u64 }),
            },
        }
    }

    /// Read from a file into `buf`: how many bytes came.
    pub fn read(&self, ino: InodeId, off: u64, buf: &mut [u8]) -> (r: Result<usize, FsError>)
        ensures
            final(buf)@.len() == old(buf)@.len(),
            if self@.is_file(ino) {
                let part = read_at(self@.content(ino), off as int, old(buf)@.len() as int);
                r == Ok::<usize, FsError>(part.len() as usize) && final(buf)@ == overwrite(
                    old(buf)@,
                    0,
                    part,
                ) && part.len() <= old(buf)@.len()
            } else {
                r == Err::<usize, FsError>(self@.file_error(ino)) && final(buf)@ == old(buf)@
            },
    {
        let i: usize = match self.slot(ino) {
            None => {
                return Err(FsError::NotFound);
            },
            Some(i) => i,
        };
        let data: &Vec<u8> = match &self.nodes[i].body {
            Body::Dir(_) => {
                return Err(FsError::IsADir);
            },
            Body::File(data) => data,
        };
        let ghost start = buf@;
        if off >= data.len() as u64 {
            proof {
                assert(buf@ =~= overwrite(start, 0, Seq::empty()));
            }
            return Ok(0);
        }
        let from: usize = off as usize;
        let room: usize = buf.len();
        let n: usize = if data.len() - from < room {
            data.len() - from
        } else {
            room
        };
        let ghost part = read_at(data@, off as int, start.len() as int);
        let mut k: usize = 0;
        proof {
            assert(part =~= data@.subrange(from as int, from + n));
            assert(buf@ =~= overwrite(start, 0, part.take(0)));
        }
        while k < n
            invariant
                k <= n,
                n == part.len(),
                n <= start.len(),
                from + n <= data.len(),
                part == data@.subrange(from as int, from + n),
                buf@.len() == start.len(),
                buf@ == overwrite(start, 0, part.take(k as int)),
            decreases n - k,
        {
            buf[k] = data[from + k];
            k += 1;
            proof {
                assert(buf@ =~= overwrite(start, 0, part.take(k as int)));
            }
        }
        proof {
            assert(part.take(n as int) =~= part);
        }
        Ok(n)
    }

    /// Write to a file, growing it by zeros where it ends before: how many bytes went.
    pub fn write(&mut self, ino: InodeId, off: u64, data: &[u8]) -> (r: Result<usize, FsError>)
        requires
            old(self)@.is_file(ino) ==> off + data@.len() <= usize::MAX,
        ensures
            if old(self)@.is_file(ino) {
                r == Ok::<usize, FsError>(data@.len() as usize) && final(self)@ == old(
                    self,
                )@.with_data(ino, off as int, data@)
            } else {
                r == Err::<usize, FsError>(old(self)@.file_error(ino)) && final(self)@
                    == old(self)@
            },
    {
        match self.slot(ino) {
            None => Err(FsError::NotFound),
            Some(i) => {
                let r: Result<usize, FsError> = self.nodes[i].write(off as usize, data);
                proof {
                    if old(self)@.is_file(ino) {
                        assert(self@.nodes =~= old(self)@.with_data(ino, off as int, data@).nodes);
                    } else {
                        assert(self@.nodes =~= old(self)@.nodes);
                    }
                }
                r
            },
        }
    }

    /// Cut a file to `len` bytes, or grow it by zeros.
    pub fn truncate(&mut self, ino: InodeId, len: u64) -> (r: Result<(), FsError>)
        requires
            old(self)@.is_file(ino) ==> len <= usize::MAX,
        ensures
            if old(self)@.is_file(ino) {
                r is Ok && final(self)@ == old(self)@.with_body(
                    ino,
                    BodyState::File(resized(old(self)@.content(ino), len as nat)),
                )
            } else {
                r == Err::<(), FsError>(old(self)@.file_error(ino)) && final(self)@ == old(self)@
            },
    {
        match self.slot(ino) {
            None => Err(FsError::NotFound),
            Some(i) => {
                let r: Result<(), FsError> = self.nodes[i].truncate(len as usize);
                proof {
                    if old(self)@.is_file(ino) {
                        assert(self@.nodes =~= old(self)@.with_body(
                            ino,
                            BodyState::File(resized(old(self)@.content(ino), len as nat)),
                        ).nodes);
                    } else {
                        assert(self@.nodes =~= old(self)@.nodes);
                    }
                }
                r
            },
        }
    }

    /// Make an empty file or directory under `name` in a directory. A name that was there
    /// stands for the new node from now on.
    pub fn create(&mut self, dir: InodeId, name: &str, kind: NodeKind) -> (r: Result<
        InodeId,
        FsError,
    >)
        ensures
            if old(self)@.is_dir(dir) {
                r == Ok::<InodeId, FsError>(old(self)@.next_ino()) && final(self)@ == old(
                    self,
                )@.created(dir, name@, kind)
            } else {
                r == Err::<InodeId, FsError>(old(self)@.dir_error(dir)) && final(self)@
                    == old(self)@
            },
    {
        let i: usize = match self.slot(dir) {
            None => {
                return Err(FsError::NotFound);
            },
            Some(i) => i,
        };
        // The parent must be a directory: otherwise there is nothing to add to.
        match self.nodes[i].kind() {
            NodeKind::Dir => {},
            NodeKind::File => {
                return Err(FsError::NotADir);
            },
        }
        let ino: InodeId = InodeId((self.nodes.len() as u64 % 0x1_0000_0000) as u32);
        self.nodes.push(Node::new(kind));
        self.nodes[i].link(name, ino);
        proof {
            assert(self@.nodes =~= old(self)@.created(dir, name@, kind).nodes);
        }
        Ok(ino)
    }

    /// Take a name out of a directory.
    pub fn remove(&mut self, dir: InodeId, name: &str) -> (r: Result<(), FsError>)
        ensures
            if old(self)@.is_dir(dir) {
                r == (if names(old(self)@.entries(dir), name@) {
                    Ok::<(), FsError>(())
                } else {
                    Err::<(), FsError>(FsError::NotFound)
                }) && final(self)@ == old(self)@.with_body(
                    dir,
                    BodyState::Dir(without(old(self)@.entries(dir), name@)),
                )
            } else {
                r == Err::<(), FsError>(old(self)@.dir_error(dir)) && final(self)@ == old(self)@
            },
    {
        match self.slot(dir) {
            None => Err(FsError::NotFound),
            Some(i) => {
                let r: Result<(), FsError> = self.nodes[i].unlink(name);
                proof {
                    if old(self)@.is_dir(dir) {
                        assert(self@.nodes =~= old(self)@.with_body(
                            dir,
                            BodyState::Dir(without(old(self)@.entries(dir), name@)),
                        ).nodes);
                    } else {
                        assert(self@.nodes =~= old(self)@.nodes);
                    }
                }
                r
            },
        }
    }

    /// The names of a directory in order, each with its inode and what that is.
    pub fn readdir(&self, dir: InodeId) -> (r: Result<Vec<DirEntry>, FsError>)
        ensures
            if self@.is_dir(dir) {
                r matches Ok(list) && list@.map_values(|e: DirEntry| e@) == listing(self@, dir)
            } else {
                r matches Err(e) && e == self@.dir_error(dir)
            },
    {
        let i: usize = match self.slot(dir) {
            None => {
                return Err(FsError::NotFound);
            },
            Some(i) => i,
        };
        match &self.nodes[i].body {
            Body::File(_) => Err(FsError::NotADir),
            Body::Dir(entries) => {
                let mut list: Vec<DirEntry> = Vec::new();
                let mut k: usize = 0;
                while k < entries.len()
                    invariant
                        k <= entries@.len(),
                        list@.len() == k,
                        self@.is_dir(dir),
                        self@.entries(dir) == entries_view(entries@),
                        forall|j: int| 0 <= j < k ==> (#[trigger] list@[j])@ == listing(self@, dir)[j],
                    decreases entries@.len() - k,
                {
                    let ino: InodeId = entries[k].1;
                    let kind: NodeKind = match self.slot(ino) {
                        Some(n) => self.nodes[n].kind(),
                        None => NodeKind::File,
                    };
                    list.push(DirEntry { name: entries[k].0.clone(), ino, kind });
                    k += 1;
                }
                proof {
                    assert(list@.map_values(|e: DirEntry| e@) =~= listing(self@, dir));
                }
                Ok(list)
            },
        }
    }

    /// An attribute's value.
    pub fn getxattr(&self, ino: InodeId, name: &str) -> (r: Result<Vec<u8>, FsError>)
        ensures
            match xattr(self@, ino, name@) {
                Some(value) => r matches Ok(v) && v@ == value,
                None => r matches Err(e) && e == FsError::NotFound,
            },
    {
        match self.slot(ino) {
            None => Err(FsError::NotFound),
            Some(i) => self.nodes[i].getxattr(name),
        }
    }

    /// Set an attribute.
    pub fn setxattr(&mut self, ino: InodeId, name: &str, value: &[u8]) -> (r: Result<(), FsError>)
        ensures
            if old(self)@.has_node(ino) {
                r is Ok && final(self)@ == old(self)@.with_xattr(ino, name@, value@)
            } else {
                r == Err::<(), FsError>(FsError::NotFound) && final(self)@ == old(self)@
            },
    {
        match self.slot(ino) {
            None => Err(FsError::NotFound),
            Some(i) => {
                self.nodes[i].setxattr(name, value);
                proof {
                    assert(self@.nodes =~= old(self)@.with_xattr(ino, name@, value@).nodes);
                }
                Ok(())
            },
        }
    }
}

/// A directory's names in order, each with its inode and what that is.
pub open spec fn listing(fs: FsState, dir: InodeId) -> Seq<DirEntryView> {
    Seq::new(
        fs.entries(dir).len(),
        |k: int|
            DirEntryView {
                name: fs.entries(dir)[k].0,
                ino: fs.entries(dir)[k].1,
                kind: if fs.is_dir(fs.entries(dir)[k].1) {
                    NodeKind::Dir
                } else {
                    NodeKind::File
                },
            },
    )
}

/// An attribute's value.
pub open spec fn xattr(fs: FsState, ino: InodeId, name: Seq<char>) -> Option<Seq<u8>> {
    if fs.has_node(ino) {
        get(fs.node(ino).xattrs, name)
    } else {
        None
    }
}

// What holds of every filesystem.

/// A node's tables are sorted, and every name in a directory stands for a node that is there.
pub open spec fn valid_node(fs: FsState, n: NodeState) -> bool {
    &&& sorted(n.xattrs)
    &&& match n.body {
        BodyState::File(_) => true,
        BodyState::Dir(entries) => sorted(entries) && forall|k: int|
            0 <= k < entries.len() ==> fs.has_node((#[trigger] entries[k]).1),
    }
}

/// The root is a directory, and every node is valid.
pub open spec fn valid(fs: FsState) -> bool {
    &&& fs.is_dir(InodeId(ROOT))
    &&& forall|i: int| 0 <= i < fs.nodes.len() ==> valid_node(fs, #[trigger] fs.nodes[i])
}

/// A new filesystem is valid.
pub proof fn law_a_new_filesystem_is_valid()
    ensures
        valid(FsState::empty()),
{
    reveal(sorted);
}

/// Making a node keeps a filesystem valid.
pub proof fn law_creating_keeps_it_valid(
    fs: FsState,
    dir: InodeId,
    name: Seq<char>,
    kind: NodeKind,
)
    requires
        valid(fs),
        fs.is_dir(dir),
        fs.nodes.len() < 0x1_0000_0000,
    ensures
        valid(fs.created(dir, name, kind)),
{
    reveal(sorted);
    let next = fs.created(dir, name, kind);
    let entries = fs.entries(dir);
    assert(valid_node(fs, fs.nodes[dir.0 as int]));
    law_tables_stay_sorted(entries, name, fs.next_ino());
    lemma_place(entries, name);
    let more = put(entries, name, fs.next_ino());
    assert forall|k: int| 0 <= k < more.len() implies next.has_node((#[trigger] more[k]).1) by {
        let p = place_of(entries, name);
        if k != p {
            let j = if names(entries, name) || k < p {
                k
            } else {
                k - 1
            };
            assert(fs.has_node(entries[j].1));
        }
    }
    assert forall|i: int| 0 <= i < next.nodes.len() implies valid_node(
        next,
        #[trigger] next.nodes[i],
    ) by {
        if i < fs.nodes.len() && i != dir.0 {
            assert(next.nodes[i] == fs.nodes[i]);
            assert(valid_node(fs, fs.nodes[i]));
        }
    }
}

/// Removing a name keeps a filesystem valid.
pub proof fn law_removing_keeps_it_valid(fs: FsState, dir: InodeId, name: Seq<char>)
    requires
        valid(fs),
        fs.is_dir(dir),
    ensures
        valid(fs.with_body(dir, BodyState::Dir(without(fs.entries(dir), name)))),
{
    let entries = fs.entries(dir);
    let less = without(entries, name);
    let next = fs.with_body(dir, BodyState::Dir(less));
    assert(valid_node(fs, fs.nodes[dir.0 as int]));
    law_tables_stay_sorted(entries, name, dir);
    lemma_place(entries, name);
    assert forall|k: int| 0 <= k < less.len() implies next.has_node((#[trigger] less[k]).1) by {
        let j = if !names(entries, name) || k < place_of(entries, name) {
            k
        } else {
            k + 1
        };
        assert(fs.has_node(entries[j].1));
    }
    assert forall|i: int| 0 <= i < next.nodes.len() implies valid_node(
        next,
        #[trigger] next.nodes[i],
    ) by {
        assert(valid_node(fs, fs.nodes[i]));
    }
}

/// Changing a file's content, and setting an attribute, keep a filesystem valid.
pub proof fn law_changing_a_node_keeps_it_valid(
    fs: FsState,
    ino: InodeId,
    data: Seq<u8>,
    name: Seq<char>,
    value: Seq<u8>,
)
    requires
        valid(fs),
        fs.has_node(ino),
    ensures
        fs.is_file(ino) ==> valid(fs.with_body(ino, BodyState::File(data))),
        valid(fs.with_xattr(ino, name, value)),
{
    assert(valid_node(fs, fs.nodes[ino.0 as int]));
    law_tables_stay_sorted(fs.node(ino).xattrs, name, value);
    let a = fs.with_body(ino, BodyState::File(data));
    let b = fs.with_xattr(ino, name, value);
    assert forall|i: int| fs.is_file(ino) && 0 <= i < a.nodes.len() implies valid_node(
        a,
        #[trigger] a.nodes[i],
    ) by {
        assert(valid_node(fs, fs.nodes[i]));
    }
    assert forall|i: int| 0 <= i < b.nodes.len() implies valid_node(b, #[trigger] b.nodes[i]) by {
        assert(valid_node(fs, fs.nodes[i]));
    }
}

/// A node that was made is found under its name, empty, and no other name of the directory
/// and no other node is touched.
pub proof fn law_a_created_node_is_found(
    fs: FsState,
    dir: InodeId,
    name: Seq<char>,
    kind: NodeKind,
    other: Seq<char>,
    ino: InodeId,
)
    requires
        valid(fs),
        fs.is_dir(dir),
        fs.nodes.len() < 0x1_0000_0000,
        other != name,
        fs.has_node(ino),
        ino != dir,
    ensures
        ({
            let next = fs.created(dir, name, kind);
            &&& next.looked_up(dir, name) == Ok::<InodeId, FsError>(fs.next_ino())
            &&& next.node(fs.next_ino()) == empty_node(kind)
            &&& next.looked_up(dir, other) == fs.looked_up(dir, other)
            &&& next.node(ino) == fs.node(ino)
        }),
{
    assert(valid_node(fs, fs.nodes[dir.0 as int]));
    law_a_put_is_found(fs.entries(dir), name, fs.next_ino());
    law_other_names_are_untouched(fs.entries(dir), name, fs.next_ino(), other);
}

/// A removed name is not found, and the others are.
pub proof fn law_a_removed_name_is_not_found(
    fs: FsState,
    dir: InodeId,
    name: Seq<char>,
    other: Seq<char>,
)
    requires
        valid(fs),
        fs.is_dir(dir),
        other != name,
    ensures
        ({
            let next = fs.with_body(dir, BodyState::Dir(without(fs.entries(dir), name)));
            &&& next.looked_up(dir, name) == Err::<InodeId, FsError>(FsError::NotFound)
            &&& next.looked_up(dir, other) == fs.looked_up(dir, other)
        }),
{
    assert(valid_node(fs, fs.nodes[dir.0 as int]));
    law_a_removed_name_is_gone(fs.entries(dir), name);
    law_other_names_are_untouched(fs.entries(dir), name, dir, other);
}

/// A read gives back what was written there, and the rest of the file is as it was.
pub proof fn law_a_read_gives_back_a_write(file: Seq<u8>, off: nat, data: Seq<u8>)
    ensures
        data.len() > 0 ==> read_at(
            written_at(file, off as int, data),
            off as int,
            data.len() as int,
        ) == data,
        forall|i: int|
            0 <= i < file.len() && !(off <= i < off + data.len()) ==> #[trigger] written_at(
                file,
                off as int,
                data,
            )[i] == file[i],
        written_at(file, off as int, data).len() == if file.len() < off + data.len() {
            off + data.len()
        } else {
            file.len()
        },
{
    let w = written_at(file, off as int, data);
    if data.len() > 0 {
        assert(read_at(w, off as int, data.len() as int) =~= data);
    }
}

/// Writing to a file touches no other node, and no attribute.
pub proof fn law_a_write_touches_one_file(
    fs: FsState,
    ino: InodeId,
    off: nat,
    data: Seq<u8>,
    other: InodeId,
)
    requires
        fs.is_file(ino),
        fs.has_node(other),
    ensures
        other != ino ==> fs.with_data(ino, off as int, data).node(other) == fs.node(other),
        fs.with_data(ino, off as int, data).node(other).xattrs == fs.node(other).xattrs,
{
}

/// An attribute that was set is read back, and those of other names and other nodes are as
/// they were.
pub proof fn law_an_attribute_is_read_back(
    fs: FsState,
    ino: InodeId,
    name: Seq<char>,
    value: Seq<u8>,
    other_ino: InodeId,
    other: Seq<char>,
)
    requires
        valid(fs),
        fs.has_node(ino),
        other_ino != ino || other != name,
    ensures
        xattr(fs.with_xattr(ino, name, value), ino, name) == Some(value),
        xattr(fs.with_xattr(ino, name, value), other_ino, other) == xattr(fs, other_ino, other),
{
    assert(valid_node(fs, fs.nodes[ino.0 as int]));
    law_a_put_is_found(fs.node(ino).xattrs, name, value);
    if other != name {
        law_other_names_are_untouched(fs.node(ino).xattrs, name, value, other);
    }
}

} // verus!
