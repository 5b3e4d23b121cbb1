//! What files hold and where they are found, told byte by byte and name by name.

use vstd::prelude::*;
use vstd::utf8::encode_utf8;
use crate::ramfs::{
    empty_node, get, law_a_put_is_found, law_creating_keeps_it_valid,
    law_changing_a_node_keeps_it_valid, lemma_found, lemma_place, lex_before, listing, names,
    place_of, precedes, read_at, resized, segments, sorted, valid, valid_node, written_at,
    BodyState, FsError, FsState, InodeId, NodeKind,
};

verus! {

// Contents.

/// What is written is at its place, what was there before is as it was, and where the file ended
/// before its place there is 0 between.
pub proof fn law_the_bytes_of_a_write(file: Seq<u8>, off: nat, data: Seq<u8>)
    ensures
        ({
            let w = written_at(file, off as int, data);
            let end = off + data.len();
            &&& w.len() == if end > file.len() {
                end
            } else {
                file.len()
            }
            &&& forall|i: int|
                0 <= i < w.len() ==> #[trigger] w[i] == if off <= i < end {
                    data[i - off]
                } else if i < file.len() {
                    file[i]
                } else {
                    0
                }
        }),
{
}

/// A read gives what the file holds from its place on, as much as there is and there is room for.
pub proof fn law_the_bytes_of_a_read(file: Seq<u8>, off: nat, room: nat)
    ensures
        ({
            let r = read_at(file, off as int, room as int);
            let left = if off < file.len() {
                file.len() - off
            } else {
                0
            };
            &&& r.len() == if left < room {
                left
            } else {
                room as int
            }
            &&& forall|i: int| 0 <= i < r.len() ==> #[trigger] r[i] == file[off + i]
        }),
{
}

/// A file that is cut or grown keeps what it has of its length, and is 0 after it.
pub proof fn law_the_bytes_of_a_resize(file: Seq<u8>, n: nat)
    ensures
        resized(file, n).len() == n,
        forall|i: int|
            0 <= i < n ==> #[trigger] resized(file, n)[i] == if i < file.len() {
                file[i]
            } else {
                0
            },
{
}

// Names.

/// Names are ordered by their bytes: the first in which two differ decides, and one that the
/// other starts with comes first.
pub proof fn law_names_are_ordered_by_their_bytes(a: Seq<u8>, b: Seq<u8>, k: int)
    requires
        0 <= k <= a.len(),
        k <= b.len(),
        forall|i: int| 0 <= i < k ==> a[i] == b[i],
        k < a.len() && k < b.len() ==> a[k] != b[k],
    ensures
        lex_before(a, b) <==> k < b.len() && (k == a.len() || a[k] < b[k]),
    decreases k,
{
    if k > 0 {
        let (a1, b1) = (a.skip(1), b.skip(1));
        assert(a[0] == b[0]);
        assert forall|i: int| 0 <= i < k - 1 implies a1[i] == b1[i] by {
            assert(a[i + 1] == b[i + 1]);
        }
        law_names_are_ordered_by_their_bytes(a1, b1, k - 1);
    }
}

/// One name comes before another by the bytes of the two.
pub proof fn law_names_are_compared_by_their_bytes(a: Seq<char>, b: Seq<char>)
    ensures
        precedes(a, b) == lex_before(encode_utf8(a), encode_utf8(b)),
{
}

/// A directory lists each of its names once, in order, with the node that looking it up gives and
/// what that is, and every name that can be looked up.
pub proof fn law_a_listing_has_every_name(fs: FsState, dir: InodeId, name: Seq<char>)
    requires
        valid(fs),
        fs.is_dir(dir),
    ensures
        ({
            let l = listing(fs, dir);
            &&& forall|k: int|
                0 <= k < l.len() ==> fs.looked_up(dir, (#[trigger] l[k]).name) == Ok::<
                    InodeId,
                    FsError,
                >(l[k].ino) && (l[k].kind is Dir <==> fs.is_dir(l[k].ino))
            &&& forall|j: int, k: int|
                0 <= j < k < l.len() ==> precedes(
                    (#[trigger] l[j]).name,
                    (#[trigger] l[k]).name,
                )
            &&& fs.looked_up(dir, name) is Ok ==> exists|k: int|
                0 <= k < l.len() && (#[trigger] l[k]).name == name
        }),
{
    reveal(sorted);
    let l = listing(fs, dir);
    let e = fs.entries(dir);
    assert(valid_node(fs, fs.nodes[dir.0 as int]));
    assert forall|k: int| 0 <= k < l.len() implies fs.looked_up(dir, (#[trigger] l[k]).name)
        == Ok::<InodeId, FsError>(l[k].ino) && (l[k].kind is Dir <==> fs.is_dir(l[k].ino)) by {
        lemma_found(e, e[k].0, k);
    }
    assert forall|j: int, k: int| 0 <= j < k < l.len() implies precedes(
        (#[trigger] l[j]).name,
        (#[trigger] l[k]).name,
    ) by {
        assert(precedes(e[j].0, e[k].0));
    }
    if fs.looked_up(dir, name) is Ok {
        let k = place_of(e, name);
        lemma_place(e, name);
        assert(l[k].name == name);
    }
}

/// What is not a directory has no names: there is no such node, or it is a file. What is not a
/// file has no content: there is no such node, or it is a directory.
pub proof fn law_what_is_refused(fs: FsState, ino: InodeId, name: Seq<char>)
    ensures
        ino.0 >= fs.nodes.len() ==> fs.looked_up(ino, name) == Err::<InodeId, FsError>(
            FsError::NotFound,
        ) && fs.dir_error(ino) == FsError::NotFound && fs.file_error(ino) == FsError::NotFound,
        ino.0 < fs.nodes.len() && fs.nodes[ino.0 as int].body is File ==> fs.is_file(ino)
            && !fs.is_dir(ino) && fs.looked_up(ino, name) == Err::<InodeId, FsError>(
            FsError::NotADir,
        ) && fs.dir_error(ino) == FsError::NotADir,
        ino.0 < fs.nodes.len() && fs.nodes[ino.0 as int].body is Dir ==> fs.is_dir(ino)
            && !fs.is_file(ino) && fs.file_error(ino) == FsError::IsADir,
{
}

/// A new node is of the kind that was asked for, and empty.
pub proof fn law_a_new_node_is_empty(kind: NodeKind)
    ensures
        empty_node(kind).xattrs.len() == 0,
        kind is File ==> empty_node(kind).body is File && empty_node(kind).body->File_0.len() == 0,
        kind is Dir ==> empty_node(kind).body is Dir && empty_node(kind).body->Dir_0.len() == 0,
{
}

// Paths.

/// A text without its slashes.
pub open spec fn without_slashes(path: Seq<char>) -> Seq<char>
    decreases path.len(),
{
    if path.len() == 0 {
        path
    } else {
        let rest = without_slashes(path.drop_last());
        if path.last() == '/' {
            rest
        } else {
            rest.push(path.last())
        }
    }
}

/// Texts one after the other.
pub open spec fn joined(parts: Seq<Seq<char>>) -> Seq<char>
    decreases parts.len(),
{
    if parts.len() == 0 {
        Seq::empty()
    } else {
        parts[0] + joined(parts.drop_first())
    }
}

/// The text of a path from `i` on, without its slashes.
spec fn rest_without_slashes(path: Seq<char>, i: int) -> Seq<char>
    decreases path.len() - i,
{
    if i >= path.len() {
        Seq::empty()
    } else if path[i] == '/' {
        rest_without_slashes(path, i + 1)
    } else {
        seq![path[i]] + rest_without_slashes(path, i + 1)
    }
}

proof fn lemma_segments(path: Seq<char>, start: int, i: int)
    requires
        0 <= start <= i <= path.len(),
        forall|k: int| start <= k < i ==> path[k] != '/',
    ensures
        ({
            let s = segments(path, start, i);
            &&& forall|j: int| 0 <= j < s.len() ==> (#[trigger] s[j]).len() > 0
            &&& forall|j: int, k: int|
                0 <= j < s.len() && 0 <= k < s[j].len() ==> #[trigger] s[j][k] != '/'
            &&& joined(s) == path.subrange(start, i) + rest_without_slashes(path, i)
        }),
    decreases path.len() - i,
{
    let here = if start < i {
        seq![path.subrange(start, i)]
    } else {
        Seq::empty()
    };
    let s = segments(path, start, i);
    let text = path.subrange(start, i);
    let none = Seq::<Seq<char>>::empty();
    assert(joined(none) == Seq::<char>::empty());
    if i >= path.len() {
        if start < i {
            assert(s.drop_first() =~= none);
        }
        assert(joined(s) =~= text + rest_without_slashes(path, i));
    } else if path[i] == '/' {
        lemma_segments(path, i + 1, i + 1);
        let rest = segments(path, i + 1, i + 1);
        assert(path.subrange(i + 1, i + 1) =~= Seq::<char>::empty());
        if start < i {
            assert(s.drop_first() =~= rest);
            assert forall|j: int| 0 <= j < s.len() implies (#[trigger] s[j]).len() > 0 by {
                if j > 0 {
                    assert(s[j] == rest[j - 1]);
                }
            }
            assert forall|j: int, k: int|
                0 <= j < s.len() && 0 <= k < s[j].len() implies #[trigger] s[j][k] != '/' by {
                if j > 0 {
                    assert(s[j] == rest[j - 1]);
                    assert(rest[j - 1][k] != '/');
                }
            }
        } else {
            assert(s =~= rest);
        }
        assert(joined(s) =~= text + rest_without_slashes(path, i));
    } else {
        lemma_segments(path, start, i + 1);
        assert(path.subrange(start, i + 1) =~= text.push(path[i]));
        assert(joined(s) =~= text + rest_without_slashes(path, i));
    }
}

/// The parts of a path hold no slash and are not empty, and together they are the path without
/// its slashes.
pub proof fn law_a_path_is_cut_at_its_slashes(path: Seq<char>)
    ensures
        ({
            let s = segments(path, 0, 0);
            &&& forall|j: int| 0 <= j < s.len() ==> (#[trigger] s[j]).len() > 0
            &&& forall|j: int, k: int|
                0 <= j < s.len() && 0 <= k < s[j].len() ==> #[trigger] s[j][k] != '/'
            &&& joined(s) == without_slashes(path)
        }),
{
    lemma_segments(path, 0, 0);
    lemma_rest(path, 0);
    assert(path.take(0) =~= Seq::<char>::empty());
    assert(joined(segments(path, 0, 0)) =~= without_slashes(path));
}

proof fn lemma_rest(path: Seq<char>, i: int)
    requires
        0 <= i <= path.len(),
    ensures
        without_slashes(path) == without_slashes(path.take(i)) + rest_without_slashes(path, i),
    decreases path.len() - i,
{
    if i < path.len() {
        lemma_rest(path, i + 1);
        let more = path.take(i + 1);
        assert(more.drop_last() =~= path.take(i));
        assert(more.last() == path[i]);
        assert(without_slashes(path) =~= without_slashes(path.take(i)) + rest_without_slashes(
            path,
            i,
        ));
    } else {
        assert(path.take(i) =~= path);
        assert(without_slashes(path) =~= without_slashes(path.take(i)) + rest_without_slashes(
            path,
            i,
        ));
    }
}

/// The node at the end of a path from directory `dir` on.
pub open spec fn resolved(fs: FsState, dir: InodeId, path: Seq<Seq<char>>) -> Option<InodeId>
    decreases path.len(),
{
    if path.len() == 0 {
        Some(dir)
    } else {
        match fs.looked_up(dir, path[0]) {
            Ok(next) => resolved(fs, next, path.skip(1)),
            Err(_) => None,
        }
    }
}

/// Whether what a directory holds is newer than it.
pub open spec fn grows_downward(fs: FsState) -> bool {
    forall|i: int, k: int|
        0 <= i < fs.nodes.len() && fs.nodes[i].body is Dir && 0 <= k
            < fs.nodes[i].body->Dir_0.len() ==> (#[trigger] fs.nodes[i].body->Dir_0[k]).1.0 > i
}

/// Making a node keeps what a directory holds newer than it.
pub proof fn law_filesystems_grow_downward(
    fs: FsState,
    dir: InodeId,
    name: Seq<char>,
    kind: NodeKind,
)
    requires
        valid(fs),
        grows_downward(fs),
        fs.is_dir(dir),
        fs.nodes.len() < 0x1_0000_0000,
    ensures
        grows_downward(fs.created(dir, name, kind)),
{
    let next = fs.created(dir, name, kind);
    let e = fs.entries(dir);
    let d = dir.0 as int;
    assert forall|i: int, k: int|
        0 <= i < next.nodes.len() && next.nodes[i].body is Dir && 0 <= k
            < next.nodes[i].body->Dir_0.len() implies (#[trigger] next.nodes[i].body->Dir_0[k]).1.0
        > i by {
        if i == d {
            lemma_place(e, name);
            let p = place_of(e, name);
            if k != p {
                let j = if names(e, name) || k < p {
                    k
                } else {
                    k - 1
                };
                assert(fs.nodes[i].body->Dir_0[j].1.0 > i);
            }
        } else if i < fs.nodes.len() {
            assert(fs.nodes[i].body->Dir_0[k].1.0 > i);
        }
    }
}

proof fn lemma_planted(fs: FsState, dir: InodeId, path: Seq<Seq<char>>, data: Seq<u8>)
    requires
        valid(fs),
        grows_downward(fs),
        path.len() > 0,
        fs.planted(dir, path, data) is Some,
    ensures
        ({
            let (next, ino) = fs.planted(dir, path, data)->0;
            &&& valid(next)
            &&& grows_downward(next)
            &&& next.nodes.len() >= fs.nodes.len()
            &&& forall|i: int| 0 <= i < dir.0 ==> #[trigger] next.nodes[i] == fs.nodes[i]
            &&& resolved(next, dir, path) == Some(ino)
            &&& next.is_file(ino)
            &&& next.content(ino) == data
        }),
    decreases path.len(),
{
    let (next, ino) = fs.planted(dir, path, data)->0;
    let e = fs.entries(dir);
    let name = path[0];
    let d = dir.0 as int;
    assert(valid_node(fs, fs.nodes[d]));
    let rest = path.skip(1);
    if path.len() == 1 {
        let made = fs.created(dir, name, NodeKind::File);
        law_creating_keeps_it_valid(fs, dir, name, NodeKind::File);
        law_filesystems_grow_downward(fs, dir, name, NodeKind::File);
        law_a_put_is_found(e, name, fs.next_ino());
        let written = written_at(made.content(ino), 0, data);
        assert(written =~= data);
        law_changing_a_node_keeps_it_valid(made, ino, written, name, data);
        assert(next == made.with_body(ino, BodyState::File(written)));
        lemma_a_file_changes_no_directory(made, ino, written);
        assert(next.nodes[d] == made.nodes[d]);
        assert(next.looked_up(dir, name) == Ok::<InodeId, FsError>(ino));
        assert(rest.len() == 0);
        assert(resolved(next, ino, rest) == Some(ino));
    } else {
        match get(e, name) {
            Some(sub) => {
                lemma_place(e, name);
                let k = place_of(e, name);
                assert(fs.nodes[d].body->Dir_0[k].1.0 > d);
                lemma_planted(fs, sub, rest, data);
                assert(next.nodes[d] == fs.nodes[d]);
                assert(next.looked_up(dir, name) == Ok::<InodeId, FsError>(sub));
            },
            None => {
                let made = fs.created(dir, name, NodeKind::Dir);
                let sub = fs.next_ino();
                law_creating_keeps_it_valid(fs, dir, name, NodeKind::Dir);
                law_filesystems_grow_downward(fs, dir, name, NodeKind::Dir);
                law_a_put_is_found(e, name, sub);
                lemma_planted(made, sub, rest, data);
                assert(next.nodes[d] == made.nodes[d]);
                assert(next.looked_up(dir, name) == Ok::<InodeId, FsError>(sub));
            },
        }
    }
}

proof fn lemma_a_file_changes_no_directory(fs: FsState, ino: InodeId, data: Seq<u8>)
    requires
        grows_downward(fs),
        fs.is_file(ino),
    ensures
        grows_downward(fs.with_body(ino, BodyState::File(data))),
{
    let next = fs.with_body(ino, BodyState::File(data));
    assert forall|i: int, k: int|
        0 <= i < next.nodes.len() && next.nodes[i].body is Dir && 0 <= k
            < next.nodes[i].body->Dir_0.len() implies (#[trigger] next.nodes[i].body->Dir_0[k]).1.0
        > i by {
        assert(i != ino.0);
        assert(fs.nodes[i].body->Dir_0[k].1.0 > i);
    }
}

/// A file that an image is seeded with is found at its path, with its content.
pub proof fn law_a_seeded_file_is_at_its_path(
    fs: FsState,
    dir: InodeId,
    path: Seq<Seq<char>>,
    data: Seq<u8>,
)
    requires
        valid(fs),
        grows_downward(fs),
        path.len() > 0,
        fs.planted(dir, path, data) is Some,
    ensures
        ({
            let (next, ino) = fs.planted(dir, path, data)->0;
            &&& resolved(next, dir, path) == Some(ino)
            &&& next.is_file(ino)
            &&& next.content(ino) == data
            &&& valid(next) && grows_downward(next)
        }),
{
    lemma_planted(fs, dir, path, data);
}

/// A file can be put at any path that does not lead through a file, while there are inodes left:
/// at a name in a directory, and below a name that is not taken.
pub proof fn law_a_file_can_be_seeded(
    fs: FsState,
    dir: InodeId,
    path: Seq<Seq<char>>,
    data: Seq<u8>,
)
    requires
        valid(fs),
        fs.is_dir(dir),
        path.len() > 0,
        fs.nodes.len() + path.len() <= 0x1_0000_0000,
        path.len() > 1 ==> get(fs.entries(dir), path[0]) is None,
    ensures
        fs.planted(dir, path, data) is Some,
    decreases path.len(),
{
    if path.len() > 1 {
        let made = fs.created(dir, path[0], NodeKind::Dir);
        let sub = fs.next_ino();
        law_creating_keeps_it_valid(fs, dir, path[0], NodeKind::Dir);
        let rest = path.skip(1);
        assert(made.is_dir(sub));
        assert(made.entries(sub).len() == 0);
        if rest.len() > 1 {
            lemma_place(made.entries(sub), rest[0]);
            assert(get(made.entries(sub), rest[0]) is None);
        }
        law_a_file_can_be_seeded(made, sub, rest, data);
    }
}

} // verus!
