use vstd::prelude::*;
use crate::error::VikError;
use crate::order::{bytes_le, lemma_lex_antisym, lemma_lex_total, lemma_lex_trans, lex_le, lex_lt};
use crate::pathmap::PathMap;
use crate::text::{
    bytes_eq, find, find_byte_from, first_at, is_utf8, lacks, lemma_find, lines, push_all,
    slice_to_vec, split_lines, split_once, split_once_bytes, views,
};
use crate::object::{parse_object, parse_object_spec, parsed_as};
use crate::hash::{hex_lower, sha256, sha256_hex};
use crate::object::{encode_object_bytes, object_bytes, object_id, objects_view, StoredObject};
use crate::index::{entries_view, IndexEntry};

verus! {

// ---------------------------------------------------------------------------
// Splitting a path
// ---------------------------------------------------------------------------

/// `s` split at every `b`, as `str::split` gives it: always at least one
/// piece, and empty pieces kept.
pub open spec fn split(s: Seq<u8>, b: u8) -> Seq<Seq<u8>>
    decreases s.len(),
{
    match find(s, b) {
        None => seq![s],
        Some(i) => {
            proof {
                lemma_find(s, b);
            }
            seq![s.take(i)] + split(s.skip(i + 1), b)
        },
    }
}

/// Splits `s` at every `b`.
pub fn split_bytes(s: &[u8], b: u8) -> (r: Vec<Vec<u8>>)
    ensures
        views(r@) == split(s@, b),
{
    let mut out: Vec<Vec<u8>> = Vec::new();
    let mut pos: usize = 0;
    assert(s@.skip(0) =~= s@);
    loop
        invariant
            pos <= s@.len(),
            views(out@) + split(s@.skip(pos as int), b) == split(s@, b),
        decreases s@.len() - pos,
    {
        let ghost rest = s@.skip(pos as int);
        let ghost before = views(out@);
        match find_byte_from(s, b, pos) {
            None => {
                let piece = slice_to_vec(s, pos, s.len());
                assert(piece@ =~= rest);
                out.push(piece);
                assert(views(out@) =~= before + split(rest, b));
                return out;
            },
            Some(i) => {
                let len = s.len();
                assert(i < len);
                let piece = slice_to_vec(s, pos, i);
                assert(piece@ =~= rest.take(i - pos));
                assert(rest.skip(i - pos + 1) =~= s@.skip(i + 1));
                out.push(piece);
                assert(views(out@) =~= before + seq![piece@]);
                pos = i + 1;
                assert(views(out@) + split(s@.skip(pos as int), b) =~= before + split(rest, b));
            },
        }
    }
}

// ---------------------------------------------------------------------------
// The directory tree built from the index
// ---------------------------------------------------------------------------

/// One directory of the tree: the files directly in it, by name, and its
/// subdirectories, in ascending name order.
pub struct TreeNode {
    pub blobs: PathMap,
    pub dirs: Vec<TreeDir>,
}

/// A named subdirectory.
pub struct TreeDir {
    pub name: Vec<u8>,
    pub node: TreeNode,
}

/// Subdirectory names in strictly ascending byte-wise order.
pub open spec fn names_ascending(ds: Seq<TreeDir>) -> bool {
    forall|i: int, j: int| 0 <= i < j < ds.len() ==> lex_lt(#[trigger] ds[i].name@, #[trigger] ds[j].name@)
}

/// Every map and every list of subdirectories in the tree is in ascending
/// order.
pub open spec fn tree_wf(node: TreeNode) -> bool
    decreases node,
{
    &&& node.blobs.wf()
    &&& names_ascending(node.dirs@)
    &&& forall|i: int| 0 <= i < node.dirs@.len() ==> {
        proof {
            assert(decreases_to!(node => node.dirs));
        }
        tree_wf(#[trigger] node.dirs@[i].node)
    }
}

/// `n` ends with `\r`, which reading a line would take for part of its
/// ending.
pub open spec fn ends_with_cr(n: Seq<u8>) -> bool {
    n.len() > 0 && n.last() == 13
}

/// A piece of text that a tree object's line gives back unchanged: no line
/// feed, no `\r` at its end, and valid UTF-8.
pub open spec fn segment_ok(n: Seq<u8>) -> bool {
    &&& lacks(n, 10)
    &&& !ends_with_cr(n)
    &&& vstd::utf8::valid_utf8(n)
}

/// A file or directory name: a segment without `/`.
pub open spec fn name_ok(n: Seq<u8>) -> bool {
    lacks(n, 47) && segment_ok(n)
}

/// A blob id that a tree object's line gives back unchanged: no space, no
/// line feed, valid UTF-8.
pub open spec fn id_ok(v: Seq<u8>) -> bool {
    &&& lacks(v, 32)
    &&& lacks(v, 10)
    &&& vstd::utf8::valid_utf8(v)
}

/// Path components that a tree keeps: every one a name, and the first not
/// empty when more follow (at the root, an empty directory name would be
/// lost when paths are joined again).
pub open spec fn parts_ok(ps: Seq<Seq<u8>>) -> bool {
    &&& forall|j: int| 0 <= j < ps.len() ==> name_ok(#[trigger] ps[j])
    &&& ps.len() >= 2 ==> ps[0].len() > 0
}

/// An index path whose file survives being written into trees and read
/// back: every `/`-separated segment passes `segment_ok`, and the path does
/// not begin with `/` unless it is nothing else.
pub open spec fn path_ok(p: Seq<u8>) -> bool {
    let ps = split(p, 47);
    &&& forall|j: int| 0 <= j < ps.len() ==> segment_ok(#[trigger] ps[j])
    &&& ps.len() >= 2 ==> ps[0].len() > 0
}

/// Every name in the tree is a name, every blob id passes `id_ok`, and, in
/// the root (`top`), no subdirectory has an empty name.
pub open spec fn names_ok(node: TreeNode, top: bool) -> bool
    decreases node,
{
    &&& forall|k: Seq<u8>| #[trigger]
        node.blobs.contents().contains_key(k) ==> name_ok(k) && id_ok(node.blobs.contents()[k])
    &&& forall|i: int|
        #![trigger node.dirs@[i]]
        0 <= i < node.dirs@.len() ==> {
            proof {
                assert(decreases_to!(node => node.dirs));
            }
            &&& name_ok(node.dirs@[i].name@)
            &&& (top ==> node.dirs@[i].name@.len() > 0)
            &&& names_ok(node.dirs@[i].node, false)
        }
}

/// Every subdirectory, at any depth, files something: no directory of
/// the tree is empty.
pub open spec fn dirs_filled(node: TreeNode) -> bool
    decreases node,
{
    forall|i: int|
        #![trigger node.dirs@[i]]
        0 <= i < node.dirs@.len() ==> {
            proof {
                assert(decreases_to!(node => node.dirs));
            }
            &&& exists|q: Seq<Seq<u8>>| #[trigger] lookup(node.dirs@[i].node, q) is Some
            &&& dirs_filled(node.dirs@[i].node)
        }
}

/// The tree has a directory at the path whose components are `d` (the
/// empty path is the tree itself).
pub open spec fn has_dir(node: TreeNode, d: Seq<Seq<u8>>) -> bool
    decreases d.len(),
{
    if d.len() == 0 {
        true
    } else {
        match dir_pos(node.dirs@, d[0]) {
            Some(i) => has_dir(node.dirs@[i].node, d.drop_first()),
            None => false,
        }
    }
}

/// `d` is a proper prefix of `p`: the path of a directory on the way to
/// what `p` names.
pub open spec fn proper_prefix(d: Seq<Seq<u8>>, p: Seq<Seq<u8>>) -> bool {
    d.len() < p.len() && d == p.take(d.len() as int)
}

/// The position of the subdirectory named `name`, if any.
pub open spec fn dir_pos(ds: Seq<TreeDir>, name: Seq<u8>) -> Option<int> {
    if exists|i: int| 0 <= i < ds.len() && #[trigger] ds[i].name@ == name {
        Some(choose|i: int| 0 <= i < ds.len() && #[trigger] ds[i].name@ == name)
    } else {
        None
    }
}

/// The blob id filed in the tree under the path whose components are `p`.
pub open spec fn lookup(node: TreeNode, p: Seq<Seq<u8>>) -> Option<Seq<u8>>
    decreases p.len(),
{
    if p.len() == 1 {
        if node.blobs.contents().contains_key(p[0]) {
            Some(node.blobs.contents()[p[0]])
        } else {
            None
        }
    } else if p.len() >= 2 {
        match dir_pos(node.dirs@, p[0]) {
            Some(i) => lookup(node.dirs@[i].node, p.drop_first()),
            None => None,
        }
    } else {
        None
    }
}

/// Among names in ascending order, a name is found where it stands.
pub proof fn lemma_dir_pos_at(ds: Seq<TreeDir>, i: int)
    requires
        names_ascending(ds),
        0 <= i < ds.len(),
    ensures
        dir_pos(ds, ds[i].name@) == Some(i),
{
    let n = ds[i].name@;
    assert(ds[i].name@ == n);
    let j = choose|j: int| 0 <= j < ds.len() && #[trigger] ds[j].name@ == n;
    if j < i {
        assert(lex_lt(ds[j].name@, ds[i].name@));
    }
    if i < j {
        assert(lex_lt(ds[i].name@, ds[j].name@));
    }
}

impl TreeNode {
    /// An empty directory.
    pub fn new() -> (r: TreeNode)
        ensures
            tree_wf(r),
            names_ok(r, true),
            names_ok(r, false),
            dirs_filled(r),
            forall|p: Seq<Seq<u8>>| lookup(r, p) is None,
            forall|d: Seq<Seq<u8>>| #[trigger] has_dir(r, d) <==> d.len() == 0,
    {
        let r = TreeNode { blobs: PathMap::new(), dirs: Vec::new() };
        assert forall|d: Seq<Seq<u8>>| #[trigger] has_dir(r, d) <==> d.len() == 0 by {
            if d.len() > 0 {
                assert(dir_pos(r.dirs@, d[0]) is None);
            }
        }
        assert forall|p: Seq<Seq<u8>>| lookup(r, p) is None by {
            if p.len() >= 2 {
                assert(dir_pos(r.dirs@, p[0]) is None);
            }
        }
        r
    }

    /// Files `blob_id` under the path whose components are `parts`,
    /// creating the directories on the way. An empty list of components is
    /// refused.
    pub fn insert(&mut self, parts: &Vec<Vec<u8>>, blob_id: &[u8]) -> (r: Result<(), VikError>)
        requires
            tree_wf(*old(self)),
        ensures
            parts@.len() == 0 ==> r == Err::<(), VikError>(VikError::EmptyPath) && *final(self)
                == *old(self),
            parts@.len() > 0 ==> r is Ok && tree_wf(*final(self)) && forall|q: Seq<Seq<u8>>|
                #[trigger] lookup(*final(self), q) == if q == views(parts@) {
                    Some(blob_id@)
                } else {
                    lookup(*old(self), q)
                },
            parts_ok(views(parts@)) && id_ok(blob_id@) && names_ok(*old(self), true) ==> names_ok(
                *final(self),
                true,
            ),
            dirs_filled(*old(self)) ==> dirs_filled(*final(self)),
            parts@.len() > 0 ==> forall|d: Seq<Seq<u8>>|
                #[trigger] has_dir(*final(self), d) <==> has_dir(*old(self), d) || proper_prefix(
                    d,
                    views(parts@),
                ),
    {
        if parts.len() == 0 {
            return Err(VikError::EmptyPath);
        }
        assert(views(parts@).skip(0) =~= views(parts@));
        self.insert_from(parts, 0, blob_id);
        Ok(())
    }

    fn insert_from(&mut self, parts: &Vec<Vec<u8>>, from: usize, blob_id: &[u8])
        requires
            tree_wf(*old(self)),
            from < parts@.len(),
        ensures
            tree_wf(*final(self)),
            forall|q: Seq<Seq<u8>>|
                #[trigger] lookup(*final(self), q) == if q == views(parts@).skip(from as int) {
                    Some(blob_id@)
                } else {
                    lookup(*old(self), q)
                },
            parts_ok(views(parts@)) && id_ok(blob_id@) && names_ok(*old(self), from == 0)
                ==> names_ok(*final(self), from == 0),
            dirs_filled(*old(self)) ==> dirs_filled(*final(self)),
            forall|d: Seq<Seq<u8>>|
                #[trigger] has_dir(*final(self), d) <==> has_dir(*old(self), d) || proper_prefix(
                    d,
                    views(parts@).skip(from as int),
                ),
        decreases parts@.len() - from,
    {
        let ghost p = views(parts@).skip(from as int);
        let ghost old_self = *self;
        let name = &parts[from];
        assert(p[0] == name@);
        if parts.len() - from == 1 {
            let key = slice_to_vec(name.as_slice(), 0, name.len());
            let value = slice_to_vec(blob_id, 0, blob_id.len());
            assert(key@ =~= name@);
            assert(value@ =~= blob_id@);
            self.blobs.insert(key, value);
            proof {
                if parts_ok(views(parts@)) && id_ok(blob_id@) && names_ok(old_self, from == 0) {
                    assert(name_ok(views(parts@)[from as int]));
                    assert forall|k: Seq<u8>| #[trigger]
                        self.blobs.contents().contains_key(k) implies name_ok(k) && id_ok(
                        self.blobs.contents()[k],
                    ) by {
                        if k != name@ {
                            assert(old_self.blobs.contents().contains_key(k));
                        }
                    }
                    assert(names_ok(*self, from == 0));
                }
                if dirs_filled(old_self) {
                    lemma_filled_same_dirs(*self, old_self);
                }
                assert forall|d: Seq<Seq<u8>>|
                    #[trigger] has_dir(*self, d) <==> has_dir(old_self, d) || proper_prefix(d, p) by {
                    assert(self.dirs == old_self.dirs);
                }
            }
            assert forall|q: Seq<Seq<u8>>|
                #[trigger] lookup(*self, q) == if q == p { Some(blob_id@) } else { lookup(old_self, q) } by {
                if q.len() == 1 && q != p {
                    assert(q[0] != p[0]) by {
                        if q[0] == p[0] {
                            assert(q =~= p);
                        }
                    }
                }
            }
            return;
        }
        // find the subdirectory, or where it belongs
        let mut j: usize = 0;
        loop
            invariant
                j <= self.dirs@.len(),
                *self == old_self,
                tree_wf(*self),
                forall|k: int| 0 <= k < j ==> lex_lt(#[trigger] self.dirs@[k].name@, name@),
            ensures
                j <= self.dirs@.len(),
                *self == old_self,
                forall|k: int| 0 <= k < j ==> lex_lt(#[trigger] self.dirs@[k].name@, name@),
                j < self.dirs@.len() ==> lex_le(name@, self.dirs@[j as int].name@),
            decreases self.dirs@.len() - j,
        {
            if j == self.dirs.len() {
                break;
            }
            if bytes_le(name.as_slice(), self.dirs[j].name.as_slice()) {
                break;
            }
            proof {
                lemma_lex_total(name@, self.dirs@[j as int].name@);
            }
            j = j + 1;
        }
        let ghost ds = self.dirs@;
        assert(tree_wf(old_self));
        let same = j < self.dirs.len() && bytes_eq(self.dirs[j].name.as_slice(), name.as_slice());
        // names below j come before, names from j on come after (or equal at j)
        assert forall|k: int| 0 <= k < ds.len() && k != j implies #[trigger] ds[k].name@ != name@ by {
            if k < j {
                assert(lex_lt(ds[k].name@, name@));
            } else {
                assert(lex_lt(ds[j as int].name@, ds[k].name@));
                if ds[k].name@ == name@ {
                    lemma_lex_antisym(ds[j as int].name@, name@);
                }
            }
        }
        if same {
            let mut d = self.dirs.remove(j);
            let ghost child = d.node;
            assert(child == ds[j as int].node);
            assert(tree_wf(child));
            d.node.insert_from(parts, from + 1, blob_id);
            self.dirs.insert(j, d);
            proof {
                assert(views(parts@).skip(from + 1) =~= p.drop_first());
                self.lemma_after_child_insert(old_self, j as int, p, blob_id@);
                if parts_ok(views(parts@)) && id_ok(blob_id@) && names_ok(old_self, from == 0) {
                    lemma_names_replace_dir(*self, old_self, j as int, from == 0);
                }
                if dirs_filled(old_self) {
                    assert(old_self.dirs@[j as int] == old_self.dirs@[j as int]);
                    lemma_filled_replace_dir(*self, old_self, j as int, p.drop_first());
                }
                lemma_dirs_replace_dir(*self, old_self, j as int, p);
            }
        } else {
            let mut fresh = TreeNode::new();
            fresh.insert_from(parts, from + 1, blob_id);
            let key = slice_to_vec(name.as_slice(), 0, name.len());
            assert(key@ =~= name@);
            let d = TreeDir { name: key, node: fresh };
            self.dirs.insert(j, d);
            proof {
                assert(views(parts@).skip(from + 1) =~= p.drop_first());
                self.lemma_after_new_dir(old_self, j as int, p, blob_id@);
                if parts_ok(views(parts@)) && id_ok(blob_id@) && names_ok(old_self, from == 0) {
                    assert(name_ok(views(parts@)[from as int]));
                    lemma_names_new_dir(*self, old_self, j as int, from == 0);
                }
                if dirs_filled(old_self) {
                    lemma_filled_new_dir(*self, old_self, j as int, p.drop_first());
                }
                lemma_dirs_new_dir(*self, old_self, j as int, p);
            }
        }
    }

    proof fn lemma_after_child_insert(
        &self,
        old_self: TreeNode,
        j: int,
        p: Seq<Seq<u8>>,
        blob: Seq<u8>,
    )
        requires
            tree_wf(old_self),
            p.len() >= 2,
            0 <= j < old_self.dirs@.len(),
            old_self.dirs@[j].name@ == p[0],
            self.blobs == old_self.blobs,
            self.dirs@.len() == old_self.dirs@.len(),
            self.dirs@[j].name@ == p[0],
            forall|k: int| 0 <= k < self.dirs@.len() && k != j ==> #[trigger] self.dirs@[k] == old_self.dirs@[k],
            tree_wf(self.dirs@[j].node),
            forall|q: Seq<Seq<u8>>|
                #[trigger] lookup(self.dirs@[j].node, q) == if q == p.drop_first() {
                    Some(blob)
                } else {
                    lookup(old_self.dirs@[j].node, q)
                },
        ensures
            tree_wf(*self),
            forall|q: Seq<Seq<u8>>|
                #[trigger] lookup(*self, q) == if q == p {
                    Some(blob)
                } else {
                    lookup(old_self, q)
                },
    {
        let ds = self.dirs@;
        let os = old_self.dirs@;
        assert(names_ascending(ds)) by {
            assert forall|a: int, b: int| 0 <= a < b < ds.len() implies lex_lt(#[trigger] ds[a].name@, #[trigger] ds[b].name@) by {
                assert(lex_lt(os[a].name@, os[b].name@));
            }
        }
        assert forall|i: int| 0 <= i < ds.len() implies tree_wf(#[trigger] ds[i].node) by {
            if i != j {
                assert(tree_wf(os[i].node));
            }
        }
        assert(tree_wf(*self));
        assert forall|q: Seq<Seq<u8>>|
            #[trigger] lookup(*self, q) == if q == p { Some(blob) } else { lookup(old_self, q) } by {
            if q.len() >= 2 {
                match dir_pos(os, q[0]) {
                    Some(i) => {
                        assert(0 <= i < os.len() && os[i].name@ == q[0]);
                        lemma_dir_pos_at(os, i);
                        lemma_dir_pos_at(ds, i);
                        assert(ds[i].name@ == q[0]);
                        assert(lookup(*self, q) == lookup(ds[i].node, q.drop_first()));
                        assert(lookup(old_self, q) == lookup(os[i].node, q.drop_first()));
                        if i == j {
                            if q == p {
                            } else {
                                assert(q.drop_first() != p.drop_first()) by {
                                    if q.drop_first() == p.drop_first() {
                                        assert(q =~= seq![q[0]] + q.drop_first());
                                        assert(p =~= seq![p[0]] + p.drop_first());
                                    }
                                }
                            }
                        } else {
                            assert(q != p);
                        }
                    },
                    None => {
                        assert(q[0] != p[0]) by {
                            if q[0] == p[0] {
                                assert(os[j].name@ == q[0]);
                            }
                        }
                        assert(dir_pos(ds, q[0]) is None) by {
                            if exists|i: int| 0 <= i < ds.len() && #[trigger] ds[i].name@ == q[0] {
                                let i = choose|i: int| 0 <= i < ds.len() && #[trigger] ds[i].name@ == q[0];
                                assert(os[i].name@ == q[0]);
                            }
                        }
                    },
                }
            }
        }
    }

    proof fn lemma_after_new_dir(&self, old_self: TreeNode, j: int, p: Seq<Seq<u8>>, blob: Seq<u8>)
        requires
            tree_wf(old_self),
            p.len() >= 2,
            0 <= j <= old_self.dirs@.len(),
            forall|k: int| 0 <= k < old_self.dirs@.len() ==> #[trigger] old_self.dirs@[k].name@ != p[0],
            forall|k: int| 0 <= k < j ==> lex_lt(#[trigger] old_self.dirs@[k].name@, p[0]),
            j < old_self.dirs@.len() ==> lex_le(p[0], old_self.dirs@[j].name@),
            self.blobs == old_self.blobs,
            j < self.dirs@.len(),
            self.dirs@ == old_self.dirs@.insert(j, self.dirs@[j]),
            self.dirs@[j].name@ == p[0],
            tree_wf(self.dirs@[j].node),
            forall|q: Seq<Seq<u8>>|
                #[trigger] lookup(self.dirs@[j].node, q) == if q == p.drop_first() {
                    Some(blob)
                } else {
                    None
                },
        ensures
            tree_wf(*self),
            forall|q: Seq<Seq<u8>>|
                #[trigger] lookup(*self, q) == if q == p {
                    Some(blob)
                } else {
                    lookup(old_self, q)
                },
    {
        let ds = self.dirs@;
        let os = old_self.dirs@;
        assert(names_ascending(ds)) by {
            assert forall|a: int, b: int| 0 <= a < b < ds.len() implies lex_lt(#[trigger] ds[a].name@, #[trigger] ds[b].name@) by {
                if a < j && b == j {
                } else if a == j && b > j {
                    assert(ds[b] == os[b - 1]);
                    if b - 1 > j {
                        assert(lex_lt(os[j].name@, os[b - 1].name@));
                        lemma_lex_trans(p[0], os[j].name@, os[b - 1].name@);
                    }
                    if p[0] == os[b - 1].name@ {
                        assert(os[b - 1].name@ != p[0]);
                    }
                } else if a < j && b > j {
                    assert(ds[b] == os[b - 1]);
                    if b - 1 > a {
                        assert(lex_lt(os[a].name@, os[b - 1].name@));
                    } else {
                        assert(a == b - 1);
                        assert(false);
                    }
                } else if a > j {
                    assert(ds[a] == os[a - 1] && ds[b] == os[b - 1]);
                    assert(lex_lt(os[a - 1].name@, os[b - 1].name@));
                } else {
                    assert(lex_lt(os[a].name@, os[b].name@));
                }
            }
        }
        assert forall|i: int| 0 <= i < ds.len() implies tree_wf(#[trigger] ds[i].node) by {
            if i < j {
                assert(ds[i] == os[i]);
                assert(tree_wf(os[i].node));
            } else if i > j {
                assert(ds[i] == os[i - 1]);
                assert(tree_wf(os[i - 1].node));
            }
        }
        assert(tree_wf(*self));
        assert forall|q: Seq<Seq<u8>>|
            #[trigger] lookup(*self, q) == if q == p { Some(blob) } else { lookup(old_self, q) } by {
            if q.len() >= 2 {
                if q[0] == p[0] {
                    lemma_dir_pos_at(ds, j);
                    assert(dir_pos(os, q[0]) is None);
                    assert(lookup(*self, q) == lookup(ds[j].node, q.drop_first()));
                    assert(lookup(old_self, q) is None);
                    if q != p {
                        assert(q.drop_first() != p.drop_first()) by {
                            if q.drop_first() == p.drop_first() {
                                assert(q =~= seq![q[0]] + q.drop_first());
                                assert(p =~= seq![p[0]] + p.drop_first());
                            }
                        }
                    }
                } else {
                    assert(q != p);
                    match dir_pos(os, q[0]) {
                        Some(i) => {
                            assert(0 <= i < os.len() && os[i].name@ == q[0]);
                            lemma_dir_pos_at(os, i);
                            let k = if i < j { i } else { i + 1 };
                            assert(ds[k] == os[i]);
                            lemma_dir_pos_at(ds, k);
                            assert(lookup(*self, q) == lookup(ds[k].node, q.drop_first()));
                            assert(lookup(old_self, q) == lookup(os[i].node, q.drop_first()));
                        },
                        None => {
                            assert(dir_pos(ds, q[0]) is None) by {
                                if exists|i: int| 0 <= i < ds.len() && #[trigger] ds[i].name@ == q[0] {
                                    let i = choose|i: int| 0 <= i < ds.len() && #[trigger] ds[i].name@ == q[0];
                                    if i < j {
                                        assert(os[i].name@ == q[0]);
                                    } else if i > j {
                                        assert(os[i - 1].name@ == q[0]);
                                    }
                                }
                            }
                        },
                    }
                }
            }
        }
    }
}

proof fn lemma_names_replace_dir(n2: TreeNode, n1: TreeNode, j: int, top: bool)
    requires
        names_ok(n1, top),
        0 <= j < n1.dirs@.len(),
        n2.blobs == n1.blobs,
        n2.dirs@.len() == n1.dirs@.len(),
        n2.dirs@[j].name@ == n1.dirs@[j].name@,
        forall|k: int| 0 <= k < n2.dirs@.len() && k != j ==> #[trigger] n2.dirs@[k] == n1.dirs@[k],
        names_ok(n2.dirs@[j].node, false),
    ensures
        names_ok(n2, top),
{
    assert forall|i: int| 0 <= i < n2.dirs@.len() implies {
        &&& name_ok(#[trigger] n2.dirs@[i].name@)
        &&& (top ==> n2.dirs@[i].name@.len() > 0)
        &&& names_ok(n2.dirs@[i].node, false)
    } by {
        assert(n1.dirs@[i] == n1.dirs@[i]);
    }
}

proof fn lemma_names_new_dir(n2: TreeNode, n1: TreeNode, j: int, top: bool)
    requires
        names_ok(n1, top),
        0 <= j <= n1.dirs@.len(),
        n2.dirs@ == n1.dirs@.insert(j, n2.dirs@[j]),
        n2.blobs == n1.blobs,
        name_ok(n2.dirs@[j].name@),
        top ==> n2.dirs@[j].name@.len() > 0,
        names_ok(n2.dirs@[j].node, false),
    ensures
        names_ok(n2, top),
{
    assert forall|i: int| 0 <= i < n2.dirs@.len() implies {
        &&& name_ok(#[trigger] n2.dirs@[i].name@)
        &&& (top ==> n2.dirs@[i].name@.len() > 0)
        &&& names_ok(n2.dirs@[i].node, false)
    } by {
        if i < j {
            assert(n2.dirs@[i] == n1.dirs@[i]);
        } else if i > j {
            assert(n2.dirs@[i] == n1.dirs@[i - 1]);
        }
    }
}

proof fn lemma_filled_same_dirs(n2: TreeNode, n1: TreeNode)
    requires
        dirs_filled(n1),
        n2.dirs == n1.dirs,
    ensures
        dirs_filled(n2),
{
    assert forall|i: int| 0 <= i < n2.dirs@.len() implies {
        &&& exists|q: Seq<Seq<u8>>| #[trigger] lookup(n2.dirs@[i].node, q) is Some
        &&& dirs_filled(n2.dirs@[i].node)
    } by {
        assert(n1.dirs@ == n2.dirs@);
        assert(n1.dirs@[i] == n2.dirs@[i]);
        let q = choose|q: Seq<Seq<u8>>| #[trigger] lookup(n1.dirs@[i].node, q) is Some;
        assert(lookup(n2.dirs@[i].node, q) is Some);
    }
}

proof fn lemma_filled_replace_dir(n2: TreeNode, n1: TreeNode, j: int, w: Seq<Seq<u8>>)
    requires
        dirs_filled(n1),
        0 <= j < n1.dirs@.len(),
        n2.dirs@.len() == n1.dirs@.len(),
        forall|k: int| 0 <= k < n2.dirs@.len() && k != j ==> #[trigger] n2.dirs@[k] == n1.dirs@[k],
        lookup(n2.dirs@[j].node, w) is Some,
        dirs_filled(n2.dirs@[j].node),
    ensures
        dirs_filled(n2),
{
    assert forall|i: int| 0 <= i < n2.dirs@.len() implies {
        &&& exists|q: Seq<Seq<u8>>| #[trigger] lookup(n2.dirs@[i].node, q) is Some
        &&& dirs_filled(n2.dirs@[i].node)
    } by {
        assert(n1.dirs@[i] == n1.dirs@[i]);
        if i == j {
            assert(lookup(n2.dirs@[j].node, w) is Some);
        }
    }
}

proof fn lemma_filled_new_dir(n2: TreeNode, n1: TreeNode, j: int, w: Seq<Seq<u8>>)
    requires
        dirs_filled(n1),
        0 <= j <= n1.dirs@.len(),
        n2.dirs@ == n1.dirs@.insert(j, n2.dirs@[j]),
        lookup(n2.dirs@[j].node, w) is Some,
        dirs_filled(n2.dirs@[j].node),
    ensures
        dirs_filled(n2),
{
    assert forall|i: int| 0 <= i < n2.dirs@.len() implies {
        &&& exists|q: Seq<Seq<u8>>| #[trigger] lookup(n2.dirs@[i].node, q) is Some
        &&& dirs_filled(n2.dirs@[i].node)
    } by {
        if i < j {
            assert(n2.dirs@[i] == n1.dirs@[i]);
        } else if i > j {
            assert(n2.dirs@[i] == n1.dirs@[i - 1]);
        } else {
            assert(lookup(n2.dirs@[j].node, w) is Some);
        }
    }
}

proof fn lemma_prefix_step(d: Seq<Seq<u8>>, p: Seq<Seq<u8>>)
    requires
        d.len() > 0,
        p.len() > 0,
    ensures
        proper_prefix(d, p) <==> d[0] == p[0] && proper_prefix(d.drop_first(), p.drop_first()),
{
    if proper_prefix(d, p) {
        assert(d[0] == p.take(d.len() as int)[0]);
        assert(d.drop_first() =~= p.drop_first().take(d.drop_first().len() as int));
    }
    if d[0] == p[0] && proper_prefix(d.drop_first(), p.drop_first()) {
        assert(d =~= p.take(d.len() as int)) by {
            assert forall|k: int| 0 <= k < d.len() implies d[k] == p.take(d.len() as int)[k] by {
                if k > 0 {
                    assert(d[k] == d.drop_first()[k - 1]);
                    assert(d.drop_first()[k - 1] == p.drop_first().take(d.drop_first().len() as int)[k - 1]);
                }
            }
        }
    }
}

proof fn lemma_dirs_replace_dir(n2: TreeNode, n1: TreeNode, j: int, p: Seq<Seq<u8>>)
    requires
        tree_wf(n1),
        tree_wf(n2),
        p.len() >= 2,
        0 <= j < n1.dirs@.len(),
        n2.dirs@.len() == n1.dirs@.len(),
        n1.dirs@[j].name@ == p[0],
        n2.dirs@[j].name@ == p[0],
        forall|k: int| 0 <= k < n2.dirs@.len() && k != j ==> #[trigger] n2.dirs@[k] == n1.dirs@[k],
        forall|d: Seq<Seq<u8>>|
            #[trigger] has_dir(n2.dirs@[j].node, d) <==> has_dir(n1.dirs@[j].node, d)
                || proper_prefix(d, p.drop_first()),
    ensures
        forall|d: Seq<Seq<u8>>| #[trigger] has_dir(n2, d) <==> has_dir(n1, d) || proper_prefix(d, p),
{
    let d1 = n1.dirs@;
    let d2 = n2.dirs@;
    assert forall|d: Seq<Seq<u8>>| #[trigger] has_dir(n2, d) <==> has_dir(n1, d) || proper_prefix(d, p) by {
        if d.len() > 0 {
            lemma_prefix_step(d, p);
            match dir_pos(d1, d[0]) {
                Some(i) => {
                    assert(0 <= i < d1.len() && d1[i].name@ == d[0]);
                    lemma_dir_pos_at(d1, i);
                    if i != j {
                        assert(d2[i] == d1[i]);
                    }
                    lemma_dir_pos_at(d2, i);
                    assert(has_dir(n1, d) == has_dir(d1[i].node, d.drop_first()));
                    assert(has_dir(n2, d) == has_dir(d2[i].node, d.drop_first()));
                    if i != j {
                        assert(d[0] != p[0]) by {
                            if d[0] == p[0] {
                                lemma_dir_pos_at(d1, j);
                            }
                        }
                    } else {
                        assert(has_dir(n2.dirs@[j].node, d.drop_first()) <==> has_dir(
                            n1.dirs@[j].node,
                            d.drop_first(),
                        ) || proper_prefix(d.drop_first(), p.drop_first()));
                    }
                },
                None => {
                    assert(d[0] != p[0]) by {
                        if d[0] == p[0] {
                            assert(d1[j].name@ == d[0]);
                        }
                    }
                    assert(dir_pos(d2, d[0]) is None) by {
                        if exists|i: int| 0 <= i < d2.len() && #[trigger] d2[i].name@ == d[0] {
                            let i = choose|i: int| 0 <= i < d2.len() && #[trigger] d2[i].name@ == d[0];
                            if i != j {
                                assert(d1[i].name@ == d[0]);
                            }
                        }
                    }
                },
            }
        }
    }
}

proof fn lemma_dirs_new_dir(n2: TreeNode, n1: TreeNode, j: int, p: Seq<Seq<u8>>)
    requires
        tree_wf(n1),
        tree_wf(n2),
        p.len() >= 2,
        0 <= j <= n1.dirs@.len(),
        forall|k: int| 0 <= k < n1.dirs@.len() ==> #[trigger] n1.dirs@[k].name@ != p[0],
        j < n2.dirs@.len(),
        n2.dirs@ == n1.dirs@.insert(j, n2.dirs@[j]),
        n2.dirs@[j].name@ == p[0],
        forall|d: Seq<Seq<u8>>|
            #[trigger] has_dir(n2.dirs@[j].node, d) <==> d.len() == 0 || proper_prefix(
                d,
                p.drop_first(),
            ),
    ensures
        forall|d: Seq<Seq<u8>>| #[trigger] has_dir(n2, d) <==> has_dir(n1, d) || proper_prefix(d, p),
{
    let d1 = n1.dirs@;
    let d2 = n2.dirs@;
    assert forall|d: Seq<Seq<u8>>| #[trigger] has_dir(n2, d) <==> has_dir(n1, d) || proper_prefix(d, p) by {
        if d.len() > 0 {
            lemma_prefix_step(d, p);
            if d[0] == p[0] {
                lemma_dir_pos_at(d2, j);
                assert(dir_pos(d1, d[0]) is None);
                assert(has_dir(n2, d) == has_dir(d2[j].node, d.drop_first()));
                if d.drop_first().len() == 0 {
                    assert(p.drop_first().len() > 0);
                    assert(proper_prefix(d.drop_first(), p.drop_first())) by {
                        assert(d.drop_first() =~= p.drop_first().take(0));
                    }
                }
            } else {
                match dir_pos(d1, d[0]) {
                    Some(i) => {
                        assert(0 <= i < d1.len() && d1[i].name@ == d[0]);
                        lemma_dir_pos_at(d1, i);
                        let k = if i < j { i } else { i + 1 };
                        assert(d2[k] == d1[i]);
                        lemma_dir_pos_at(d2, k);
                    },
                    None => {
                        assert(dir_pos(d2, d[0]) is None) by {
                            if exists|i: int| 0 <= i < d2.len() && #[trigger] d2[i].name@ == d[0] {
                                let i = choose|i: int| 0 <= i < d2.len() && #[trigger] d2[i].name@ == d[0];
                                if i < j {
                                    assert(d1[i].name@ == d[0]);
                                } else if i > j {
                                    assert(d1[i - 1].name@ == d[0]);
                                }
                            }
                        }
                    },
                }
            }
        }
    }
}

// ---------------------------------------------------------------------------
// Tree objects
// ---------------------------------------------------------------------------

/// `100644`, the mode written for a file.
pub open spec fn blob_mode() -> Seq<u8> {
    seq![49u8, 48, 48, 54, 52, 52]
}

/// `040000`, the mode written for a directory.
pub open spec fn tree_mode() -> Seq<u8> {
    seq![48u8, 52, 48, 48, 48, 48]
}

/// `blob`.
pub open spec fn blob_kind() -> Seq<u8> {
    seq![98u8, 108, 111, 98]
}

/// `tree`.
pub open spec fn tree_kind() -> Seq<u8> {
    seq![116u8, 114, 101, 101]
}

/// `commit`.
pub open spec fn commit_kind() -> Seq<u8> {
    seq![99u8, 111, 109, 109, 105, 116]
}

/// One line of a tree object: mode, kind, id and name separated by
/// spaces, then a line feed.
pub open spec fn entry_line(mode: Seq<u8>, kind: Seq<u8>, oid: Seq<u8>, name: Seq<u8>) -> Seq<u8> {
    mode + seq![32u8] + kind + seq![32u8] + oid + seq![32u8] + name + seq![10u8]
}

/// The lines for the files of a directory, in the given order.
pub open spec fn blob_lines(ps: Seq<(Seq<u8>, Seq<u8>)>) -> Seq<u8>
    decreases ps.len(),
{
    if ps.len() == 0 {
        seq![]
    } else {
        entry_line(blob_mode(), blob_kind(), ps[0].1, ps[0].0) + blob_lines(ps.drop_first())
    }
}

/// The id of the tree object written for `node`.
pub open spec fn tree_oid(node: TreeNode) -> Seq<u8>
    decreases node, 1int,
{
    object_id(object_bytes(tree_kind(), tree_text(node)))
}

/// The content of the tree object written for `node`: a line per file in
/// name order, then a line per subdirectory in name order.
pub open spec fn tree_text(node: TreeNode) -> Seq<u8>
    decreases node, 0int,
{
    proof {
        assert(decreases_to!(node => node.dirs));
        vstd::std_specs::vec::axiom_vec_decreases_to_view(node.dirs);
    }
    blob_lines(node.blobs.pairs()) + dir_lines(node.dirs@)
}

/// The lines for the subdirectories `ds`, in the given order.
pub open spec fn dir_lines(ds: Seq<TreeDir>) -> Seq<u8>
    decreases ds, 0int,
{
    if ds.len() == 0 {
        seq![]
    } else {
        proof {
            assert(decreases_to!(ds => ds[0]));
        }
        entry_line(tree_mode(), tree_kind(), tree_oid(ds[0].node), ds[0].name@) + dir_lines(
            ds.drop_first(),
        )
    }
}

/// The tree objects written for `node`: those of its subdirectories in
/// name order, each subtree before its parent, and its own last.
pub open spec fn tree_objects(node: TreeNode) -> Seq<(Seq<u8>, Seq<u8>)>
    decreases node, 0int,
{
    proof {
        assert(decreases_to!(node => node.dirs));
        vstd::std_specs::vec::axiom_vec_decreases_to_view(node.dirs);
    }
    dir_objects(node.dirs@) + seq![
        (tree_oid(node), object_bytes(tree_kind(), tree_text(node))),
    ]
}

/// The tree objects written for the subdirectories `ds`, in order.
pub open spec fn dir_objects(ds: Seq<TreeDir>) -> Seq<(Seq<u8>, Seq<u8>)>
    decreases ds, 0int,
{
    if ds.len() == 0 {
        seq![]
    } else {
        proof {
            assert(decreases_to!(ds => ds[0]));
        }
        tree_objects(ds[0].node) + dir_objects(ds.drop_first())
    }
}

fn push_entry_line(out: &mut Vec<u8>, mode: &[u8], kind: &[u8], oid: &[u8], name: &[u8])
    ensures
        final(out)@ == old(out)@ + entry_line(mode@, kind@, oid@, name@),
{
    push_all(out, mode);
    out.push(32);
    push_all(out, kind);
    out.push(32);
    push_all(out, oid);
    out.push(32);
    push_all(out, name);
    out.push(10);
    assert(out@ =~= old(out)@ + entry_line(mode@, kind@, oid@, name@));
}

/// Serialises the tree below `node`: its id, and every tree object to
/// store, each subtree before its parent.
pub fn write_tree_node(node: &TreeNode) -> (r: (Vec<u8>, Vec<StoredObject>))
    ensures
        r.0@ == tree_oid(*node),
        objects_view(r.1@) == tree_objects(*node),
    decreases node,
{
    let blob_mode_v: Vec<u8> = vec![49u8, 48, 48, 54, 52, 52];
    let tree_mode_v: Vec<u8> = vec![48u8, 52, 48, 48, 48, 48];
    let blob_kind_v: Vec<u8> = vec![98u8, 108, 111, 98];
    let tree_kind_v: Vec<u8> = vec![116u8, 114, 101, 101];
    let ghost ps = node.blobs.pairs();
    let mut text: Vec<u8> = Vec::new();
    let mut i: usize = 0;
    assert(ps.skip(0) =~= ps);
    while i < node.blobs.len()
        invariant
            i <= ps.len(),
            ps == node.blobs.pairs(),
            blob_mode_v@ == blob_mode(),
            blob_kind_v@ == blob_kind(),
            text@ + blob_lines(ps.skip(i as int)) == blob_lines(ps),
        decreases ps.len() - i,
    {
        let ghost before = text@;
        push_entry_line(
            &mut text,
            blob_mode_v.as_slice(),
            blob_kind_v.as_slice(),
            node.blobs.value_at(i).as_slice(),
            node.blobs.key_at(i).as_slice(),
        );
        assert(ps.skip(i as int).drop_first() =~= ps.skip(i + 1));
        assert(before + blob_lines(ps.skip(i as int)) =~= text@ + blob_lines(ps.skip(i + 1)));
        i = i + 1;
    }
    assert(ps.skip(i as int) =~= Seq::<(Seq<u8>, Seq<u8>)>::empty());
    assert(text@ + Seq::<u8>::empty() =~= text@);
    let ghost ds = node.dirs@;
    let mut objects: Vec<StoredObject> = Vec::new();
    let mut k: usize = 0;
    assert(ds.skip(0) =~= ds);
    assert(text@ + dir_lines(ds) == tree_text(*node));
    while k < node.dirs.len()
        invariant
            k <= ds.len(),
            ds == node.dirs@,
            tree_mode_v@ == tree_mode(),
            tree_kind_v@ == tree_kind(),
            text@ + dir_lines(ds.skip(k as int)) == tree_text(*node),
            objects_view(objects@) + dir_objects(ds.skip(k as int)) == dir_objects(ds),
        decreases ds.len() - k,
    {
        let ghost before_text = text@;
        let ghost before_objects = objects_view(objects@);
        let d = &node.dirs[k];
        assert(ds.skip(k as int)[0] == ds[k as int]);
        assert(ds.skip(k as int).drop_first() =~= ds.skip(k + 1));
        let (child_oid, child_objects) = write_tree_node(&d.node);
        push_entry_line(
            &mut text,
            tree_mode_v.as_slice(),
            tree_kind_v.as_slice(),
            child_oid.as_slice(),
            d.name.as_slice(),
        );
        let mut m: usize = 0;
        while m < child_objects.len()
            invariant
                m <= child_objects@.len(),
                objects_view(objects@) == before_objects + objects_view(child_objects@).take(
                    m as int,
                ),
            decreases child_objects@.len() - m,
        {
            let o = &child_objects[m];
            let c = StoredObject {
                oid: slice_to_vec(o.oid.as_slice(), 0, o.oid.len()),
                bytes: slice_to_vec(o.bytes.as_slice(), 0, o.bytes.len()),
            };
            assert(c@ == o@) by {
                assert(c.oid@ =~= o.oid@);
                assert(c.bytes@ =~= o.bytes@);
            }
            let ghost prev = objects_view(objects@);
            objects.push(c);
            assert(objects_view(objects@) =~= prev.push(c@));
            assert(objects_view(child_objects@).take(m + 1) =~= objects_view(child_objects@).take(
                m as int,
            ).push(o@));
            assert(objects_view(objects@) =~= before_objects + objects_view(child_objects@).take(
                m + 1,
            ));
            m = m + 1;
        }
        assert(objects_view(child_objects@).take(m as int) =~= objects_view(child_objects@));
        assert(before_text + dir_lines(ds.skip(k as int)) =~= text@ + dir_lines(ds.skip(k + 1)));
        assert(before_objects + dir_objects(ds.skip(k as int)) =~= objects_view(objects@)
            + dir_objects(ds.skip(k + 1)));
        k = k + 1;
    }
    assert(ds.skip(k as int) =~= Seq::<TreeDir>::empty());
    assert(text@ + Seq::<u8>::empty() =~= text@);
    assert(objects_view(objects@) + Seq::<(Seq<u8>, Seq<u8>)>::empty() =~= objects_view(objects@));
    let bytes = encode_object_bytes(tree_kind_v.as_slice(), text.as_slice());
    let oid = sha256_hex(bytes.as_slice());
    let own = StoredObject { oid: slice_to_vec(oid.as_slice(), 0, oid.len()), bytes };
    assert(own.oid@ =~= oid@);
    let ghost before_objects = objects_view(objects@);
    objects.push(own);
    assert(objects_view(objects@) =~= before_objects + seq![own@]);
    (oid, objects)
}

/// The blob filed under the components `q` by the index entries: that of
/// the last entry whose path, split at `/`, is `q`.
pub open spec fn entries_lookup(es: Seq<(Seq<u8>, Seq<u8>)>, q: Seq<Seq<u8>>) -> Option<Seq<u8>>
    decreases es.len(),
{
    if es.len() == 0 {
        None
    } else if split(es.last().0, 47) == q {
        Some(es.last().1)
    } else {
        entries_lookup(es.drop_last(), q)
    }
}

proof fn lemma_split_nonempty(s: Seq<u8>, b: u8)
    ensures
        split(s, b).len() >= 1,
{
    lemma_find(s, b);
}

/// No piece of a split holds the separator.
pub proof fn lemma_split_lacks(s: Seq<u8>, b: u8)
    ensures
        forall|j: int| 0 <= j < split(s, b).len() ==> lacks(#[trigger] split(s, b)[j], b),
    decreases s.len(),
{
    lemma_find(s, b);
    match find(s, b) {
        None => {},
        Some(i) => {
            lemma_split_lacks(s.skip(i + 1), b);
            let rest = split(s.skip(i + 1), b);
            assert forall|j: int| 0 <= j < split(s, b).len() implies lacks(#[trigger] split(s, b)[j], b) by {
                if j > 0 {
                    assert(split(s, b)[j] == rest[j - 1]);
                }
            }
        },
    }
}

/// The pieces of UTF-8 text without line feeds or carriage returns, split
/// at `/`, are segments that a tree object's line gives back.
pub proof fn lemma_plain_segments(s: Seq<u8>)
    requires
        vstd::utf8::valid_utf8(s),
        lacks(s, 10),
        lacks(s, 13),
    ensures
        forall|j: int| 0 <= j < split(s, 47).len() ==> segment_ok(#[trigger] split(s, 47)[j]),
    decreases s.len(),
{
    lemma_find(s, 47);
    match find(s, 47) {
        None => {},
        Some(i) => {
            let n = s.len() as int;
            let head = s.take(i);
            let rest = s.skip(i + 1);
            vstd::utf8::is_char_boundary_iff_not_is_continuation_byte(s, i);
            vstd::utf8::valid_utf8_split(s, i);
            assert(s.subrange(0, i) =~= head);
            let tail = s.subrange(i, n);
            assert(tail[0] == 47u8);
            assert(vstd::utf8::pop_first_scalar(tail) =~= rest);
            assert(lacks(head, 10) && lacks(head, 13)) by {
                assert forall|k: int| 0 <= k < head.len() implies head[k] != 10 && head[k] != 13 by {
                    assert(head[k] == s[k]);
                }
            }
            assert(lacks(rest, 10) && lacks(rest, 13)) by {
                assert forall|k: int| 0 <= k < rest.len() implies rest[k] != 10 && rest[k] != 13 by {
                    assert(rest[k] == s[k + i + 1]);
                }
            }
            lemma_plain_segments(rest);
            let ps = split(s, 47);
            assert forall|j: int| 0 <= j < ps.len() implies segment_ok(#[trigger] ps[j]) by {
                if j > 0 {
                    assert(ps[j] == split(rest, 47)[j - 1]);
                }
            }
        },
    }
}

/// A path that is UTF-8, holds no line feed or carriage return, and does
/// not begin with `/` is one whose file trees keep.
pub proof fn lemma_plain_path_ok(p: Seq<u8>)
    requires
        vstd::utf8::valid_utf8(p),
        lacks(p, 10),
        lacks(p, 13),
        !(p.len() > 0 && p[0] == 47),
    ensures
        path_ok(p),
{
    lemma_plain_segments(p);
    lemma_find(p, 47);
    if let Some(i) = find(p, 47) {
        assert(i != 0);
        assert(split(p, 47)[0] == p.take(i));
    }
}

/// The index entries all have paths and blob ids that trees keep.
pub open spec fn entries_ok(es: Seq<(Seq<u8>, Seq<u8>)>) -> bool {
    forall|i: int| 0 <= i < es.len() ==> path_ok(#[trigger] es[i].0) && id_ok(es[i].1)
}

/// Builds the directory tree of the index: every entry's path is split at
/// `/` and its blob filed there, later entries replacing earlier ones.
pub fn build_tree(entries: &Vec<IndexEntry>) -> (r: TreeNode)
    ensures
        tree_wf(r),
        forall|q: Seq<Seq<u8>>| #[trigger] lookup(r, q) == entries_lookup(entries_view(entries@), q),
        entries_ok(entries_view(entries@)) ==> names_ok(r, true),
        dirs_filled(r),
{
    let ghost es = entries_view(entries@);
    let mut root = TreeNode::new();
    let mut i: usize = 0;
    while i < entries.len()
        invariant
            i <= entries@.len(),
            es == entries_view(entries@),
            tree_wf(root),
            forall|q: Seq<Seq<u8>>| #[trigger] lookup(root, q) == entries_lookup(es.take(i as int), q),
            entries_ok(es) ==> names_ok(root, true),
            dirs_filled(root),
        decreases entries@.len() - i,
    {
        let e = &entries[i];
        assert(es[i as int] == e@);
        let parts = split_bytes(e.path.as_slice(), 47);
        proof {
            lemma_split_nonempty(e.path@, 47);
            if entries_ok(es) {
                assert(path_ok(es[i as int].0));
                lemma_split_lacks(e.path@, 47);
                let ps = views(parts@);
                assert forall|j: int| 0 <= j < ps.len() implies name_ok(#[trigger] ps[j]) by {
                    assert(segment_ok(split(e.path@, 47)[j]));
                    assert(lacks(split(e.path@, 47)[j], 47));
                }
                assert(parts_ok(ps));
            }
        }
        let ghost before = root;
        match root.insert(&parts, e.blob_id.as_slice()) {
            Ok(()) => {},
            Err(_) => {
                assert(false);
            },
        }
        assert(es.take(i + 1).drop_last() =~= es.take(i as int));
        assert(es.take(i + 1).last() == e@);
        assert forall|q: Seq<Seq<u8>>| #[trigger] lookup(root, q) == entries_lookup(es.take(i + 1), q) by {
            assert(lookup(root, q) == if q == views(parts@) { Some(e.blob_id@) } else { lookup(before, q) });
        }
        i = i + 1;
    }
    assert(es.take(i as int) =~= es);
    root
}

/// Serialises the tree of the index: the id of the root tree and every
/// tree object to store. The tree is the well-formed tree that files
/// exactly what the index files.
pub fn write_tree_from_index(entries: &Vec<IndexEntry>) -> (r: (Vec<u8>, Vec<StoredObject>))
    ensures
        exists|t: TreeNode|
            {
                &&& tree_wf(t)
                &&& forall|q: Seq<Seq<u8>>| #[trigger] lookup(t, q) == entries_lookup(entries_view(entries@), q)
                &&& dirs_filled(t)
                &&& entries_ok(entries_view(entries@)) ==> names_ok(t, true)
                &&& r.0@ == tree_oid(t)
                &&& objects_view(r.1@) == tree_objects(t)
            },
{
    let root = build_tree(entries);
    let r = write_tree_node(&root);
    assert(forall|q: Seq<Seq<u8>>| #[trigger] lookup(root, q) == entries_lookup(entries_view(entries@), q));
    r
}

// ---------------------------------------------------------------------------
// Reading tree objects
// ---------------------------------------------------------------------------

/// One line of a tree object: kind, id and name (the mode is not kept).
pub struct TreeLine {
    pub kind: Vec<u8>,
    pub oid: Vec<u8>,
    pub name: Vec<u8>,
}

impl View for TreeLine {
    type V = (Seq<u8>, Seq<u8>, Seq<u8>);

    open spec fn view(&self) -> (Seq<u8>, Seq<u8>, Seq<u8>) {
        (self.kind@, self.oid@, self.name@)
    }
}

/// The views of a sequence of tree lines.
pub open spec fn tree_lines_view(v: Seq<TreeLine>) -> Seq<(Seq<u8>, Seq<u8>, Seq<u8>)> {
    v.map_values(|l: TreeLine| l@)
}

/// The fields of a tree line, as `splitn(4, ' ')` gives them: mode, kind
/// and id end at a space each, the name is the rest.
pub open spec fn tree_fields(line: Seq<u8>) -> Option<(Seq<u8>, Seq<u8>, Seq<u8>)> {
    match split_once(line, 32) {
        None => None,
        Some((_mode, r1)) => match split_once(r1, 32) {
            None => None,
            Some((kind, r2)) => match split_once(r2, 32) {
                None => None,
                Some((oid, name)) => Some((kind, oid, name)),
            },
        },
    }
}

/// How the lines of a tree object are read: a line without four fields
/// refuses the whole object.
pub open spec fn parse_tree_lines(ls: Seq<Seq<u8>>) -> Result<Seq<(Seq<u8>, Seq<u8>, Seq<u8>)>, VikError>
    decreases ls.len(),
{
    if ls.len() == 0 {
        Ok(seq![])
    } else {
        match tree_fields(ls[0]) {
            None => Err(VikError::InvalidTreeEntry),
            Some(f) => match parse_tree_lines(ls.drop_first()) {
                Ok(r) => Ok(seq![f] + r),
                Err(e) => Err(e),
            },
        }
    }
}

/// Reads the content of a tree object into its lines.
pub fn parse_tree(content: &[u8]) -> (r: Result<Vec<TreeLine>, VikError>)
    ensures
        match parse_tree_lines(lines(content@)) {
            Ok(fs) => r matches Ok(v) && tree_lines_view(v@) == fs,
            Err(e) => r matches Err(x) && x == e,
        },
{
    let ls = split_lines(content);
    let ghost all = lines(content@);
    let mut out: Vec<TreeLine> = Vec::new();
    let mut i: usize = 0;
    assert(all.skip(0) =~= all);
    while i < ls.len()
        invariant
            i <= ls@.len(),
            views(ls@) == all,
            all == lines(content@),
            match parse_tree_lines(all) {
                Ok(fs) => parse_tree_lines(all.skip(i as int)) matches Ok(rest) && fs
                    == tree_lines_view(out@) + rest,
                Err(e) => parse_tree_lines(all.skip(i as int)) == Err::<
                    Seq<(Seq<u8>, Seq<u8>, Seq<u8>)>,
                    VikError,
                >(e),
            },
        decreases ls@.len() - i,
    {
        let line = &ls[i];
        assert(all[i as int] == line@);
        assert(all.skip(i as int)[0] == line@);
        assert(all.skip(i as int).drop_first() =~= all.skip(i + 1));
        let (kind, oid, name) = match split_once_bytes(line.as_slice(), 32) {
            None => return Err(VikError::InvalidTreeEntry),
            Some((_mode, r1)) => match split_once_bytes(r1.as_slice(), 32) {
                None => return Err(VikError::InvalidTreeEntry),
                Some((kind, r2)) => match split_once_bytes(r2.as_slice(), 32) {
                    None => return Err(VikError::InvalidTreeEntry),
                    Some((oid, name)) => (kind, oid, name),
                },
            },
        };
        let ghost before = tree_lines_view(out@);
        let tl = TreeLine { kind, oid, name };
        assert(tree_fields(line@) == Some(tl@));
        out.push(tl);
        assert(tree_lines_view(out@) =~= before.push(tl@));
        proof {
            match parse_tree_lines(all) {
                Ok(fs) => {
                    let rest = parse_tree_lines(all.skip(i as int))->Ok_0;
                    let rest2 = parse_tree_lines(all.skip(i + 1))->Ok_0;
                    assert(rest == seq![tl@] + rest2);
                    assert(fs =~= tree_lines_view(out@) + rest2);
                },
                Err(_) => {},
            }
        }
        i = i + 1;
    }
    assert(all.skip(i as int) =~= Seq::<Seq<u8>>::empty());
    proof {
        match parse_tree_lines(all) {
            Ok(fs) => {
                assert(fs =~= tree_lines_view(out@));
            },
            Err(_) => {},
        }
    }
    Ok(out)
}

// ---------------------------------------------------------------------------
// Walking stored trees
// ---------------------------------------------------------------------------

/// A file or a subtree met while walking a tree object: whether it is a
/// subtree, its path from the walk's root, and its id.
pub struct WalkItem {
    pub is_tree: bool,
    pub path: Vec<u8>,
    pub oid: Vec<u8>,
}

impl View for WalkItem {
    type V = (bool, Seq<u8>, Seq<u8>);

    open spec fn view(&self) -> (bool, Seq<u8>, Seq<u8>) {
        (self.is_tree, self.path@, self.oid@)
    }
}

/// The views of a sequence of walk items.
pub open spec fn items_view(v: Seq<WalkItem>) -> Seq<(bool, Seq<u8>, Seq<u8>)> {
    v.map_values(|it: WalkItem| it@)
}

/// `name` below `prefix`: just `name` at the root, else joined with `/`.
pub open spec fn join_path(prefix: Seq<u8>, name: Seq<u8>) -> Seq<u8> {
    if prefix.len() == 0 {
        name
    } else {
        prefix + seq![47u8] + name
    }
}

/// The items of a tree's lines below `prefix`: `blob` lines are files,
/// `tree` lines are subtrees, lines of any other kind are passed over.
pub open spec fn walk_items(prefix: Seq<u8>, fs: Seq<(Seq<u8>, Seq<u8>, Seq<u8>)>) -> Seq<(bool, Seq<u8>, Seq<u8>)>
    decreases fs.len(),
{
    if fs.len() == 0 {
        seq![]
    } else {
        let f = fs[0];
        let rest = walk_items(prefix, fs.drop_first());
        if f.0 == blob_kind() {
            seq![(false, join_path(prefix, f.2), f.1)] + rest
        } else if f.0 == tree_kind() {
            seq![(true, join_path(prefix, f.2), f.1)] + rest
        } else {
            rest
        }
    }
}

/// How a stored object met at `prefix` is read during a walk: it must be a
/// tree, its content UTF-8, and every line well formed.
pub open spec fn tree_walk_spec(prefix: Seq<u8>, object: Seq<u8>) -> Result<Seq<(bool, Seq<u8>, Seq<u8>)>, VikError> {
    match parse_object_spec(object) {
        Err(e) => Err(e),
        Ok((kind, content)) => if kind != tree_kind() {
            Err(VikError::NotATree)
        } else if !vstd::utf8::valid_utf8(content) {
            Err(VikError::NotUtf8)
        } else {
            match parse_tree_lines(lines(content)) {
                Err(e) => Err(e),
                Ok(fs) => Ok(walk_items(prefix, fs)),
            }
        },
    }
}

fn join_path_bytes(prefix: &[u8], name: &[u8]) -> (r: Vec<u8>)
    ensures
        r@ == join_path(prefix@, name@),
{
    let mut out: Vec<u8> = Vec::new();
    if prefix.len() == 0 {
        push_all(&mut out, name);
        assert(out@ =~= name@);
    } else {
        push_all(&mut out, prefix);
        out.push(47);
        push_all(&mut out, name);
        assert(out@ =~= prefix@ + seq![47u8] + name@);
    }
    out
}

/// Reads the tree object met at `prefix` into the items it holds, in
/// order.
pub fn tree_walk_items(prefix: &[u8], object: &[u8]) -> (r: Result<Vec<WalkItem>, VikError>)
    ensures
        match tree_walk_spec(prefix@, object@) {
            Ok(its) => r matches Ok(v) && items_view(v@) == its,
            Err(e) => r matches Err(x) && x == e,
        },
{
    let parsed = match parse_object(object) {
        Ok(p) => p,
        Err(e) => return Err(e),
    };
    let tree_kind_v: Vec<u8> = vec![116u8, 114, 101, 101];
    let blob_kind_v: Vec<u8> = vec![98u8, 108, 111, 98];
    if !bytes_eq(parsed.kind.as_slice(), tree_kind_v.as_slice()) {
        return Err(VikError::NotATree);
    }
    if !is_utf8(parsed.content.as_slice()) {
        return Err(VikError::NotUtf8);
    }
    let tls = match parse_tree(parsed.content.as_slice()) {
        Ok(v) => v,
        Err(e) => return Err(e),
    };
    let ghost fs = tree_lines_view(tls@);
    let mut out: Vec<WalkItem> = Vec::new();
    let mut i: usize = 0;
    assert(fs.skip(0) =~= fs);
    while i < tls.len()
        invariant
            i <= fs.len(),
            fs == tree_lines_view(tls@),
            tree_kind_v@ == tree_kind(),
            blob_kind_v@ == blob_kind(),
            items_view(out@) + walk_items(prefix@, fs.skip(i as int)) == walk_items(prefix@, fs),
        decreases fs.len() - i,
    {
        let tl = &tls[i];
        assert(fs.skip(i as int)[0] == tl@);
        assert(fs.skip(i as int).drop_first() =~= fs.skip(i + 1));
        let ghost before = items_view(out@);
        let is_blob = bytes_eq(tl.kind.as_slice(), blob_kind_v.as_slice());
        let is_tree = bytes_eq(tl.kind.as_slice(), tree_kind_v.as_slice());
        if is_blob || is_tree {
            let path = join_path_bytes(prefix, tl.name.as_slice());
            let oid = slice_to_vec(tl.oid.as_slice(), 0, tl.oid.len());
            assert(oid@ =~= tl.oid@);
            let it = WalkItem { is_tree: !is_blob, path, oid };
            out.push(it);
            assert(items_view(out@) =~= before.push(it@));
            assert(before + walk_items(prefix@, fs.skip(i as int)) =~= items_view(out@)
                + walk_items(prefix@, fs.skip(i + 1)));
        }
        i = i + 1;
    }
    assert(fs.skip(i as int) =~= Seq::<(Seq<u8>, Seq<u8>, Seq<u8>)>::empty());
    assert(items_view(out@) + Seq::<(bool, Seq<u8>, Seq<u8>)>::empty() =~= items_view(out@));
    Ok(out)
}

/// The number of steps left in a walk whose pending items are `st`.
pub open spec fn walk_size(st: Seq<Seq<(bool, Seq<u8>, Seq<u8>)>>) -> nat
    decreases st.len(),
{
    if st.len() == 0 {
        0
    } else {
        walk_size(st.drop_last()) + st.last().len() + 1
    }
}

/// One move of a depth-first walk: take the next pending item of the
/// innermost tree (finished trees are dropped); a file is recorded and the
/// walk goes on, a subtree is handed out to be read; with nothing pending
/// the walk is over.
pub open spec fn advance(
    st: Seq<Seq<(bool, Seq<u8>, Seq<u8>)>>,
    files: Map<Seq<u8>, Seq<u8>>,
) -> (Seq<Seq<(bool, Seq<u8>, Seq<u8>)>>, Map<Seq<u8>, Seq<u8>>, Option<(Seq<u8>, Seq<u8>)>)
    decreases walk_size(st),
{
    if st.len() == 0 {
        (st, files, None)
    } else if st.last().len() == 0 {
        advance(st.drop_last(), files)
    } else {
        let it = st.last()[0];
        let st2 = st.drop_last().push(st.last().drop_first());
        proof {
            assert(st2.drop_last() =~= st.drop_last());
        }
        if it.0 {
            (st2, files, Some((it.2, it.1)))
        } else {
            advance(st2, files.insert(it.1, it.2))
        }
    }
}

struct WalkFrame {
    items: Vec<WalkItem>,
    next: usize,
}

/// A depth-first walk through stored trees, collecting every file met by
/// its path. The walk asks for each subtree in turn; whoever drives it
/// reads that object and hands it back with `enter`.
pub struct TreeWalk {
    frames: Vec<WalkFrame>,
    files: PathMap,
}

spec fn frame_rest(f: WalkFrame) -> Seq<(bool, Seq<u8>, Seq<u8>)> {
    items_view(f.items@).skip(f.next as int)
}

impl TreeWalk {
    /// The items still to visit, innermost tree last.
    pub closed spec fn pending(&self) -> Seq<Seq<(bool, Seq<u8>, Seq<u8>)>> {
        self.frames@.map_values(|f: WalkFrame| frame_rest(f))
    }

    /// The files found so far.
    pub closed spec fn found(&self) -> Map<Seq<u8>, Seq<u8>> {
        self.files.contents()
    }

    /// The walk's own bookkeeping is consistent.
    pub closed spec fn wf(&self) -> bool {
        &&& self.files.wf()
        &&& forall|i: int| 0 <= i < self.frames@.len() ==> #[trigger] self.frames@[i].next <= self.frames@[i].items@.len()
    }

    /// A walk with nothing pending and nothing found.
    pub fn new() -> (r: TreeWalk)
        ensures
            r.wf(),
            r.pending() == Seq::<Seq<(bool, Seq<u8>, Seq<u8>)>>::empty(),
            r.found() == Map::<Seq<u8>, Seq<u8>>::empty(),
    {
        let r = TreeWalk { frames: Vec::new(), files: PathMap::new() };
        assert(r.pending() =~= Seq::<Seq<(bool, Seq<u8>, Seq<u8>)>>::empty());
        r
    }

    /// Reads the tree object met at `prefix` and makes its items the
    /// innermost pending ones. A refused object leaves the walk as it was.
    pub fn enter(&mut self, prefix: &[u8], object: &[u8]) -> (r: Result<(), VikError>)
        requires
            old(self).wf(),
        ensures
            final(self).wf(),
            match tree_walk_spec(prefix@, object@) {
                Ok(its) => r is Ok && final(self).pending() == old(self).pending().push(its)
                    && final(self).found() == old(self).found(),
                Err(e) => r == Err::<(), VikError>(e) && final(self).pending() == old(
                    self,
                ).pending() && final(self).found() == old(self).found(),
            },
    {
        let items = match tree_walk_items(prefix, object) {
            Ok(v) => v,
            Err(e) => return Err(e),
        };
        let ghost before = self.pending();
        let f = WalkFrame { items, next: 0 };
        assert(frame_rest(f) =~= items_view(f.items@));
        self.frames.push(f);
        assert(self.pending() =~= before.push(frame_rest(f)));
        Ok(())
    }

    /// Walks on to the next subtree to read, recording the files met on the
    /// way; gives that subtree's id and path, or nothing when the walk is
    /// over.
    pub fn next(&mut self) -> (r: Option<(Vec<u8>, Vec<u8>)>)
        requires
            old(self).wf(),
        ensures
            final(self).wf(),
            ({
                let (st, files, req) = advance(old(self).pending(), old(self).found());
                &&& final(self).pending() == st
                &&& final(self).found() == files
                &&& match r {
                    Some((oid, path)) => req == Some((oid@, path@)),
                    None => req is None,
                }
            }),
    {
        let ghost goal = advance(self.pending(), self.found());
        loop
            invariant
                self.wf(),
                goal == advance(old(self).pending(), old(self).found()),
                advance(self.pending(), self.found()) == goal,
            decreases walk_size(self.pending()),
        {
            let ghost st = self.pending();
            let ghost files0 = self.found();
            if self.frames.len() == 0 {
                assert(st.len() == 0);
                return None;
            }
            let ghost fr = self.frames@;
            let mut top = self.frames.pop().unwrap();
            assert(self.frames@ =~= fr.drop_last());
            assert(top == fr.last());
            assert(self.pending() =~= st.drop_last());
            assert(frame_rest(top) == st.last());
            assert(walk_size(st) == walk_size(st.drop_last()) + st.last().len() + 1);
            if top.next >= top.items.len() {
                assert(st.last() =~= Seq::<(bool, Seq<u8>, Seq<u8>)>::empty());
                assert(advance(st, files0) == advance(st.drop_last(), files0));
                continue;
            }
            let it = &top.items[top.next];
            let is_tree = it.is_tree;
            let path = slice_to_vec(it.path.as_slice(), 0, it.path.len());
            let oid = slice_to_vec(it.oid.as_slice(), 0, it.oid.len());
            assert(path@ =~= it.path@);
            assert(oid@ =~= it.oid@);
            assert(st.last()[0] == it@);
            top.next = top.next + 1;
            assert(frame_rest(top) =~= st.last().drop_first());
            self.frames.push(top);
            let ghost st2 = st.drop_last().push(st.last().drop_first());
            assert(self.pending() =~= st2);
            assert(st2.drop_last() =~= st.drop_last());
            assert(walk_size(st2) == walk_size(st.drop_last()) + st.last().len());
            if is_tree {
                assert(advance(st, files0) == (st2, files0, Some((oid@, path@))));
                return Some((oid, path));
            }
            assert(advance(st, files0) == advance(st2, files0.insert(path@, oid@)));
            self.files.insert(path, oid);
        }
    }

    /// The files found, by path, once the walk is done with.
    pub fn into_files(self) -> (r: PathMap)
        requires
            self.wf(),
        ensures
            r.wf(),
            r.contents() == self.found(),
    {
        self.files
    }

    /// The files found, by path.
    pub fn files(&self) -> (r: &PathMap)
        requires
            self.wf(),
        ensures
            r.wf(),
            r.contents() == self.found(),
    {
        &self.files
    }
}

} // verus!
