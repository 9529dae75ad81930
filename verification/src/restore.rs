use vstd::prelude::*;
use vstd::utf8::{valid_utf8, valid_utf8_concat};
use crate::error::VikError;
use crate::hash::{is_hex_lower, lemma_hex_lower_digits, sha256};
use crate::index::{index_map, lemma_permuted_index_map, unique_paths};
use crate::object::{lemma_object_roundtrip, object_bytes};
use crate::pathmap::{lemma_pairs_map_at, pairs_map};
use crate::order::{lemma_ascending_unique, lex_lt};
use crate::text::{
    all_ascii, find, lacks, lemma_ascii_utf8, lemma_find, lemma_find_at, lemma_lacks_concat,
    lemma_lines_cons, lines, split_once, strip_cr,
};
use crate::tree::{
    advance, blob_kind, blob_lines, blob_mode, dir_lines, dir_objects, dir_pos, ends_with_cr,
    entries_lookup, entry_line, join_path, lemma_dir_pos_at, lemma_split_lacks, lookup, name_ok,
    names_ok, parse_tree_lines, split, tree_fields, tree_kind, tree_mode, tree_objects, tree_oid,
    tree_text, tree_walk_spec, tree_wf, walk_items, TreeDir, TreeNode, dirs_filled, entries_ok,
    id_ok, lemma_plain_path_ok,
};

verus! {

// ---------------------------------------------------------------------------
// The lines of a tree object
// ---------------------------------------------------------------------------

/// The lines of a tree object as mode, kind, id and name.
pub open spec fn ent_text(es: Seq<(Seq<u8>, Seq<u8>, Seq<u8>, Seq<u8>)>) -> Seq<u8>
    decreases es.len(),
{
    if es.len() == 0 {
        seq![]
    } else {
        entry_line(es[0].0, es[0].1, es[0].2, es[0].3) + ent_text(es.drop_first())
    }
}

/// What reading the lines gives back: kind, id and name.
pub open spec fn ent_fields(es: Seq<(Seq<u8>, Seq<u8>, Seq<u8>, Seq<u8>)>) -> Seq<(Seq<u8>, Seq<u8>, Seq<u8>)> {
    es.map_values(|e: (Seq<u8>, Seq<u8>, Seq<u8>, Seq<u8>)| (e.1, e.2, e.3))
}

/// The lines for the files of a directory.
pub open spec fn blob_ents(ps: Seq<(Seq<u8>, Seq<u8>)>) -> Seq<(Seq<u8>, Seq<u8>, Seq<u8>, Seq<u8>)> {
    ps.map_values(|e: (Seq<u8>, Seq<u8>)| (blob_mode(), blob_kind(), e.1, e.0))
}

/// The lines for the subdirectories of a directory.
pub open spec fn dir_ents(ds: Seq<TreeDir>) -> Seq<(Seq<u8>, Seq<u8>, Seq<u8>, Seq<u8>)> {
    ds.map_values(|d: TreeDir| (tree_mode(), tree_kind(), tree_oid(d.node), d.name@))
}

/// The lines of the tree object written for `t`.
pub open spec fn tree_ents(t: TreeNode) -> Seq<(Seq<u8>, Seq<u8>, Seq<u8>, Seq<u8>)> {
    blob_ents(t.blobs.pairs()) + dir_ents(t.dirs@)
}

/// What a walk reads from the tree object written for `t`, met at `p`.
pub open spec fn node_items(p: Seq<u8>, t: TreeNode) -> Seq<(bool, Seq<u8>, Seq<u8>)> {
    walk_items(p, ent_fields(tree_ents(t)))
}

/// A line that reads back as written: no field holds a line feed, the
/// first three hold no space, the name does not end with `\r`, and all are
/// UTF-8.
pub open spec fn ent_ok(e: (Seq<u8>, Seq<u8>, Seq<u8>, Seq<u8>)) -> bool {
    &&& lacks(e.0, 32) && lacks(e.0, 10) && valid_utf8(e.0)
    &&& lacks(e.1, 32) && lacks(e.1, 10) && valid_utf8(e.1)
    &&& lacks(e.2, 32) && lacks(e.2, 10) && valid_utf8(e.2)
    &&& lacks(e.3, 10) && !ends_with_cr(e.3) && valid_utf8(e.3)
}

proof fn lemma_ent_text_concat(
    a: Seq<(Seq<u8>, Seq<u8>, Seq<u8>, Seq<u8>)>,
    b: Seq<(Seq<u8>, Seq<u8>, Seq<u8>, Seq<u8>)>,
)
    ensures
        ent_text(a + b) == ent_text(a) + ent_text(b),
    decreases a.len(),
{
    if a.len() == 0 {
        assert(a + b =~= b);
    } else {
        lemma_ent_text_concat(a.drop_first(), b);
        assert((a + b).drop_first() =~= a.drop_first() + b);
        assert((a + b)[0] == a[0]);
    }
}

proof fn lemma_blob_lines_ents(ps: Seq<(Seq<u8>, Seq<u8>)>)
    ensures
        blob_lines(ps) == ent_text(blob_ents(ps)),
    decreases ps.len(),
{
    if ps.len() > 0 {
        lemma_blob_lines_ents(ps.drop_first());
        assert(blob_ents(ps).drop_first() =~= blob_ents(ps.drop_first()));
    }
}

proof fn lemma_dir_lines_ents(ds: Seq<TreeDir>)
    ensures
        dir_lines(ds) == ent_text(dir_ents(ds)),
    decreases ds.len(),
{
    if ds.len() > 0 {
        lemma_dir_lines_ents(ds.drop_first());
        assert(dir_ents(ds).drop_first() =~= dir_ents(ds.drop_first()));
    }
}

proof fn lemma_walk_items_concat(
    p: Seq<u8>,
    a: Seq<(Seq<u8>, Seq<u8>, Seq<u8>)>,
    b: Seq<(Seq<u8>, Seq<u8>, Seq<u8>)>,
)
    ensures
        walk_items(p, a + b) == walk_items(p, a) + walk_items(p, b),
    decreases a.len(),
{
    if a.len() == 0 {
        assert(a + b =~= b);
    } else {
        lemma_walk_items_concat(p, a.drop_first(), b);
        assert((a + b).drop_first() =~= a.drop_first() + b);
        assert((a + b)[0] == a[0]);
        let x = walk_items(p, a.drop_first());
        let y = walk_items(p, b);
        let it = (a[0].0 == tree_kind(), join_path(p, a[0].2), a[0].1);
        assert(seq![it] + (x + y) =~= seq![it] + x + y);
    }
}

proof fn lemma_byte_utf8(b: u8)
    requires
        b < 128,
    ensures
        valid_utf8(seq![b]),
{
    assert(all_ascii(seq![b]));
    lemma_ascii_utf8(seq![b]);
}

/// A line written from fields that read back as written comes back as its
/// kind, id and name.
proof fn lemma_entry_line_reads(e: (Seq<u8>, Seq<u8>, Seq<u8>, Seq<u8>))
    requires
        ent_ok(e),
    ensures
        ({
            let x = e.0 + seq![32u8] + e.1 + seq![32u8] + e.2 + seq![32u8] + e.3;
            &&& entry_line(e.0, e.1, e.2, e.3) == x + seq![10u8]
            &&& lacks(x, 10)
            &&& strip_cr(x) == x
            &&& tree_fields(x) == Some((e.1, e.2, e.3))
            &&& valid_utf8(entry_line(e.0, e.1, e.2, e.3))
        }),
{
    let sp = seq![32u8];
    let nl = seq![10u8];
    let x = e.0 + sp + e.1 + sp + e.2 + sp + e.3;
    assert(entry_line(e.0, e.1, e.2, e.3) =~= x + nl);
    assert(lacks(sp, 10));
    lemma_lacks_concat(e.0, sp, 10);
    lemma_lacks_concat(e.0 + sp, e.1, 10);
    lemma_lacks_concat(e.0 + sp + e.1, sp, 10);
    lemma_lacks_concat(e.0 + sp + e.1 + sp, e.2, 10);
    lemma_lacks_concat(e.0 + sp + e.1 + sp + e.2, sp, 10);
    lemma_lacks_concat(e.0 + sp + e.1 + sp + e.2 + sp, e.3, 10);
    if e.3.len() > 0 {
        assert(x.last() == e.3.last());
    } else {
        assert(x.last() == 32u8);
    }
    // the fields, one space at a time
    let r1 = e.1 + sp + e.2 + sp + e.3;
    let r2 = e.2 + sp + e.3;
    assert(x =~= e.0 + (sp + r1));
    assert(x.take(e.0.len() as int) =~= e.0);
    lemma_find_at(x, 32, e.0.len() as int);
    assert(x.skip(e.0.len() as int + 1) =~= r1);
    assert(r1.take(e.1.len() as int) =~= e.1);
    lemma_find_at(r1, 32, e.1.len() as int);
    assert(r1.skip(e.1.len() as int + 1) =~= r2);
    assert(r2.take(e.2.len() as int) =~= e.2);
    lemma_find_at(r2, 32, e.2.len() as int);
    assert(r2.skip(e.2.len() as int + 1) =~= e.3);
    assert(split_once(x, 32) == Some((e.0, r1)));
    assert(split_once(r1, 32) == Some((e.1, r2)));
    assert(split_once(r2, 32) == Some((e.2, e.3)));
    // UTF-8
    lemma_byte_utf8(32);
    lemma_byte_utf8(10);
    valid_utf8_concat(e.0, sp);
    valid_utf8_concat(e.0 + sp, e.1);
    valid_utf8_concat(e.0 + sp + e.1, sp);
    valid_utf8_concat(e.0 + sp + e.1 + sp, e.2);
    valid_utf8_concat(e.0 + sp + e.1 + sp + e.2, sp);
    valid_utf8_concat(e.0 + sp + e.1 + sp + e.2 + sp, e.3);
    valid_utf8_concat(x, nl);
}

/// Lines written from fields that read back as written are read as those
/// fields, and are UTF-8.
proof fn lemma_ent_text_reads(es: Seq<(Seq<u8>, Seq<u8>, Seq<u8>, Seq<u8>)>)
    requires
        forall|i: int| 0 <= i < es.len() ==> ent_ok(#[trigger] es[i]),
    ensures
        parse_tree_lines(lines(ent_text(es))) == Ok::<_, VikError>(ent_fields(es)),
        valid_utf8(ent_text(es)),
    decreases es.len(),
{
    if es.len() == 0 {
        assert(ent_fields(es) =~= Seq::<(Seq<u8>, Seq<u8>, Seq<u8>)>::empty());
        assert(lines(Seq::<u8>::empty()) == Seq::<Seq<u8>>::empty());
    } else {
        let e = es[0];
        assert(ent_ok(es[0]));
        let rest = es.drop_first();
        assert forall|i: int| 0 <= i < rest.len() implies ent_ok(#[trigger] rest[i]) by {
            assert(ent_ok(es[i + 1]));
        }
        lemma_ent_text_reads(rest);
        lemma_entry_line_reads(e);
        let x = e.0 + seq![32u8] + e.1 + seq![32u8] + e.2 + seq![32u8] + e.3;
        let r = ent_text(rest);
        assert(ent_text(es) =~= x + seq![10u8] + r);
        lemma_lines_cons(x, r);
        let ls = lines(ent_text(es));
        assert(ls == seq![x] + lines(r));
        assert(ls[0] == x);
        assert(ls.drop_first() =~= lines(r));
        assert(ent_fields(es) =~= seq![(e.1, e.2, e.3)] + ent_fields(rest));
        valid_utf8_concat(entry_line(e.0, e.1, e.2, e.3), r);
    }
}

proof fn lemma_constants()
    ensures
        lacks(blob_mode(), 32) && lacks(blob_mode(), 10) && valid_utf8(blob_mode()),
        lacks(tree_mode(), 32) && lacks(tree_mode(), 10) && valid_utf8(tree_mode()),
        lacks(blob_kind(), 32) && lacks(blob_kind(), 10) && valid_utf8(blob_kind()),
        lacks(tree_kind(), 32) && lacks(tree_kind(), 10) && lacks(tree_kind(), 0) && valid_utf8(
            tree_kind(),
        ),
        blob_kind() != tree_kind(),
{
    lemma_ascii_utf8(blob_mode());
    lemma_ascii_utf8(tree_mode());
    lemma_ascii_utf8(blob_kind());
    lemma_ascii_utf8(tree_kind());
    assert(blob_kind()[0] != tree_kind()[0]);
}

/// Tree ids are hexadecimal, so they read back as written.
proof fn lemma_tree_oid_ok(t: TreeNode)
    ensures
        lacks(tree_oid(t), 32) && lacks(tree_oid(t), 10) && valid_utf8(tree_oid(t)),
{
    let bytes = object_bytes(tree_kind(), tree_text(t));
    lemma_hex_lower_digits(sha256(bytes));
    let o = tree_oid(t);
    assert(all_ascii(o)) by {
        assert forall|i: int| 0 <= i < o.len() implies #[trigger] o[i] < 128 by {
            assert(is_hex_lower(o[i]));
        }
    }
    lemma_ascii_utf8(o);
    assert forall|i: int| 0 <= i < o.len() implies o[i] != 32 && o[i] != 10 by {
        assert(is_hex_lower(o[i]));
    }
}

/// The tree object written for a directory whose names read back is read,
/// at any prefix, into the items of its files and subdirectories.
pub proof fn lemma_tree_object_reads(p: Seq<u8>, t: TreeNode, top: bool)
    requires
        tree_wf(t),
        names_ok(t, top),
        tree_text(t).len() <= usize::MAX,
    ensures
        tree_walk_spec(p, object_bytes(tree_kind(), tree_text(t))) == Ok::<
            _,
            VikError,
        >(node_items(p, t)),
{
    lemma_constants();
    let ps = t.blobs.pairs();
    let ds = t.dirs@;
    let es = tree_ents(t);
    let be = blob_ents(ps);
    let de = dir_ents(ds);
    assert forall|i: int| 0 <= i < es.len() implies ent_ok(#[trigger] es[i]) by {
        if i < be.len() {
            assert(es[i] == be[i]);
            lemma_pairs_map_at(ps, i);
            assert(t.blobs.contents().contains_key(ps[i].0));
        } else {
            let k = i - be.len();
            assert(es[i] == de[k]);
            assert(ds[k] == ds[k]);
            lemma_tree_oid_ok(ds[k].node);
        }
    }
    lemma_blob_lines_ents(ps);
    lemma_dir_lines_ents(ds);
    lemma_ent_text_concat(be, de);
    assert(tree_text(t) == ent_text(es));
    lemma_ent_text_reads(es);
    lemma_object_roundtrip(tree_kind(), tree_text(t));
}

// ---------------------------------------------------------------------------
// Walking the trees written for a directory
// ---------------------------------------------------------------------------

/// `s` inserted into `m` in order, later pairs replacing earlier ones.
pub open spec fn insert_all(m: Map<Seq<u8>, Seq<u8>>, s: Seq<(Seq<u8>, Seq<u8>)>) -> Map<Seq<u8>, Seq<u8>>
    decreases s.len(),
{
    if s.len() == 0 {
        m
    } else {
        insert_all(m, s.drop_last()).insert(s.last().0, s.last().1)
    }
}

/// The files of the tree `t` met at `p`, by their paths from the walk's
/// root, in the order a walk meets them.
pub open spec fn node_files(p: Seq<u8>, t: TreeNode) -> Seq<(Seq<u8>, Seq<u8>)>
    decreases t, 1int,
{
    proof {
        assert(decreases_to!(t => t.dirs));
        vstd::std_specs::vec::axiom_vec_decreases_to_view(t.dirs);
    }
    blob_files(p, t.blobs.pairs()) + dir_files(p, t.dirs@)
}

/// The files of a directory met at `p`.
pub open spec fn blob_files(p: Seq<u8>, ps: Seq<(Seq<u8>, Seq<u8>)>) -> Seq<(Seq<u8>, Seq<u8>)> {
    ps.map_values(|e: (Seq<u8>, Seq<u8>)| (join_path(p, e.0), e.1))
}

/// The files below the subdirectories `ds` of a directory met at `p`.
pub open spec fn dir_files(p: Seq<u8>, ds: Seq<TreeDir>) -> Seq<(Seq<u8>, Seq<u8>)>
    decreases ds, 0int,
{
    if ds.len() == 0 {
        seq![]
    } else {
        proof {
            assert(decreases_to!(ds => ds[0]));
        }
        node_files(join_path(p, ds[0].name@), ds[0].node) + dir_files(p, ds.drop_first())
    }
}

/// The number of tree objects below `t`.
pub open spec fn tree_count(t: TreeNode) -> nat
    decreases t, 1int,
{
    proof {
        assert(decreases_to!(t => t.dirs));
        vstd::std_specs::vec::axiom_vec_decreases_to_view(t.dirs);
    }
    dirs_count(t.dirs@)
}

/// The number of tree objects for the subdirectories `ds` and below.
pub open spec fn dirs_count(ds: Seq<TreeDir>) -> nat
    decreases ds, 0int,
{
    if ds.len() == 0 {
        0
    } else {
        proof {
            assert(decreases_to!(ds => ds[0]));
        }
        1 + tree_count(ds[0].node) + dirs_count(ds.drop_first())
    }
}

/// A walk driven to its end, reading subtrees from `store` (object id to
/// bytes), as a caller does who answers each `TreeWalk::next` with
/// `TreeWalk::enter` on the object asked for: the files found, or nothing
/// when an object is missing or refused, or `fuel` reads did not suffice.
pub open spec fn walk_run(
    st: Seq<Seq<(bool, Seq<u8>, Seq<u8>)>>,
    files: Map<Seq<u8>, Seq<u8>>,
    store: Map<Seq<u8>, Seq<u8>>,
    fuel: nat,
) -> Option<Map<Seq<u8>, Seq<u8>>>
    decreases fuel,
{
    let (st2, files2, req) = advance(st, files);
    match req {
        None => Some(files2),
        Some((oid, path)) => if fuel == 0 || !store.contains_key(oid) {
            None
        } else {
            match tree_walk_spec(path, store[oid]) {
                Ok(its) => walk_run(st2.push(its), files2, store, (fuel - 1) as nat),
                Err(_) => None,
            }
        },
    }
}

/// A walk of the tree stored under `root`, from a fresh `TreeWalk` that
/// enters the root object at the empty path.
pub open spec fn walk_tree(root: Seq<u8>, store: Map<Seq<u8>, Seq<u8>>, fuel: nat) -> Option<Map<Seq<u8>, Seq<u8>>> {
    if !store.contains_key(root) {
        None
    } else {
        match tree_walk_spec(seq![], store[root]) {
            Ok(its) => walk_run(seq![its], Map::empty(), store, fuel),
            Err(_) => None,
        }
    }
}

/// `store` holds every object of `objs` (and each fits in memory).
pub open spec fn holds_objects(store: Map<Seq<u8>, Seq<u8>>, objs: Seq<(Seq<u8>, Seq<u8>)>) -> bool {
    forall|i: int|
        0 <= i < objs.len() ==> {
            &&& store.contains_key(#[trigger] objs[i].0)
            &&& store[objs[i].0] == objs[i].1
            &&& objs[i].1.len() <= usize::MAX
        }
}

/// `store` holds the tree object of `t` and of every directory below.
pub open spec fn holds_tree(store: Map<Seq<u8>, Seq<u8>>, t: TreeNode) -> bool
    decreases t,
{
    &&& store.contains_key(tree_oid(t))
    &&& store[tree_oid(t)] == object_bytes(tree_kind(), tree_text(t))
    &&& tree_text(t).len() <= usize::MAX
    &&& forall|i: int|
        #![trigger t.dirs@[i]]
        0 <= i < t.dirs@.len() ==> {
            proof {
                assert(decreases_to!(t => t.dirs));
            }
            holds_tree(store, t.dirs@[i].node)
        }
}

proof fn lemma_holds_concat(
    store: Map<Seq<u8>, Seq<u8>>,
    a: Seq<(Seq<u8>, Seq<u8>)>,
    b: Seq<(Seq<u8>, Seq<u8>)>,
)
    requires
        holds_objects(store, a + b),
    ensures
        holds_objects(store, a),
        holds_objects(store, b),
{
    assert forall|i: int| 0 <= i < a.len() implies {
        &&& store.contains_key(#[trigger] a[i].0)
        &&& store[a[i].0] == a[i].1
        &&& a[i].1.len() <= usize::MAX
    } by {
        assert((a + b)[i] == a[i]);
    }
    assert forall|i: int| 0 <= i < b.len() implies {
        &&& store.contains_key(#[trigger] b[i].0)
        &&& store[b[i].0] == b[i].1
        &&& b[i].1.len() <= usize::MAX
    } by {
        assert((a + b)[a.len() + i] == b[i]);
    }
}

proof fn lemma_holds_tree(store: Map<Seq<u8>, Seq<u8>>, t: TreeNode)
    requires
        holds_objects(store, tree_objects(t)),
    ensures
        holds_tree(store, t),
    decreases t, 1int,
{
    assert(decreases_to!(t => t.dirs));
    vstd::std_specs::vec::axiom_vec_decreases_to_view(t.dirs);
    let own = (tree_oid(t), object_bytes(tree_kind(), tree_text(t)));
    lemma_holds_concat(store, dir_objects(t.dirs@), seq![own]);
    let o = seq![own][0];
    assert(o == own);
    assert(store.contains_key(o.0) && store[o.0] == o.1 && o.1.len() <= usize::MAX);
    lemma_holds_dirs(store, t.dirs@);
}

proof fn lemma_holds_dirs(store: Map<Seq<u8>, Seq<u8>>, ds: Seq<TreeDir>)
    requires
        holds_objects(store, dir_objects(ds)),
    ensures
        forall|i: int| 0 <= i < ds.len() ==> holds_tree(store, #[trigger] ds[i].node),
    decreases ds, 0int,
{
    if ds.len() > 0 {
        assert(decreases_to!(ds => ds[0]));
        lemma_holds_concat(store, tree_objects(ds[0].node), dir_objects(ds.drop_first()));
        lemma_holds_tree(store, ds[0].node);
        lemma_holds_dirs(store, ds.drop_first());
        assert forall|i: int| 0 <= i < ds.len() implies holds_tree(store, #[trigger] ds[i].node) by {
            if i > 0 {
                assert(ds[i] == ds.drop_first()[i - 1]);
            }
        }
    }
}

proof fn lemma_insert_all_concat(
    m: Map<Seq<u8>, Seq<u8>>,
    a: Seq<(Seq<u8>, Seq<u8>)>,
    b: Seq<(Seq<u8>, Seq<u8>)>,
)
    ensures
        insert_all(m, a + b) == insert_all(insert_all(m, a), b),
    decreases b.len(),
{
    if b.len() == 0 {
        assert(a + b =~= a);
    } else {
        lemma_insert_all_concat(m, a, b.drop_last());
        assert((a + b).drop_last() =~= a + b.drop_last());
        assert((a + b).last() == b.last());
    }
}

proof fn lemma_walk_run_same(
    st1: Seq<Seq<(bool, Seq<u8>, Seq<u8>)>>,
    f1: Map<Seq<u8>, Seq<u8>>,
    st2: Seq<Seq<(bool, Seq<u8>, Seq<u8>)>>,
    f2: Map<Seq<u8>, Seq<u8>>,
    store: Map<Seq<u8>, Seq<u8>>,
    n: nat,
)
    requires
        advance(st1, f1) == advance(st2, f2),
    ensures
        walk_run(st1, f1, store, n) == walk_run(st2, f2, store, n),
{
}

/// Walking the file items of a directory records its files in order.
proof fn lemma_walk_blobs(
    st: Seq<Seq<(bool, Seq<u8>, Seq<u8>)>>,
    f: Map<Seq<u8>, Seq<u8>>,
    store: Map<Seq<u8>, Seq<u8>>,
    n: nat,
    p: Seq<u8>,
    ps: Seq<(Seq<u8>, Seq<u8>)>,
    rest: Seq<(bool, Seq<u8>, Seq<u8>)>,
)
    ensures
        walk_run(st.push(walk_items(p, ent_fields(blob_ents(ps))) + rest), f, store, n) == walk_run(
            st.push(rest),
            insert_all(f, blob_files(p, ps)),
            store,
            n,
        ),
    decreases ps.len(),
{
    lemma_constants();
    let its = walk_items(p, ent_fields(blob_ents(ps)));
    if ps.len() == 0 {
        assert(its + rest =~= rest);
        assert(blob_files(p, ps) =~= Seq::<(Seq<u8>, Seq<u8>)>::empty());
    } else {
        let tail = ps.drop_first();
        assert(ent_fields(blob_ents(ps))[0] == (blob_kind(), ps[0].1, ps[0].0));
        assert(ent_fields(blob_ents(ps)).drop_first() =~= ent_fields(blob_ents(tail)));
        let its2 = walk_items(p, ent_fields(blob_ents(tail)));
        let it = (false, join_path(p, ps[0].0), ps[0].1);
        assert(its == seq![it] + its2);
        let whole = st.push(its + rest);
        assert((its + rest)[0] == it);
        assert((its + rest).drop_first() =~= its2 + rest);
        assert(whole.drop_last() =~= st);
        assert(whole.drop_last().push((its + rest).drop_first()) =~= st.push(its2 + rest));
        let f1 = f.insert(it.1, it.2);
        assert(advance(whole, f) == advance(st.push(its2 + rest), f1));
        lemma_walk_run_same(whole, f, st.push(its2 + rest), f1, store, n);
        lemma_walk_blobs(st, f1, store, n, p, tail, rest);
        assert(blob_files(p, ps) =~= seq![(it.1, it.2)] + blob_files(p, tail));
        lemma_insert_all_concat(f, seq![(it.1, it.2)], blob_files(p, tail));
        assert(seq![(it.1, it.2)].drop_last() =~= Seq::<(Seq<u8>, Seq<u8>)>::empty());
        assert(seq![(it.1, it.2)].last() == (it.1, it.2));
        assert(insert_all(f, seq![(it.1, it.2)].drop_last()) == f);
        assert(insert_all(f, seq![(it.1, it.2)]) == f1);
    }
}

/// Walking the items of a directory's subdirectories reads each subtree in
/// turn and records the files below it, in order.
proof fn lemma_walk_dirs(
    st: Seq<Seq<(bool, Seq<u8>, Seq<u8>)>>,
    f: Map<Seq<u8>, Seq<u8>>,
    store: Map<Seq<u8>, Seq<u8>>,
    n: nat,
    p: Seq<u8>,
    ds: Seq<TreeDir>,
)
    requires
        forall|i: int|
            0 <= i < ds.len() ==> tree_wf(#[trigger] ds[i].node) && names_ok(ds[i].node, false)
                && holds_tree(store, ds[i].node),
    ensures
        walk_run(st.push(walk_items(p, ent_fields(dir_ents(ds)))), f, store, n + dirs_count(ds))
            == walk_run(st, insert_all(f, dir_files(p, ds)), store, n),
    decreases ds, 0int,
{
    lemma_constants();
    let its = walk_items(p, ent_fields(dir_ents(ds)));
    let whole = st.push(its);
    assert(whole.drop_last() =~= st);
    if ds.len() == 0 {
        assert(ent_fields(dir_ents(ds)) =~= Seq::<(Seq<u8>, Seq<u8>, Seq<u8>)>::empty());
        assert(its =~= Seq::<(bool, Seq<u8>, Seq<u8>)>::empty());
        assert(advance(whole, f) == advance(st, f));
        lemma_walk_run_same(whole, f, st, f, store, n);
        assert(dir_files(p, ds) =~= Seq::<(Seq<u8>, Seq<u8>)>::empty());
    } else {
        assert(decreases_to!(ds => ds[0]));
        let d = ds[0];
        let rest = ds.drop_first();
        assert(tree_wf(ds[0].node));
        assert(ent_fields(dir_ents(ds))[0] == (tree_kind(), tree_oid(d.node), d.name@));
        assert(ent_fields(dir_ents(ds)).drop_first() =~= ent_fields(dir_ents(rest)));
        let its2 = walk_items(p, ent_fields(dir_ents(rest)));
        let jp = join_path(p, d.name@);
        let oid = tree_oid(d.node);
        let it = (true, jp, oid);
        assert(its == seq![it] + its2);
        assert(its[0] == it);
        assert(its.drop_first() =~= its2);
        assert(whole.drop_last().push(whole.last().drop_first()) =~= st.push(its2));
        assert(advance(whole, f) == (st.push(its2), f, Some((oid, jp))));
        let m = n + dirs_count(rest);
        assert(n + dirs_count(ds) == m + tree_count(d.node) + 1);
        assert(holds_tree(store, d.node));
        lemma_tree_object_reads(jp, d.node, false);
        assert(tree_walk_spec(jp, store[oid]) == Ok::<_, VikError>(node_items(jp, d.node)));
        assert(walk_run(whole, f, store, n + dirs_count(ds)) == walk_run(
            st.push(its2).push(node_items(jp, d.node)),
            f,
            store,
            m + tree_count(d.node),
        ));
        lemma_walk_tree(st.push(its2), f, store, m, jp, d.node, false);
        let nf = node_files(jp, d.node);
        assert forall|i: int| 0 <= i < rest.len() implies tree_wf(#[trigger] rest[i].node)
            && names_ok(rest[i].node, false) && holds_tree(store, rest[i].node) by {
            assert(rest[i] == ds[i + 1]);
            assert(tree_wf(ds[i + 1].node));
        }
        lemma_walk_dirs(st, insert_all(f, nf), store, n, p, rest);
        lemma_insert_all_concat(f, nf, dir_files(p, rest));
        assert(dir_files(p, ds) == nf + dir_files(p, rest));
    }
}

/// Walking the tree object of `t`, met at `p`, reads every tree below it
/// and records its files, in order, whatever else is pending.
proof fn lemma_walk_tree(
    st: Seq<Seq<(bool, Seq<u8>, Seq<u8>)>>,
    f: Map<Seq<u8>, Seq<u8>>,
    store: Map<Seq<u8>, Seq<u8>>,
    n: nat,
    p: Seq<u8>,
    t: TreeNode,
    top: bool,
)
    requires
        tree_wf(t),
        names_ok(t, top),
        holds_tree(store, t),
    ensures
        walk_run(st.push(node_items(p, t)), f, store, n + tree_count(t)) == walk_run(
            st,
            insert_all(f, node_files(p, t)),
            store,
            n,
        ),
    decreases t, 1int,
{
    assert(decreases_to!(t => t.dirs));
    vstd::std_specs::vec::axiom_vec_decreases_to_view(t.dirs);
    let ps = t.blobs.pairs();
    let ds = t.dirs@;
    assert(ent_fields(tree_ents(t)) =~= ent_fields(blob_ents(ps)) + ent_fields(dir_ents(ds)));
    lemma_walk_items_concat(p, ent_fields(blob_ents(ps)), ent_fields(dir_ents(ds)));
    let di = walk_items(p, ent_fields(dir_ents(ds)));
    let big = n + tree_count(t);
    lemma_walk_blobs(st, f, store, big, p, ps, di);
    let bf = blob_files(p, ps);
    assert forall|i: int| 0 <= i < ds.len() implies tree_wf(#[trigger] ds[i].node) && names_ok(
        ds[i].node,
        false,
    ) && holds_tree(store, ds[i].node) by {
        assert(ds[i] == t.dirs@[i]);
    }
    assert(tree_count(t) == dirs_count(ds));
    lemma_walk_dirs(st, insert_all(f, bf), store, n, p, ds);
    lemma_insert_all_concat(f, bf, dir_files(p, ds));
}

/// Walking the trees written for a well-formed directory whose names read
/// back, from a store that holds every tree object written, finds the
/// directory's files in the order of `node_files`.
proof fn lemma_walk_written_tree(t: TreeNode, store: Map<Seq<u8>, Seq<u8>>)
    requires
        tree_wf(t),
        names_ok(t, true),
        holds_objects(store, tree_objects(t)),
    ensures
        walk_tree(tree_oid(t), store, tree_count(t)) == Some(
            insert_all(Map::empty(), node_files(seq![], t)),
        ),
{
    lemma_holds_tree(store, t);
    lemma_tree_object_reads(seq![], t, true);
    let its = node_items(seq![], t);
    let empty = Seq::<Seq<(bool, Seq<u8>, Seq<u8>)>>::empty();
    assert(seq![its] =~= empty.push(its));
    lemma_walk_tree(empty, Map::empty(), store, 0, seq![], t, true);
    let found = insert_all(Map::empty(), node_files(seq![], t));
    assert(advance(empty, found) == (empty, found, None::<(Seq<u8>, Seq<u8>)>));
}

// ---------------------------------------------------------------------------
// Paths joined again
// ---------------------------------------------------------------------------

/// Components joined with `/`.
pub open spec fn joined(q: Seq<Seq<u8>>) -> Seq<u8>
    decreases q.len(),
{
    if q.len() == 0 {
        seq![]
    } else if q.len() == 1 {
        q[0]
    } else {
        q[0] + seq![47u8] + joined(q.drop_first())
    }
}

/// Components joined onto `p` one at a time, as a walk builds paths.
pub open spec fn join_all(p: Seq<u8>, q: Seq<Seq<u8>>) -> Seq<u8>
    decreases q.len(),
{
    if q.len() == 0 {
        p
    } else {
        join_all(join_path(p, q[0]), q.drop_first())
    }
}

proof fn lemma_join_all_below(p: Seq<u8>, q: Seq<Seq<u8>>)
    requires
        p.len() > 0,
        q.len() >= 1,
    ensures
        join_all(p, q) == p + seq![47u8] + joined(q),
    decreases q.len(),
{
    let p1 = p + seq![47u8] + q[0];
    assert(join_path(p, q[0]) == p1);
    if q.len() > 1 {
        lemma_join_all_below(p1, q.drop_first());
        assert(p1 + seq![47u8] + joined(q.drop_first()) =~= p + seq![47u8] + joined(q));
    } else {
        assert(q.drop_first().len() == 0);
        assert(join_all(p1, q.drop_first()) == p1);
    }
}

proof fn lemma_join_all_root(q: Seq<Seq<u8>>)
    requires
        q.len() >= 1,
        q.len() >= 2 ==> q[0].len() > 0,
    ensures
        join_all(seq![], q) == joined(q),
{
    assert(join_path(seq![], q[0]) == q[0]);
    if q.len() > 1 {
        lemma_join_all_below(q[0], q.drop_first());
    } else {
        assert(q.drop_first().len() == 0);
        assert(join_all(q[0], q.drop_first()) == q[0]);
    }
}

proof fn lemma_split_joined(q: Seq<Seq<u8>>)
    requires
        q.len() >= 1,
        forall|j: int| 0 <= j < q.len() ==> lacks(#[trigger] q[j], 47),
    ensures
        split(joined(q), 47) == q,
    decreases q.len(),
{
    assert(lacks(q[0], 47));
    if q.len() == 1 {
        lemma_find(q[0], 47);
        assert(split(q[0], 47) =~= seq![q[0]]);
    } else {
        let rest = q.drop_first();
        assert forall|j: int| 0 <= j < rest.len() implies lacks(#[trigger] rest[j], 47) by {
            assert(lacks(q[j + 1], 47));
        }
        lemma_split_joined(rest);
        let s = joined(q);
        assert(s == q[0] + seq![47u8] + joined(rest));
        assert(s.take(q[0].len() as int) =~= q[0]);
        lemma_find_at(s, 47, q[0].len() as int);
        assert(s.skip(q[0].len() as int + 1) =~= joined(rest));
        assert(split(s, 47) =~= seq![q[0]] + rest);
    }
}

proof fn lemma_joined_split(s: Seq<u8>)
    ensures
        joined(split(s, 47)) == s,
    decreases s.len(),
{
    lemma_find(s, 47);
    match find(s, 47) {
        None => {},
        Some(i) => {
            let rest = s.skip(i + 1);
            lemma_joined_split(rest);
            lemma_split_lacks(rest, 47);
            let ps = split(s, 47);
            assert(ps == seq![s.take(i)] + split(rest, 47));
            assert(split(rest, 47).len() >= 1) by {
                lemma_find(rest, 47);
            }
            assert(ps.drop_first() =~= split(rest, 47));
            assert(s =~= s.take(i) + seq![47u8] + rest);
        },
    }
}

/// Splitting at `/` tells paths apart.
proof fn lemma_split_injective(a: Seq<u8>, b: Seq<u8>)
    requires
        split(a, 47) == split(b, 47),
    ensures
        a == b,
{
    lemma_joined_split(a);
    lemma_joined_split(b);
}

// ---------------------------------------------------------------------------
// The files a walk finds, against what the tree files
// ---------------------------------------------------------------------------

/// A path that a directory whose names read back files something under
/// has at least one component, none holding `/`, and at the root no empty
/// first component before others.
proof fn lemma_lookup_clean(t: TreeNode, q: Seq<Seq<u8>>, top: bool)
    requires
        names_ok(t, top),
        lookup(t, q) is Some,
    ensures
        q.len() >= 1,
        forall|j: int| 0 <= j < q.len() ==> lacks(#[trigger] q[j], 47),
        top && q.len() >= 2 ==> q[0].len() > 0,
    decreases q.len(),
{
    if q.len() == 1 {
        assert(t.blobs.contents().contains_key(q[0]));
    } else {
        let ds = t.dirs@;
        let i = dir_pos(ds, q[0])->Some_0;
        assert(0 <= i < ds.len() && ds[i].name@ == q[0]);
        assert(name_ok(ds[i].name@));
        lemma_lookup_clean(ds[i].node, q.drop_first(), false);
        assert forall|j: int| 0 <= j < q.len() implies lacks(#[trigger] q[j], 47) by {
            if j > 0 {
                assert(q[j] == q.drop_first()[j - 1]);
            }
        }
    }
}

/// Each file a walk finds under `p` is filed in the tree under components
/// that, joined onto `p`, give its path.
proof fn lemma_file_source(p: Seq<u8>, t: TreeNode, j: int) -> (q: Seq<Seq<u8>>)
    requires
        tree_wf(t),
        0 <= j < node_files(p, t).len(),
    ensures
        lookup(t, q) == Some(node_files(p, t)[j].1),
        node_files(p, t)[j].0 == join_all(p, q),
    decreases t, 1int,
{
    assert(decreases_to!(t => t.dirs));
    vstd::std_specs::vec::axiom_vec_decreases_to_view(t.dirs);
    let ps = t.blobs.pairs();
    let ds = t.dirs@;
    let bf = blob_files(p, ps);
    if j < bf.len() {
        assert(node_files(p, t)[j] == bf[j]);
        lemma_pairs_map_at(ps, j);
        let q = seq![ps[j].0];
        assert(q.drop_first().len() == 0);
        assert(join_all(join_path(p, ps[j].0), q.drop_first()) == join_path(p, ps[j].0));
        q
    } else {
        assert(node_files(p, t)[j] == dir_files(p, ds)[j - bf.len()]);
        assert forall|i: int| 0 <= i < ds.len() implies tree_wf(#[trigger] ds[i].node) by {
            assert(ds[i] == t.dirs@[i]);
        }
        let (i, q1) = lemma_dir_file_source(p, ds, j - bf.len());
        lemma_dir_pos_at(ds, i);
        let q = seq![ds[i].name@] + q1;
        assert(q[0] == ds[i].name@);
        assert(q.drop_first() =~= q1);
        q
    }
}

proof fn lemma_dir_file_source(p: Seq<u8>, ds: Seq<TreeDir>, j: int) -> (r: (int, Seq<Seq<u8>>))
    requires
        forall|i: int| 0 <= i < ds.len() ==> tree_wf(#[trigger] ds[i].node),
        0 <= j < dir_files(p, ds).len(),
    ensures
        0 <= r.0 < ds.len(),
        r.1.len() >= 1,
        lookup(ds[r.0].node, r.1) == Some(dir_files(p, ds)[j].1),
        dir_files(p, ds)[j].0 == join_all(join_path(p, ds[r.0].name@), r.1),
    decreases ds, 0int,
{
    assert(decreases_to!(ds => ds[0]));
    let nf = node_files(join_path(p, ds[0].name@), ds[0].node);
    let rest = ds.drop_first();
    if j < nf.len() {
        assert(tree_wf(ds[0].node));
        let q = lemma_file_source(join_path(p, ds[0].name@), ds[0].node, j);
        assert(dir_files(p, ds)[j] == nf[j]);
        (0, q)
    } else {
        assert forall|i: int| 0 <= i < rest.len() implies tree_wf(#[trigger] rest[i].node) by {
            assert(rest[i] == ds[i + 1]);
            assert(tree_wf(ds[i + 1].node));
        }
        let (i, q) = lemma_dir_file_source(p, rest, j - nf.len());
        assert(dir_files(p, ds)[j] == dir_files(p, rest)[j - nf.len()]);
        assert(rest[i] == ds[i + 1]);
        (i + 1, q)
    }
}

/// Every file the tree files is found by a walk, at its path joined onto
/// `p`.
proof fn lemma_file_found(p: Seq<u8>, t: TreeNode, q: Seq<Seq<u8>>) -> (j: int)
    requires
        tree_wf(t),
        lookup(t, q) is Some,
    ensures
        0 <= j < node_files(p, t).len(),
        node_files(p, t)[j] == (join_all(p, q), lookup(t, q)->Some_0),
    decreases t, 1int,
{
    assert(decreases_to!(t => t.dirs));
    vstd::std_specs::vec::axiom_vec_decreases_to_view(t.dirs);
    let ps = t.blobs.pairs();
    let ds = t.dirs@;
    let bf = blob_files(p, ps);
    if q.len() == 1 {
        assert(pairs_map(ps).contains_key(q[0]));
        let i = choose|i: int| 0 <= i < ps.len() && #[trigger] ps[i].0 == q[0];
        lemma_pairs_map_at(ps, i);
        assert(q.drop_first().len() == 0);
        assert(join_all(join_path(p, q[0]), q.drop_first()) == join_path(p, q[0]));
        assert(node_files(p, t)[i] == bf[i]);
        i
    } else {
        let i = dir_pos(ds, q[0])->Some_0;
        assert(0 <= i < ds.len() && ds[i].name@ == q[0]);
        assert forall|k: int| 0 <= k < ds.len() implies tree_wf(#[trigger] ds[k].node) by {
            assert(ds[k] == t.dirs@[k]);
        }
        let j1 = lemma_dir_file_found(p, ds, i, q.drop_first());
        assert(node_files(p, t)[bf.len() + j1] == dir_files(p, ds)[j1]);
        bf.len() + j1
    }
}

proof fn lemma_dir_file_found(p: Seq<u8>, ds: Seq<TreeDir>, i: int, q: Seq<Seq<u8>>) -> (j: int)
    requires
        forall|k: int| 0 <= k < ds.len() ==> tree_wf(#[trigger] ds[k].node),
        0 <= i < ds.len(),
        lookup(ds[i].node, q) is Some,
    ensures
        0 <= j < dir_files(p, ds).len(),
        dir_files(p, ds)[j] == (join_all(join_path(p, ds[i].name@), q), lookup(ds[i].node, q)->Some_0),
    decreases ds, 0int,
{
    assert(decreases_to!(ds => ds[0]));
    let nf = node_files(join_path(p, ds[0].name@), ds[0].node);
    let rest = ds.drop_first();
    if i == 0 {
        assert(tree_wf(ds[0].node));
        let j = lemma_file_found(join_path(p, ds[0].name@), ds[0].node, q);
        assert(dir_files(p, ds)[j] == nf[j]);
        j
    } else {
        assert forall|k: int| 0 <= k < rest.len() implies tree_wf(#[trigger] rest[k].node) by {
            assert(rest[k] == ds[k + 1]);
            assert(tree_wf(ds[k + 1].node));
        }
        assert(rest[i - 1] == ds[i]);
        let j1 = lemma_dir_file_found(p, rest, i - 1, q);
        assert(dir_files(p, ds)[nf.len() + j1] == dir_files(p, rest)[j1]);
        nf.len() + j1
    }
}

proof fn lemma_insert_all_source(s: Seq<(Seq<u8>, Seq<u8>)>, k: Seq<u8>) -> (j: int)
    requires
        insert_all(Map::empty(), s).contains_key(k),
    ensures
        0 <= j < s.len(),
        s[j].0 == k,
        insert_all(Map::empty(), s)[k] == s[j].1,
    decreases s.len(),
{
    if s.last().0 == k {
        s.len() - 1
    } else {
        let j = lemma_insert_all_source(s.drop_last(), k);
        assert(s[j] == s.drop_last()[j]);
        j
    }
}

proof fn lemma_insert_all_has(s: Seq<(Seq<u8>, Seq<u8>)>, j: int)
    requires
        0 <= j < s.len(),
    ensures
        insert_all(Map::empty(), s).contains_key(s[j].0),
    decreases s.len(),
{
    if j < s.len() - 1 {
        lemma_insert_all_has(s.drop_last(), j);
        assert(s[j] == s.drop_last()[j]);
    }
}

/// What the index files under a path, read as components, is what its map
/// holds for that path.
proof fn lemma_entries_lookup_map(es: Seq<(Seq<u8>, Seq<u8>)>, k: Seq<u8>)
    ensures
        entries_lookup(es, split(k, 47)) == if index_map(es).contains_key(k) {
            Some(index_map(es)[k])
        } else {
            None
        },
    decreases es.len(),
{
    if es.len() > 0 {
        lemma_entries_lookup_map(es.drop_last(), k);
        if split(es.last().0, 47) == split(k, 47) {
            lemma_split_injective(es.last().0, k);
        }
    }
}

/// Checking out a commit restores the index it was made from. Take index
/// entries `es` and a tree `t` as `write_tree_from_index` writes for them:
/// well formed, filing what the entries file, and with names that read
/// back (which it guarantees when the entries pass `entries_ok`). When the
/// store holds every tree object written, walking from the root tree's id
/// (a fresh `TreeWalk`, each subtree it asks for read from the store and
/// entered) finds exactly the index's files, each with its blob id.
pub proof fn lemma_checkout_restores_index(
    es: Seq<(Seq<u8>, Seq<u8>)>,
    t: TreeNode,
    store: Map<Seq<u8>, Seq<u8>>,
)
    requires
        tree_wf(t),
        names_ok(t, true),
        forall|q: Seq<Seq<u8>>| #[trigger] lookup(t, q) == entries_lookup(es, q),
        holds_objects(store, tree_objects(t)),
    ensures
        walk_tree(tree_oid(t), store, tree_count(t)) == Some(index_map(es)),
{
    lemma_walk_written_tree(t, store);
    let nf = node_files(seq![], t);
    let found = insert_all(Map::empty(), nf);
    let want = index_map(es);
    assert forall|k: Seq<u8>| #[trigger] found.dom().contains(k) implies want.dom().contains(k)
        && want[k] == found[k] by {
        let j = lemma_insert_all_source(nf, k);
        let q = lemma_file_source(seq![], t, j);
        lemma_lookup_clean(t, q, true);
        lemma_join_all_root(q);
        lemma_split_joined(q);
        assert(split(k, 47) == q);
        lemma_entries_lookup_map(es, k);
        assert(lookup(t, q) == entries_lookup(es, q));
    }
    assert forall|k: Seq<u8>| #[trigger] want.dom().contains(k) implies found.dom().contains(k) by {
        let q = split(k, 47);
        lemma_entries_lookup_map(es, k);
        assert(lookup(t, q) == entries_lookup(es, q));
        lemma_lookup_clean(t, q, true);
        lemma_join_all_root(q);
        lemma_joined_split(k);
        let j = lemma_file_found(seq![], t, q);
        assert(nf[j].0 == k);
        lemma_insert_all_has(nf, j);
    }
    assert(found.dom() =~= want.dom());
    assert(found =~= want);
}

// ---------------------------------------------------------------------------
// The trees of an index depend only on its files
// ---------------------------------------------------------------------------

proof fn lemma_dirs_written_same(d1: Seq<TreeDir>, d2: Seq<TreeDir>)
    requires
        d1.len() == d2.len(),
        forall|i: int|
            0 <= i < d1.len() ==> {
                &&& (#[trigger] d1[i]).name@ == d2[i].name@
                &&& tree_oid(d1[i].node) == tree_oid(d2[i].node)
                &&& tree_objects(d1[i].node) == tree_objects(d2[i].node)
            },
    ensures
        dir_lines(d1) == dir_lines(d2),
        dir_objects(d1) == dir_objects(d2),
    decreases d1.len(),
{
    if d1.len() > 0 {
        assert(d1[0].name@ == d2[0].name@);
        let r1 = d1.drop_first();
        let r2 = d2.drop_first();
        assert forall|i: int| 0 <= i < r1.len() implies {
            &&& (#[trigger] r1[i]).name@ == r2[i].name@
            &&& tree_oid(r1[i].node) == tree_oid(r2[i].node)
            &&& tree_objects(r1[i].node) == tree_objects(r2[i].node)
        } by {
            assert(r1[i] == d1[i + 1]);
            assert(r2[i] == d2[i + 1]);
        }
        lemma_dirs_written_same(r1, r2);
    }
}

/// Two well-formed trees without empty directories that file the same
/// blobs under the same paths are written as the same tree objects.
pub proof fn lemma_same_files_same_tree(t1: TreeNode, t2: TreeNode)
    requires
        tree_wf(t1),
        tree_wf(t2),
        dirs_filled(t1),
        dirs_filled(t2),
        forall|q: Seq<Seq<u8>>| #[trigger] lookup(t1, q) == lookup(t2, q),
    ensures
        tree_text(t1) == tree_text(t2),
        tree_oid(t1) == tree_oid(t2),
        tree_objects(t1) == tree_objects(t2),
    decreases t1,
{
    assert(decreases_to!(t1 => t1.dirs));
    vstd::std_specs::vec::axiom_vec_decreases_to_view(t1.dirs);
    // the files: same keys in ascending order, same blobs
    let p1 = t1.blobs.pairs();
    let p2 = t2.blobs.pairs();
    let k1 = p1.map_values(|e: (Seq<u8>, Seq<u8>)| e.0);
    let k2 = p2.map_values(|e: (Seq<u8>, Seq<u8>)| e.0);
    assert forall|a: int, b: int| 0 <= a < b < k1.len() implies lex_lt(#[trigger] k1[a], #[trigger] k1[b]) by {
        assert(lex_lt(p1[a].0, p1[b].0));
    }
    assert forall|a: int, b: int| 0 <= a < b < k2.len() implies lex_lt(#[trigger] k2[a], #[trigger] k2[b]) by {
        assert(lex_lt(p2[a].0, p2[b].0));
    }
    assert forall|x: Seq<u8>| k1.contains(x) <==> k2.contains(x) by {
        if k1.contains(x) {
            let i = choose|i: int| 0 <= i < k1.len() && k1[i] == x;
            lemma_pairs_map_at(p1, i);
            assert(lookup(t1, seq![x]) is Some);
            assert(lookup(t2, seq![x]) is Some);
            assert(pairs_map(p2).contains_key(x));
            let j = choose|j: int| 0 <= j < p2.len() && #[trigger] p2[j].0 == x;
            assert(k2[j] == x);
        }
        if k2.contains(x) {
            let i = choose|i: int| 0 <= i < k2.len() && k2[i] == x;
            lemma_pairs_map_at(p2, i);
            assert(lookup(t2, seq![x]) is Some);
            assert(lookup(t1, seq![x]) is Some);
            assert(pairs_map(p1).contains_key(x));
            let j = choose|j: int| 0 <= j < p1.len() && #[trigger] p1[j].0 == x;
            assert(k1[j] == x);
        }
    }
    lemma_ascending_unique(k1, k2);
    assert forall|i: int| 0 <= i < p1.len() implies p1[i] == p2[i] by {
        assert(k1[i] == k2[i]);
        lemma_pairs_map_at(p1, i);
        lemma_pairs_map_at(p2, i);
        assert(lookup(t1, seq![p1[i].0]) == lookup(t2, seq![p2[i].0]));
    }
    assert(p1 =~= p2);
    // the subdirectories: same names in ascending order, same contents
    let d1 = t1.dirs@;
    let d2 = t2.dirs@;
    let n1 = d1.map_values(|d: TreeDir| d.name@);
    let n2 = d2.map_values(|d: TreeDir| d.name@);
    assert forall|a: int, b: int| 0 <= a < b < n1.len() implies lex_lt(#[trigger] n1[a], #[trigger] n1[b]) by {
        assert(lex_lt(d1[a].name@, d1[b].name@));
    }
    assert forall|a: int, b: int| 0 <= a < b < n2.len() implies lex_lt(#[trigger] n2[a], #[trigger] n2[b]) by {
        assert(lex_lt(d2[a].name@, d2[b].name@));
    }
    assert forall|x: Seq<u8>| n1.contains(x) <==> n2.contains(x) by {
        if n1.contains(x) {
            let i = choose|i: int| 0 <= i < n1.len() && n1[i] == x;
            lemma_named_dir_files(t1, t2, i);
        }
        if n2.contains(x) {
            let i = choose|i: int| 0 <= i < n2.len() && n2[i] == x;
            lemma_named_dir_files(t2, t1, i);
        }
    }
    lemma_ascending_unique(n1, n2);
    assert forall|i: int| 0 <= i < d1.len() implies {
        &&& (#[trigger] d1[i]).name@ == d2[i].name@
        &&& tree_oid(d1[i].node) == tree_oid(d2[i].node)
        &&& tree_objects(d1[i].node) == tree_objects(d2[i].node)
    } by {
        assert(n1[i] == n2[i]);
        let c1 = d1[i].node;
        let c2 = d2[i].node;
        lemma_dir_pos_at(d1, i);
        lemma_dir_pos_at(d2, i);
        assert forall|q: Seq<Seq<u8>>| #[trigger] lookup(c1, q) == lookup(c2, q) by {
            if q.len() > 0 {
                let qq = seq![d1[i].name@] + q;
                assert(qq[0] == d1[i].name@);
                assert(qq.drop_first() =~= q);
                assert(lookup(t1, qq) == lookup(t2, qq));
            }
        }
        assert(tree_wf(c1));
        assert(tree_wf(t2.dirs@[i].node));
        assert(d1[i] == t1.dirs@[i]);
        assert(d2[i] == t2.dirs@[i]);
        lemma_same_files_same_tree(c1, c2);
    }
    lemma_dirs_written_same(d1, d2);
}

/// A named subdirectory of `t1` files something, so `t2`, filing the same,
/// has a subdirectory of that name too.
proof fn lemma_named_dir_files(t1: TreeNode, t2: TreeNode, i: int)
    requires
        tree_wf(t1),
        dirs_filled(t1),
        forall|q: Seq<Seq<u8>>| #[trigger] lookup(t1, q) == lookup(t2, q),
        0 <= i < t1.dirs@.len(),
    ensures
        t2.dirs@.map_values(|d: TreeDir| d.name@).contains(t1.dirs@[i].name@),
{
    let d1 = t1.dirs@;
    let x = d1[i].name@;
    assert(d1[i] == t1.dirs@[i]);
    let q = choose|q: Seq<Seq<u8>>| #[trigger] lookup(d1[i].node, q) is Some;
    assert(q.len() > 0);
    lemma_dir_pos_at(d1, i);
    let qq = seq![x] + q;
    assert(qq[0] == x);
    assert(qq.drop_first() =~= q);
    assert(lookup(t1, qq) is Some);
    assert(lookup(t2, qq) is Some);
    let j = dir_pos(t2.dirs@, x)->Some_0;
    assert(t2.dirs@[j].name@ == x);
    assert(t2.dirs@.map_values(|d: TreeDir| d.name@)[j] == x);
}

proof fn lemma_entries_lookup_source(es: Seq<(Seq<u8>, Seq<u8>)>, q: Seq<Seq<u8>>) -> (i: int)
    requires
        entries_lookup(es, q) is Some,
    ensures
        0 <= i < es.len(),
        split(es[i].0, 47) == q,
    decreases es.len(),
{
    if split(es.last().0, 47) == q {
        es.len() - 1
    } else {
        let i = lemma_entries_lookup_source(es.drop_last(), q);
        assert(es[i] == es.drop_last()[i]);
        i
    }
}

/// Indexes with the same files file the same blob under every path.
proof fn lemma_entries_lookup_same(
    es1: Seq<(Seq<u8>, Seq<u8>)>,
    es2: Seq<(Seq<u8>, Seq<u8>)>,
    q: Seq<Seq<u8>>,
)
    requires
        index_map(es1) == index_map(es2),
    ensures
        entries_lookup(es1, q) == entries_lookup(es2, q),
{
    let k = joined(q);
    lemma_entries_lookup_map(es1, k);
    lemma_entries_lookup_map(es2, k);
    if split(k, 47) != q {
        if entries_lookup(es1, q) is Some {
            let i = lemma_entries_lookup_source(es1, q);
            lemma_joined_split(es1[i].0);
        }
        if entries_lookup(es2, q) is Some {
            let i = lemma_entries_lookup_source(es2, q);
            lemma_joined_split(es2[i].0);
        }
    }
}

/// The trees written for an index depend only on which blob each path
/// has: two indexes that file the same blobs under the same paths (in any
/// order, whatever entries were replaced) get, from `write_tree_from_index`,
/// the same root tree id and the same tree objects.
pub proof fn lemma_tree_depends_on_files(
    es1: Seq<(Seq<u8>, Seq<u8>)>,
    es2: Seq<(Seq<u8>, Seq<u8>)>,
    t1: TreeNode,
    t2: TreeNode,
)
    requires
        index_map(es1) == index_map(es2),
        tree_wf(t1),
        dirs_filled(t1),
        forall|q: Seq<Seq<u8>>| #[trigger] lookup(t1, q) == entries_lookup(es1, q),
        tree_wf(t2),
        dirs_filled(t2),
        forall|q: Seq<Seq<u8>>| #[trigger] lookup(t2, q) == entries_lookup(es2, q),
    ensures
        tree_oid(t1) == tree_oid(t2),
        tree_objects(t1) == tree_objects(t2),
{
    assert forall|q: Seq<Seq<u8>>| #[trigger] lookup(t1, q) == lookup(t2, q) by {
        lemma_entries_lookup_same(es1, es2, q);
    }
    lemma_same_files_same_tree(t1, t2);
}

/// An index with unique paths, its entries taken in any other order, gets
/// from `write_tree_from_index` the same root tree id and the same tree
/// objects.
pub proof fn lemma_permuted_index_same_tree(
    es1: Seq<(Seq<u8>, Seq<u8>)>,
    es2: Seq<(Seq<u8>, Seq<u8>)>,
    t1: TreeNode,
    t2: TreeNode,
)
    requires
        unique_paths(es1),
        es1.to_multiset() == es2.to_multiset(),
        tree_wf(t1),
        dirs_filled(t1),
        forall|q: Seq<Seq<u8>>| #[trigger] lookup(t1, q) == entries_lookup(es1, q),
        tree_wf(t2),
        dirs_filled(t2),
        forall|q: Seq<Seq<u8>>| #[trigger] lookup(t2, q) == entries_lookup(es2, q),
    ensures
        tree_oid(t1) == tree_oid(t2),
        tree_objects(t1) == tree_objects(t2),
{
    lemma_permuted_index_map(es1, es2);
    lemma_tree_depends_on_files(es1, es2, t1, t2);
}

/// Checking out a commit restores the index it was made from, stated on
/// the index as the program sees it: paths that are UTF-8 without line
/// feeds or carriage returns and do not begin with `/`, blob ids that are
/// UTF-8 without spaces or line feeds. Such entries pass `entries_ok`, so
/// the tree `write_tree_from_index` writes for them has names that read
/// back, and walking its stored trees finds exactly the index's files.
pub proof fn lemma_checkout_restores_plain_index(
    es: Seq<(Seq<u8>, Seq<u8>)>,
    t: TreeNode,
    store: Map<Seq<u8>, Seq<u8>>,
)
    requires
        forall|i: int|
            0 <= i < es.len() ==> {
                &&& valid_utf8(#[trigger] es[i].0)
                &&& lacks(es[i].0, 10)
                &&& lacks(es[i].0, 13)
                &&& !(es[i].0.len() > 0 && es[i].0[0] == 47)
                &&& id_ok(es[i].1)
            },
        tree_wf(t),
        entries_ok(es) ==> names_ok(t, true),
        forall|q: Seq<Seq<u8>>| #[trigger] lookup(t, q) == entries_lookup(es, q),
        holds_objects(store, tree_objects(t)),
    ensures
        entries_ok(es),
        walk_tree(tree_oid(t), store, tree_count(t)) == Some(index_map(es)),
{
    assert forall|i: int| 0 <= i < es.len() implies crate::tree::path_ok(#[trigger] es[i].0) && id_ok(
        es[i].1,
    ) by {
        lemma_plain_path_ok(es[i].0);
    }
    lemma_checkout_restores_index(es, t, store);
}

} // verus!
