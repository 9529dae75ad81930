use vstd::prelude::*;
use crate::error::VikError;
use crate::index::{entries_view, index_map, strictly_sorted, IndexEntry};
use crate::object::{hash_object, object_bytes, object_id, parse_object, parse_object_spec};
use crate::order::{lemma_lex_trans, lex_lt};
use crate::pathmap::{keys_ascending, lemma_pairs_map_at, pairs_map, PathMap};
use crate::text::{bytes_eq, slice_to_vec, views};
use crate::tree::blob_kind;

verus! {

/// The index as an ordered map from path to blob id; of entries with the
/// same path the later one counts.
pub fn index_files(entries: &Vec<IndexEntry>) -> (r: PathMap)
    ensures
        r.wf(),
        r.contents() == index_map(entries_view(entries@)),
{
    let ghost es = entries_view(entries@);
    let mut m = PathMap::new();
    let mut i: usize = 0;
    assert(es.take(0) =~= Seq::<(Seq<u8>, Seq<u8>)>::empty());
    assert(index_map(es.take(0)) =~= Map::<Seq<u8>, Seq<u8>>::empty());
    while i < entries.len()
        invariant
            i <= entries@.len(),
            es == entries_view(entries@),
            m.wf(),
            m.contents() == index_map(es.take(i as int)),
        decreases entries@.len() - i,
    {
        let e = &entries[i];
        assert(es[i as int] == e@);
        let k = slice_to_vec(e.path.as_slice(), 0, e.path.len());
        let v = slice_to_vec(e.blob_id.as_slice(), 0, e.blob_id.len());
        assert(k@ =~= e.path@);
        assert(v@ =~= e.blob_id@);
        m.insert(k, v);
        assert(es.take(i + 1).drop_last() =~= es.take(i as int));
        i = i + 1;
    }
    assert(es.take(i as int) =~= es);
    m
}

/// A path is staged when the index files it (the later entry counting)
/// with a blob other than the one the head commit holds there, or the head
/// commit does not hold it.
pub open spec fn is_staged(
    es: Seq<(Seq<u8>, Seq<u8>)>,
    head: Map<Seq<u8>, Seq<u8>>,
    p: Seq<u8>,
) -> bool {
    let m = index_map(es);
    &&& m.contains_key(p)
    &&& !(head.contains_key(p) && head[p] == m[p])
}

/// The paths staged for the next commit, each once, in byte-wise order.
pub fn staged_paths(index: &Vec<IndexEntry>, head: &PathMap) -> (r: Vec<Vec<u8>>)
    requires
        head.wf(),
    ensures
        strictly_sorted(views(r@)),
        forall|p: Seq<u8>|
            #[trigger] views(r@).contains(p) <==> is_staged(entries_view(index@), head.contents(), p),
        forall|p: Seq<u8>|
            #[trigger] views(r@).contains(p) <==> {
                &&& index_map(entries_view(index@)).contains_key(p)
                &&& !(head.contents().contains_key(p) && head.contents()[p] == index_map(
                    entries_view(index@),
                )[p])
            },
{
    let files = index_files(index);
    let ghost ps = files.pairs();
    let ghost m = files.contents();
    let mut out: Vec<Vec<u8>> = Vec::new();
    let mut i: usize = 0;
    while i < files.len()
        invariant
            i <= ps.len(),
            ps == files.pairs(),
            m == files.contents(),
            m == pairs_map(ps),
            keys_ascending(ps),
            head.wf(),
            strictly_sorted(views(out@)),
            forall|k: int|
                0 <= k < views(out@).len() ==> exists|j: int| 0 <= j < i && #[trigger] ps[j].0 == #[trigger] views(out@)[k],
            forall|p: Seq<u8>|
                #[trigger] views(out@).contains(p) <==> exists|j: int|
                    0 <= j < i && #[trigger] ps[j].0 == p && !(head.contents().contains_key(p)
                        && head.contents()[p] == ps[j].1),
        decreases ps.len() - i,
    {
        let key = files.key_at(i);
        let value = files.value_at(i);
        let keep = match head.get(key.as_slice()) {
            Some(h) => !bytes_eq(h.as_slice(), value.as_slice()),
            None => true,
        };
        let ghost before = views(out@);
        if keep {
            let c = slice_to_vec(key.as_slice(), 0, key.len());
            assert(c@ =~= key@);
            out.push(c);
            assert(views(out@) =~= before.push(key@));
            assert forall|a: int, b: int| 0 <= a < b < views(out@).len() implies lex_lt(
                #[trigger] views(out@)[a],
                #[trigger] views(out@)[b],
            ) by {
                if b == before.len() {
                    let j = choose|j: int| 0 <= j < i && #[trigger] ps[j].0 == before[a];
                    assert(lex_lt(ps[j].0, ps[i as int].0));
                } else {
                    assert(lex_lt(before[a], before[b]));
                }
            }
            assert forall|k: int| 0 <= k < views(out@).len() implies exists|j: int|
                0 <= j < i + 1 && #[trigger] ps[j].0 == #[trigger] views(out@)[k] by {
                if k == before.len() {
                    assert(ps[i as int].0 == views(out@)[k]);
                } else {
                    let j = choose|j: int| 0 <= j < i && #[trigger] ps[j].0 == before[k];
                    assert(ps[j].0 == views(out@)[k]);
                }
            }
        }
        assert forall|p: Seq<u8>|
            #[trigger] views(out@).contains(p) <==> exists|j: int|
                0 <= j < i + 1 && #[trigger] ps[j].0 == p && !(head.contents().contains_key(p)
                    && head.contents()[p] == ps[j].1) by {
            if views(out@).contains(p) {
                if p == key@ && keep {
                    assert(ps[i as int].0 == p);
                } else {
                    let w = choose|w: int| 0 <= w < views(out@).len() && views(out@)[w] == p;
                    if w < before.len() {
                        assert(before[w] == p);
                        assert(before.contains(p));
                    } else {
                        assert(p == key@);
                    }
                }
            }
            if exists|j: int| 0 <= j < i + 1 && #[trigger] ps[j].0 == p && !(head.contents().contains_key(p)
                && head.contents()[p] == ps[j].1) {
                let j = choose|j: int| 0 <= j < i + 1 && #[trigger] ps[j].0 == p && !(head.contents().contains_key(p)
                    && head.contents()[p] == ps[j].1);
                if j == i {
                    assert(keep);
                    assert(views(out@)[views(out@).len() - 1] == p);
                } else {
                    assert(before.contains(p));
                    let w = choose|w: int| 0 <= w < before.len() && before[w] == p;
                    assert(views(out@)[w] == p);
                }
            }
        }
        i = i + 1;
    }
    assert forall|p: Seq<u8>|
        #[trigger] views(out@).contains(p) <==> (m.contains_key(p) && !(head.contents().contains_key(p)
            && head.contents()[p] == m[p])) by {
        if views(out@).contains(p) {
            let j = choose|j: int| 0 <= j < i && #[trigger] ps[j].0 == p && !(head.contents().contains_key(p)
                && head.contents()[p] == ps[j].1);
            lemma_pairs_map_at(ps, j);
        }
        if m.contains_key(p) && !(head.contents().contains_key(p) && head.contents()[p] == m[p]) {
            let j = choose|j: int| 0 <= j < ps.len() && #[trigger] ps[j].0 == p;
            lemma_pairs_map_at(ps, j);
        }
    }
    out
}

/// Whether the content `data` of a staged file no longer matches the blob
/// id staged for it.
pub fn is_modified(blob_id: &[u8], data: &[u8]) -> (r: bool)
    ensures
        r == (object_id(object_bytes(blob_kind(), data@)) != blob_id@),
{
    let kind: Vec<u8> = vec![98u8, 108, 111, 98];
    let bytes = crate::object::encode_object_bytes(kind.as_slice(), data);
    let oid = crate::hash::sha256_hex(bytes.as_slice());
    !bytes_eq(oid.as_slice(), blob_id)
}

/// The index entries that stand for a map of files, in path order.
pub fn index_from_files(files: &PathMap) -> (r: Vec<IndexEntry>)
    ensures
        entries_view(r@) == files.pairs(),
{
    let mut out: Vec<IndexEntry> = Vec::new();
    let mut i: usize = 0;
    while i < files.len()
        invariant
            i <= files.pairs().len(),
            entries_view(out@) == files.pairs().take(i as int),
        decreases files.pairs().len() - i,
    {
        let k = files.key_at(i);
        let v = files.value_at(i);
        let e = IndexEntry {
            path: slice_to_vec(k.as_slice(), 0, k.len()),
            blob_id: slice_to_vec(v.as_slice(), 0, v.len()),
        };
        assert(e.path@ =~= k@);
        assert(e.blob_id@ =~= v@);
        let ghost before = entries_view(out@);
        out.push(e);
        assert(entries_view(out@) =~= before.push(e@));
        assert(files.pairs().take(i + 1) =~= files.pairs().take(i as int).push(files.pairs()[i as int]));
        i = i + 1;
    }
    assert(files.pairs().take(i as int) =~= files.pairs());
    out
}

/// When the head commit holds exactly the index's files, as right after a
/// commit or a checkout, nothing is staged.
pub proof fn lemma_nothing_staged(es: Seq<(Seq<u8>, Seq<u8>)>, head: Map<Seq<u8>, Seq<u8>>)
    requires
        head == index_map(es),
    ensures
        forall|p: Seq<u8>| !#[trigger] is_staged(es, head, p),
{
}

/// How a stored object is read as a file's content: it must be a blob.
pub open spec fn blob_content_spec(object: Seq<u8>) -> Result<Seq<u8>, VikError> {
    match parse_object_spec(object) {
        Err(e) => Err(e),
        Ok((kind, content)) => if kind == blob_kind() {
            Ok(content)
        } else {
            Err(VikError::NotABlob)
        },
    }
}

/// A stored blob gives back the content it was written with.
pub proof fn lemma_blob_roundtrip(data: Seq<u8>)
    requires
        data.len() <= usize::MAX,
    ensures
        blob_content_spec(object_bytes(blob_kind(), data)) == Ok::<Seq<u8>, VikError>(data),
{
    crate::text::lemma_ascii_utf8(blob_kind());
    crate::object::lemma_object_roundtrip(blob_kind(), data);
}

/// The content of a stored blob.
pub fn blob_content(object: &[u8]) -> (r: Result<Vec<u8>, VikError>)
    ensures
        match blob_content_spec(object@) {
            Ok(c) => r matches Ok(v) && v@ == c,
            Err(e) => r matches Err(x) && x == e,
        },
{
    let parsed = match parse_object(object) {
        Ok(p) => p,
        Err(e) => return Err(e),
    };
    let kind: Vec<u8> = vec![98u8, 108, 111, 98];
    if !bytes_eq(parsed.kind.as_slice(), kind.as_slice()) {
        return Err(VikError::NotABlob);
    }
    Ok(parsed.content)
}

} // verus!
