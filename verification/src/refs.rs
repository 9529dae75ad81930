use vstd::prelude::*;
use vstd::utf8::{valid_utf8, valid_utf8_concat};
use crate::error::VikError;
use crate::index::{entries_view, sort_entries, IndexEntry};
use crate::order::{lemma_multiset_map, lemma_sort_sorted, lex_le, sort_by_key};
use crate::text::{
    all_ascii, bytes_eq, find_byte, is_utf8, lacks, lemma_ascii_utf8, lemma_strip_prefix_concat,
    lemma_trim_newline, opt_view, push_all, slice_to_vec, starts_with, strip_prefix,
    strip_prefix_bytes, trim, trim_bytes, trim_end, trim_start, views, ws_prefix_len,
    ws_suffix_len,
};

verus! {

/// `ref: `.
pub open spec fn ref_tag() -> Seq<u8> {
    seq![114u8, 101, 102, 58, 32]
}

/// `refs/heads/`.
pub open spec fn heads_prefix() -> Seq<u8> {
    seq![114u8, 101, 102, 115, 47, 104, 101, 97, 100, 115, 47]
}

/// How HEAD is read: it must be UTF-8, and once trimmed it must start with
/// `ref: `; what follows is the ref it points to.
pub open spec fn head_target_spec(head: Seq<u8>) -> Result<Seq<u8>, VikError> {
    if !valid_utf8(head) {
        Err(VikError::NotUtf8)
    } else {
        match strip_prefix(trim(head), ref_tag()) {
            Some(t) => Ok(t),
            None => Err(VikError::HeadNotSymbolic),
        }
    }
}

/// Reads the content of HEAD: the ref it points to.
pub fn read_head_target(head: &[u8]) -> (r: Result<Vec<u8>, VikError>)
    ensures
        match head_target_spec(head@) {
            Ok(t) => r matches Ok(v) && v@ == t,
            Err(e) => r matches Err(x) && x == e,
        },
{
    if !is_utf8(head) {
        return Err(VikError::NotUtf8);
    }
    let t = trim_bytes(head);
    let tag: Vec<u8> = vec![114u8, 101, 102, 58, 32];
    match strip_prefix_bytes(t.as_slice(), tag.as_slice()) {
        Some(v) => Ok(v),
        None => Err(VikError::HeadNotSymbolic),
    }
}

/// Reads the content of a ref file, if the file exists: it must be UTF-8,
/// and its value is the trimmed content.
pub fn read_ref(content: Option<&[u8]>) -> (r: Result<Option<Vec<u8>>, VikError>)
    ensures
        match content {
            None => r matches Ok(o) && o is None,
            Some(c) => if valid_utf8(c@) {
                r matches Ok(o) && opt_view(o) == Some(trim(c@))
            } else {
                r matches Err(e) && e == VikError::NotUtf8
            },
        },
{
    match content {
        None => Ok(None),
        Some(c) => {
            if !is_utf8(c) {
                return Err(VikError::NotUtf8);
            }
            Ok(Some(trim_bytes(c)))
        },
    }
}

/// The content written to a ref file: the trimmed id and a line feed.
pub fn write_ref(oid: &[u8]) -> (r: Vec<u8>)
    ensures
        r@ == trim(oid@) + seq![10u8],
{
    let mut out = trim_bytes(oid);
    out.push(10);
    out
}

/// The ref of a branch: `refs/heads/` and its name.
pub fn branch_ref(name: &[u8]) -> (r: Vec<u8>)
    ensures
        r@ == heads_prefix() + name@,
{
    let mut out: Vec<u8> = vec![114u8, 101, 102, 115, 47, 104, 101, 97, 100, 115, 47];
    push_all(&mut out, name);
    out
}

/// The content of HEAD pointing at `target`: `ref: `, the ref and a line
/// feed.
pub fn head_content(target: &[u8]) -> (r: Vec<u8>)
    ensures
        r@ == ref_tag() + target@ + seq![10u8],
{
    let mut out: Vec<u8> = vec![114u8, 101, 102, 58, 32];
    push_all(&mut out, target);
    out.push(10);
    out
}

/// A branch name may hold neither `/` nor a space.
pub fn check_branch_name(name: &[u8]) -> (r: Result<(), VikError>)
    ensures
        (lacks(name@, 47) && lacks(name@, 32)) <==> r is Ok,
        r is Err ==> r == Err::<(), VikError>(VikError::InvalidBranchName),
{
    if find_byte(name, 47).is_some() || find_byte(name, 32).is_some() {
        return Err(VikError::InvalidBranchName);
    }
    Ok(())
}

/// The name of the current branch: the HEAD target without `refs/heads/`
/// (or the whole target when it has no such prefix).
pub open spec fn current_branch(head_target: Seq<u8>) -> Seq<u8> {
    match strip_prefix(head_target, heads_prefix()) {
        Some(n) => n,
        None => head_target,
    }
}

/// Names sorted in byte-wise order.
pub open spec fn sorted_names(names: Seq<Seq<u8>>) -> Seq<Seq<u8>> {
    sort_by_key(names.map_values(|n: Seq<u8>| (n, Seq::<u8>::empty()))).map_values(
        |p: (Seq<u8>, Seq<u8>)| p.0,
    )
}

/// The line listing a branch: `* ` before the current one, two spaces
/// before the others.
pub open spec fn branch_line(name: Seq<u8>, current: Seq<u8>) -> Seq<u8> {
    if name == current {
        seq![42u8, 32] + name
    } else {
        seq![32u8, 32] + name
    }
}

/// The branch list: every name in byte-wise order, the current one marked.
pub fn branch_listing(names: &Vec<Vec<u8>>, head_target: &[u8]) -> (r: Vec<Vec<u8>>)
    ensures
        views(r@) == sorted_names(views(names@)).map_values(
            |n: Seq<u8>| branch_line(n, current_branch(head_target@)),
        ),
        r@.len() == names@.len(),
        forall|i: int|
            #![trigger views(r@)[i]]
            0 <= i < r@.len() ==> views(r@)[i].len() >= 2 && views(r@)[i].take(2) == if views(
                r@,
            )[i].skip(2) == current_branch(head_target@) {
                seq![42u8, 32]
            } else {
                seq![32u8, 32]
            },
        forall|i: int, j: int|
            0 <= i < j < r@.len() ==> lex_le(
                #[trigger] views(r@)[i].skip(2),
                #[trigger] views(r@)[j].skip(2),
            ),
        views(r@).map_values(|l: Seq<u8>| l.skip(2)).to_multiset() == views(names@).to_multiset(),
{
    let prefix: Vec<u8> = vec![114u8, 101, 102, 115, 47, 104, 101, 97, 100, 115, 47];
    let current = match strip_prefix_bytes(head_target, prefix.as_slice()) {
        Some(n) => n,
        None => slice_to_vec(head_target, 0, head_target.len()),
    };
    assert(current@ == current_branch(head_target@));
    let mut es: Vec<IndexEntry> = Vec::new();
    let mut i: usize = 0;
    while i < names.len()
        invariant
            i <= names@.len(),
            entries_view(es@) == views(names@).take(i as int).map_values(
                |n: Seq<u8>| (n, Seq::<u8>::empty()),
            ),
        decreases names@.len() - i,
    {
        let n = &names[i];
        let e = IndexEntry { path: slice_to_vec(n.as_slice(), 0, n.len()), blob_id: Vec::new() };
        assert(e.path@ =~= n@);
        let ghost before = entries_view(es@);
        es.push(e);
        assert(entries_view(es@) =~= before.push(e@));
        assert(views(names@).take(i + 1).map_values(|n: Seq<u8>| (n, Seq::<u8>::empty()))
            =~= before.push((n@, Seq::<u8>::empty())));
        i = i + 1;
    }
    assert(views(names@).take(i as int) =~= views(names@));
    let sorted = sort_entries(&es);
    let ghost ss = entries_view(sorted@);
    let mut out: Vec<Vec<u8>> = Vec::new();
    let mut k: usize = 0;
    while k < sorted.len()
        invariant
            k <= sorted@.len(),
            ss == entries_view(sorted@),
            current@ == current_branch(head_target@),
            views(out@) == ss.take(k as int).map_values(|p: (Seq<u8>, Seq<u8>)| p.0).map_values(
                |n: Seq<u8>| branch_line(n, current_branch(head_target@)),
            ),
        decreases sorted@.len() - k,
    {
        let n = &sorted[k].path;
        assert(ss[k as int].0 == n@);
        let mut line: Vec<u8> = if bytes_eq(n.as_slice(), current.as_slice()) {
            vec![42u8, 32]
        } else {
            vec![32u8, 32]
        };
        push_all(&mut line, n.as_slice());
        let ghost before = views(out@);
        out.push(line);
        assert(views(out@) =~= before.push(line@));
        assert(ss.take(k + 1).map_values(|p: (Seq<u8>, Seq<u8>)| p.0).map_values(
            |n: Seq<u8>| branch_line(n, current_branch(head_target@)),
        ) =~= before.push(branch_line(n@, current_branch(head_target@))));
        k = k + 1;
    }
    assert(ss.take(k as int) =~= ss);
    proof {
        let cur = current_branch(head_target@);
        let ps = views(names@).map_values(|n: Seq<u8>| (n, Seq::<u8>::empty()));
        let srt = sort_by_key(ps);
        let l = sorted_names(views(names@));
        lemma_sort_sorted(ps);
        assert(l =~= srt.map_values(|p: (Seq<u8>, Seq<u8>)| p.0));
        let v = views(out@);
        assert forall|i: int| 0 <= i < v.len() implies #[trigger] v[i].skip(2) == l[i] && v[i].len()
            >= 2 && v[i].take(2) == if l[i] == cur {
            seq![42u8, 32]
        } else {
            seq![32u8, 32]
        } by {
            assert(v[i] == branch_line(l[i], cur));
            if l[i] == cur {
                assert(v[i].skip(2) =~= l[i]);
                assert(v[i].take(2) =~= seq![42u8, 32]);
            } else {
                assert(v[i].skip(2) =~= l[i]);
                assert(v[i].take(2) =~= seq![32u8, 32]);
            }
        }
        assert forall|i: int, j: int| 0 <= i < j < v.len() implies lex_le(
            #[trigger] v[i].skip(2),
            #[trigger] v[j].skip(2),
        ) by {
            assert(lex_le(srt[i].0, srt[j].0));
        }
        lemma_multiset_map(srt, ps, |p: (Seq<u8>, Seq<u8>)| p.0);
        assert(ps.map_values(|p: (Seq<u8>, Seq<u8>)| p.0) =~= views(names@));
        assert(v.map_values(|x: Seq<u8>| x.skip(2)) =~= l);
    }
    out
}

/// Of the directories tried from the start upwards (`has_repo[i]` tells
/// whether the `i`-th holds a repository), the first that does; when none
/// does, the search is refused.
pub fn find_repo_root(has_repo: &[bool]) -> (r: Result<usize, VikError>)
    ensures
        match r {
            Ok(i) => i < has_repo@.len() && has_repo@[i as int] && forall|k: int|
                0 <= k < i ==> !has_repo@[k],
            Err(e) => e == VikError::NotInRepository && forall|k: int|
                0 <= k < has_repo@.len() ==> !has_repo@[k],
        },
{
    let mut i: usize = 0;
    while i < has_repo.len()
        invariant
            i <= has_repo@.len(),
            forall|k: int| 0 <= k < i ==> !has_repo@[k],
        decreases has_repo@.len() - i,
    {
        if has_repo[i] {
            return Ok(i);
        }
        i = i + 1;
    }
    Err(VikError::NotInRepository)
}

/// `path` below `root`, for canonical absolute paths: empty when they are
/// the same, else what follows `root` and a slash.
pub open spec fn strip_root(path: Seq<u8>, root: Seq<u8>) -> Option<Seq<u8>> {
    if path == root {
        Some(seq![])
    } else if root == seq![47u8] && path.len() >= 1 && path[0] == 47 {
        Some(path.skip(1))
    } else if path.len() > root.len() && path.take(root.len() as int) == root && path[root.len() as int]
        == 47 {
        Some(path.skip(root.len() as int + 1))
    } else {
        None
    }
}

/// Every backslash turned into a slash.
pub open spec fn slashes(s: Seq<u8>) -> Seq<u8> {
    s.map_values(|b: u8| if b == 92 { 47u8 } else { b })
}

/// The path of a file relative to the repository root, with slashes as
/// separators, for canonical absolute paths; a file outside the root is
/// refused.
pub fn relative_path(path: &[u8], root: &[u8]) -> (r: Result<Vec<u8>, VikError>)
    ensures
        match strip_root(path@, root@) {
            Some(rel) => r matches Ok(v) && v@ == slashes(rel),
            None => r matches Err(e) && e == VikError::PathOutsideRepository,
        },
{
    let rel = if bytes_eq(path, root) {
        Vec::new()
    } else if root.len() == 1 && root[0] == 47 && path.len() >= 1 && path[0] == 47 {
        assert(root@ =~= seq![47u8]);
        slice_to_vec(path, 1, path.len())
    } else if path.len() > root.len() && starts_with(path, root) && path[root.len()] == 47 {
        proof {
            if root@ == seq![47u8] {
                assert(path@[0] == root@[0]);
            }
        }
        slice_to_vec(path, root.len() + 1, path.len())
    } else {
        proof {
            if root@ == seq![47u8] && path@.len() >= 1 && path@[0] == 47 {
                assert(root@[0] == 47);
            }
        }
        return Err(VikError::PathOutsideRepository);
    };
    assert(path@ != root@ ==> rel@ =~= strip_root(path@, root@)->0);
    assert(path@ == root@ ==> rel@ =~= strip_root(path@, root@)->0);
    let mut out: Vec<u8> = Vec::new();
    let mut i: usize = 0;
    while i < rel.len()
        invariant
            i <= rel@.len(),
            out@ == slashes(rel@.take(i as int)),
        decreases rel@.len() - i,
    {
        let b = rel[i];
        out.push(if b == 92 { 47 } else { b });
        assert(slashes(rel@.take(i + 1)) =~= slashes(rel@.take(i as int)).push(
            if b == 92 { 47u8 } else { b },
        ));
        i = i + 1;
    }
    assert(rel@.take(i as int) =~= rel@);
    Ok(out)
}

/// What `write_ref` writes, `read_ref` reads back as the trimmed id.
pub proof fn lemma_ref_roundtrip(oid: Seq<u8>)
    requires
        valid_utf8(oid),
    ensures
        valid_utf8(trim(oid) + seq![10u8]),
        trim(trim(oid) + seq![10u8]) == trim(oid),
{
    crate::text::lemma_trim_utf8(oid);
    lemma_ascii_utf8(seq![10u8]);
    valid_utf8_concat(trim(oid), seq![10u8]);
    lemma_trim_newline(oid);
}

/// After HEAD is pointed at a branch, reading HEAD gives that branch's
/// ref, whenever the name does not end in white space.
pub proof fn lemma_head_roundtrip(name: Seq<u8>)
    requires
        valid_utf8(name),
        ws_suffix_len(heads_prefix() + name) == 0,
    ensures
        head_target_spec(ref_tag() + (heads_prefix() + name) + seq![10u8]) == Ok::<
            Seq<u8>,
            VikError,
        >(heads_prefix() + name),
{
    let x = heads_prefix() + name;
    let body = ref_tag() + x;
    let s = body + seq![10u8];
    lemma_ascii_utf8(ref_tag());
    lemma_ascii_utf8(heads_prefix());
    lemma_ascii_utf8(seq![10u8]);
    valid_utf8_concat(heads_prefix(), name);
    valid_utf8_concat(ref_tag(), x);
    valid_utf8_concat(body, seq![10u8]);
    assert(s[0] == 114);
    assert(ws_prefix_len(s) == 0);
    assert(trim_start(s) == s);
    assert(ws_suffix_len(s) == 1);
    assert(s.take(s.len() - 1) =~= body);
    assert(ws_suffix_len(body) == ws_suffix_len(x)) by {
        let n = body.len() as int;
        let m = x.len() as int;
        assert(body[n - 1] == x[m - 1]);
        assert(body[n - 2] == x[m - 2]);
        assert(body[n - 3] == x[m - 3]);
    }
    assert(trim_end(body) == body);
    assert(trim(s) == body);
    lemma_strip_prefix_concat(ref_tag(), x);
}

} // verus!
