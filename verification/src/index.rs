use vstd::prelude::*;
use vstd::utf8::valid_utf8;
use crate::error::VikError;
use crate::order::{
    bytes_le, insert_by_key, lemma_insert_at, lemma_sort_sorted, lemma_sort_sorted_id, lex_le,
    lex_lt, sort_by_key, sorted_by_key,
};
use crate::text::{
    bytes_eq, is_utf8, lacks, lemma_find_at, lines, push_all, slice_to_vec, split_lines,
    split_once, split_once_bytes, strip_cr, trim, trim_bytes, views,
};

verus! {

/// One staged file: its path below the repository root and the id of the
/// blob that holds its content.
pub struct IndexEntry {
    pub path: Vec<u8>,
    pub blob_id: Vec<u8>,
}

impl View for IndexEntry {
    type V = (Seq<u8>, Seq<u8>);

    open spec fn view(&self) -> (Seq<u8>, Seq<u8>) {
        (self.path@, self.blob_id@)
    }
}

/// The views of a sequence of index entries.
pub open spec fn entries_view(v: Seq<IndexEntry>) -> Seq<(Seq<u8>, Seq<u8>)> {
    v.map_values(|e: IndexEntry| e@)
}

impl IndexEntry {
    /// A copy of this entry.
    pub fn duplicate(&self) -> (r: IndexEntry)
        ensures
            r@ == self@,
    {
        IndexEntry {
            path: slice_to_vec(self.path.as_slice(), 0, self.path.len()),
            blob_id: slice_to_vec(self.blob_id.as_slice(), 0, self.blob_id.len()),
        }
    }
}

/// Sorts entries by path, keeping the order of entries with equal paths.
pub fn sort_entries(entries: &Vec<IndexEntry>) -> (r: Vec<IndexEntry>)
    ensures
        entries_view(r@) == sort_by_key(entries_view(entries@)),
{
    let mut out: Vec<IndexEntry> = Vec::new();
    let mut i: usize = 0;
    while i < entries.len()
        invariant
            i <= entries@.len(),
            entries_view(out@) == sort_by_key(entries_view(entries@).take(i as int)),
        decreases entries@.len() - i,
    {
        let e = entries[i].duplicate();
        let mut j: usize = out.len();
        loop
            invariant
                j <= out@.len(),
                forall|k: int| j <= k < out@.len() ==> !lex_le(#[trigger] out@[k].path@, e.path@),
            ensures
                j <= out@.len(),
                forall|k: int| j <= k < out@.len() ==> !lex_le(#[trigger] out@[k].path@, e.path@),
                j == 0 || lex_le(out@[j - 1].path@, e.path@),
            decreases j,
        {
            if j == 0 {
                break;
            }
            if bytes_le(out[j - 1].path.as_slice(), e.path.as_slice()) {
                break;
            }
            j = j - 1;
        }
        let ghost t = entries_view(out@);
        proof {
            lemma_insert_at(t, e@, j as int);
        }
        out.insert(j, e);
        assert(entries_view(out@) =~= t.insert(j as int, entries@[i as int]@));
        assert(entries_view(entries@).take(i + 1).drop_last() =~= entries_view(entries@).take(
            i as int,
        ));
        i = i + 1;
    }
    assert(entries_view(entries@).take(i as int) =~= entries_view(entries@));
    out
}

/// How the lines of the index file become entries: lines that are blank
/// after trimming are skipped, every other line is split at its first tab
/// into path and blob id, and a line without a tab refuses the file.
pub open spec fn parse_index_lines(ls: Seq<Seq<u8>>) -> Result<Seq<(Seq<u8>, Seq<u8>)>, VikError>
    decreases ls.len(),
{
    if ls.len() == 0 {
        Ok(seq![])
    } else {
        let rest = parse_index_lines(ls.drop_first());
        if trim(ls[0]).len() == 0 {
            rest
        } else {
            match split_once(ls[0], 9) {
                None => Err(VikError::InvalidIndexEntry),
                Some((path, blob)) => match rest {
                    Ok(r) => Ok(seq![(path, blob)] + r),
                    Err(e) => Err(e),
                },
            }
        }
    }
}

/// How the index file is read: it must be UTF-8; its entries come sorted
/// by path.
pub open spec fn load_index_spec(content: Seq<u8>) -> Result<Seq<(Seq<u8>, Seq<u8>)>, VikError> {
    if !valid_utf8(content) {
        Err(VikError::NotUtf8)
    } else {
        match parse_index_lines(lines(content)) {
            Ok(es) => Ok(sort_by_key(es)),
            Err(e) => Err(e),
        }
    }
}

spec fn prepend(
    acc: Seq<(Seq<u8>, Seq<u8>)>,
    r: Result<Seq<(Seq<u8>, Seq<u8>)>, VikError>,
) -> Result<Seq<(Seq<u8>, Seq<u8>)>, VikError> {
    match r {
        Ok(x) => Ok(acc + x),
        Err(e) => Err(e),
    }
}

/// Reads the content of the index file.
pub fn load_index(content: &[u8]) -> (r: Result<Vec<IndexEntry>, VikError>)
    ensures
        match load_index_spec(content@) {
            Ok(es) => r matches Ok(v) && entries_view(v@) == es,
            Err(e) => r matches Err(x) && x == e,
        },
{
    if !is_utf8(content) {
        return Err(VikError::NotUtf8);
    }
    let ls = split_lines(content);
    let ghost all = lines(content@);
    let mut out: Vec<IndexEntry> = Vec::new();
    let mut i: usize = 0;
    assert(views(ls@).skip(0) =~= views(ls@));
    while i < ls.len()
        invariant
            i <= ls@.len(),
            views(ls@) == all,
            all == lines(content@),
            valid_utf8(content@),
            parse_index_lines(all) == prepend(
                entries_view(out@),
                parse_index_lines(all.skip(i as int)),
            ),
        decreases ls@.len() - i,
    {
        let line = &ls[i];
        assert(all[i as int] == line@);
        assert(all.skip(i as int).drop_first() =~= all.skip(i + 1));
        assert(all.skip(i as int)[0] == line@);
        let t = trim_bytes(line.as_slice());
        if t.len() == 0 {
        } else {
            match split_once_bytes(line.as_slice(), 9) {
                None => {
                    return Err(VikError::InvalidIndexEntry);
                },
                Some((path, blob_id)) => {
                    let ghost before = entries_view(out@);
                    out.push(IndexEntry { path, blob_id });
                    assert(entries_view(out@) =~= before + seq![(path@, blob_id@)]);
                    proof {
                        let rest = parse_index_lines(all.skip(i + 1));
                        match rest {
                            Ok(x) => {
                                assert(before + (seq![(path@, blob_id@)] + x) =~= (before
                                    + seq![(path@, blob_id@)]) + x);
                            },
                            Err(_) => {},
                        }
                    }
                },
            }
        }
        i = i + 1;
    }
    assert(all.skip(i as int) =~= Seq::<Seq<u8>>::empty());
    assert(entries_view(out@) + Seq::<(Seq<u8>, Seq<u8>)>::empty() =~= entries_view(out@));
    Ok(sort_entries(&out))
}

/// The line that stands for one entry in the index file.
pub open spec fn index_line(e: (Seq<u8>, Seq<u8>)) -> Seq<u8> {
    e.0 + seq![9u8] + e.1 + seq![10u8]
}

/// The index file for a sequence of entries, in that order.
pub open spec fn render_index(s: Seq<(Seq<u8>, Seq<u8>)>) -> Seq<u8>
    decreases s.len(),
{
    if s.len() == 0 {
        seq![]
    } else {
        index_line(s[0]) + render_index(s.drop_first())
    }
}

/// Writes the content of the index file: the entries sorted by path, one
/// per line, path and blob id separated by a tab.
pub fn save_index(entries: &Vec<IndexEntry>) -> (r: Vec<u8>)
    ensures
        r@ == render_index(sort_by_key(entries_view(entries@))),
{
    let sorted = sort_entries(entries);
    let ghost s = entries_view(sorted@);
    let mut out: Vec<u8> = Vec::new();
    let mut i: usize = 0;
    assert(s.skip(0) =~= s);
    while i < sorted.len()
        invariant
            i <= sorted@.len(),
            s == entries_view(sorted@),
            out@ + render_index(s.skip(i as int)) == render_index(s),
        decreases sorted@.len() - i,
    {
        let ghost before = out@;
        push_all(&mut out, sorted[i].path.as_slice());
        out.push(9);
        push_all(&mut out, sorted[i].blob_id.as_slice());
        out.push(10);
        assert(out@ =~= before + index_line(s[i as int]));
        assert(s.skip(i as int).drop_first() =~= s.skip(i + 1));
        assert(before + render_index(s.skip(i as int)) =~= out@ + render_index(s.skip(i + 1)));
        i = i + 1;
    }
    assert(s.skip(i as int) =~= Seq::<(Seq<u8>, Seq<u8>)>::empty());
    assert(out@ + Seq::<u8>::empty() =~= out@);
    out
}

/// `i` is the first position in `s` whose path is `p`.
pub open spec fn first_path_at(s: Seq<(Seq<u8>, Seq<u8>)>, p: Seq<u8>, i: int) -> bool {
    0 <= i < s.len() && s[i].0 == p && forall|k: int| 0 <= k < i ==> #[trigger] s[k].0 != p
}

/// The first position in `s` whose path is `p`, if any.
pub open spec fn find_path(s: Seq<(Seq<u8>, Seq<u8>)>, p: Seq<u8>) -> Option<int> {
    if forall|i: int| 0 <= i < s.len() ==> #[trigger] s[i].0 != p {
        None
    } else {
        Some(choose|i: int| first_path_at(s, p, i))
    }
}

proof fn lemma_first_path_exists(s: Seq<(Seq<u8>, Seq<u8>)>, p: Seq<u8>, k: int)
    requires
        0 <= k < s.len(),
        s[k].0 == p,
    ensures
        exists|i: int| first_path_at(s, p, i),
    decreases k,
{
    if forall|j: int| 0 <= j < k ==> #[trigger] s[j].0 != p {
        assert(first_path_at(s, p, k));
    } else {
        let j = choose|j: int| 0 <= j < k && #[trigger] s[j].0 == p;
        lemma_first_path_exists(s, p, j);
    }
}

/// What `find_path` gives is the first position with that path.
pub proof fn lemma_find_path(s: Seq<(Seq<u8>, Seq<u8>)>, p: Seq<u8>)
    ensures
        match find_path(s, p) {
            Some(i) => first_path_at(s, p, i),
            None => forall|i: int| 0 <= i < s.len() ==> #[trigger] s[i].0 != p,
        },
{
    if !(forall|i: int| 0 <= i < s.len() ==> #[trigger] s[i].0 != p) {
        let k = choose|k: int| 0 <= k < s.len() && #[trigger] s[k].0 == p;
        lemma_first_path_exists(s, p, k);
    }
}

proof fn lemma_find_path_at(s: Seq<(Seq<u8>, Seq<u8>)>, p: Seq<u8>, i: int)
    requires
        first_path_at(s, p, i),
    ensures
        find_path(s, p) == Some(i),
{
    assert(s[i].0 == p);
    let w = choose|w: int| first_path_at(s, p, w);
    assert(first_path_at(s, p, w));
    if w < i {
        assert(s[w].0 != p);
    }
    if i < w {
        assert(s[i].0 != p);
    }
}

/// The entries after staging `e`: it takes the place of the first entry
/// with the same path, or comes last when no entry has that path.
pub open spec fn upsert_spec(s: Seq<(Seq<u8>, Seq<u8>)>, e: (Seq<u8>, Seq<u8>)) -> Seq<(Seq<u8>, Seq<u8>)> {
    match find_path(s, e.0) {
        Some(i) => s.update(i, e),
        None => s.push(e),
    }
}

/// Stages `next`: it takes the place of the first entry with the same
/// path, or comes last when no entry has that path.
pub fn upsert_index_entry(entries: &mut Vec<IndexEntry>, next: IndexEntry)
    ensures
        entries_view(final(entries)@) == upsert_spec(entries_view(old(entries)@), next@),
{
    let ghost s = entries_view(entries@);
    let mut i: usize = 0;
    let mut found = false;
    while i < entries.len()
        invariant_except_break
            !found,
        invariant
            i <= entries@.len(),
            s == entries_view(entries@),
            forall|k: int| 0 <= k < i ==> #[trigger] s[k].0 != next@.0,
        ensures
            i <= entries@.len(),
            s == entries_view(entries@),
            forall|k: int| 0 <= k < i ==> #[trigger] s[k].0 != next@.0,
            found ==> i < entries@.len() && s[i as int].0 == next@.0,
            !found ==> i == entries@.len(),
        decreases entries@.len() - i,
    {
        if bytes_eq(entries[i].path.as_slice(), next.path.as_slice()) {
            found = true;
            break;
        }
        i = i + 1;
    }
    if found {
        proof {
            lemma_find_path_at(s, next@.0, i as int);
        }
        entries.set(i, next);
        assert(entries_view(entries@) =~= s.update(i as int, next@));
    } else {
        entries.push(next);
        assert(entries_view(entries@) =~= s.push(next@));
    }
}

/// No two entries share a path.
pub open spec fn unique_paths(s: Seq<(Seq<u8>, Seq<u8>)>) -> bool {
    forall|i: int, j: int| 0 <= i < j < s.len() ==> #[trigger] s[i].0 != #[trigger] s[j].0
}

/// The entries as a map from path to blob id; of entries with the same
/// path, the later one counts (as when they are collected into a map).
pub open spec fn index_map(s: Seq<(Seq<u8>, Seq<u8>)>) -> Map<Seq<u8>, Seq<u8>>
    decreases s.len(),
{
    if s.len() == 0 {
        Map::empty()
    } else {
        index_map(s.drop_last()).insert(s.last().0, s.last().1)
    }
}

proof fn lemma_index_map_update(s: Seq<(Seq<u8>, Seq<u8>)>, i: int, e: (Seq<u8>, Seq<u8>))
    requires
        unique_paths(s),
        0 <= i < s.len(),
        s[i].0 == e.0,
    ensures
        index_map(s.update(i, e)) == index_map(s).insert(e.0, e.1),
    decreases s.len(),
{
    let t = s.update(i, e);
    if i == s.len() - 1 {
        assert(t.drop_last() =~= s.drop_last());
        assert(index_map(t) =~= index_map(s).insert(e.0, e.1));
    } else {
        let d = s.drop_last();
        assert(unique_paths(d));
        lemma_index_map_update(d, i, e);
        assert(t.drop_last() =~= d.update(i, e));
        assert(s.last().0 != e.0) by {
            assert(s[i].0 != s[s.len() - 1].0);
        }
        assert(index_map(t) =~= index_map(s).insert(e.0, e.1));
    }
}

proof fn lemma_index_map_keys(s: Seq<(Seq<u8>, Seq<u8>)>, p: Seq<u8>)
    ensures
        index_map(s).contains_key(p) <==> exists|i: int| 0 <= i < s.len() && #[trigger] s[i].0 == p,
    decreases s.len(),
{
    if s.len() > 0 {
        lemma_index_map_keys(s.drop_last(), p);
        if index_map(s).contains_key(p) && p != s.last().0 {
            let i = choose|i: int| 0 <= i < s.drop_last().len() && #[trigger] s.drop_last()[i].0 == p;
            assert(s[i].0 == p);
        }
        if exists|i: int| 0 <= i < s.len() && #[trigger] s[i].0 == p {
            let i = choose|i: int| 0 <= i < s.len() && #[trigger] s[i].0 == p;
            if i < s.len() - 1 {
                assert(s.drop_last()[i].0 == p);
            }
        }
    }
}

proof fn lemma_index_map_source(s: Seq<(Seq<u8>, Seq<u8>)>, k: Seq<u8>) -> (j: int)
    requires
        index_map(s).contains_key(k),
    ensures
        0 <= j < s.len(),
        s[j].0 == k,
        index_map(s)[k] == s[j].1,
    decreases s.len(),
{
    if s.last().0 == k {
        s.len() - 1
    } else {
        let j = lemma_index_map_source(s.drop_last(), k);
        assert(s[j] == s.drop_last()[j]);
        j
    }
}

/// Entries with unique paths, taken in any other order, make the same map
/// from path to blob id.
pub proof fn lemma_permuted_index_map(s1: Seq<(Seq<u8>, Seq<u8>)>, s2: Seq<(Seq<u8>, Seq<u8>)>)
    requires
        unique_paths(s1),
        s1.to_multiset() == s2.to_multiset(),
    ensures
        index_map(s1) == index_map(s2),
{
    let m1 = index_map(s1);
    let m2 = index_map(s2);
    assert forall|k: Seq<u8>| #[trigger] m1.dom().contains(k) <==> m2.dom().contains(k) by {
        lemma_index_map_keys(s1, k);
        lemma_index_map_keys(s2, k);
        if m1.contains_key(k) {
            let i = choose|i: int| 0 <= i < s1.len() && #[trigger] s1[i].0 == k;
            assert(s1.contains(s1[i]));
            vstd::seq_lib::to_multiset_contains(s1, s1[i]);
            vstd::seq_lib::to_multiset_contains(s2, s1[i]);
            let j = choose|j: int| 0 <= j < s2.len() && s2[j] == s1[i];
            assert(s2[j].0 == k);
        }
        if m2.contains_key(k) {
            let j = choose|j: int| 0 <= j < s2.len() && #[trigger] s2[j].0 == k;
            assert(s2.contains(s2[j]));
            vstd::seq_lib::to_multiset_contains(s2, s2[j]);
            vstd::seq_lib::to_multiset_contains(s1, s2[j]);
            let i = choose|i: int| 0 <= i < s1.len() && s1[i] == s2[j];
            assert(s1[i].0 == k);
        }
    }
    assert forall|k: Seq<u8>| #[trigger] m2.dom().contains(k) implies m1[k] == m2[k] by {
        lemma_index_map_keys(s1, k);
        let j = lemma_index_map_source(s2, k);
        assert(s2.contains(s2[j]));
        vstd::seq_lib::to_multiset_contains(s2, s2[j]);
        vstd::seq_lib::to_multiset_contains(s1, s2[j]);
        let i = choose|i: int| 0 <= i < s1.len() && s1[i] == s2[j];
        let i2 = lemma_index_map_source(s1, k);
        if i != i2 {
            if i < i2 {
                assert(s1[i].0 != s1[i2].0);
            } else {
                assert(s1[i2].0 != s1[i].0);
            }
        }
    }
    assert(m1 =~= m2);
}

/// Staging keeps paths unique, and on the index read as a map from path to
/// blob id it is the insertion of the new entry.
pub proof fn lemma_upsert_map(s: Seq<(Seq<u8>, Seq<u8>)>, e: (Seq<u8>, Seq<u8>))
    requires
        unique_paths(s),
    ensures
        unique_paths(upsert_spec(s, e)),
        index_map(upsert_spec(s, e)) == index_map(s).insert(e.0, e.1),
{
    lemma_find_path(s, e.0);
    match find_path(s, e.0) {
        Some(i) => {
            lemma_index_map_update(s, i, e);
            let t = s.update(i, e);
            assert forall|a: int, b: int| 0 <= a < b < t.len() implies #[trigger] t[a].0 != #[trigger] t[b].0 by {
                if a != i && b != i {
                    assert(s[a].0 != s[b].0);
                } else if a == i {
                    assert(s[i].0 != s[b].0);
                } else {
                    assert(s[a].0 != s[i].0);
                }
            }
        },
        None => {
            let t = s.push(e);
            assert(index_map(t) =~= index_map(s).insert(e.0, e.1)) by {
                assert(t.drop_last() =~= s);
            }
            assert forall|a: int, b: int| 0 <= a < b < t.len() implies #[trigger] t[a].0 != #[trigger] t[b].0 by {
                if b == s.len() {
                    assert(s[a].0 != e.0);
                } else {
                    assert(s[a].0 != s[b].0);
                }
            }
        },
    }
}

/// The text of an entry's line, without the line end.
pub open spec fn entry_text(e: (Seq<u8>, Seq<u8>)) -> Seq<u8> {
    e.0 + seq![9u8] + e.1
}

/// An entry that its line in the index file gives back unchanged: UTF-8
/// throughout, no tab or line feed in the path, no line feed in the blob
/// id and no carriage return at its end, and not blank as a whole.
pub open spec fn entry_survives(e: (Seq<u8>, Seq<u8>)) -> bool {
    &&& valid_utf8(e.0)
    &&& valid_utf8(e.1)
    &&& lacks(e.0, 9)
    &&& lacks(e.0, 10)
    &&& lacks(e.1, 10)
    &&& !(e.1.len() > 0 && e.1.last() == 13)
    &&& trim(entry_text(e)).len() > 0
}

proof fn lemma_render_lines(s: Seq<(Seq<u8>, Seq<u8>)>)
    requires
        forall|i: int| 0 <= i < s.len() ==> entry_survives(#[trigger] s[i]),
    ensures
        valid_utf8(render_index(s)),
        parse_index_lines(lines(render_index(s))) == Ok::<Seq<(Seq<u8>, Seq<u8>)>, VikError>(s),
    decreases s.len(),
{
    if s.len() == 0 {
        assert(render_index(s) =~= Seq::<u8>::empty());
        assert(lines(render_index(s)) =~= Seq::<Seq<u8>>::empty());
        assert(valid_utf8(Seq::<u8>::empty()));
        assert(s =~= Seq::<(Seq<u8>, Seq<u8>)>::empty());
    } else {
        let e = s[0];
        assert(entry_survives(e));
        let rest = s.drop_first();
        assert forall|i: int| 0 <= i < rest.len() implies entry_survives(#[trigger] rest[i]) by {
            assert(rest[i] == s[i + 1]);
        }
        lemma_render_lines(rest);
        let r = render_index(rest);
        let t = entry_text(e);
        let all = render_index(s);
        assert(all =~= t + seq![10u8] + r);
        // the line is UTF-8
        crate::text::lemma_ascii_utf8(seq![9u8]);
        crate::text::lemma_ascii_utf8(seq![10u8]);
        vstd::utf8::valid_utf8_concat(e.0, seq![9u8]);
        vstd::utf8::valid_utf8_concat(e.0 + seq![9u8], e.1);
        vstd::utf8::valid_utf8_concat(t, seq![10u8]);
        vstd::utf8::valid_utf8_concat(t + seq![10u8], r);
        // its first line is the entry's text
        assert forall|i: int| 0 <= i < t.len() implies t[i] != 10 by {
            if i < e.0.len() {
                assert(t[i] == e.0[i]);
            } else if i > e.0.len() {
                assert(t[i] == e.1[i - e.0.len() - 1]);
            }
        }
        assert(all.take(t.len() as int) =~= t);
        lemma_find_at(all, 10, t.len() as int);
        assert(all.skip(t.len() as int + 1) =~= r);
        assert(strip_cr(t) == t) by {
            if e.1.len() > 0 {
                assert(t.last() == e.1.last());
            }
        }
        let ls = lines(all);
        assert(ls == seq![t] + lines(r));
        assert(ls[0] == t);
        assert(ls.drop_first() =~= lines(r));
        // and it splits at its tab
        assert(t.take(e.0.len() as int) =~= e.0);
        lemma_find_at(t, 9, e.0.len() as int);
        assert(t.skip(e.0.len() as int + 1) =~= e.1);
        assert(split_once(t, 9) == Some((e.0, e.1)));
        assert(trim(ls[0]).len() > 0);
        assert(parse_index_lines(ls.drop_first()) == Ok::<Seq<(Seq<u8>, Seq<u8>)>, VikError>(rest));
        assert(seq![(e.0, e.1)] + rest =~= s);
        assert(parse_index_lines(ls) == Ok::<Seq<(Seq<u8>, Seq<u8>)>, VikError>(s));
    }
}

/// Reading back the index file that `save_index` wrote gives the entries
/// sorted by path, whenever each entry survives its line.
pub proof fn lemma_index_roundtrip(es: Seq<(Seq<u8>, Seq<u8>)>)
    requires
        forall|i: int| 0 <= i < es.len() ==> entry_survives(#[trigger] es[i]),
    ensures
        load_index_spec(render_index(sort_by_key(es))) == Ok::<
            Seq<(Seq<u8>, Seq<u8>)>,
            VikError,
        >(sort_by_key(es)),
{
    broadcast use vstd::seq_lib::group_to_multiset_ensures;
    let s = sort_by_key(es);
    lemma_sort_sorted(es);
    assert forall|i: int| 0 <= i < s.len() implies entry_survives(#[trigger] s[i]) by {
        assert(s.to_multiset().count(s[i]) > 0);
        assert(es.to_multiset().count(s[i]) > 0);
        assert(es.contains(s[i]));
    }
    lemma_render_lines(s);
    lemma_sort_sorted_id(s);
}

/// Every element comes strictly before the next in byte-wise order.
pub open spec fn strictly_sorted(s: Seq<Seq<u8>>) -> bool {
    forall|i: int, j: int| 0 <= i < j < s.len() ==> lex_lt(#[trigger] s[i], #[trigger] s[j])
}

/// The staged paths, each once, in byte-wise order, read from the content
/// of the index file.
pub fn tracked_paths(index_content: &[u8]) -> (r: Result<Vec<Vec<u8>>, VikError>)
    ensures
        match load_index_spec(index_content@) {
            Ok(es) => r matches Ok(ps) && strictly_sorted(views(ps@)) && forall|p: Seq<u8>|
                views(ps@).contains(p) <==> exists|i: int| 0 <= i < es.len() && #[trigger] es[i].0 == p,
            Err(e) => r matches Err(x) && x == e,
        },
{
    let entries = match load_index(index_content) {
        Ok(v) => v,
        Err(e) => return Err(e),
    };
    let ghost es = entries_view(entries@);
    proof {
        if let Ok(x) = parse_index_lines(lines(index_content@)) {
            lemma_sort_sorted(x);
        }
    }
    assert(sorted_by_key(es));
    let mut out: Vec<Vec<u8>> = Vec::new();
    let mut i: usize = 0;
    while i < entries.len()
        invariant
            i <= entries@.len(),
            es == entries_view(entries@),
            sorted_by_key(es),
            strictly_sorted(views(out@)),
            i > 0 ==> out@.len() > 0 && views(out@).last() == es[i - 1].0,
            i == 0 ==> out@.len() == 0,
            forall|p: Seq<u8>|
                views(out@).contains(p) <==> exists|k: int| 0 <= k < i && #[trigger] es[k].0 == p,
        decreases entries@.len() - i,
    {
        let path = &entries[i].path;
        assert(es[i as int].0 == path@);
        let ghost before = views(out@);
        let fresh = if out.len() == 0 {
            true
        } else {
            let last = out.len() - 1;
            !bytes_eq(out[last].as_slice(), path.as_slice())
        };
        if fresh {
            let c = slice_to_vec(path.as_slice(), 0, path.len());
            assert(c@ =~= path@);
            out.push(c);
            assert(views(out@) =~= before.push(path@));
            proof {
                if i > 0 {
                    assert(lex_le(es[i - 1].0, es[i as int].0));
                    assert forall|a: int, b: int| 0 <= a < b < views(out@).len() implies lex_lt(
                        #[trigger] views(out@)[a],
                        #[trigger] views(out@)[b],
                    ) by {
                        if b == before.len() {
                            let x = before[a];
                            if a < before.len() - 1 {
                                assert(lex_lt(x, before.last()));
                                crate::order::lemma_lex_trans(x, before.last(), path@);
                                if x == path@ {
                                    crate::order::lemma_lex_antisym(x, before.last());
                                }
                            }
                        } else {
                            assert(lex_lt(before[a], before[b]));
                        }
                    }
                }
            }
        } else {
            assert(views(out@).last() == path@);
        }
        assert forall|p: Seq<u8>|
            views(out@).contains(p) <==> exists|k: int| 0 <= k < i + 1 && #[trigger] es[k].0 == p by {
            if views(out@).contains(p) && p != path@ {
                let j = choose|j: int| 0 <= j < views(out@).len() && views(out@)[j] == p;
                assert(before.contains(p)) by {
                    assert(before[j] == p);
                }
            }
            if exists|k: int| 0 <= k < i + 1 && #[trigger] es[k].0 == p {
                if p == path@ {
                    assert(views(out@)[views(out@).len() - 1] == p);
                } else {
                    let k = choose|k: int| 0 <= k < i + 1 && #[trigger] es[k].0 == p;
                    assert(k < i);
                    assert(before.contains(p));
                    let j = choose|j: int| 0 <= j < before.len() && before[j] == p;
                    assert(views(out@)[j] == p);
                }
            }
        }
        i = i + 1;
    }
    Ok(out)
}

} // verus!
