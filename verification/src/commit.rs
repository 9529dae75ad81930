use vstd::prelude::*;
use vstd::utf8::valid_utf8;
use crate::object::{lemma_object_roundtrip, object_bytes};
use crate::error::VikError;
use crate::object::{parse_object, parse_object_spec};
use crate::text::{
    lacks, lemma_ascii_utf8, lemma_decimal_parse, lemma_lacks_concat, lemma_lines_cons, lemma_strip_prefix_concat,
    lemma_strip_prefix_differs, lemma_trim_clean, strip_cr, all_digits, ws_suffix_len,
    bytes_eq, decimal, decimal_bytes, is_utf8, lines, opt_view, push_all, slice_to_vec, split_lines,
    strip_prefix, strip_prefix_bytes, trim, trim_bytes, views,
};
use crate::tree::commit_kind;

verus! {

/// `tree `.
pub open spec fn tree_tag() -> Seq<u8> {
    seq![116u8, 114, 101, 101, 32]
}

/// `parent `.
pub open spec fn parent_tag() -> Seq<u8> {
    seq![112u8, 97, 114, 101, 110, 116, 32]
}

/// `author `.
pub open spec fn author_tag() -> Seq<u8> {
    seq![97u8, 117, 116, 104, 111, 114, 32]
}

/// `committer `.
pub open spec fn committer_tag() -> Seq<u8> {
    seq![99u8, 111, 109, 109, 105, 116, 116, 101, 114, 32]
}

/// `timestamp `.
pub open spec fn timestamp_tag() -> Seq<u8> {
    seq![116u8, 105, 109, 101, 115, 116, 97, 109, 112, 32]
}

/// `commit `.
pub open spec fn commit_tag() -> Seq<u8> {
    seq![99u8, 111, 109, 109, 105, 116, 32]
}

/// `Author: `.
pub open spec fn author_label() -> Seq<u8> {
    seq![65u8, 117, 116, 104, 111, 114, 58, 32]
}

/// `Date: `.
pub open spec fn date_label() -> Seq<u8> {
    seq![68u8, 97, 116, 101, 58, 32]
}

/// Four spaces, the indent of message lines in the log.
pub open spec fn message_indent() -> Seq<u8> {
    seq![32u8, 32, 32, 32]
}

/// The rest of the first line of `ls` that starts with `p`.
pub open spec fn first_prefixed(ls: Seq<Seq<u8>>, p: Seq<u8>) -> Option<Seq<u8>>
    decreases ls.len(),
{
    if ls.len() == 0 {
        None
    } else {
        match strip_prefix(ls[0], p) {
            Some(r) => Some(r),
            None => first_prefixed(ls.drop_first(), p),
        }
    }
}

/// How the tree of a stored commit is found: the object must be a commit
/// with UTF-8 content, and the tree is named by its first `tree ` line.
pub open spec fn commit_tree_spec(object: Seq<u8>) -> Result<Seq<u8>, VikError> {
    match parse_object_spec(object) {
        Err(e) => Err(e),
        Ok((kind, content)) => if kind != commit_kind() {
            Err(VikError::NotACommit)
        } else if !valid_utf8(content) {
            Err(VikError::NotUtf8)
        } else {
            match first_prefixed(lines(content), tree_tag()) {
                Some(t) => Ok(t),
                None => Err(VikError::CommitMissingTree),
            }
        },
    }
}

/// The id of the tree that a stored commit records.
pub fn commit_tree_id(object: &[u8]) -> (r: Result<Vec<u8>, VikError>)
    ensures
        match commit_tree_spec(object@) {
            Ok(t) => r matches Ok(v) && v@ == t,
            Err(e) => r matches Err(x) && x == e,
        },
{
    let parsed = match parse_object(object) {
        Ok(p) => p,
        Err(e) => return Err(e),
    };
    let commit_v: Vec<u8> = vec![99u8, 111, 109, 109, 105, 116];
    if !bytes_eq(parsed.kind.as_slice(), commit_v.as_slice()) {
        return Err(VikError::NotACommit);
    }
    if !is_utf8(parsed.content.as_slice()) {
        return Err(VikError::NotUtf8);
    }
    let tag: Vec<u8> = vec![116u8, 114, 101, 101, 32];
    let ls = split_lines(parsed.content.as_slice());
    let ghost all = views(ls@);
    let mut i: usize = 0;
    assert(all.skip(0) =~= all);
    assert(commit_tree_spec(object@) == match first_prefixed(all, tree_tag()) {
        Some(t) => Ok(t),
        None => Err(VikError::CommitMissingTree),
    });
    while i < ls.len()
        invariant
            i <= ls@.len(),
            all == views(ls@),
            tag@ == tree_tag(),
            commit_tree_spec(object@) == match first_prefixed(all, tree_tag()) {
                Some(t) => Ok(t),
                None => Err(VikError::CommitMissingTree),
            },
            first_prefixed(all.skip(i as int), tree_tag()) == first_prefixed(all, tree_tag()),
        decreases ls@.len() - i,
    {
        assert(all.skip(i as int)[0] == ls@[i as int]@);
        assert(all.skip(i as int).drop_first() =~= all.skip(i + 1));
        match strip_prefix_bytes(ls[i].as_slice(), tag.as_slice()) {
            Some(rest) => {
                return Ok(rest);
            },
            None => {},
        }
        i = i + 1;
    }
    assert(all.skip(i as int) =~= Seq::<Seq<u8>>::empty());
    Err(VikError::CommitMissingTree)
}

/// The `parent` line of a commit, when the parent id is not blank.
pub open spec fn parent_line(parent: Option<Seq<u8>>) -> Seq<u8> {
    match parent {
        Some(p) => if trim(p).len() > 0 {
            parent_tag() + trim(p) + seq![10u8]
        } else {
            seq![]
        },
        None => seq![],
    }
}

/// The content of a commit object: its tree, its parent if any, author
/// and committer, the time, a blank line and the message.
pub open spec fn commit_text(
    tree_id: Seq<u8>,
    parent: Option<Seq<u8>>,
    author: Seq<u8>,
    timestamp: nat,
    message: Seq<u8>,
) -> Seq<u8> {
    tree_tag() + tree_id + seq![10u8] + parent_line(parent) + author_tag() + author + seq![10u8]
        + committer_tag() + author + seq![10u8] + timestamp_tag() + decimal(timestamp) + seq![
        10u8,
        10u8,
    ] + message + seq![10u8]
}

/// Writes the content of a commit object.
pub fn commit_body(
    tree_id: &[u8],
    parent: Option<&[u8]>,
    author: &[u8],
    timestamp: u64,
    message: &[u8],
) -> (r: Vec<u8>)
    ensures
        r@ == commit_text(
            tree_id@,
            match parent {
                Some(p) => Some(p@),
                None => None,
            },
            author@,
            timestamp as nat,
            message@,
        ),
{
    let mut out: Vec<u8> = Vec::new();
    let t_tree: Vec<u8> = vec![116u8, 114, 101, 101, 32];
    let t_parent: Vec<u8> = vec![112u8, 97, 114, 101, 110, 116, 32];
    let t_author: Vec<u8> = vec![97u8, 117, 116, 104, 111, 114, 32];
    let t_committer: Vec<u8> = vec![99u8, 111, 109, 109, 105, 116, 116, 101, 114, 32];
    let t_timestamp: Vec<u8> = vec![116u8, 105, 109, 101, 115, 116, 97, 109, 112, 32];
    push_all(&mut out, t_tree.as_slice());
    push_all(&mut out, tree_id);
    out.push(10);
    let ghost a = out@;
    let ghost par = match parent {
        Some(p) => Some(p@),
        None => None,
    };
    match parent {
        Some(p) => {
            let tp = trim_bytes(p);
            if tp.len() > 0 {
                push_all(&mut out, t_parent.as_slice());
                push_all(&mut out, tp.as_slice());
                out.push(10);
            }
        },
        None => {},
    }
    assert(out@ =~= a + parent_line(par));
    push_all(&mut out, t_author.as_slice());
    push_all(&mut out, author);
    out.push(10);
    push_all(&mut out, t_committer.as_slice());
    push_all(&mut out, author);
    out.push(10);
    push_all(&mut out, t_timestamp.as_slice());
    let ts = decimal_bytes(timestamp);
    push_all(&mut out, ts.as_slice());
    out.push(10);
    out.push(10);
    push_all(&mut out, message);
    out.push(10);
    assert(out@ =~= commit_text(tree_id@, par, author@, timestamp as nat, message@));
    out
}

/// What the log shows of one commit and where it goes on.
pub struct LogEntry {
    /// The lines to print, in order.
    pub lines: Vec<Vec<u8>>,
    /// The parent to show next, if the commit names one.
    pub parent: Option<Vec<u8>>,
}

/// Reads the lines of a commit for the log: before the first blank line,
/// `author ` and `timestamp ` lines are shown as `Author: ` and `Date: `
/// and the last `parent ` line names the parent; every non-blank line from
/// the first blank line on is shown indented by four spaces. Gives the
/// lines shown and the parent.
pub open spec fn log_scan(ls: Seq<Seq<u8>>, in_message: bool, parent: Option<Seq<u8>>) -> (
    Seq<Seq<u8>>,
    Option<Seq<u8>>,
)
    decreases ls.len(),
{
    if ls.len() == 0 {
        (seq![], parent)
    } else {
        let l = ls[0];
        let rest = ls.drop_first();
        if l.len() == 0 {
            log_scan(rest, true, parent)
        } else if in_message {
            let (shown, p) = log_scan(rest, true, parent);
            (seq![message_indent() + l] + shown, p)
        } else if strip_prefix(l, author_tag()) is Some {
            let (shown, p) = log_scan(rest, false, parent);
            (seq![author_label() + strip_prefix(l, author_tag())->0] + shown, p)
        } else if strip_prefix(l, timestamp_tag()) is Some {
            let (shown, p) = log_scan(rest, false, parent);
            (seq![date_label() + strip_prefix(l, timestamp_tag())->0] + shown, p)
        } else if strip_prefix(l, parent_tag()) is Some {
            log_scan(rest, false, strip_prefix(l, parent_tag()))
        } else {
            log_scan(rest, false, parent)
        }
    }
}

/// What the log shows of the commit stored as `object` under the id
/// `commit_id`: `commit ` and the trimmed id, the lines of `log_scan`, and
/// a blank line; and the parent it names.
pub open spec fn log_entry_spec(commit_id: Seq<u8>, object: Seq<u8>) -> Result<
    (Seq<Seq<u8>>, Option<Seq<u8>>),
    VikError,
> {
    match parse_object_spec(object) {
        Err(e) => Err(e),
        Ok((kind, content)) => if kind != commit_kind() {
            Err(VikError::NotACommit)
        } else if !valid_utf8(content) {
            Err(VikError::NotUtf8)
        } else {
            let (shown, parent) = log_scan(lines(content), false, None);
            Ok((seq![commit_tag() + trim(commit_id)] + shown + seq![seq![]], parent))
        },
    }
}

fn concat2(a: &[u8], b: &[u8]) -> (r: Vec<u8>)
    ensures
        r@ == a@ + b@,
{
    let mut out: Vec<u8> = Vec::new();
    push_all(&mut out, a);
    push_all(&mut out, b);
    assert(out@ =~= a@ + b@);
    out
}

/// Reads a stored commit for the log.
pub fn log_entry(commit_id: &[u8], object: &[u8]) -> (r: Result<LogEntry, VikError>)
    ensures
        match log_entry_spec(commit_id@, object@) {
            Ok((shown, parent)) => r matches Ok(e) && views(e.lines@) == shown && opt_view(e.parent)
                == parent,
            Err(x) => r matches Err(y) && y == x,
        },
{
    let parsed = match parse_object(object) {
        Ok(p) => p,
        Err(e) => return Err(e),
    };
    let commit_v: Vec<u8> = vec![99u8, 111, 109, 109, 105, 116];
    if !bytes_eq(parsed.kind.as_slice(), commit_v.as_slice()) {
        return Err(VikError::NotACommit);
    }
    if !is_utf8(parsed.content.as_slice()) {
        return Err(VikError::NotUtf8);
    }
    let t_commit: Vec<u8> = vec![99u8, 111, 109, 109, 105, 116, 32];
    let t_author: Vec<u8> = vec![97u8, 117, 116, 104, 111, 114, 32];
    let t_timestamp: Vec<u8> = vec![116u8, 105, 109, 101, 115, 116, 97, 109, 112, 32];
    let t_parent: Vec<u8> = vec![112u8, 97, 114, 101, 110, 116, 32];
    let l_author: Vec<u8> = vec![65u8, 117, 116, 104, 111, 114, 58, 32];
    let l_date: Vec<u8> = vec![68u8, 97, 116, 101, 58, 32];
    let indent: Vec<u8> = vec![32u8, 32, 32, 32];
    let mut out: Vec<Vec<u8>> = Vec::new();
    let id = trim_bytes(commit_id);
    out.push(concat2(t_commit.as_slice(), id.as_slice()));
    let ls = split_lines(parsed.content.as_slice());
    let ghost all = views(ls@);
    let ghost first = seq![commit_tag() + trim(commit_id@)];
    assert(views(out@) =~= first);
    let mut in_message = false;
    let mut parent: Option<Vec<u8>> = None;
    let mut i: usize = 0;
    assert(all.skip(0) =~= all);
    while i < ls.len()
        invariant
            i <= ls@.len(),
            all == views(ls@),
            t_author@ == author_tag(),
            t_timestamp@ == timestamp_tag(),
            t_parent@ == parent_tag(),
            l_author@ == author_label(),
            l_date@ == date_label(),
            indent@ == message_indent(),
            ({
                let (shown, p) = log_scan(all.skip(i as int), in_message, opt_view(parent));
                let (shown_all, p_all) = log_scan(all, false, None);
                &&& shown_all == views(out@).drop_first() + shown
                &&& p_all == p
                &&& views(out@).len() >= 1
                &&& views(out@)[0] == first[0]
            }),
        decreases ls@.len() - i,
    {
        let line = &ls[i];
        assert(all.skip(i as int)[0] == line@);
        assert(all.skip(i as int).drop_first() =~= all.skip(i + 1));
        let ghost before = views(out@);
        let ghost par_v = opt_view(parent);
        if line.len() == 0 {
            in_message = true;
        } else if in_message {
            let shown = concat2(indent.as_slice(), line.as_slice());
            out.push(shown);
            assert(views(out@) =~= before.push(shown@));
            assert(views(out@).drop_first() =~= before.drop_first().push(shown@));
            proof {
                let (s1, p1) = log_scan(all.skip(i + 1), true, par_v);
                assert(before.drop_first() + (seq![shown@] + s1) =~= views(out@).drop_first() + s1);
            }
        } else {
            match strip_prefix_bytes(line.as_slice(), t_author.as_slice()) {
                Some(rest) => {
                    let shown = concat2(l_author.as_slice(), rest.as_slice());
                    out.push(shown);
                    assert(views(out@) =~= before.push(shown@));
                    assert(views(out@).drop_first() =~= before.drop_first().push(shown@));
                    proof {
                        let (s1, p1) = log_scan(all.skip(i + 1), false, par_v);
                        assert(before.drop_first() + (seq![shown@] + s1) =~= views(out@).drop_first()
                            + s1);
                    }
                },
                None => match strip_prefix_bytes(line.as_slice(), t_timestamp.as_slice()) {
                    Some(rest) => {
                        let shown = concat2(l_date.as_slice(), rest.as_slice());
                        out.push(shown);
                        assert(views(out@) =~= before.push(shown@));
                        assert(views(out@).drop_first() =~= before.drop_first().push(shown@));
                        proof {
                            let (s1, p1) = log_scan(all.skip(i + 1), false, par_v);
                            assert(before.drop_first() + (seq![shown@] + s1) =~= views(
                                out@,
                            ).drop_first() + s1);
                        }
                    },
                    None => match strip_prefix_bytes(line.as_slice(), t_parent.as_slice()) {
                        Some(rest) => {
                            parent = Some(rest);
                        },
                        None => {},
                    },
                },
            }
        }
        i = i + 1;
    }
    assert(all.skip(i as int) =~= Seq::<Seq<u8>>::empty());
    let ghost before = views(out@);
    out.push(Vec::new());
    proof {
        let (shown_all, p_all) = log_scan(all, false, None);
        assert(views(out@) =~= before.push(seq![]));
        assert(before =~= seq![before[0]] + before.drop_first());
        assert(views(out@) =~= first + shown_all + seq![seq![]]);
    }
    Ok(LogEntry { lines: out, parent })
}

proof fn lemma_commit_kind_plain()
    ensures
        valid_utf8(commit_kind()),
        lacks(commit_kind(), 32),
        lacks(commit_kind(), 0),
{
    lemma_ascii_utf8(commit_kind());
}

/// A stored commit gives back the tree it was written with, whenever the
/// tree id is one line that does not end in a carriage return.
#[verifier::spinoff_prover]
#[verifier::rlimit(30)]
pub proof fn lemma_commit_records_tree(
    t: Seq<u8>,
    p: Option<Seq<u8>>,
    a: Seq<u8>,
    ts: nat,
    m: Seq<u8>,
)
    requires
        valid_utf8(commit_text(t, p, a, ts, m)),
        commit_text(t, p, a, ts, m).len() <= usize::MAX,
        lacks(t, 10),
        !(t.len() > 0 && t.last() == 13),
    ensures
        commit_tree_spec(object_bytes(commit_kind(), commit_text(t, p, a, ts, m))) == Ok::<
            Seq<u8>,
            VikError,
        >(t),
{
    let text = commit_text(t, p, a, ts, m);
    lemma_commit_kind_plain();
    lemma_object_roundtrip(commit_kind(), text);
    let l1 = tree_tag() + t;
    let rest = parent_line(p) + author_tag() + a + seq![10u8] + committer_tag() + a + seq![10u8]
        + timestamp_tag() + decimal(ts) + seq![10u8, 10u8] + m + seq![10u8];
    assert(text =~= l1 + seq![10u8] + rest);
    assert(lacks(l1, 10)) by {
        assert forall|i: int| 0 <= i < l1.len() implies l1[i] != 10 by {
            if i >= 5 {
                assert(l1[i] == t[i - 5]);
            }
        }
    }
    lemma_lines_cons(l1, rest);
    assert(strip_cr(l1) == l1) by {
        if t.len() > 0 {
            assert(l1.last() == t.last());
        }
    }
    lemma_strip_prefix_concat(tree_tag(), t);
}

/// The parent recorded in a commit: the trimmed parent id, when it is not
/// blank.
pub open spec fn recorded_parent(p: Option<Seq<u8>>) -> Option<Seq<u8>> {
    match p {
        Some(x) => if trim(x).len() > 0 {
            Some(trim(x))
        } else {
            None
        },
        None => None,
    }
}

/// The lines of a message as the log shows them: every non-blank line,
/// indented by four spaces, in order.
pub open spec fn shown_message(ls: Seq<Seq<u8>>) -> Seq<Seq<u8>> {
    ls.filter(|l: Seq<u8>| l.len() > 0).map_values(|l: Seq<u8>| message_indent() + l)
}

proof fn lemma_scan_message(ls: Seq<Seq<u8>>, par: Option<Seq<u8>>)
    ensures
        log_scan(ls, true, par) == (shown_message(ls), par),
    decreases ls.len(),
{
    reveal(Seq::filter);
    let f = |l: Seq<u8>| l.len() > 0;
    if ls.len() == 0 {
        assert(shown_message(ls) =~= Seq::<Seq<u8>>::empty());
    } else {
        let l = ls[0];
        let rest = ls.drop_first();
        lemma_scan_message(rest, par);
        assert(ls =~= seq![l] + rest);
        Seq::filter_distributes_over_add(seq![l], rest, f);
        assert(seq![l].drop_last() =~= Seq::<Seq<u8>>::empty());
        assert(seq![l].drop_last().filter(f) =~= Seq::<Seq<u8>>::empty());
        assert(seq![l].last() == l);
        if l.len() == 0 {
            assert(seq![l].filter(f) =~= Seq::<Seq<u8>>::empty());
            assert(ls.filter(f) =~= rest.filter(f));
        } else {
            assert(seq![l].filter(f) =~= seq![l]);
            assert(ls.filter(f) =~= seq![l] + rest.filter(f));
            assert(shown_message(ls) =~= seq![message_indent() + l] + shown_message(rest));
        }
    }
}

/// The lines from the author line on, as a commit writes them.
spec fn tail_text(a: Seq<u8>, ts: nat, m: Seq<u8>) -> Seq<u8> {
    author_tag() + a + seq![10u8] + committer_tag() + a + seq![10u8] + timestamp_tag() + decimal(
        ts,
    ) + seq![10u8, 10u8] + m + seq![10u8]
}

#[verifier::spinoff_prover]
proof fn lemma_scan_tail(a: Seq<u8>, ts: nat, m: Seq<u8>, par: Option<Seq<u8>>)
    requires
        lacks(a, 10),
    ensures
        log_scan(lines(tail_text(a, ts, m)), false, par) == (
            seq![author_label() + strip_cr(a), date_label() + decimal(ts)] + shown_message(
                lines(m + seq![10u8]),
            ),
            par,
        ),
{
    let l3 = author_tag() + a;
    let l4 = committer_tag() + a;
    let l5 = timestamp_tag() + decimal(ts);
    let tail = seq![10u8] + m + seq![10u8];
    let r5 = l5 + seq![10u8] + tail;
    let r4 = l4 + seq![10u8] + r5;
    let r3 = l3 + seq![10u8] + r4;
    assert(tail_text(a, ts, m) =~= r3);
    lemma_lacks_concat(author_tag(), a, 10);
    lemma_lacks_concat(committer_tag(), a, 10);
    lemma_decimal_parse(ts);
    assert(lacks(decimal(ts), 10)) by {
        assert forall|i: int| 0 <= i < decimal(ts).len() implies decimal(ts)[i] != 10 by {
            assert(all_digits(decimal(ts)));
        }
    }
    lemma_lacks_concat(timestamp_tag(), decimal(ts), 10);
    lemma_lines_cons(l3, r4);
    lemma_lines_cons(l4, r5);
    lemma_lines_cons(l5, tail);
    assert(tail =~= Seq::<u8>::empty() + seq![10u8] + (m + seq![10u8]));
    lemma_lines_cons(Seq::<u8>::empty(), m + seq![10u8]);
    let after = lines(m + seq![10u8]);
    lemma_scan_message(after, par);
    let s3 = strip_cr(l3);
    assert(s3.len() >= 7 && s3.take(7) == author_tag()) by {
        assert(l3.take(7) =~= author_tag());
        if a.len() > 0 && l3.last() == 13 {
            assert(s3.take(7) =~= author_tag());
        }
    }
    assert(s3 =~= author_tag() + strip_cr(a));
    lemma_strip_prefix_concat(author_tag(), strip_cr(a));
    assert(strip_prefix(s3, author_tag()) is Some);
    let s4 = strip_cr(l4);
    assert(s4.len() >= 10 && s4[0] == 99) by {
        assert(l4[0] == 99);
    }
    lemma_strip_prefix_differs(s4, author_tag(), 0);
    lemma_strip_prefix_differs(s4, timestamp_tag(), 0);
    lemma_strip_prefix_differs(s4, parent_tag(), 0);
    let s5 = strip_cr(l5);
    assert(s5 == l5) by {
        assert(l5.last() == decimal(ts).last());
        assert(all_digits(decimal(ts)));
    }
    assert(l5[0] == 116 && l5[1] == 105);
    lemma_strip_prefix_differs(l5, author_tag(), 0);
    lemma_strip_prefix_concat(timestamp_tag(), decimal(ts));
    let e = seq![Seq::<u8>::empty()] + after;
    let ls5 = seq![s5] + e;
    let ls4 = seq![s4] + ls5;
    let ls3 = seq![s3] + ls4;
    assert(lines(r5) == ls5);
    assert(lines(r4) == ls4);
    assert(lines(r3) == ls3);
    assert(e[0].len() == 0 && e.drop_first() =~= after);
    assert(log_scan(e, false, par).1 == par);
    assert(ls5[0] == s5 && ls5.drop_first() =~= e);
    assert(log_scan(ls5, false, par).1 == par);
    assert(ls4[0] == s4 && ls4.drop_first() =~= ls5);
    assert(log_scan(ls4, false, par).1 == par);
    assert(ls3[0] == s3 && ls3.drop_first() =~= ls4);
    let msg = shown_message(after);
    assert(log_scan(e, false, par) == (msg, par));
    assert(log_scan(ls5, false, par) == (seq![date_label() + decimal(ts)] + msg, par));
    assert(log_scan(ls4, false, par) == (seq![date_label() + decimal(ts)] + msg, par));
    assert(log_scan(ls3, false, par) == (seq![author_label() + strip_cr(a)] + (seq![date_label()
        + decimal(ts)] + msg), par));
    assert(seq![author_label() + strip_cr(a)] + (seq![date_label() + decimal(ts)] + msg) =~= seq![
        author_label() + strip_cr(a),
        date_label() + decimal(ts),
    ] + msg);
}

#[verifier::spinoff_prover]
proof fn lemma_scan_parent(x: Seq<u8>, a: Seq<u8>, ts: nat, m: Seq<u8>)
    requires
        lacks(a, 10),
        lacks(trim(x), 10),
        trim(x).len() > 0,
    ensures
        log_scan(lines(parent_tag() + trim(x) + seq![10u8] + tail_text(a, ts, m)), false, None)
            == log_scan(lines(tail_text(a, ts, m)), false, Some(trim(x))),
{
    let r3 = tail_text(a, ts, m);
    let pl = parent_tag() + trim(x);
    lemma_scan_tail(a, ts, m, Some(trim(x)));
    lemma_lacks_concat(parent_tag(), trim(x), 10);
    lemma_lines_cons(pl, r3);
    lemma_trim_clean(x);
    assert(strip_cr(pl) == pl) by {
        assert(pl.last() == trim(x).last());
    }
    assert(pl[0] == 112);
    lemma_strip_prefix_differs(pl, author_tag(), 0);
    lemma_strip_prefix_differs(pl, timestamp_tag(), 0);
    lemma_strip_prefix_concat(parent_tag(), trim(x));
    let ls2 = seq![pl] + lines(r3);
    assert(ls2[0] == pl && ls2.drop_first() =~= lines(r3));
}

#[verifier::spinoff_prover]
proof fn lemma_commit_scan(t: Seq<u8>, p: Option<Seq<u8>>, a: Seq<u8>, ts: nat, m: Seq<u8>)
    requires
        lacks(t, 10),
        lacks(a, 10),
        p matches Some(x) ==> lacks(trim(x), 10),
    ensures
        log_scan(lines(commit_text(t, p, a, ts, m)), false, None) == (
            seq![author_label() + strip_cr(a), date_label() + decimal(ts)] + shown_message(
                lines(m + seq![10u8]),
            ),
            recorded_parent(p),
        ),
{
    let text = commit_text(t, p, a, ts, m);
    let l1 = tree_tag() + t;
    let r3 = tail_text(a, ts, m);
    let r2 = parent_line(p) + r3;
    assert(text =~= l1 + seq![10u8] + r2);
    lemma_lacks_concat(tree_tag(), t, 10);
    lemma_lines_cons(l1, r2);
    let s1 = strip_cr(l1);
    assert(s1.len() >= 5 && s1[0] == 116 && s1[1] == 114) by {
        assert(l1[0] == 116 && l1[1] == 114);
    }
    lemma_strip_prefix_differs(s1, author_tag(), 0);
    lemma_strip_prefix_differs(s1, timestamp_tag(), 1);
    lemma_strip_prefix_differs(s1, parent_tag(), 0);
    if p is Some && trim(p->0).len() > 0 {
        let x = p->0;
        assert(r2 =~= parent_tag() + trim(x) + seq![10u8] + r3);
        lemma_scan_parent(x, a, ts, m);
        lemma_scan_tail(a, ts, m, Some(trim(x)));
    } else {
        assert(parent_line(p) =~= Seq::<u8>::empty());
        assert(r2 =~= r3);
        lemma_scan_tail(a, ts, m, None);
    }
    let all = seq![s1] + lines(r2);
    assert(all[0] == s1 && all.drop_first() =~= lines(r2));
}

/// The log goes on from a stored commit to the parent the commit was
/// written with, whenever tree id, author and parent id are one line each.
pub proof fn lemma_log_follows_parent(
    id: Seq<u8>,
    t: Seq<u8>,
    p: Option<Seq<u8>>,
    a: Seq<u8>,
    ts: nat,
    m: Seq<u8>,
)
    requires
        valid_utf8(commit_text(t, p, a, ts, m)),
        commit_text(t, p, a, ts, m).len() <= usize::MAX,
        lacks(t, 10),
        lacks(a, 10),
        p matches Some(x) ==> lacks(trim(x), 10),
    ensures
        log_entry_spec(id, object_bytes(commit_kind(), commit_text(t, p, a, ts, m))) matches Ok(
            (_, par),
        ) && par == recorded_parent(p),
{
    let text = commit_text(t, p, a, ts, m);
    lemma_commit_kind_plain();
    lemma_object_roundtrip(commit_kind(), text);
    lemma_commit_scan(t, p, a, ts, m);
}

/// What the log shows of a commit `commit_body` wrote, whenever tree id,
/// author and parent id are one line each: `commit ` and the id, the
/// author as written (less a final `\r`, which reading a line drops), the
/// time as written, each non-blank line of the message indented, and a
/// blank line; and it goes on to the parent the commit was written with.
pub proof fn lemma_log_shows_commit(
    id: Seq<u8>,
    t: Seq<u8>,
    p: Option<Seq<u8>>,
    a: Seq<u8>,
    ts: nat,
    m: Seq<u8>,
)
    requires
        valid_utf8(commit_text(t, p, a, ts, m)),
        commit_text(t, p, a, ts, m).len() <= usize::MAX,
        lacks(t, 10),
        lacks(a, 10),
        p matches Some(x) ==> lacks(trim(x), 10),
    ensures
        log_entry_spec(id, object_bytes(commit_kind(), commit_text(t, p, a, ts, m))) == Ok::<
            (Seq<Seq<u8>>, Option<Seq<u8>>),
            VikError,
        >(
            (
                seq![
                    seq![99u8, 111, 109, 109, 105, 116, 32] + trim(id),
                    seq![65u8, 117, 116, 104, 111, 114, 58, 32] + strip_cr(a),
                    seq![68u8, 97, 116, 101, 58, 32] + decimal(ts),
                ] + lines(m + seq![10u8]).filter(|l: Seq<u8>| l.len() > 0).map_values(
                    |l: Seq<u8>| seq![32u8, 32, 32, 32] + l,
                ) + seq![seq![]],
                recorded_parent(p),
            ),
        ),
{
    let text = commit_text(t, p, a, ts, m);
    lemma_commit_kind_plain();
    lemma_object_roundtrip(commit_kind(), text);
    lemma_commit_scan(t, p, a, ts, m);
    let msg = shown_message(lines(m + seq![10u8]));
    assert(seq![commit_tag() + trim(id)] + (seq![author_label() + strip_cr(a), date_label()
        + decimal(ts)] + msg) + seq![seq![]] =~= seq![
        commit_tag() + trim(id),
        author_label() + strip_cr(a),
        date_label() + decimal(ts),
    ] + msg + seq![seq![]]);
    assert(msg =~= lines(m + seq![10u8]).filter(|l: Seq<u8>| l.len() > 0).map_values(
        |l: Seq<u8>| seq![32u8, 32, 32, 32] + l,
    ));
}

} // verus!
