//! Directory snapshots: keeps the regular files out of a directory's raw
//! entries, labels each with a human-readable size, and sorts by name
//! ascending for a deterministic listing.

use vstd::prelude::*;
use vstd::seq_lib::group_to_multiset_ensures;
use crate::sizefmt::{format_size, spec_format_size};

verus! {

/// Code-point lexicographic order on texts; a prefix comes before its
/// extensions. This is the order `str` comparison gives, since UTF-8 byte
/// order agrees with code-point order.
pub open spec fn lex_le(a: Seq<char>, b: Seq<char>) -> bool
    decreases a.len(),
{
    if a.len() == 0 {
        true
    } else if b.len() == 0 {
        false
    } else if a[0] == b[0] {
        lex_le(a.drop_first(), b.drop_first())
    } else {
        (a[0] as int) < (b[0] as int)
    }
}

/// The order is total: of two texts one comes no later than the other.
pub proof fn lemma_lex_le_total(a: Seq<char>, b: Seq<char>)
    ensures
        lex_le(a, b) || lex_le(b, a),
    decreases a.len(),
{
    if a.len() > 0 && b.len() > 0 {
        if a[0] == b[0] {
            lemma_lex_le_total(a.drop_first(), b.drop_first());
        } else {
            assert(a[0] as int != b[0] as int);
        }
    }
}

/// Whether `a` comes no later than `b`, as [`lex_le`] orders texts.
pub fn str_le(a: &str, b: &str) -> (r: bool)
    ensures
        r == lex_le(a@, b@),
{
    let na = a.unicode_len();
    let nb = b.unicode_len();
    let mut i: usize = 0;
    proof {
        assert(a@.skip(0) =~= a@);
        assert(b@.skip(0) =~= b@);
    }
    loop
        invariant
            0 <= i <= na,
            i <= nb,
            na == a@.len(),
            nb == b@.len(),
            lex_le(a@, b@) == lex_le(a@.skip(i as int), b@.skip(i as int)),
        decreases na - i,
    {
        if i == na {
            return true;
        }
        if i == nb {
            return false;
        }
        let ca = a.get_char(i);
        let cb = b.get_char(i);
        if ca != cb {
            return (ca as u32) < (cb as u32);
        }
        proof {
            assert(a@.skip(i as int).drop_first() =~= a@.skip(i + 1 as int));
            assert(b@.skip(i as int).drop_first() =~= b@.skip(i + 1 as int));
        }
        i = i + 1;
    }
}

/// One row of a directory snapshot: a file's name and its size label.
pub struct FileEntry {
    pub name: String,
    pub size: String,
}

/// The mathematical content of a snapshot row.
pub open spec fn file_model(f: FileEntry) -> (Seq<char>, Seq<char>) {
    (f.name@, f.size@)
}

/// The contents of a whole snapshot, row by row.
pub open spec fn rows_model(s: Seq<FileEntry>) -> Seq<(Seq<char>, Seq<char>)>
    decreases s.len(),
{
    if s.len() == 0 {
        Seq::empty()
    } else {
        rows_model(s.drop_last()).push(file_model(s.last()))
    }
}

/// [`rows_model`] maps the rows one for one.
pub proof fn lemma_rows_model_index(s: Seq<FileEntry>)
    ensures
        rows_model(s).len() == s.len(),
        forall|j: int| 0 <= j < s.len() ==> rows_model(s)[j] == file_model(s[j]),
    decreases s.len(),
{
    if s.len() > 0 {
        lemma_rows_model_index(s.drop_last());
    }
}

/// A raw directory entry as the filesystem reports it: name, byte size, and
/// whether it is a regular file.
pub struct RawEntry {
    pub name: String,
    pub size: u64,
    pub is_file: bool,
}

/// What a raw entry becomes in the snapshot.
pub open spec fn raw_model(e: RawEntry) -> (Seq<char>, Seq<char>) {
    (e.name@, spec_format_size(e.size))
}

/// The rows owed to a run of raw entries: one per regular file, in input
/// order.
pub open spec fn kept_models(es: Seq<RawEntry>) -> Seq<(Seq<char>, Seq<char>)>
    decreases es.len(),
{
    if es.len() == 0 {
        Seq::empty()
    } else {
        let rest = kept_models(es.drop_last());
        if es.last().is_file {
            rest.push(raw_model(es.last()))
        } else {
            rest
        }
    }
}

/// Rows sorted by name ascending.
pub open spec fn sorted_by_name(s: Seq<FileEntry>) -> bool {
    forall|i: int| 0 <= i < s.len() - 1 ==> lex_le(#[trigger] s[i].name@, s[i + 1].name@)
}

/// Inserting at any position adds exactly that element to a sequence's
/// multiset of elements.
pub(crate) proof fn lemma_insert_to_multiset<A>(s: Seq<A>, p: int, x: A)
    requires
        0 <= p <= s.len(),
    ensures
        s.insert(p, x).to_multiset() == s.to_multiset().insert(x),
    decreases s.len(),
{
    broadcast use group_to_multiset_ensures;

    if p == s.len() {
        assert(s.insert(p, x) =~= s.push(x));
    } else {
        assert(s.insert(p, x) =~= s.drop_last().insert(p, x).push(s.last()));
        lemma_insert_to_multiset(s.drop_last(), p, x);
        assert(s =~= s.drop_last().push(s.last()));
        assert(s.drop_last().to_multiset().insert(x).insert(s.last())
            =~= s.drop_last().to_multiset().insert(s.last()).insert(x));
    }
}

/// One step of [`kept_models`] over a growing prefix.
proof fn lemma_kept_models_step(es: Seq<RawEntry>, i: int)
    requires
        0 <= i < es.len(),
    ensures
        es[i].is_file ==> kept_models(es.take(i + 1)) == kept_models(es.take(i)).push(
            raw_model(es[i]),
        ),
        !es[i].is_file ==> kept_models(es.take(i + 1)) == kept_models(es.take(i)),
{
    assert(es.take(i + 1).drop_last() =~= es.take(i));
    assert(es.take(i + 1).last() == es[i]);
}

/// Inserts `x` into a sorted row list, after any rows of equal name, keeping
/// the list sorted.
fn insert_sorted(out: &mut Vec<FileEntry>, x: FileEntry)
    requires
        sorted_by_name(old(out)@),
    ensures
        sorted_by_name(final(out)@),
        rows_model(final(out)@).to_multiset() == rows_model(old(out)@).to_multiset().insert(
            file_model(x),
        ),
{
    let n = out.len();
    let mut p: usize = 0;
    while p < n && str_le(out[p].name.as_str(), x.name.as_str())
        invariant
            0 <= p <= n,
            n == out@.len(),
            forall|q: int| 0 <= q < p ==> lex_le(#[trigger] out@[q].name@, x.name@),
            sorted_by_name(out@),
            out@ == old(out)@,
        decreases n - p,
    {
        p = p + 1;
    }
    let ghost pre = out@;
    let ghost xm = file_model(x);
    proof {
        if p < pre.len() {
            lemma_lex_le_total(pre[p as int].name@, x.name@);
        }
    }
    out.insert(p, x);
    proof {
        let s2 = out@;
        assert forall|i: int| 0 <= i < s2.len() - 1 implies lex_le(
            #[trigger] s2[i].name@,
            s2[i + 1].name@,
        ) by {
            if i + 1 < p {
                assert(s2[i] == pre[i] && s2[i + 1] == pre[i + 1]);
            } else if i + 1 == p {
                assert(s2[i] == pre[i]);
            } else if i == p {
                assert(s2[i + 1] == pre[i]);
            } else {
                assert(s2[i] == pre[i - 1] && s2[i + 1] == pre[i]);
            }
        }
        lemma_rows_model_index(s2);
        lemma_rows_model_index(pre);
        assert(rows_model(s2) =~= rows_model(pre).insert(p as int, xm));
        lemma_insert_to_multiset(rows_model(pre), p as int, xm);
    }
}

/// The snapshot of a directory read: keeps the regular files, labels each
/// with its size, and sorts by name ascending. The rows hold exactly the
/// regular files of the input, each with the size label
/// [`spec_format_size`] gives.
pub fn list_files(entries: &Vec<RawEntry>) -> (r: Vec<FileEntry>)
    ensures
        sorted_by_name(r@),
        rows_model(r@).to_multiset() == kept_models(entries@).to_multiset(),
{
    broadcast use group_to_multiset_ensures;

    let n = entries.len();
    let mut out: Vec<FileEntry> = Vec::new();
    let mut i: usize = 0;
    proof {
        assert(rows_model(out@) =~= Seq::<(Seq<char>, Seq<char>)>::empty());
        assert(kept_models(entries@.take(0)) =~= Seq::<(Seq<char>, Seq<char>)>::empty());
    }
    while i < n
        invariant
            0 <= i <= n,
            n == entries@.len(),
            sorted_by_name(out@),
            rows_model(out@).to_multiset() == kept_models(entries@.take(i as int)).to_multiset(),
        decreases n - i,
    {
        broadcast use group_to_multiset_ensures;

        proof {
            lemma_kept_models_step(entries@, i as int);
        }
        let e = &entries[i];
        if e.is_file {
            let fe = FileEntry { name: e.name.clone(), size: format_size(e.size) };
            proof {
                assert(file_model(fe) == raw_model(entries@[i as int]));
            }
            insert_sorted(&mut out, fe);
        }
        i = i + 1;
    }
    proof {
        assert(entries@.take(n as int) =~= entries@);
    }
    out
}

} // verus!
