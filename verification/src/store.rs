//! The note store: the table of notes, the table of labels and the table of attachments
//! that the browser fills when it reads the note folder and keeps while it runs.
use vstd::prelude::*;
use crate::text::{views, same_text, to_chars, from_chars, has_sub, contains_sub};
use crate::order::{sorted_distinct, strictly_sorted};


verus! {

/// One note: its temporary id, size in bytes, modification time in milliseconds, path
/// relative to the note folder (components joined by `/`) and text.
pub struct FileRow {
    pub tmpid: i64,
    pub size: i64,
    pub mtime: i64,
    pub rel: String,
    pub content: String,
}

/// The value of a [`FileRow`].
pub struct FileV {
    pub tmpid: i64,
    pub size: i64,
    pub mtime: i64,
    pub rel: Seq<char>,
    pub content: Seq<char>,
}

impl View for FileRow {
    type V = FileV;

    open spec fn view(&self) -> FileV {
        FileV {
            tmpid: self.tmpid,
            size: self.size,
            mtime: self.mtime,
            rel: self.rel@,
            content: self.content@,
        }
    }
}

impl FileRow {
    pub fn duplicate(&self) -> (r: FileRow)
        ensures
            r@ == self@,
    {
        FileRow {
            tmpid: self.tmpid,
            size: self.size,
            mtime: self.mtime,
            rel: self.rel.clone(),
            content: self.content.clone(),
        }
    }
}

/// One label attached to a note.
pub struct LblRow {
    pub tmpid: i64,
    pub lbl: String,
}

impl View for LblRow {
    type V = (i64, Seq<char>);

    open spec fn view(&self) -> (i64, Seq<char>) {
        (self.tmpid, self.lbl@)
    }
}

/// One attachment file of a note: its path relative to the note's attachment folder and size.
pub struct AttRow {
    pub tmpid: i64,
    pub rel: String,
    pub size: i64,
}

impl View for AttRow {
    type V = (i64, Seq<char>, i64);

    open spec fn view(&self) -> (i64, Seq<char>, i64) {
        (self.tmpid, self.rel@, self.size)
    }
}

impl AttRow {
    pub fn duplicate(&self) -> (r: AttRow)
        ensures
            r@ == self@,
    {
        AttRow { tmpid: self.tmpid, rel: self.rel.clone(), size: self.size }
    }
}

/// The value of a [`NoteStore`]: its three tables, rows in insertion order.
pub struct StoreV {
    pub files: Seq<FileV>,
    pub lbls: Seq<(i64, Seq<char>)>,
    pub atts: Seq<(i64, Seq<char>, i64)>,
}

/// The ids of `files`, in order.
pub open spec fn tmpids(files: Seq<FileV>) -> Seq<i64> {
    files.map_values(|f: FileV| f.tmpid)
}

/// Some note has id `tid`.
pub open spec fn has_tid(files: Seq<FileV>, tid: i64) -> bool {
    exists|i: int| 0 <= i < files.len() && files[i].tmpid == tid
}

/// The id the next note gets: one past the greatest id, or 1 in an empty store.
pub open spec fn next_tmpid(files: Seq<FileV>) -> int {
    if files.len() == 0 {
        1
    } else {
        files.last().tmpid + 1
    }
}

/// Some label row has the text `x`.
pub open spec fn label_in_use(lbls: Seq<(i64, Seq<char>)>, x: Seq<char>) -> bool {
    exists|k: int| 0 <= k < lbls.len() && lbls[k].1 == x
}

/// Some label row among the first `n` has the text `x`, and `x` contains `pat`.
pub open spec fn label_seen(lbls: Seq<(i64, Seq<char>)>, pat: Seq<char>, n: int, x: Seq<char>) -> bool {
    has_sub(x, pat) && exists|k: int| 0 <= k < n && lbls[k].1 == x
}

/// The folder a note path lies in: what comes before its last `/`; `None` for a path
/// without `/` (a note at the top of the note folder).
pub open spec fn folder_of(rel: Seq<char>) -> Option<Seq<char>>
    decreases rel.len(),
{
    if rel.len() == 0 {
        None
    } else if rel.last() == '/' {
        Some(rel.drop_last())
    } else {
        folder_of(rel.drop_last())
    }
}

/// The folder part of `rel` (`rfind('/')` then `truncate`).
pub fn folder_of_exec(rel: &[char]) -> (r: Option<Vec<char>>)
    ensures
        match r {
            Some(v) => folder_of(rel@) == Some(v@),
            None => folder_of(rel@) is None,
        },
{
    let mut i: usize = rel.len();
    assert(rel@.take(i as int) == rel@);
    while i > 0
        invariant
            i <= rel@.len(),
            folder_of(rel@) == folder_of(rel@.take(i as int)),
        decreases i,
    {
        assert(rel@.take(i as int).drop_last() == rel@.take(i - 1));
        if rel[i - 1] == '/' {
            let mut v: Vec<char> = Vec::new();
            let mut j: usize = 0;
            while j < i - 1
                invariant
                    j <= i - 1,
                    i <= rel@.len(),
                    v@ == rel@.take(j as int),
                decreases i - 1 - j,
            {
                v.push(rel[j]);
                assert(rel@.take(j + 1) == rel@.take(j as int).push(rel@[j as int]));
                j += 1;
            }
            return Some(v);
        }
        i -= 1;
    }
    None
}

/// `x` is the top folder `""` or the folder of some note of `files`.
pub open spec fn is_folder(files: Seq<FileV>, x: Seq<char>) -> bool {
    x.len() == 0 || exists|i: int| 0 <= i < files.len() && folder_of(files[i].rel) == Some(x)
}

/// Note `a` counts as more recent than note `b`: later modification time, or the same
/// time and a greater id.
pub open spec fn newer(a: FileV, b: FileV) -> bool {
    a.mtime > b.mtime || (a.mtime == b.mtime && a.tmpid > b.tmpid)
}

/// The position of the note with id `tid`.
pub open spec fn idx_of(files: Seq<FileV>, tid: i64) -> int {
    choose|i: int| 0 <= i < files.len() && files[i].tmpid == tid
}

/// `lbls` after giving note `tid` the label `l` unless it has it.
pub open spec fn with_label(lbls: Seq<(i64, Seq<char>)>, tid: i64, l: Seq<char>) -> Seq<(i64, Seq<char>)> {
    if lbls.contains((tid, l)) {
        lbls
    } else {
        lbls.push((tid, l))
    }
}

/// `lbls` after giving each of `tids` in turn the label `l`.
pub open spec fn with_label_all(lbls: Seq<(i64, Seq<char>)>, tids: Seq<i64>, l: Seq<char>) -> Seq<(i64, Seq<char>)>
    decreases tids.len(),
{
    if tids.len() == 0 {
        lbls
    } else {
        with_label(with_label_all(lbls, tids.drop_last(), l), tids.last(), l)
    }
}

/// `lbls` after taking the label `l` off each of `tids`.
pub open spec fn without_label(lbls: Seq<(i64, Seq<char>)>, tids: Seq<i64>, l: Seq<char>) -> Seq<(i64, Seq<char>)> {
    lbls.filter(keeps_row(tids, l))
}

/// A label row stays when the label `l` is taken off `tids`: it is not `l` on one of them.
pub open spec fn keeps_row(tids: Seq<i64>, l: Seq<char>) -> spec_fn((i64, Seq<char>)) -> bool {
    |r: (i64, Seq<char>)| !(tids.contains(r.0) && r.1 == l)
}

/// Giving labels keeps every row there was.
pub proof fn lemma_with_label_all_keeps(lbls: Seq<(i64, Seq<char>)>, tids: Seq<i64>, l: Seq<char>, r: (i64, Seq<char>))
    requires
        lbls.contains(r),
    ensures
        with_label_all(lbls, tids, l).contains(r),
    decreases tids.len(),
{
    if tids.len() > 0 {
        lemma_with_label_all_keeps(lbls, tids.drop_last(), l, r);
        let p = with_label_all(lbls, tids.drop_last(), l);
        if !p.contains((tids.last(), l)) {
            let k = choose|k: int| 0 <= k < p.len() && p[k] == r;
            assert(p.push((tids.last(), l))[k] == r);
        }
    }
}

/// After the labels are given, each of `tids` has the label `l`.
pub proof fn law_label_given(lbls: Seq<(i64, Seq<char>)>, tids: Seq<i64>, l: Seq<char>)
    ensures
        forall|j: int| 0 <= j < tids.len() ==> with_label_all(lbls, tids, l).contains((#[trigger] tids[j], l)),
    decreases tids.len(),
{
    if tids.len() > 0 {
        let p = with_label_all(lbls, tids.drop_last(), l);
        law_label_given(lbls, tids.drop_last(), l);
        if !p.contains((tids.last(), l)) {
            assert(p.push((tids.last(), l))[p.len() as int] == (tids.last(), l));
        }
        assert forall|j: int| 0 <= j < tids.len() implies with_label_all(lbls, tids, l).contains((#[trigger] tids[j], l)) by {
            if j < tids.len() - 1 {
                assert(tids.drop_last()[j] == tids[j]);
                assert(p.contains((tids[j], l)));
                if !p.contains((tids.last(), l)) {
                    let k = choose|k: int| 0 <= k < p.len() && p[k] == (tids[j], l);
                    assert(p.push((tids.last(), l))[k] == (tids[j], l));
                }
            }
        }
    }
}

/// Giving labels that every one of `tids` has already changes nothing.
pub proof fn lemma_with_label_all_present(lbls: Seq<(i64, Seq<char>)>, tids: Seq<i64>, l: Seq<char>)
    requires
        forall|j: int| 0 <= j < tids.len() ==> lbls.contains((#[trigger] tids[j], l)),
    ensures
        with_label_all(lbls, tids, l) == lbls,
    decreases tids.len(),
{
    if tids.len() > 0 {
        assert forall|j: int| 0 <= j < tids.drop_last().len() implies lbls.contains((#[trigger] tids.drop_last()[j], l)) by {
            assert(tids.drop_last()[j] == tids[j]);
        }
        lemma_with_label_all_present(lbls, tids.drop_last(), l);
        assert(lbls.contains((tids[tids.len() - 1], l)));
    }
}

/// Adding a label to the same notes twice is the same as adding it once.
pub proof fn law_label_add_idempotent(lbls: Seq<(i64, Seq<char>)>, tids: Seq<i64>, l: Seq<char>)
    ensures
        with_label_all(with_label_all(lbls, tids, l), tids, l) == with_label_all(lbls, tids, l),
{
    law_label_given(lbls, tids, l);
    lemma_with_label_all_present(with_label_all(lbls, tids, l), tids, l);
}

/// After the label is taken off, none of `tids` has it, and every other row stays.
pub proof fn law_label_removed(lbls: Seq<(i64, Seq<char>)>, tids: Seq<i64>, l: Seq<char>)
    ensures
        forall|j: int| 0 <= j < tids.len() ==> !without_label(lbls, tids, l).contains((#[trigger] tids[j], l)),
        forall|r: (i64, Seq<char>)| lbls.contains(r) && !(tids.contains(r.0) && r.1 == l) ==> without_label(lbls, tids, l).contains(r),
{
    let f = keeps_row(tids, l);
    assert forall|j: int| 0 <= j < tids.len() implies !without_label(lbls, tids, l).contains((#[trigger] tids[j], l)) by {
        if without_label(lbls, tids, l).contains((tids[j], l)) {
            let k = choose|k: int| 0 <= k < lbls.filter(f).len() && lbls.filter(f)[k] == (tids[j], l);
            lbls.lemma_filter_pred(f, k);
            assert(tids.contains(tids[j]));
        }
    }
    assert forall|r: (i64, Seq<char>)| lbls.contains(r) && !(tids.contains(r.0) && r.1 == l) implies without_label(lbls, tids, l).contains(r) by {
        let k = choose|k: int| 0 <= k < lbls.len() && lbls[k] == r;
        lbls.lemma_filter_contains(f, k);
    }
}

/// The labels of note `tid`, in the order they were added (duplicates kept).
pub open spec fn labels_of(lbls: Seq<(i64, Seq<char>)>, tid: i64) -> Seq<Seq<char>> {
    lbls.filter(|r: (i64, Seq<char>)| r.0 == tid).map_values(|r: (i64, Seq<char>)| r.1)
}

/// The attachments of note `tid` as (path, size), in the order they were added.
pub open spec fn atts_of(atts: Seq<(i64, Seq<char>, i64)>, tid: i64) -> Seq<(Seq<char>, i64)> {
    atts.filter(|r: (i64, Seq<char>, i64)| r.0 == tid).map_values(
        |r: (i64, Seq<char>, i64)| (r.1, r.2),
    )
}

impl StoreV {
    /// Ids are positive and strictly increasing in row order, so each note has its own.
    pub open spec fn wf(self) -> bool {
        &&& forall|i: int, j: int|
            0 <= i < j < self.files.len() ==> self.files[i].tmpid < self.files[j].tmpid
        &&& forall|i: int| 0 <= i < self.files.len() ==> self.files[i].tmpid > 0
    }

    /// A new note can still get an id.
    pub open spec fn can_insert(self) -> bool {
        next_tmpid(self.files) <= i64::MAX
    }
}

/// Giving labels only appends rows: each new one is the label `l` on one of `tids`.
proof fn lemma_with_label_all_appends(lbls: Seq<(i64, Seq<char>)>, tids: Seq<i64>, l: Seq<char>) -> (extra: Seq<(i64, Seq<char>)>)
    ensures
        with_label_all(lbls, tids, l) == lbls + extra,
        forall|i: int| 0 <= i < extra.len() ==> (#[trigger] extra[i]).1 == l && tids.contains(extra[i].0),
    decreases tids.len(),
{
    if tids.len() == 0 {
        assert(lbls + Seq::<(i64, Seq<char>)>::empty() =~= lbls);
        Seq::empty()
    } else {
        let e0 = lemma_with_label_all_appends(lbls, tids.drop_last(), l);
        let p = with_label_all(lbls, tids.drop_last(), l);
        assert forall|i: int| 0 <= i < e0.len() implies tids.contains(#[trigger] e0[i].0) by {
            let k = choose|k: int| 0 <= k < tids.drop_last().len() && tids.drop_last()[k] == e0[i].0;
            assert(tids[k] == e0[i].0);
        }
        assert(tids[tids.len() - 1] == tids.last());
        if p.contains((tids.last(), l)) {
            e0
        } else {
            let e = e0.push((tids.last(), l));
            assert(p.push((tids.last(), l)) =~= lbls + e);
            e
        }
    }
}

/// Keeping the rows of `s` that `f` keeps, where `f` keeps all of them, gives `s`.
proof fn lemma_filter_keeps_all(s: Seq<(i64, Seq<char>)>, f: spec_fn((i64, Seq<char>)) -> bool)
    requires
        forall|i: int| 0 <= i < s.len() ==> f(#[trigger] s[i]),
    ensures
        s.filter(f) == s,
    decreases s.len(),
{
    reveal(Seq::filter);
    if s.len() > 0 {
        lemma_filter_keeps_all(s.drop_last(), f);
        assert(s.drop_last().push(s.last()) =~= s);
    }
}

/// Keeping the rows of `s` that `f` keeps, where `f` keeps none, gives nothing.
proof fn lemma_filter_keeps_none(s: Seq<(i64, Seq<char>)>, f: spec_fn((i64, Seq<char>)) -> bool)
    requires
        forall|i: int| 0 <= i < s.len() ==> !f(#[trigger] s[i]),
    ensures
        s.filter(f) =~= Seq::<(i64, Seq<char>)>::empty(),
    decreases s.len(),
{
    reveal(Seq::filter);
    if s.len() > 0 {
        lemma_filter_keeps_none(s.drop_last(), f);
    }
}

/// Giving `tids` a label that none of them has and then taking it off again gives back
/// the label rows as they were.
pub proof fn law_label_add_then_remove(lbls: Seq<(i64, Seq<char>)>, tids: Seq<i64>, l: Seq<char>)
    requires
        forall|k: int| 0 <= k < lbls.len() ==> !(tids.contains((#[trigger] lbls[k]).0) && lbls[k].1 == l),
    ensures
        without_label(with_label_all(lbls, tids, l), tids, l) == lbls,
{
    let extra = lemma_with_label_all_appends(lbls, tids, l);
    let f = keeps_row(tids, l);
    Seq::filter_distributes_over_add(lbls, extra, f);
    lemma_filter_keeps_all(lbls, f);
    lemma_filter_keeps_none(extra, f);
    assert(lbls + Seq::<(i64, Seq<char>)>::empty() =~= lbls);
    assert((lbls + extra).filter(f) == lbls);
}

/// A path made of `p`, a `/` and a last part without `/` lies in the folder `p`.
proof fn lemma_folder_of_split(p: Seq<char>, q: Seq<char>)
    requires
        !q.contains('/'),
    ensures
        folder_of(p + seq!['/'] + q) == Some(p),
    decreases q.len(),
{
    let r = p + seq!['/'] + q;
    if q.len() == 0 {
        assert(r =~= p.push('/'));
        assert(r.drop_last() =~= p);
    } else {
        assert(!q.drop_last().contains('/')) by {
            if q.drop_last().contains('/') {
                let k = choose|k: int| 0 <= k < q.drop_last().len() && q.drop_last()[k] == '/';
                assert(q[k] == '/');
            }
        }
        lemma_folder_of_split(p, q.drop_last());
        assert(r.drop_last() =~= p + seq!['/'] + q.drop_last());
        assert(r.last() == q[q.len() - 1]);
        assert(r.last() != '/');
    }
}

/// `r` is `p`, a `/`, and `q`, which holds no `/`.
pub open spec fn slash_split(r: Seq<char>, p: Seq<char>, q: Seq<char>) -> bool {
    r == p + seq!['/'] + q && !q.contains('/')
}

/// Where `folder_of` gives a folder, the path is that folder, a `/` and a part without `/`.
proof fn lemma_folder_of_shape(r: Seq<char>)
    ensures
        folder_of(r) is Some ==> exists|q: Seq<char>| #[trigger] slash_split(r, folder_of(r)->0, q),
        folder_of(r) is None ==> !r.contains('/'),
    decreases r.len(),
{
    if r.len() == 0 {
        assert(!r.contains('/'));
    } else {
        lemma_folder_of_shape(r.drop_last());
        if r.last() == '/' {
            assert(folder_of(r) == Some(r.drop_last()));
            assert(r =~= r.drop_last() + seq!['/'] + Seq::<char>::empty());
            assert(!Seq::<char>::empty().contains('/'));
            assert(slash_split(r, r.drop_last(), Seq::<char>::empty()));
            assert(slash_split(r, folder_of(r)->0, Seq::<char>::empty()));
        } else {
            assert(folder_of(r) == folder_of(r.drop_last()));
            match folder_of(r.drop_last()) {
                Some(x) => {
                    let q = choose|q: Seq<char>| slash_split(r.drop_last(), x, q);
                    let q2 = q.push(r.last());
                    assert(r.drop_last() == x + seq!['/'] + q);
                    assert(r =~= r.drop_last().push(r.last()));
                    assert(x + seq!['/'] + q2 =~= (x + seq!['/'] + q).push(r.last()));
                    assert(r =~= x + seq!['/'] + q2);
                    assert(!q2.contains('/')) by {
                        if q2.contains('/') {
                            let k = choose|k: int| 0 <= k < q2.len() && q2[k] == '/';
                            if k < q.len() {
                                assert(q[k] == '/');
                            }
                        }
                    }
                    assert(slash_split(r, x, q2));
                    assert(slash_split(r, folder_of(r)->0, q2));
                },
                None => {
                    assert(!r.contains('/')) by {
                        if r.contains('/') {
                            let k = choose|k: int| 0 <= k < r.len() && r[k] == '/';
                            if k < r.len() - 1 {
                                assert(r.drop_last()[k] == '/');
                            }
                        }
                    }
                },
            }
        }
    }
}

/// The folder of a note path is what comes before its last `/`: `folder_of(r)` is `p`
/// exactly when `r` is `p`, a `/` and a last part without `/`; a path without `/` has
/// none.
pub proof fn law_folder_before_last_slash(r: Seq<char>, p: Seq<char>)
    ensures
        folder_of(r) == Some(p) <==> exists|q: Seq<char>| #[trigger] slash_split(r, p, q),
        folder_of(r) is None <==> !r.contains('/'),
{
    lemma_folder_of_shape(r);
    if exists|q: Seq<char>| #[trigger] slash_split(r, p, q) {
        let q = choose|q: Seq<char>| slash_split(r, p, q);
        lemma_folder_of_split(p, q);
    }
    if !r.contains('/') && folder_of(r) is Some {
        let x = folder_of(r)->0;
        let q = choose|q: Seq<char>| slash_split(r, x, q);
        assert(r[x.len() as int] == '/');
    }
}

/// The number of attachment rows of note `tid`.
pub open spec fn att_rows_of(atts: Seq<(i64, Seq<char>, i64)>, tid: i64) -> nat
    decreases atts.len(),
{
    if atts.len() == 0 {
        0
    } else {
        att_rows_of(atts.drop_last(), tid) + if atts.last().0 == tid { 1nat } else { 0nat }
    }
}

/// What a note's record shows of its attachments is every attachment row of that note:
/// one entry per row, each row's path and size among them, and nothing from another note.
pub proof fn law_atts_of_every_row(atts: Seq<(i64, Seq<char>, i64)>, tid: i64)
    ensures
        atts_of(atts, tid).len() == att_rows_of(atts, tid),
        forall|k: int| 0 <= k < atts.len() && (#[trigger] atts[k]).0 == tid
            ==> atts_of(atts, tid).contains((atts[k].1, atts[k].2)),
        forall|j: int| 0 <= j < atts_of(atts, tid).len() ==> exists|k: int|
            0 <= k < atts.len() && atts[k].0 == tid && #[trigger] atts_of(atts, tid)[j] == (atts[k].1, atts[k].2),
    decreases atts.len(),
{
    reveal(Seq::filter);
    if atts.len() > 0 {
        let init = atts.drop_last();
        law_atts_of_every_row(init, tid);
        let a0 = atts_of(init, tid);
        let a1 = atts_of(atts, tid);
        let last = atts.last();
        if last.0 == tid {
            assert(a1 =~= a0.push((last.1, last.2)));
        } else {
            assert(a1 =~= a0);
        }
        assert forall|k: int| 0 <= k < atts.len() && (#[trigger] atts[k]).0 == tid
            implies a1.contains((atts[k].1, atts[k].2)) by {
            if k < init.len() {
                assert(init[k] == atts[k]);
                assert(a0.contains((init[k].1, init[k].2)));
                let j = choose|j: int| 0 <= j < a0.len() && a0[j] == (init[k].1, init[k].2);
                assert(a1[j] == a0[j]);
            } else {
                assert(atts[k] == last);
                assert(a1[a0.len() as int] == (last.1, last.2));
            }
        }
        assert forall|j: int| 0 <= j < a1.len() implies exists|k: int|
            0 <= k < atts.len() && atts[k].0 == tid && #[trigger] a1[j] == (atts[k].1, atts[k].2) by {
            if j < a0.len() {
                assert(a1[j] == a0[j]);
                let k = choose|k: int| 0 <= k < init.len() && init[k].0 == tid && a0[j] == (init[k].1, init[k].2);
                assert(atts[k] == init[k]);
            } else {
                assert(atts[atts.len() - 1] == last);
            }
        }
    }
}

/// In a well-formed store, the note with id `tid` is the one at `i`.
pub proof fn lemma_tid_unique(v: StoreV, i: int, j: int)
    requires
        v.wf(),
        0 <= i < v.files.len(),
        0 <= j < v.files.len(),
        v.files[i].tmpid == v.files[j].tmpid,
    ensures
        i == j,
{
}

/// The id that the next note gets is greater than every id in the store.
pub proof fn lemma_next_tmpid_fresh(v: StoreV)
    requires
        v.wf(),
    ensures
        forall|i: int| 0 <= i < v.files.len() ==> v.files[i].tmpid < next_tmpid(v.files),
        next_tmpid(v.files) >= 1,
{
}

/// A note added with the next id is found at that id, and every note already there is
/// still found where it was: reading a note back gives what was written.
pub proof fn law_insert_then_find(v: StoreV, f: FileV)
    requires
        v.wf(),
        v.can_insert(),
        f.tmpid == next_tmpid(v.files),
    ensures
        (StoreV { files: v.files.push(f), ..v }).wf(),
        has_tid(v.files.push(f), f.tmpid),
        idx_of(v.files.push(f), f.tmpid) == v.files.len(),
        forall|k: int| 0 <= k < v.files.len() ==> idx_of(v.files.push(f), #[trigger] v.files[k].tmpid) == k,
{
    let w = StoreV { files: v.files.push(f), ..v };
    let fs = w.files;
    lemma_next_tmpid_fresh(v);
    assert(w.wf());
    assert(fs[v.files.len() as int] == f);
    let c = idx_of(fs, f.tmpid);
    lemma_tid_unique(w, c, v.files.len() as int);
    assert forall|k: int| 0 <= k < v.files.len() implies idx_of(fs, #[trigger] v.files[k].tmpid) == k by {
        assert(fs[k] == v.files[k]);
        let d = idx_of(fs, v.files[k].tmpid);
        lemma_tid_unique(w, d, k);
    }
}

/// The three tables of notes, labels and attachments.
pub struct NoteStore {
    files: Vec<FileRow>,
    lbls: Vec<LblRow>,
    atts: Vec<AttRow>,
}

impl View for NoteStore {
    type V = StoreV;

    closed spec fn view(&self) -> StoreV {
        StoreV {
            files: self.files@.map_values(|f: FileRow| f@),
            lbls: self.lbls@.map_values(|r: LblRow| r@),
            atts: self.atts@.map_values(|r: AttRow| r@),
        }
    }
}

impl NoteStore {
    /// An empty store.
    pub fn new() -> (s: NoteStore)
        ensures
            s@.files.len() == 0,
            s@.lbls.len() == 0,
            s@.atts.len() == 0,
            s@.wf(),
    {
        let s = NoteStore { files: Vec::new(), lbls: Vec::new(), atts: Vec::new() };
        assert(s@.files =~= Seq::<FileV>::empty());
        s
    }

    /// Empties all three tables.
    pub fn clear(&mut self)
        ensures
            final(self)@.files.len() == 0,
            final(self)@.lbls.len() == 0,
            final(self)@.atts.len() == 0,
            final(self)@.wf(),
    {
        self.files.clear();
        self.lbls.clear();
        self.atts.clear();
    }

    /// Number of notes.
    pub fn num_files(&self) -> (n: usize)
        ensures
            n == self@.files.len(),
    {
        self.files.len()
    }

    /// The id that the next new note gets: one past the greatest id, or 1 when there is no
    /// note. `None` where that id would not fit in an `i64`.
    pub fn get_avail_tmpid(&self) -> (r: Option<i64>)
        requires
            self@.wf(),
        ensures
            match r {
                Some(t) => t == next_tmpid(self@.files) && self@.can_insert(),
                None => !self@.can_insert(),
            },
    {
        let n = self.files.len();
        if n == 0 {
            Some(1)
        } else {
            let last = self.files[n - 1].tmpid;
            if last == i64::MAX {
                None
            } else {
                Some(last + 1)
            }
        }
    }

    /// The position of note `tid`, if there is one.
    pub fn find(&self, tid: i64) -> (r: Option<usize>)
        requires
            self@.wf(),
        ensures
            match r {
                Some(i) => i < self@.files.len() && self@.files[i as int].tmpid == tid,
                None => !has_tid(self@.files, tid),
            },
    {
        let mut i: usize = 0;
        while i < self.files.len()
            invariant
                i <= self.files@.len(),
                self@.files.len() == self.files@.len(),
                forall|k: int| 0 <= k < self.files@.len() ==> #[trigger] self@.files[k] == self.files@[k]@,
                forall|k: int| 0 <= k < i ==> self@.files[k].tmpid != tid,
            decreases self.files.len() - i,
        {
            if self.files[i].tmpid == tid {
                return Some(i);
            }
            i += 1;
        }
        None
    }

    /// Whether some note has id `tid`.
    pub fn has_file(&self, tid: i64) -> (b: bool)
        requires
            self@.wf(),
        ensures
            b == has_tid(self@.files, tid),
    {
        self.find(tid).is_some()
    }

    /// The note at position `i`.
    pub fn file_at(&self, i: usize) -> (r: &FileRow)
        requires
            i < self@.files.len(),
        ensures
            r@ == self@.files[i as int],
    {
        &self.files[i]
    }

    /// Number of label rows.
    pub fn num_lbls(&self) -> (n: usize)
        ensures
            n == self@.lbls.len(),
    {
        self.lbls.len()
    }

    /// The label row at position `i`.
    pub fn lbl_at(&self, i: usize) -> (r: &LblRow)
        requires
            i < self@.lbls.len(),
        ensures
            r@ == self@.lbls[i as int],
    {
        &self.lbls[i]
    }

    /// Number of attachment rows.
    pub fn num_atts(&self) -> (n: usize)
        ensures
            n == self@.atts.len(),
    {
        self.atts.len()
    }

    /// The attachment row at position `i`.
    pub fn att_at(&self, i: usize) -> (r: &AttRow)
        requires
            i < self@.atts.len(),
        ensures
            r@ == self@.atts[i as int],
    {
        &self.atts[i]
    }

    /// The path of note `tid` relative to the note folder, if there is such a note.
    pub fn rel_of(&self, tid: i64) -> (r: Option<String>)
        requires
            self@.wf(),
        ensures
            match r {
                Some(s) => exists|i: int|
                    0 <= i < self@.files.len() && self@.files[i].tmpid == tid && self@.files[i].rel
                        == s@,
                None => !has_tid(self@.files, tid),
            },
    {
        match self.find(tid) {
            Some(i) => Some(self.files[i].rel.clone()),
            None => None,
        }
    }

    /// The text of note `tid`, if there is such a note.
    pub fn content_of(&self, tid: i64) -> (r: Option<String>)
        requires
            self@.wf(),
        ensures
            match r {
                Some(s) => exists|i: int|
                    0 <= i < self@.files.len() && self@.files[i].tmpid == tid
                        && self@.files[i].content == s@,
                None => !has_tid(self@.files, tid),
            },
    {
        match self.find(tid) {
            Some(i) => Some(self.files[i].content.clone()),
            None => None,
        }
    }

    /// Adds a note with the next free id and returns that id.
    pub fn insert_file(&mut self, size: i64, mtime: i64, rel: String, content: String) -> (tid: i64)
        requires
            old(self)@.wf(),
            old(self)@.can_insert(),
        ensures
            tid == next_tmpid(old(self)@.files),
            final(self)@.files == old(self)@.files.push(
                FileV { tmpid: tid, size, mtime, rel: rel@, content: content@ },
            ),
            final(self)@.lbls == old(self)@.lbls,
            final(self)@.atts == old(self)@.atts,
            final(self)@.wf(),
    {
        let tid = match self.get_avail_tmpid() {
            Some(t) => t,
            None => 1,
        };
        let row = FileRow { tmpid: tid, size, mtime, rel, content };
        self.files.push(row);
        assert(self@.files =~= old(self)@.files.push(row@));
        tid
    }

    /// Adds the label row (`tid`, `lbl`) unconditionally.
    pub fn push_label(&mut self, tid: i64, lbl: String)
        ensures
            final(self)@.lbls == old(self)@.lbls.push((tid, lbl@)),
            final(self)@.files == old(self)@.files,
            final(self)@.atts == old(self)@.atts,
    {
        let row = LblRow { tmpid: tid, lbl };
        self.lbls.push(row);
        assert(self@.lbls =~= old(self)@.lbls.push(row@));
        assert(self@.files =~= old(self)@.files);
        assert(self@.atts =~= old(self)@.atts);
    }

    /// Adds the attachment row (`tid`, `rel`, `size`).
    pub fn push_attachment(&mut self, tid: i64, rel: String, size: i64)
        ensures
            final(self)@.atts == old(self)@.atts.push((tid, rel@, size)),
            final(self)@.files == old(self)@.files,
            final(self)@.lbls == old(self)@.lbls,
    {
        let row = AttRow { tmpid: tid, rel, size };
        self.atts.push(row);
        assert(self@.atts =~= old(self)@.atts.push(row@));
        assert(self@.files =~= old(self)@.files);
        assert(self@.lbls =~= old(self)@.lbls);
    }

    /// Whether note `tid` has the label `lbl`.
    pub fn has_label(&self, tid: i64, lbl: &str) -> (b: bool)
        ensures
            b == self@.lbls.contains((tid, lbl@)),
    {
        let mut i: usize = 0;
        while i < self.lbls.len()
            invariant
                i <= self.lbls@.len(),
                self@.lbls.len() == self.lbls@.len(),
                forall|k: int| 0 <= k < self.lbls@.len() ==> #[trigger] self@.lbls[k] == self.lbls@[k]@,
                forall|k: int| 0 <= k < i ==> self@.lbls[k] != (tid, lbl@),
            decreases self.lbls.len() - i,
        {
            if self.lbls[i].tmpid == tid && same_text(self.lbls[i].lbl.as_str(), lbl) {
                assert(self@.lbls[i as int] == (tid, lbl@));
                return true;
            }
            i += 1;
        }
        false
    }

    /// Gives note `tid` the label `lbl` unless it has it already; a new row goes last.
    pub fn add_label(&mut self, tid: i64, lbl: &str)
        ensures
            old(self)@.lbls.contains((tid, lbl@)) ==> final(self)@.lbls == old(self)@.lbls,
            !old(self)@.lbls.contains((tid, lbl@)) ==> final(self)@.lbls == old(self)@.lbls.push(
                (tid, lbl@),
            ),
            final(self)@.files == old(self)@.files,
            final(self)@.atts == old(self)@.atts,
    {
        if !self.has_label(tid, lbl) {
            self.push_label(tid, lbl.to_owned());
        }
    }

    /// Takes the label `lbl` off note `tid` (every such row).
    pub fn remove_label(&mut self, tid: i64, lbl: &str)
        ensures
            final(self)@.lbls == old(self)@.lbls.filter(
                |r: (i64, Seq<char>)| r != (tid, lbl@),
            ),
            final(self)@.files == old(self)@.files,
            final(self)@.atts == old(self)@.atts,
    {
        let ghost orig = self@.lbls;
        let mut kept: Vec<LblRow> = Vec::new();
        let mut i: usize = 0;
        while i < self.lbls.len()
            invariant
                i <= self.lbls@.len(),
                orig.len() == self.lbls@.len(),
                forall|k: int| 0 <= k < self.lbls@.len() ==> #[trigger] orig[k] == self.lbls@[k]@,
                kept@.map_values(|r: LblRow| r@) == orig.take(i as int).filter(
                    |r: (i64, Seq<char>)| r != (tid, lbl@),
                ),
            decreases self.lbls.len() - i,
        {
            let row = &self.lbls[i];
            reveal(Seq::filter);
            assert(orig.take(i + 1).drop_last() == orig.take(i as int));
            let ghost prev = kept@.map_values(|r: LblRow| r@);
            if !(row.tmpid == tid && same_text(row.lbl.as_str(), lbl)) {
                let nr = LblRow { tmpid: row.tmpid, lbl: row.lbl.clone() };
                kept.push(nr);
                assert(kept@.map_values(|r: LblRow| r@) =~= prev.push(orig[i as int]));
            }
            assert(kept@.map_values(|r: LblRow| r@) =~= orig.take(i + 1).filter(
                |r: (i64, Seq<char>)| r != (tid, lbl@),
            ));
            i += 1;
        }
        assert(orig.take(orig.len() as int) == orig);
        let ghost f = self@.files;
        let ghost a = self@.atts;
        self.lbls = kept;
        assert(self@.files == f);
        assert(self@.atts == a);
    }

    /// The labels of note `tid`, in the order they were added.
    pub fn labels_of(&self, tid: i64) -> (r: Vec<String>)
        ensures
            views(r@) == labels_of(self@.lbls, tid),
    {
        let ghost orig = self@.lbls;
        let mut out: Vec<String> = Vec::new();
        let mut i: usize = 0;
        while i < self.lbls.len()
            invariant
                i <= self.lbls@.len(),
                orig == self@.lbls,
                orig.len() == self.lbls@.len(),
                forall|k: int| 0 <= k < self.lbls@.len() ==> #[trigger] orig[k] == self.lbls@[k]@,
                views(out@) == labels_of(orig.take(i as int), tid),
            decreases self.lbls.len() - i,
        {
            reveal(Seq::filter);
            assert(orig.take(i + 1).drop_last() == orig.take(i as int));
            let ghost prev = views(out@);
            let ghost fprev = orig.take(i as int).filter(|r: (i64, Seq<char>)| r.0 == tid);
            if self.lbls[i].tmpid == tid {
                out.push(self.lbls[i].lbl.clone());
                assert(views(out@) =~= prev.push(orig[i as int].1));
                assert(orig.take(i + 1).filter(|r: (i64, Seq<char>)| r.0 == tid) == fprev.push(orig[i as int]));
                assert(fprev.push(orig[i as int]).map_values(|r: (i64, Seq<char>)| r.1) =~= fprev.map_values(|r: (i64, Seq<char>)| r.1).push(orig[i as int].1));
            } else {
                assert(orig.take(i + 1).filter(|r: (i64, Seq<char>)| r.0 == tid) == fprev);
            }
            assert(views(out@) =~= labels_of(orig.take(i + 1), tid));
            i += 1;
        }
        assert(orig.take(orig.len() as int) == orig);
        out
    }

    /// The attachments of note `tid` as (path, size), in the order they were added.
    pub fn atts_of(&self, tid: i64) -> (r: Vec<AttRow>)
        ensures
            r@.map_values(|a: AttRow| (a.rel@, a.size)) == atts_of(self@.atts, tid),
            forall|k: int| 0 <= k < r@.len() ==> r@[k].tmpid == tid,
    {
        let ghost orig = self@.atts;
        let mut out: Vec<AttRow> = Vec::new();
        let mut i: usize = 0;
        while i < self.atts.len()
            invariant
                i <= self.atts@.len(),
                orig == self@.atts,
                orig.len() == self.atts@.len(),
                forall|k: int| 0 <= k < self.atts@.len() ==> #[trigger] orig[k] == self.atts@[k]@,
                out@.map_values(|a: AttRow| (a.rel@, a.size)) == atts_of(orig.take(i as int), tid),
                forall|k: int| 0 <= k < out@.len() ==> out@[k].tmpid == tid,
            decreases self.atts.len() - i,
        {
            reveal(Seq::filter);
            assert(orig.take(i + 1).drop_last() == orig.take(i as int));
            let ghost prev = out@.map_values(|a: AttRow| (a.rel@, a.size));
            let ghost fprev = orig.take(i as int).filter(|r: (i64, Seq<char>, i64)| r.0 == tid);
            if self.atts[i].tmpid == tid {
                out.push(self.atts[i].duplicate());
                assert(out@.map_values(|a: AttRow| (a.rel@, a.size)) =~= prev.push((orig[i as int].1, orig[i as int].2)));
                assert(orig.take(i + 1).filter(|r: (i64, Seq<char>, i64)| r.0 == tid) == fprev.push(orig[i as int]));
                assert(fprev.push(orig[i as int]).map_values(|r: (i64, Seq<char>, i64)| (r.1, r.2)) =~= fprev.map_values(|r: (i64, Seq<char>, i64)| (r.1, r.2)).push((orig[i as int].1, orig[i as int].2)));
            } else {
                assert(orig.take(i + 1).filter(|r: (i64, Seq<char>, i64)| r.0 == tid) == fprev);
            }
            assert(out@.map_values(|a: AttRow| (a.rel@, a.size)) =~= atts_of(orig.take(i + 1), tid));
            i += 1;
        }
        assert(orig.take(orig.len() as int) == orig);
        out
    }

    /// All labels in use, each once, in increasing order.
    pub fn distinct_labels(&self) -> (r: Vec<String>)
        ensures
            strictly_sorted(views(r@)),
            forall|x: Seq<char>| #[trigger] views(r@).contains(x) <==> label_in_use(self@.lbls, x),
    {
        let r = self.labels_matching("");
        proof {
            reveal_strlit("");
            assert forall|x: Seq<char>| #[trigger] views(r@).contains(x) <==> label_in_use(self@.lbls, x) by {
                assert(x.subrange(0, 0) =~= ""@);
                assert(crate::text::occurs_at(x, ""@, 0));
                assert(has_sub(x, ""@));
            }
        }
        r
    }

    /// The labels in use that contain `pat` (an empty `pat` is in every label), each once,
    /// in increasing order.
    pub fn labels_matching(&self, pat: &str) -> (r: Vec<String>)
        ensures
            strictly_sorted(views(r@)),
            forall|x: Seq<char>|
                #[trigger] views(r@).contains(x) <==> (has_sub(x, pat@) && label_in_use(self@.lbls, x)),
    {
        let p = to_chars(pat);
        let mut all: Vec<String> = Vec::new();
        let mut i: usize = 0;
        while i < self.lbls.len()
            invariant
                i <= self.lbls@.len(),
                self@.lbls.len() == self.lbls@.len(),
                p@ == pat@,
                forall|k: int| 0 <= k < self.lbls@.len() ==> #[trigger] self@.lbls[k] == self.lbls@[k]@,
                forall|x: Seq<char>|
                    #[trigger] views(all@).contains(x) <==> label_seen(self@.lbls, pat@, i as int, x),
            decreases self.lbls.len() - i,
        {
            let c = to_chars(self.lbls[i].lbl.as_str());
            let ghost prev = views(all@);
            let ghost cur = self@.lbls[i as int].1;
            assert(c@ == cur);
            let hit = contains_sub(c.as_slice(), p.as_slice());
            if hit {
                all.push(self.lbls[i].lbl.clone());
                assert(views(all@) =~= prev.push(cur));
            }
            assert forall|x: Seq<char>|
                #[trigger] views(all@).contains(x) <==> label_seen(self@.lbls, pat@, i + 1, x) by {
                if views(all@).contains(x) {
                    let j = choose|j: int| 0 <= j < views(all@).len() && views(all@)[j] == x;
                    if j < prev.len() {
                        assert(prev[j] == x);
                        assert(prev.contains(x));
                    } else {
                        assert(x == cur);
                    }
                }
                if label_seen(self@.lbls, pat@, i + 1, x) {
                    let k = choose|k: int| 0 <= k < i + 1 && self@.lbls[k].1 == x;
                    if k < i {
                        assert(prev.contains(x));
                        let j = choose|j: int| 0 <= j < prev.len() && prev[j] == x;
                        assert(views(all@)[j] == x);
                    } else {
                        assert(x == cur);
                        assert(hit);
                        assert(views(all@)[prev.len() as int] == x);
                    }
                }
            }
            i += 1;
        }
        sorted_distinct(all.as_slice())
    }

    /// The ids of the (at most) `k` most recent notes, most recent first (see [`newer`]:
    /// of two notes with the same time, the one with the greater id counts as more recent).
    pub fn recent(&self, k: usize) -> (r: Vec<i64>)
        requires
            self@.wf(),
        ensures
            r@.len() <= k,
            forall|j: int| 0 <= j < r@.len() ==> has_tid(self@.files, #[trigger] r@[j]),
            forall|j: int, l: int|
                0 <= j < l < r@.len() ==> newer(
                    self@.files[idx_of(self@.files, r@[j])],
                    self@.files[idx_of(self@.files, r@[l])],
                ),
            forall|i: int, j: int|
                0 <= i < self@.files.len() && 0 <= j < r@.len() && !r@.contains(self@.files[i].tmpid)
                    ==> newer(self@.files[idx_of(self@.files, r@[j])], self@.files[i]),
            r@.len() < k ==> forall|i: int|
                0 <= i < self@.files.len() ==> r@.contains(#[trigger] self@.files[i].tmpid),
    {
        let n = self.files.len();
        let ghost f = self@.files;
        let mut taken: Vec<bool> = Vec::new();
        let mut t: usize = 0;
        while t < n
            invariant
                t <= n,
                taken@.len() == t,
                forall|q: int| 0 <= q < t ==> !taken@[q],
            decreases n - t,
        {
            taken.push(false);
            t += 1;
        }
        let mut res: Vec<i64> = Vec::new();
        let mut ridx: Vec<usize> = Vec::new();
        while res.len() < k
            invariant
                n == f.len(),
                f == self@.files,
                self@.wf(),
                self@.files.len() == self.files@.len(),
                forall|q: int| 0 <= q < self.files@.len() ==> #[trigger] self@.files[q] == self.files@[q]@,
                taken@.len() == n,
                res@.len() == ridx@.len(),
                res@.len() <= k,
                forall|j: int| 0 <= j < ridx@.len() ==> ridx@[j] < n && taken@[ridx@[j] as int],
                forall|j: int| 0 <= j < ridx@.len() ==> res@[j] == f[ridx@[j] as int].tmpid,
                forall|q: int| 0 <= q < n && taken@[q] ==> exists|j: int| 0 <= j < ridx@.len() && ridx@[j] == q,
                forall|j: int, l: int| 0 <= j < l < ridx@.len() ==> newer(f[ridx@[j] as int], f[ridx@[l] as int]),
                forall|q: int, j: int| 0 <= q < n && !taken@[q] && 0 <= j < ridx@.len()
                    ==> newer(f[ridx@[j] as int], f[q]),
            ensures
                res@.len() <= k,
                forall|j: int| 0 <= j < ridx@.len() ==> ridx@[j] < n && taken@[ridx@[j] as int],
                forall|j: int| 0 <= j < ridx@.len() ==> res@[j] == f[ridx@[j] as int].tmpid,
                forall|q: int| 0 <= q < n && taken@[q] ==> exists|j: int| 0 <= j < ridx@.len() && ridx@[j] == q,
                forall|j: int, l: int| 0 <= j < l < ridx@.len() ==> newer(f[ridx@[j] as int], f[ridx@[l] as int]),
                forall|q: int, j: int| 0 <= q < n && !taken@[q] && 0 <= j < ridx@.len()
                    ==> newer(f[ridx@[j] as int], f[q]),
                res@.len() < k ==> forall|q: int| 0 <= q < n ==> taken@[q],
                res@.len() == ridx@.len(),
            decreases k - res.len(),
        {
            let mut best: Option<usize> = None;
            let mut q: usize = 0;
            while q < n
                invariant
                    q <= n,
                    n == f.len(),
                    f == self@.files,
                    taken@.len() == n,
                    self@.files.len() == self.files@.len(),
                    forall|p: int| 0 <= p < self.files@.len() ==> #[trigger] self@.files[p] == self.files@[p]@,
                    match best {
                        Some(b) => b < q && !taken@[b as int] && forall|p: int|
                            0 <= p < q && !taken@[p] && p != b ==> newer(f[b as int], f[p]),
                        None => forall|p: int| 0 <= p < q ==> taken@[p],
                    },
                    self@.wf(),
                decreases n - q,
            {
                if !taken[q] {
                    match best {
                        None => {
                            best = Some(q);
                        },
                        Some(b) => {
                            let fb = &self.files[b];
                            let fq = &self.files[q];
                            if fq.mtime > fb.mtime || (fq.mtime == fb.mtime && fq.tmpid > fb.tmpid) {
                                best = Some(q);
                                proof {
                                    assert forall|p: int|
                                        0 <= p < q + 1 && !taken@[p] && p != q implies newer(f[q as int], f[p]) by {
                                        if p != b {
                                            assert(newer(f[b as int], f[p]));
                                        }
                                    }
                                }
                            } else {
                                proof {
                                    assert(f[b as int].tmpid != f[q as int].tmpid);
                                }
                            }
                        },
                    }
                }
                q += 1;
            }
            match best {
                None => {
                    break;
                },
                Some(b) => {
                    let ghost old_ridx = ridx@;
                    let ghost old_taken = taken@;
                    taken.set(b, true);
                    ridx.push(b);
                    res.push(self.files[b].tmpid);
                    proof {
                        assert forall|qq: int| 0 <= qq < n && taken@[qq] implies exists|j: int|
                            0 <= j < ridx@.len() && ridx@[j] == qq by {
                            if qq == b {
                                assert(ridx@[old_ridx.len() as int] == qq);
                            } else {
                                assert(old_taken[qq]);
                                let j = choose|j: int| 0 <= j < old_ridx.len() && old_ridx[j] == qq;
                                assert(ridx@[j] == qq);
                            }
                        }
                        assert forall|j: int, l: int| 0 <= j < l < ridx@.len() implies newer(
                            f[ridx@[j] as int], f[ridx@[l] as int]) by {
                            if l == old_ridx.len() {
                                assert(ridx@[l] == b);
                                assert(!old_taken[b as int]);
                            }
                        }
                        assert forall|qq: int, j: int| 0 <= qq < n && !taken@[qq] && 0 <= j < ridx@.len()
                            implies newer(f[ridx@[j] as int], f[qq]) by {
                            if j == old_ridx.len() {
                                assert(ridx@[j] == b);
                            }
                        }
                    }
                },
            }
        }
        proof {
            assert forall|j: int| 0 <= j < res@.len() implies has_tid(self@.files, #[trigger] res@[j]) by {
                assert(f[ridx@[j] as int].tmpid == res@[j]);
            }
            assert forall|j: int| 0 <= j < res@.len() implies idx_of(f, res@[j]) == ridx@[j] as int by {
                assert(f[ridx@[j] as int].tmpid == res@[j]);
                let c = idx_of(f, res@[j]);
                lemma_tid_unique(self@, c, ridx@[j] as int);
            }
            assert forall|i: int, j: int|
                0 <= i < f.len() && 0 <= j < res@.len() && !res@.contains(f[i].tmpid)
                    implies newer(f[idx_of(f, res@[j])], f[i]) by {
                if taken@[i] {
                    let jj = choose|jj: int| 0 <= jj < ridx@.len() && ridx@[jj] == i;
                    assert(res@[jj] == f[i].tmpid);
                }
            }
            if res@.len() < k {
                assert forall|i: int| 0 <= i < f.len() implies res@.contains(#[trigger] f[i].tmpid) by {
                    assert(taken@[i]);
                    let jj = choose|jj: int| 0 <= jj < ridx@.len() && ridx@[jj] == i;
                    assert(res@[jj] == f[i].tmpid);
                }
            }
        }
        res
    }

    /// Takes the label `lbl` off each note of `tids` (every such row).
    pub fn remove_label_many(&mut self, tids: &[i64], lbl: &str)
        ensures
            final(self)@.lbls == without_label(old(self)@.lbls, tids@, lbl@),
            final(self)@.files == old(self)@.files,
            final(self)@.atts == old(self)@.atts,
    {
        let ghost orig = self@.lbls;
        let mut kept: Vec<LblRow> = Vec::new();
        let mut i: usize = 0;
        while i < self.lbls.len()
            invariant
                i <= self.lbls@.len(),
                orig.len() == self.lbls@.len(),
                forall|k: int| 0 <= k < self.lbls@.len() ==> #[trigger] orig[k] == self.lbls@[k]@,
                kept@.map_values(|r: LblRow| r@) == without_label(orig.take(i as int), tids@, lbl@),
            decreases self.lbls.len() - i,
        {
            let row = &self.lbls[i];
            reveal(Seq::filter);
            assert(orig.take(i + 1).drop_last() == orig.take(i as int));
            let mut listed = false;
            let mut k: usize = 0;
            while k < tids.len()
                invariant
                    k <= tids@.len(),
                    listed == (exists|j: int| 0 <= j < k && tids@[j] == row.tmpid),
                decreases tids.len() - k,
            {
                if tids[k] == row.tmpid {
                    listed = true;
                }
                k += 1;
            }
            assert(listed == tids@.contains(row.tmpid));
            let ghost prev = kept@.map_values(|r: LblRow| r@);
            if !(listed && same_text(row.lbl.as_str(), lbl)) {
                kept.push(LblRow { tmpid: row.tmpid, lbl: row.lbl.clone() });
                assert(kept@.map_values(|r: LblRow| r@) =~= prev.push(orig[i as int]));
            }
            assert(kept@.map_values(|r: LblRow| r@) =~= without_label(orig.take(i + 1), tids@, lbl@));
            i += 1;
        }
        assert(orig.take(orig.len() as int) == orig);
        let ghost f = self@.files;
        let ghost a = self@.atts;
        self.lbls = kept;
        assert(self@.files == f);
        assert(self@.atts == a);
    }

    /// Gives each note of `tids` in turn the label `lbl` unless it has it already.
    pub fn add_label_many(&mut self, tids: &[i64], lbl: &str)
        ensures
            final(self)@.lbls == with_label_all(old(self)@.lbls, tids@, lbl@),
            final(self)@.files == old(self)@.files,
            final(self)@.atts == old(self)@.atts,
    {
        let mut i: usize = 0;
        while i < tids.len()
            invariant
                i <= tids@.len(),
                self@.lbls == with_label_all(old(self)@.lbls, tids@.take(i as int), lbl@),
                self@.files == old(self)@.files,
                self@.atts == old(self)@.atts,
            decreases tids.len() - i,
        {
            self.add_label(tids[i], lbl);
            assert(tids@.take(i + 1).drop_last() == tids@.take(i as int));
            i += 1;
        }
        assert(tids@.take(tids@.len() as int) == tids@);
    }

    /// Deletes the notes of `tids` with all their labels and attachments.
    pub fn delete_notes(&mut self, tids: &[i64])
        requires
            old(self)@.wf(),
        ensures
            final(self)@.files == old(self)@.files.filter(|f: FileV| !tids@.contains(f.tmpid)),
            final(self)@.lbls == old(self)@.lbls.filter(|r: (i64, Seq<char>)| !tids@.contains(r.0)),
            final(self)@.atts == old(self)@.atts.filter(|r: (i64, Seq<char>, i64)| !tids@.contains(r.0)),
            final(self)@.wf(),
    {
        let ghost of = self@.files;
        let mut kf: Vec<FileRow> = Vec::new();
        let mut i: usize = 0;
        while i < self.files.len()
            invariant
                i <= self.files@.len(),
                of == self@.files,
                of.len() == self.files@.len(),
                old(self)@.wf(),
                of == old(self)@.files,
                forall|k: int| 0 <= k < self.files@.len() ==> #[trigger] of[k] == self.files@[k]@,
                kf@.map_values(|f: FileRow| f@) == of.take(i as int).filter(|f: FileV| !tids@.contains(f.tmpid)),
                forall|a: int, b: int| 0 <= a < b < kf@.len() ==> kf@[a].tmpid < kf@[b].tmpid,
                forall|a: int| 0 <= a < kf@.len() ==> kf@[a].tmpid > 0,
                forall|a: int, k: int| 0 <= a < kf@.len() && i <= k < of.len() ==> kf@[a].tmpid < of[k].tmpid,
            decreases self.files.len() - i,
        {
            reveal(Seq::filter);
            assert(of.take(i + 1).drop_last() == of.take(i as int));
            let ghost prev = kf@.map_values(|f: FileRow| f@);
            if !contains_id(tids, self.files[i].tmpid) {
                kf.push(self.files[i].duplicate());
                assert(kf@.map_values(|f: FileRow| f@) =~= prev.push(of[i as int]));
            }
            assert(kf@.map_values(|f: FileRow| f@) =~= of.take(i + 1).filter(|f: FileV| !tids@.contains(f.tmpid)));
            i += 1;
        }
        assert(of.take(of.len() as int) == of);

        let ghost ol = self@.lbls;
        let mut kl: Vec<LblRow> = Vec::new();
        let mut i: usize = 0;
        while i < self.lbls.len()
            invariant
                i <= self.lbls@.len(),
                ol == self@.lbls,
                ol.len() == self.lbls@.len(),
                forall|k: int| 0 <= k < self.lbls@.len() ==> #[trigger] ol[k] == self.lbls@[k]@,
                kl@.map_values(|r: LblRow| r@) == ol.take(i as int).filter(|r: (i64, Seq<char>)| !tids@.contains(r.0)),
            decreases self.lbls.len() - i,
        {
            reveal(Seq::filter);
            assert(ol.take(i + 1).drop_last() == ol.take(i as int));
            let ghost prev = kl@.map_values(|r: LblRow| r@);
            if !contains_id(tids, self.lbls[i].tmpid) {
                kl.push(LblRow { tmpid: self.lbls[i].tmpid, lbl: self.lbls[i].lbl.clone() });
                assert(kl@.map_values(|r: LblRow| r@) =~= prev.push(ol[i as int]));
            }
            assert(kl@.map_values(|r: LblRow| r@) =~= ol.take(i + 1).filter(|r: (i64, Seq<char>)| !tids@.contains(r.0)));
            i += 1;
        }
        assert(ol.take(ol.len() as int) == ol);

        let ghost oa = self@.atts;
        let mut ka: Vec<AttRow> = Vec::new();
        let mut i: usize = 0;
        while i < self.atts.len()
            invariant
                i <= self.atts@.len(),
                oa == self@.atts,
                oa.len() == self.atts@.len(),
                forall|k: int| 0 <= k < self.atts@.len() ==> #[trigger] oa[k] == self.atts@[k]@,
                ka@.map_values(|r: AttRow| r@) == oa.take(i as int).filter(|r: (i64, Seq<char>, i64)| !tids@.contains(r.0)),
            decreases self.atts.len() - i,
        {
            reveal(Seq::filter);
            assert(oa.take(i + 1).drop_last() == oa.take(i as int));
            let ghost prev = ka@.map_values(|r: AttRow| r@);
            if !contains_id(tids, self.atts[i].tmpid) {
                ka.push(self.atts[i].duplicate());
                assert(ka@.map_values(|r: AttRow| r@) =~= prev.push(oa[i as int]));
            }
            assert(ka@.map_values(|r: AttRow| r@) =~= oa.take(i + 1).filter(|r: (i64, Seq<char>, i64)| !tids@.contains(r.0)));
            i += 1;
        }
        assert(oa.take(oa.len() as int) == oa);
        self.files = kf;
        self.lbls = kl;
        self.atts = ka;
    }
}

/// Every folder that holds a note, and the top folder `""`, each once, in increasing
/// order.
pub fn get_all_folders(db: &NoteStore) -> (r: Vec<String>)
    ensures
        strictly_sorted(views(r@)),
        forall|x: Seq<char>| #[trigger] views(r@).contains(x) <==> is_folder(db@.files, x),
{
    let mut all: Vec<String> = Vec::new();
    all.push(String::new());
    assert forall|x: Seq<char>|
        #[trigger] views(all@).contains(x) <==> (x.len() == 0 || exists|k: int|
            0 <= k < 0 && folder_of(db@.files[k].rel) == Some(x)) by {
        if x.len() == 0 {
            assert(x =~= views(all@)[0]);
        }
        if views(all@).contains(x) {
            let j = choose|j: int| 0 <= j < views(all@).len() && views(all@)[j] == x;
            assert(j == 0);
        }
    }
    let mut i: usize = 0;
    while i < db.files.len()
        invariant
            i <= db.files@.len(),
            db@.files.len() == db.files@.len(),
            forall|k: int| 0 <= k < db.files@.len() ==> #[trigger] db@.files[k] == db.files@[k]@,
            forall|x: Seq<char>|
                #[trigger] views(all@).contains(x) <==> (x.len() == 0 || exists|k: int|
                    0 <= k < i && folder_of(db@.files[k].rel) == Some(x)),
        decreases db.files.len() - i,
    {
        let c = to_chars(db.files[i].rel.as_str());
        let ghost prev = views(all@);
        let ghost fo = folder_of(db@.files[i as int].rel);
        match folder_of_exec(c.as_slice()) {
            Some(v) => {
                all.push(from_chars(v.as_slice()));
                assert(views(all@) =~= prev.push(v@));
            },
            None => {},
        }
        assert forall|x: Seq<char>|
            #[trigger] views(all@).contains(x) <==> (x.len() == 0 || exists|k: int|
                0 <= k < i + 1 && folder_of(db@.files[k].rel) == Some(x)) by {
            if views(all@).contains(x) {
                let j = choose|j: int| 0 <= j < views(all@).len() && views(all@)[j] == x;
                if j < prev.len() {
                    assert(prev[j] == x);
                    assert(prev.contains(x));
                } else {
                    assert(fo == Some(x));
                }
            }
            if x.len() == 0 {
                assert(prev.contains(x));
                let j = choose|j: int| 0 <= j < prev.len() && prev[j] == x;
                assert(views(all@)[j] == x);
            } else if exists|k: int| 0 <= k < i + 1 && folder_of(db@.files[k].rel) == Some(x) {
                let k = choose|k: int| 0 <= k < i + 1 && folder_of(db@.files[k].rel) == Some(x);
                if k < i {
                    assert(prev.contains(x));
                    let j = choose|j: int| 0 <= j < prev.len() && prev[j] == x;
                    assert(views(all@)[j] == x);
                } else {
                    assert(views(all@)[prev.len() as int] == x);
                }
            }
        }
        i += 1;
    }
    sorted_distinct(all.as_slice())
}

/// Adds a note created by the browser itself: size 1 and a text of a single newline, as
/// its new `note` file holds.
pub fn ins_file(db: &mut NoteStore, mtime: i64, rel: &str) -> (tid: i64)
    requires
        old(db)@.wf(),
        old(db)@.can_insert(),
    ensures
        tid == next_tmpid(old(db)@.files),
        final(db)@.files == old(db)@.files.push(
            FileV { tmpid: tid, size: 1, mtime, rel: rel@, content: seq!['\n'] },
        ),
        final(db)@.lbls == old(db)@.lbls,
        final(db)@.atts == old(db)@.atts,
        final(db)@.wf(),
{
    let nl = String::from_str("\n");
    assert(nl@ == seq!['\n']) by {
        reveal_strlit("\n");
    }
    db.insert_file(1, mtime, rel.to_owned(), nl)
}

/// Whether `x` occurs in `ids`.
pub fn contains_id(ids: &[i64], x: i64) -> (b: bool)
    ensures
        b == ids@.contains(x),
{
    let mut k: usize = 0;
    while k < ids.len()
        invariant
            k <= ids@.len(),
            forall|j: int| 0 <= j < k ==> ids@[j] != x,
        decreases ids.len() - k,
    {
        if ids[k] == x {
            assert(ids@[k as int] == x);
            return true;
        }
        k += 1;
    }
    false
}

} // verus!
