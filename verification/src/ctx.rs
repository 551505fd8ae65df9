//! The browser's state between commands: where the notes live, the line being read, the
//! chosen folder and label, the filter buffer of listed notes, and the note store.
use vstd::prelude::*;
use crate::text::{to_chars, from_chars, views, path_join, path_push, path_join_all, path_push_all, split_by, split_chars};
use crate::store::{contains_id, get_all_folders, ins_file, next_tmpid, is_folder, folder_of, newer, label_in_use, with_label_all, without_label, label_seen, NoteStore, StoreV, FileV, AttRow, has_tid, idx_of, labels_of, atts_of, lemma_tid_unique};
use crate::text::{utf8_len, is_ascii_alnum, join_by, join_strings, has_sub, parse_usize, parse_usize_spec};
use crate::order::strictly_sorted;
use crate::info::{auto_labels, auto_label_list, InfoJsonElem, INFO_FN, kept_labels, keep_underscore_labels};
use crate::timefmt::{millis2display, chrono_utc_text};
use crate::sqlite::{sqlite_like, sqlite_glob, query_like, query_glob, query_fits, db_files, db_lbls, db_atts, db_filter_buf, open_in_memory, create_tables, insert_file_row, insert_lbl_row, insert_att_row, insert_filter_row, where_query};
use crate::cmd::{Command, parse_command, command_spec};

verus! {

/// An error of the browser's own.
#[derive(Debug)]
pub enum CustomErr {
    /// A note id that names no note.
    TmpidInvalid,
    /// The ids for new notes are used up.
    IdsExhausted,
    /// Ids to list that repeat an id or hold `i64::MIN`, or a new note whose id the table
    /// of listed ids holds already.
    DuplicateIds,
    /// SQLite reported an error.
    Sql(rusqlite::Error),
}

/// Where the browser keeps its files, and what it remembers between commands.
pub struct CtxDef {
    pub home_dir: String,
    pub everycom: String,
    pub app_support_dir: String,
    pub note_dir: String,
    pub lock_p: String,
    pub iline: String,
    pub iline_argidx: usize,
    pub editor_cmd: Vec<String>,
    pub chosen_dir: String,
    pub chosen_lbl: String,
    pub filter_buf: Vec<i64>,
}

impl CtxDef {
    /// The places under `home_dir`: `.everycom`, in it the folder named `pkg_name`, and in
    /// that the lock file `lock` and the note folder `note`. Nothing is chosen yet.
    pub fn init(home_dir: String, pkg_name: &str) -> (r: CtxDef)
        ensures
            r.home_dir@ == home_dir@,
            r.everycom@ == path_join(home_dir@, ".everycom"@),
            r.app_support_dir@ == path_join(r.everycom@, pkg_name@),
            r.lock_p@ == path_join(r.app_support_dir@, "lock"@),
            r.note_dir@ == path_join(r.app_support_dir@, "note"@),
            r.iline@.len() == 0,
            r.iline_argidx == 0,
            r.editor_cmd@.len() == 0,
            r.chosen_dir@.len() == 0,
            r.chosen_lbl@.len() == 0,
            r.filter_buf@.len() == 0,
    {
        let mut everycom = home_dir.clone();
        path_push(&mut everycom, ".everycom");
        let mut app_support_dir = everycom.clone();
        path_push(&mut app_support_dir, pkg_name);
        let mut lock_p = app_support_dir.clone();
        path_push(&mut lock_p, "lock");
        let mut note_dir = app_support_dir.clone();
        path_push(&mut note_dir, "note");
        CtxDef {
            home_dir,
            everycom,
            app_support_dir,
            note_dir,
            lock_p,
            iline: String::new(),
            iline_argidx: 0,
            editor_cmd: Vec::new(),
            chosen_dir: String::new(),
            chosen_lbl: String::new(),
            filter_buf: Vec::new(),
        }
    }

    /// The note folder.
    pub fn ndir(&self) -> (r: &String)
        ensures
            r@ == self.note_dir@,
    {
        &self.note_dir
    }

    /// Takes the argument of the current line: the line from the argument index on. The
    /// line is used up; the argument index stays.
    pub fn ilinearg(&mut self) -> (r: String)
        requires
            old(self).iline_argidx <= old(self).iline@.len(),
        ensures
            r@ == old(self).iline@.skip(old(self).iline_argidx as int),
            final(self).iline@.len() == 0,
            final(self).iline_argidx == old(self).iline_argidx,
            final(self).home_dir == old(self).home_dir,
            final(self).everycom == old(self).everycom,
            final(self).app_support_dir == old(self).app_support_dir,
            final(self).note_dir == old(self).note_dir,
            final(self).lock_p == old(self).lock_p,
            final(self).editor_cmd == old(self).editor_cmd,
            final(self).chosen_dir == old(self).chosen_dir,
            final(self).chosen_lbl == old(self).chosen_lbl,
            final(self).filter_buf == old(self).filter_buf,
    {
        let l = to_chars(self.iline.as_str());
        let start = self.iline_argidx;
        let mut rest: Vec<char> = Vec::new();
        let mut i: usize = start;
        while i < l.len()
            invariant
                start <= i <= l@.len(),
                rest@ == l@.subrange(start as int, i as int),
            decreases l.len() - i,
        {
            rest.push(l[i]);
            assert(l@.subrange(start as int, i + 1) == l@.subrange(start as int, i as int).push(l@[i as int]));
            i += 1;
        }
        assert(rest@ =~= l@.skip(start as int));
        self.iline = String::new();
        from_chars(rest.as_slice())
    }

    /// The home folder.
    pub fn home(&self) -> (r: &String)
        ensures
            r@ == self.home_dir@,
    {
        &self.home_dir
    }
}

/// `|x|`: a filter-buffer entry holds a note id, negated while the note is selected.
pub open spec fn abs_id(x: i64) -> int {
    if x < 0 {
        -x
    } else {
        x as int
    }
}

/// Keeping some ids of a sequence without repeats leaves none repeated.
pub proof fn lemma_filter_no_repeat(s: Seq<i64>, p: spec_fn(i64) -> bool)
    requires
        no_repeat(s),
    ensures
        no_repeat(s.filter(p)),
    decreases s.len(),
{
    reveal(Seq::filter);
    if s.len() > 0 {
        let t = s.drop_last();
        assert(no_repeat(t));
        lemma_filter_no_repeat(t, p);
        if p(s.last()) {
            let ft = t.filter(p);
            assert(s.filter(p) == ft.push(s.last()));
            assert forall|i: int, j: int| 0 <= i < j < ft.len() + 1 implies ft.push(s.last())[i] != ft.push(s.last())[j] by {
                if j == ft.len() {
                    t.lemma_filter_contains_rev(p, ft[i]);
                    assert(ft.contains(ft[i]));
                    let k = choose|k: int| 0 <= k < t.len() && t[k] == ft[i];
                    assert(s[k] == ft[i]);
                    assert(s[s.len() - 1] == s.last());
                }
            }
        }
    }
}

/// The ids of the selected notes, in buffer order.
pub open spec fn selection(fb: Seq<i64>) -> Seq<i64> {
    fb.filter(|x: i64| x < 0).map_values(|x: i64| (-x) as i64)
}

/// The ids the filter buffer lists, in buffer order, whether selected or not.
pub open spec fn listed(fb: Seq<i64>) -> Seq<i64> {
    fb.map_values(|x: i64| abs_id(x) as i64)
}

/// The filter buffer with every entry unselected.
pub open spec fn deselected(fb: Seq<i64>) -> Seq<i64> {
    fb.map_values(|x: i64| if x < 0 { (-x) as i64 } else { x })
}

/// The filter buffer with every entry selected.
pub open spec fn all_selected(fb: Seq<i64>) -> Seq<i64> {
    fb.map_values(|x: i64| if x < 0 { x } else { (-x) as i64 })
}

/// The filter buffer with the selection of entry `idx` flipped.
pub open spec fn toggled(fb: Seq<i64>, idx: int) -> Seq<i64> {
    fb.update(idx, (-fb[idx]) as i64)
}

/// `tids` can be listed: no id twice (the ids listed are kept in a table keyed by id),
/// and no `i64::MIN`, whose negation, which selecting or showing it takes, does not fit.
pub open spec fn listable(tids: Seq<i64>) -> bool {
    &&& forall|i: int| 0 <= i < tids.len() ==> #[trigger] tids[i] != i64::MIN
    &&& forall|i: int, j: int| 0 <= i < j < tids.len() ==> tids[i] != tids[j]
}

/// No id occurs twice in `ids`.
pub open spec fn no_repeat(ids: Seq<i64>) -> bool {
    forall|i: int, j: int| 0 <= i < j < ids.len() ==> ids[i] != ids[j]
}

/// Distinct ids of notes of a well-formed store can be the filter buffer.
pub proof fn lemma_note_ids_listable(v: StoreV, tids: Seq<i64>)
    requires
        v.wf(),
        forall|i: int| 0 <= i < tids.len() ==> has_tid(v.files, #[trigger] tids[i]),
        forall|i: int, j: int| 0 <= i < j < tids.len() ==> tids[i] != tids[j],
    ensures
        listable(tids),
{
    assert forall|i: int| 0 <= i < tids.len() implies #[trigger] tids[i] > 0 by {
        assert(has_tid(v.files, tids[i]));
        let k = choose|k: int| 0 <= k < v.files.len() && v.files[k].tmpid == tids[i];
        assert(v.files[k].tmpid > 0);
    }
}

/// The path of the folder of the note at `rel` (relative to `ndir`): `ndir` with each
/// `/`-separated component of `rel` pushed.
pub open spec fn note_folder(ndir: Seq<char>, rel: Seq<char>) -> Seq<char> {
    path_join_all(ndir, split_by(rel, seq!['/']))
}

/// Pushes onto `pb` each `/`-separated component of `rel`.
pub fn push_comps_to_pb(pb: &mut String, rel: &str)
    ensures
        final(pb)@ == path_join_all(old(pb)@, split_by(rel@, seq!['/'])),
{
    let r = to_chars(rel);
    let sep = ['/'];
    let comps = split_chars(r.as_slice(), sep.as_slice());
    assert(sep@ == seq!['/']);
    path_push_all(pb, comps.as_slice());
}

/// The note with id `tid` in a well-formed store (see [`idx_of`]).
pub open spec fn file_of(v: StoreV, tid: i64) -> FileV {
    v.files[idx_of(v.files, tid)]
}

/// In a well-formed store, `idx_of` finds the one note with its id.
pub proof fn lemma_idx_of(v: StoreV, i: int)
    requires
        v.wf(),
        0 <= i < v.files.len(),
    ensures
        idx_of(v.files, v.files[i].tmpid) == i,
{
    let t = v.files[i].tmpid;
    let k = idx_of(v.files, t);
    lemma_tid_unique(v, k, i);
}

/// How entry `idx` of the filter buffer is shown.
pub struct RecShow {
    pub idx: usize,
    pub selected: bool,
    pub tid: i64,
    /// The entry names a note; where it does not, the fields below are empty and zero.
    pub found: bool,
    pub mtime_text: String,
    pub rel: String,
    pub size: i64,
    /// The note's labels joined with `,`; empty where it has none.
    pub labels: String,
    pub atts: Vec<AttRow>,
}

/// `x` is the text of some label row of `v` and contains `pat`.
pub open spec fn label_matches(v: StoreV, pat: Seq<char>, x: Seq<char>) -> bool {
    has_sub(x, pat) && label_in_use(v.lbls, x)
}

/// What became of a request to put a label on, or take it off, the selected notes.
pub enum LabelStep {
    /// There is no label to apply (the chosen label is empty).
    NoLabel,
    /// The pattern did not match exactly one label; these are the labels it matched.
    NotOne(Vec<String>),
    /// No note is selected.
    NoSelection,
    /// The label was applied to these notes.
    Applied(String, Vec<i64>),
}

/// What became of choosing a label by name.
pub enum LblInput {
    /// The name is empty.
    Empty,
    /// The name starts with `_`, which is kept for labels the browser gives itself.
    Reserved,
    /// The label is chosen.
    Chosen,
}

/// What became of searching the labels.
pub enum LblsSearch {
    /// No label contains the pattern.
    NoMatch,
    /// Exactly one does, and it is chosen.
    Chosen,
    /// Several do; the user picks one of these, listed in increasing order.
    Choose(Vec<String>),
}

/// The names of a folder listing.
pub open spec fn listed_names(r: Seq<(bool, String)>) -> Seq<Seq<char>> {
    r.map_values(|e: (bool, String)| e.1@)
}

/// What became of choosing a folder by its index in the listing.
pub enum DirChoice {
    /// The answer is not a `usize` in decimal.
    InvalidIndex,
    /// The index is past the end of the listing.
    TooGreat,
    /// The folder is chosen.
    Chosen,
}

/// `x` is a folder (see [`is_folder`]) whose name contains `pat`.
pub open spec fn dir_hit(files: Seq<FileV>, pat: Seq<char>, x: Seq<char>) -> bool {
    has_sub(x, pat) && is_folder(files, x)
}

/// What became of choosing a folder by a part of its name.
pub enum DirMatch {
    /// No folder's name contains the pattern.
    NoMatch,
    /// Several do; these, in increasing order.
    Many(Vec<String>),
    /// Exactly this one does, and it is chosen.
    One(String),
}

/// What `edit` does.
pub enum EditTarget {
    /// More than one note is selected.
    MoreThanOne,
    /// No note is selected.
    NoneSelected,
    /// No editor command is set.
    NoEditor,
    /// Run `program` with `args`, then the path of the selected note's text file.
    Launch { program: String, args: Vec<String>, path: String },
}

/// The query that `where` runs: the ids of the notes that meet the condition `arg`,
/// among the listed ones where the filter buffer is not empty, in the order `orderby`
/// (none where it is empty).
pub open spec fn where_sql(fb_empty: bool, arg: Seq<char>, orderby: Seq<char>) -> Seq<char> {
    let ob = if orderby.len() == 0 {
        Seq::<char>::empty()
    } else {
        " order by "@ + orderby
    };
    if fb_empty {
        "SELECT tmpid from files where "@ + arg + ob
    } else {
        "SELECT tmpid from files where tmpid in(select tid from filter_buf) and ("@ + arg + ")"@ + ob
    }
}

/// The path of the chosen folder: the note folder itself where none is chosen, else the
/// note folder with each `/`-separated component of the chosen folder pushed.
pub open spec fn chosen_dir_path(ndir: Seq<char>, cd: Seq<char>) -> Seq<char> {
    if cd.len() == 0 {
        ndir
    } else {
        path_join_all(ndir, split_by(cd, seq!['/']))
    }
}

/// What is wrong with a component of a new note's path.
#[derive(PartialEq, Eq, Structural, Clone, Copy, Debug)]
pub enum NameFault {
    /// It is empty.
    Empty,
    /// It holds a character other than an ASCII letter or digit, `-` or `_`.
    BadChar,
    /// It does not start with an ASCII letter or digit.
    BadFirst,
    /// It does not end with an ASCII letter or digit.
    BadLast,
}

/// `c` may appear in a component of a new note's path.
pub open spec fn name_char_ok(c: char) -> bool {
    is_ascii_alnum(c) || c == '-' || c == '_'
}

/// The first thing wrong with the path component `c`, if any.
pub open spec fn name_fault(c: Seq<char>) -> Option<NameFault> {
    if c.len() == 0 {
        Some(NameFault::Empty)
    } else if exists|i: int| 0 <= i < c.len() && !name_char_ok(#[trigger] c[i]) {
        Some(NameFault::BadChar)
    } else if !is_ascii_alnum(c[0]) {
        Some(NameFault::BadFirst)
    } else if !is_ascii_alnum(c.last()) {
        Some(NameFault::BadLast)
    } else {
        None
    }
}

/// The first thing wrong with a path component (see [`name_fault`]).
pub fn check_name(c: &str) -> (r: Option<NameFault>)
    ensures
        r == name_fault(c@),
{
    let v = to_chars(c);
    if v.len() == 0 {
        return Some(NameFault::Empty);
    }
    let mut i: usize = 0;
    while i < v.len()
        invariant
            i <= v@.len(),
            v@ == c@,
            forall|k: int| 0 <= k < i ==> name_char_ok(#[trigger] v@[k]),
        decreases v.len() - i,
    {
        let ch = v[i];
        if !(crate::text::ascii_alnum(ch) || ch == '-' || ch == '_') {
            assert(!name_char_ok(v@[i as int]));
            return Some(NameFault::BadChar);
        }
        i += 1;
    }
    if !crate::text::ascii_alnum(v[0]) {
        return Some(NameFault::BadFirst);
    }
    if !crate::text::ascii_alnum(v[v.len() - 1]) {
        return Some(NameFault::BadLast);
    }
    None
}

/// How `new path` would create a note: the components of the path (split at `/` and at
/// `\`), the folder each valid leading component leads to, and the first faulty
/// component, if any.
pub struct NewNotePlan {
    pub comps: Vec<String>,
    pub dirs: Vec<String>,
    pub fault: Option<(usize, NameFault)>,
}

/// The path, relative to the note folder, of a new note made of `comps` in the chosen
/// folder `cd`.
pub open spec fn new_rel(cd: Seq<char>, comps: Seq<Seq<char>>) -> Seq<char> {
    if cd.len() == 0 {
        join_by(comps, '/')
    } else {
        cd.push('/') + join_by(comps, '/')
    }
}

/// A note found while reading the note folder: the components of its folder's path
/// relative to the note folder, and what was read of it (its saved labels, attachments,
/// size, modification time and text).
pub struct NoteScan {
    pub comps: Vec<String>,
    pub info: InfoJsonElem,
}

/// The value of a [`NoteScan`].
pub struct ScanV {
    pub comps: Seq<Seq<char>>,
    pub size: i64,
    pub mtime: i64,
    pub content: Seq<char>,
    pub lbls: Seq<Seq<char>>,
    pub att: Seq<(Seq<char>, i64)>,
}

/// The value of a [`NoteScan`].
pub open spec fn scan_v(n: NoteScan) -> ScanV {
    ScanV {
        comps: views(n.comps@),
        size: n.info.size,
        mtime: n.info.mtime,
        content: n.info.content@,
        lbls: views(n.info.lbls@),
        att: n.info.att@.map_values(|a: (String, i64)| (a.0@, a.1)),
    }
}

/// The notes table after reading `es` into an empty store: the `i`-th note gets id
/// `i + 1` and the path made of its components joined with `/`.
pub open spec fn read_files(es: Seq<ScanV>) -> Seq<FileV> {
    Seq::new(
        es.len(),
        |i: int|
            FileV {
                tmpid: (i + 1) as i64,
                size: es[i].size,
                mtime: es[i].mtime,
                rel: join_by(es[i].comps, '/'),
                content: es[i].content,
            },
    )
}

/// The labels table after reading `es`: for each note in turn, its saved labels, then
/// the labels its text earns.
pub open spec fn read_lbls(es: Seq<ScanV>) -> Seq<(i64, Seq<char>)>
    decreases es.len(),
{
    if es.len() == 0 {
        Seq::empty()
    } else {
        read_lbls(es.drop_last()) + (es.last().lbls + auto_labels(es.last().content)).map_values(
            |l: Seq<char>| (es.len() as i64, l),
        )
    }
}

/// The attachments table after reading `es`: for each note in turn, its attachments.
pub open spec fn read_atts(es: Seq<ScanV>) -> Seq<(i64, Seq<char>, i64)>
    decreases es.len(),
{
    if es.len() == 0 {
        Seq::empty()
    } else {
        read_atts(es.drop_last()) + es.last().att.map_values(
            |a: (Seq<char>, i64)| (es.len() as i64, a.0, a.1),
        )
    }
}

/// A note as a row of the `files` table: id, size, modification time, path and text.
pub open spec fn file_row(f: FileV) -> (i64, i64, i64, Seq<char>, Seq<char>) {
    (f.tmpid, f.size, f.mtime, f.rel, f.content)
}

/// What became of a `where` query.
pub enum WhereStep {
    /// SQLite could not prepare the query; nothing changes.
    NotPrepared,
    /// The query gave no row; the filter buffer is as it was.
    NothingFound,
    /// The ids the query gave are listed.
    Listed,
}

/// What the walk of the note folder does with one entry of a folder.
#[derive(PartialEq, Eq, Structural, Clone, Copy, Debug)]
pub enum ScanStep {
    /// Not a folder (a symbolic link counts as none): it is left alone, with a warning.
    Ignore,
    /// A folder holding a regular `info` file: a note.
    Note,
    /// Any other folder: it is walked in turn.
    Descend,
}

/// The step for an entry that is a folder or not (`is_dir`, symbolic links not followed)
/// and, for a folder, holds a regular `info` file or not (`has_info`).
pub fn scan_step(is_dir: bool, has_info: bool) -> (r: ScanStep)
    ensures
        r == (if !is_dir {
            ScanStep::Ignore
        } else if has_info {
            ScanStep::Note
        } else {
            ScanStep::Descend
        }),
{
    if !is_dir {
        ScanStep::Ignore
    } else if has_info {
        ScanStep::Note
    } else {
        ScanStep::Descend
    }
}

/// What happens to a folder above a deleted note (see [`Ctx::upper_dirs`]).
#[derive(PartialEq, Eq, Structural, Clone, Copy, Debug)]
pub enum UpperStep {
    /// It holds a folder: it stays, and so do the folders above it.
    Stop,
    /// It holds no folder: it is removed, with whatever files are left in it, and the
    /// next folder up is looked at.
    Remove,
}

/// The step for a folder above a deleted note that holds another folder or not.
pub fn upper_dir_step(holds_folder: bool) -> (r: UpperStep)
    ensures
        r == (if holds_folder { UpperStep::Stop } else { UpperStep::Remove }),
{
    if holds_folder {
        UpperStep::Stop
    } else {
        UpperStep::Remove
    }
}

/// The pattern operator a search uses.
#[derive(PartialEq, Eq, Structural, Clone, Copy)]
pub enum PatternOp {
    /// SQL `LIKE`.
    Like,
    /// SQL `GLOB`.
    Glob,
}

/// What SQLite answers to `t op p`.
pub open spec fn pattern_match(op: PatternOp, p: Seq<char>, t: Seq<char>) -> bool {
    match op {
        PatternOp::Like => sqlite_like(p, t),
        PatternOp::Glob => sqlite_glob(p, t),
    }
}

/// The note `f` matches `p`: one of its labels, one of its attachments' paths, its own
/// path or its text does.
pub open spec fn note_hit(op: PatternOp, v: StoreV, p: Seq<char>, f: FileV) -> bool {
    ||| exists|k: int| 0 <= k < v.lbls.len() && v.lbls[k].0 == f.tmpid && pattern_match(op, p, v.lbls[k].1)
    ||| exists|k: int| 0 <= k < v.atts.len() && v.atts[k].0 == f.tmpid && pattern_match(op, p, v.atts[k].1)
    ||| pattern_match(op, p, f.rel)
    ||| pattern_match(op, p, f.content)
}

/// Every text of the store is within SQLite's length limit for a query argument.
pub open spec fn store_fits(v: StoreV) -> bool {
    &&& forall|k: int| 0 <= k < v.lbls.len() ==> utf8_len((#[trigger] v.lbls[k]).1) <= 1_000_000_000
    &&& forall|k: int| 0 <= k < v.atts.len() ==> utf8_len((#[trigger] v.atts[k]).1) <= 1_000_000_000
    &&& forall|k: int| 0 <= k < v.files.len() ==> utf8_len((#[trigger] v.files[k]).rel) <= 1_000_000_000
        && utf8_len(v.files[k].content) <= 1_000_000_000
}

/// A search looks at note `tid`: the filter buffer is empty, or the table of listed ids
/// `fbt` holds it.
pub open spec fn in_scope(fb: Seq<i64>, fbt: Seq<i64>, tid: i64) -> bool {
    fb.len() == 0 || fbt.contains(tid)
}

/// The ids of the notes of `files` that `hits` marks and the search looks at, in order.
pub open spec fn hit_ids(files: Seq<FileV>, hits: Seq<bool>, fb: Seq<i64>, fbt: Seq<i64>) -> Seq<i64>
    decreases files.len(),
{
    if files.len() == 0 {
        Seq::empty()
    } else {
        let rest = hit_ids(files.drop_last(), hits.take(files.len() - 1), fb, fbt);
        if hits[files.len() - 1] && in_scope(fb, fbt, files.last().tmpid) {
            rest.push(files.last().tmpid)
        } else {
            rest
        }
    }
}

/// What a search with `op` for `p` lists: the notes it looks at that match, in id order.
pub open spec fn search_ids(op: PatternOp, v: StoreV, fb: Seq<i64>, fbt: Seq<i64>, p: Seq<char>) -> Seq<i64> {
    hit_ids(
        v.files,
        Seq::new(v.files.len(), |i: int| in_scope(fb, fbt, v.files[i].tmpid) && note_hit(op, v, p, v.files[i])),
        fb,
        fbt,
    )
}

/// What became of a search.
pub enum SearchOutcome {
    /// The pattern is empty.
    EmptyPattern,
    /// No note matched; the filter buffer is as it was.
    NothingFound,
    /// The matching notes are listed.
    Updated,
}

/// The value of a [`Ctx`].
pub struct CtxV {
    pub store: StoreV,
    pub fb: Seq<i64>,
    /// The table of listed ids: what was listed, in that order, and the notes made
    /// since, less the deleted ones. Selecting does not change it.
    pub fbt: Seq<i64>,
    pub chosen_dir: Seq<char>,
    pub chosen_lbl: Seq<char>,
    pub iline: Seq<char>,
    pub argidx: usize,
    pub editor_cmd: Seq<Seq<char>>,
    pub note_dir: Seq<char>,
    pub args: Seq<Seq<char>>,
}

impl CtxV {
    /// The store is well formed; no filter-buffer entry is `i64::MIN`, whose negation does
    /// not fit; the table of listed ids holds no id twice. An entry need not name a note:
    /// a `where` query may list any ids.
    pub open spec fn wf(self) -> bool {
        &&& self.store.wf()
        &&& forall|i: int| 0 <= i < self.fb.len() ==> #[trigger] self.fb[i] != i64::MIN
        &&& no_repeat(self.fbt)
    }

    /// The argument index lies within the line, as taking the argument needs.
    pub open spec fn arg_ready(self) -> bool {
        self.argidx <= self.iline.len()
    }
}

/// The browser's state: its places and choices, the note store, and an SQLite connection
/// that evaluates search patterns.
pub struct Ctx {
    args: Vec<String>,
    def: CtxDef,
    db: NoteStore,
    conn: rusqlite::Connection,
    listed_ids: Vec<i64>,
}

impl View for Ctx {
    type V = CtxV;

    closed spec fn view(&self) -> CtxV {
        CtxV {
            store: self.db@,
            fb: self.def.filter_buf@,
            fbt: self.listed_ids@,
            chosen_dir: self.def.chosen_dir@,
            chosen_lbl: self.def.chosen_lbl@,
            iline: self.def.iline@,
            argidx: self.def.iline_argidx,
            editor_cmd: views(self.def.editor_cmd@),
            note_dir: self.def.note_dir@,
            args: views(self.args@),
        }
    }
}

/// A copy of `ids`.
fn copy_ids(ids: &Vec<i64>) -> (r: Vec<i64>)
    ensures
        r@ == ids@,
{
    let mut r: Vec<i64> = Vec::new();
    let mut i: usize = 0;
    while i < ids.len()
        invariant
            i <= ids@.len(),
            r@ == ids@.take(i as int),
        decreases ids.len() - i,
    {
        r.push(ids[i]);
        assert(ids@.take(i + 1) =~= ids@.take(i as int).push(ids@[i as int]));
        i += 1;
    }
    assert(ids@.take(ids@.len() as int) =~= ids@);
    r
}

impl Ctx {
    /// A browser with no notes yet, the places of `def` and an in-memory SQLite connection.
    /// Fails only where SQLite cannot open one.
    pub fn new(args: Vec<String>, def: CtxDef) -> (r: Result<Ctx, CustomErr>)
        ensures
            r matches Ok(c) ==> {
                &&& c@.wf()
                &&& c@.store.files.len() == 0
                &&& c@.store.lbls.len() == 0
                &&& c@.store.atts.len() == 0
                &&& c@.fb.len() == 0
                &&& c@.chosen_dir == def.chosen_dir@
                &&& c@.chosen_lbl == def.chosen_lbl@
                &&& c@.editor_cmd == views(def.editor_cmd@)
                &&& c@.note_dir == def.note_dir@
                &&& c@.iline.len() == 0
                &&& c@.args == views(args@)
            },
    {
        let conn = match crate::sqlite::open_in_memory() {
            Ok(c) => c,
            Err(e) => {
                return Err(CustomErr::Sql(e));
            },
        };
        let mut def = def;
        def.filter_buf = Vec::new();
        def.iline = String::new();
        def.iline_argidx = 0;
        Ok(Ctx { args, def, db: NoteStore::new(), conn, listed_ids: Vec::new() })
    }

    /// The places and choices.
    pub fn def(&self) -> (r: &CtxDef)
        ensures
            r.filter_buf@ == self@.fb,
            r.chosen_dir@ == self@.chosen_dir,
            r.chosen_lbl@ == self@.chosen_lbl,
            r.iline@ == self@.iline,
            r.iline_argidx == self@.argidx,
            views(r.editor_cmd@) == self@.editor_cmd,
            r.note_dir@ == self@.note_dir,
    {
        &self.def
    }

    /// The note store.
    pub fn store(&self) -> (r: &NoteStore)
        ensures
            r@ == self@.store,
    {
        &self.db
    }

    /// Sets the editor command line.
    pub fn set_editor_cmd(&mut self, cmd: Vec<String>)
        requires
            old(self)@.wf(),
        ensures
            final(self)@ == (CtxV { editor_cmd: views(cmd@), ..old(self)@ }),
            final(self)@.wf(),
    {
        self.def.editor_cmd = cmd;
    }

    /// Takes `line` as the line just typed and reads it as a command; a command with an
    /// argument has the argument's start recorded.
    pub fn set_line(&mut self, line: String) -> (c: Command)
        requires
            old(self)@.wf(),
        ensures
            c == command_spec(line@),
            final(self)@.iline == line@,
            final(self)@.argidx == match c {
                Command::Special(_) => 1usize,
                Command::WithArg(_, k) => k,
                _ => 0usize,
            },
            final(self)@ == (CtxV { iline: line@, argidx: final(self)@.argidx, ..old(self)@ }),
            final(self)@.arg_ready(),
            final(self)@.wf(),
    {
        let c = parse_command(line.as_str());
        proof {
            crate::cmd::lemma_first_space(line@);
        }
        self.def.iline = line;
        self.def.iline_argidx = match c {
            Command::Special(_) => 1,
            Command::WithArg(_, k) => k,
            _ => 0,
        };
        c
    }

    /// Takes the argument of the current line: the line from the argument index on. The
    /// line is used up; the argument index stays.
    pub fn ilinearg(&mut self) -> (r: String)
        requires
            old(self)@.wf(),
            old(self)@.arg_ready(),
        ensures
            r@ == old(self)@.iline.skip(old(self)@.argidx as int),
            final(self)@ == (CtxV { iline: Seq::<char>::empty(), ..old(self)@ }),
            final(self)@.wf(),
    {
        let r = self.def.ilinearg();
        assert(self.def.iline@ =~= Seq::<char>::empty());
        r
    }

    /// The ids of the selected notes, in buffer order.
    pub fn mk_vec_of_selection(&self) -> (r: Vec<i64>)
        requires
            self@.wf(),
        ensures
            r@ == selection(self@.fb),
    {
        let ghost fb = self@.fb;
        let mut out: Vec<i64> = Vec::new();
        let mut i: usize = 0;
        while i < self.def.filter_buf.len()
            invariant
                i <= fb.len(),
                fb == self.def.filter_buf@,
                self@.wf(),
                fb == self@.fb,
                out@ == selection(fb.take(i as int)),
            decreases fb.len() - i,
        {
            let x = self.def.filter_buf[i];
            reveal(Seq::filter);
            assert(fb.take(i + 1).drop_last() == fb.take(i as int));
            let ghost prevf = fb.take(i as int).filter(|x: i64| x < 0);
            if x < 0 {
                assert(fb[i as int] != i64::MIN);
                out.push(-x);
                assert(fb.take(i + 1).filter(|x: i64| x < 0) == prevf.push(x));
                assert(prevf.push(x).map_values(|x: i64| (-x) as i64) =~= prevf.map_values(|x: i64| (-x) as i64).push((-x) as i64));
            } else {
                assert(fb.take(i + 1).filter(|x: i64| x < 0) == prevf);
            }
            i += 1;
        }
        assert(fb.take(fb.len() as int) == fb);
        out
    }

    /// Unselects every listed note.
    pub fn deselect(&mut self)
        requires
            old(self)@.wf(),
        ensures
            final(self)@ == (CtxV { fb: deselected(old(self)@.fb), ..old(self)@ }),
            final(self)@.wf(),
    {
        let ghost fb0 = self@.fb;
        let n = self.def.filter_buf.len();
        let mut i: usize = 0;
        while i < n
            invariant
                n == fb0.len(),
                i <= n,
                old(self)@.wf(),
                fb0 == old(self)@.fb,
                self@ == (CtxV { fb: self@.fb, ..old(self)@ }),
                self@.fb.len() == n,
                forall|k: int| 0 <= k < i ==> self@.fb[k] == deselected(fb0)[k],
                forall|k: int| i <= k < n ==> self@.fb[k] == fb0[k],
            decreases n - i,
        {
            let x = self.def.filter_buf[i];
            assert(fb0[i as int] != i64::MIN);
            let y = if x < 0 { -x } else { x };
            self.def.filter_buf.set(i, y);
            i += 1;
        }
        assert(self@.fb =~= deselected(fb0));
        proof {
            assert forall|k: int| 0 <= k < n implies #[trigger] self@.fb[k] != i64::MIN by {
                assert(fb0[k] != i64::MIN);
            }
        }
    }

    /// Selects every listed note.
    pub fn cmd_all(&mut self)
        requires
            old(self)@.wf(),
        ensures
            final(self)@ == (CtxV { fb: all_selected(old(self)@.fb), ..old(self)@ }),
            final(self)@.wf(),
    {
        let ghost fb0 = self@.fb;
        let n = self.def.filter_buf.len();
        let mut i: usize = 0;
        while i < n
            invariant
                n == fb0.len(),
                i <= n,
                old(self)@.wf(),
                fb0 == old(self)@.fb,
                self@ == (CtxV { fb: self@.fb, ..old(self)@ }),
                self@.fb.len() == n,
                forall|k: int| 0 <= k < i ==> self@.fb[k] == all_selected(fb0)[k],
                forall|k: int| i <= k < n ==> self@.fb[k] == fb0[k],
            decreases n - i,
        {
            let x = self.def.filter_buf[i];
            assert(fb0[i as int] != i64::MIN);
            let y = if x < 0 { x } else { -x };
            self.def.filter_buf.set(i, y);
            i += 1;
        }
        assert(self@.fb =~= all_selected(fb0));
        proof {
            assert forall|k: int| 0 <= k < n implies #[trigger] self@.fb[k] != i64::MIN by {
                assert(fb0[k] != i64::MIN);
            }
        }
    }

    /// Flips the selection of entry `idx` of the filter buffer; `false` where there is no
    /// such entry.
    pub fn toggle(&mut self, idx: usize) -> (found: bool)
        requires
            old(self)@.wf(),
        ensures
            found == (idx < old(self)@.fb.len()),
            found ==> final(self)@.fb == toggled(old(self)@.fb, idx as int),
            !found ==> final(self)@.fb == old(self)@.fb,
            final(self)@ == (CtxV { fb: final(self)@.fb, ..old(self)@ }),
            final(self)@.wf(),
    {
        if idx < self.def.filter_buf.len() {
            let x = self.def.filter_buf[idx];
            assert(x != i64::MIN);
            self.def.filter_buf.set(idx, -x);
            proof {
                let fb0 = old(self)@.fb;
                assert forall|k: int| 0 <= k < fb0.len() implies #[trigger] self@.fb[k] != i64::MIN by {
                    assert(fb0[k] != i64::MIN);
                }
            }
            true
        } else {
            false
        }
    }

    /// Empties the filter buffer.
    pub fn cmd_reset(&mut self)
        requires
            old(self)@.wf(),
        ensures
            final(self)@ == (CtxV { fb: Seq::<i64>::empty(), fbt: Seq::<i64>::empty(), ..old(self)@ }),
            final(self)@.wf(),
    {
        self.def.filter_buf.clear();
        self.listed_ids.clear();
    }

    /// Lists `tids` in the filter buffer, none selected, and makes them the table of listed
    /// ids; an empty list leaves both as they were and answers `false` (nothing found).
    /// Listing `i64::MIN` would overflow when it is shown, and a repeated id does not fit
    /// the table, so neither is taken.
    pub fn iter_rows_to_update_filter_buf(&mut self, tids: Vec<i64>) -> (updated: bool)
        requires
            old(self)@.wf(),
            listable(tids@),
        ensures
            updated == (tids@.len() > 0),
            updated ==> final(self)@ == (CtxV { fb: tids@, fbt: tids@, ..old(self)@ }),
            !updated ==> final(self)@ == old(self)@,
            final(self)@.wf(),
    {
        if tids.len() == 0 {
            false
        } else {
            self.listed_ids = copy_ids(&tids);
            self.def.filter_buf = tids;
            true
        }
    }

    /// The selected entries of the filter buffer, each as its index and its note's text;
    /// `TmpidInvalid` where a selected entry names no note.
    pub fn cmd_cat(&self) -> (r: (Vec<(usize, String)>, Result<(), CustomErr>))
        requires
            self@.wf(),
        ensures
            forall|j: int| 0 <= j < r.0@.len() ==> {
                &&& (#[trigger] r.0@[j]).0 < self@.fb.len()
                &&& self@.fb[r.0@[j].0 as int] < 0
                &&& r.0@[j].1@ == file_of(self@.store, (-self@.fb[r.0@[j].0 as int]) as i64).content
            },
            forall|j: int, l: int| 0 <= j < l < r.0@.len() ==> r.0@[j].0 < r.0@[l].0,
            (r.1 is Ok) == (forall|i: int| 0 <= i < self@.fb.len() && self@.fb[i] < 0
                ==> has_tid(self@.store.files, (-#[trigger] self@.fb[i]) as i64)),
            r.1 is Ok ==> forall|i: int| 0 <= i < self@.fb.len() && self@.fb[i] < 0 ==> exists|j: int|
                0 <= j < r.0@.len() && r.0@[j].0 == i,
            r.1 matches Err(e) ==> e is TmpidInvalid && exists|b: int| {
                &&& 0 <= b < self@.fb.len() && self@.fb[b] < 0
                &&& !has_tid(self@.store.files, (-#[trigger] self@.fb[b]) as i64)
                &&& forall|j: int| 0 <= j < r.0@.len() ==> r.0@[j].0 < b
                &&& forall|k: int| 0 <= k < b && self@.fb[k] < 0 ==> exists|j: int|
                    0 <= j < r.0@.len() && r.0@[j].0 == k
            },
    {
        let ghost fb = self@.fb;
        let mut out: Vec<(usize, String)> = Vec::new();
        let mut i: usize = 0;
        while i < self.def.filter_buf.len()
            invariant
                i <= fb.len(),
                fb == self.def.filter_buf@,
                fb == self@.fb,
                self@.wf(),
                forall|j: int| 0 <= j < out@.len() ==> {
                    &&& (#[trigger] out@[j]).0 < i
                    &&& fb[out@[j].0 as int] < 0
                    &&& out@[j].1@ == file_of(self@.store, (-fb[out@[j].0 as int]) as i64).content
                },
                forall|j: int, l: int| 0 <= j < l < out@.len() ==> out@[j].0 < out@[l].0,
                forall|k: int| 0 <= k < i && fb[k] < 0 ==> exists|j: int| 0 <= j < out@.len() && out@[j].0 == k,
                forall|k: int| 0 <= k < i && fb[k] < 0 ==> has_tid(self@.store.files, (-#[trigger] fb[k]) as i64),
            decreases fb.len() - i,
        {
            let x = self.def.filter_buf[i];
            if x < 0 {
                assert(fb[i as int] != i64::MIN);
                let t = -x;
                match self.db.find(t) {
                    Some(p) => {
                        proof {
                            lemma_idx_of(self@.store, p as int);
                        }
                        let c = self.db.file_at(p).content.clone();
                        let ghost prev = out@;
                        out.push((i, c));
                        proof {
                            assert forall|k: int| 0 <= k < i + 1 && fb[k] < 0 implies exists|j: int|
                                0 <= j < out@.len() && out@[j].0 == k by {
                                if k < i {
                                    let j = choose|j: int| 0 <= j < prev.len() && prev[j].0 == k;
                                    assert(out@[j] == prev[j]);
                                } else {
                                    assert(out@[prev.len() as int].0 == k);
                                }
                            }
                        }
                    },
                    None => {
                        assert(!has_tid(self@.store.files, (-fb[i as int]) as i64));
                        return (out, Err(CustomErr::TmpidInvalid));
                    },
                }
            }
            i += 1;
        }
        assert(forall|k: int| 0 <= k < fb.len() && fb[k] < 0 ==> has_tid(self@.store.files, (-#[trigger] fb[k]) as i64));
        assert(forall|j: int| 0 <= j < out@.len() ==> (#[trigger] out@[j]).0 < fb.len());
        assert(forall|k: int| 0 <= k < fb.len() && fb[k] < 0 ==> exists|j: int| 0 <= j < out@.len() && out@[j].0 == k);
        (out, Ok(()))
    }

    /// How each entry of the filter buffer is shown, in buffer order, with the number of
    /// selected entries.
    pub fn show_recs_in_filter_buf(&self) -> (r: (Vec<RecShow>, usize))
        requires
            self@.wf(),
        ensures
            r.0@.len() == self@.fb.len(),
            r.1 == selection(self@.fb).len(),
            forall|i: int| 0 <= i < r.0@.len() ==> {
                let rec = #[trigger] r.0@[i];
                let tid = abs_id(self@.fb[i]) as i64;
                let f = file_of(self@.store, tid);
                &&& rec.idx == i
                &&& rec.selected == (self@.fb[i] < 0)
                &&& rec.tid == tid
                &&& rec.found == has_tid(self@.store.files, tid)
                &&& rec.found ==> {
                    &&& rec.rel@ == f.rel
                    &&& rec.size == f.size
                    &&& (chrono_utc_text(f.mtime) matches Some(t) ==> rec.mtime_text@ == t)
                    &&& (chrono_utc_text(f.mtime) is None ==> rec.mtime_text@ == "FAILED TO CONV MS TO STR"@)
                    &&& rec.labels@ == join_by(labels_of(self@.store.lbls, tid), ',')
                    &&& rec.atts@.map_values(|a: AttRow| (a.rel@, a.size)) == atts_of(self@.store.atts, tid)
                }
                &&& !rec.found ==> rec.rel@.len() == 0 && rec.size == 0 && rec.mtime_text@.len() == 0
                    && rec.labels@.len() == 0 && rec.atts@.len() == 0
            },
    {
        let ghost fb = self@.fb;
        let sel = self.mk_vec_of_selection();
        let mut out: Vec<RecShow> = Vec::new();
        let mut i: usize = 0;
        while i < self.def.filter_buf.len()
            invariant
                i <= fb.len(),
                fb == self.def.filter_buf@,
                fb == self@.fb,
                self@.wf(),
                out@.len() == i,
                forall|k: int| 0 <= k < i ==> {
                    let rec = #[trigger] out@[k];
                    let tid = abs_id(fb[k]) as i64;
                    let f = file_of(self@.store, tid);
                    &&& rec.idx == k
                    &&& rec.selected == (fb[k] < 0)
                    &&& rec.tid == tid
                    &&& rec.found == has_tid(self@.store.files, tid)
                    &&& rec.found ==> {
                        &&& rec.rel@ == f.rel
                        &&& rec.size == f.size
                        &&& (chrono_utc_text(f.mtime) matches Some(t) ==> rec.mtime_text@ == t)
                        &&& (chrono_utc_text(f.mtime) is None ==> rec.mtime_text@ == "FAILED TO CONV MS TO STR"@)
                        &&& rec.labels@ == join_by(labels_of(self@.store.lbls, tid), ',')
                        &&& rec.atts@.map_values(|a: AttRow| (a.rel@, a.size)) == atts_of(self@.store.atts, tid)
                    }
                    &&& !rec.found ==> rec.rel@.len() == 0 && rec.size == 0 && rec.mtime_text@.len() == 0
                        && rec.labels@.len() == 0 && rec.atts@.len() == 0
                },
            decreases fb.len() - i,
        {
            let x = self.def.filter_buf[i];
            assert(fb[i as int] != i64::MIN);
            let t = if x < 0 { -x } else { x };
            match self.db.find(t) {
                Some(p) => {
                    proof {
                        lemma_idx_of(self@.store, p as int);
                    }
                    let f = self.db.file_at(p);
                    let lbls = self.db.labels_of(t);
                    let labels = join_strings(lbls.as_slice(), ',');
                    let rec = RecShow {
                        idx: i,
                        selected: x < 0,
                        tid: t,
                        found: true,
                        mtime_text: millis2display(f.mtime),
                        rel: f.rel.clone(),
                        size: f.size,
                        labels,
                        atts: self.db.atts_of(t),
                    };
                    out.push(rec);
                },
                None => {
                    let rec = RecShow {
                        idx: i,
                        selected: x < 0,
                        tid: t,
                        found: false,
                        mtime_text: String::new(),
                        rel: String::new(),
                        size: 0,
                        labels: String::new(),
                        atts: Vec::new(),
                    };
                    out.push(rec);
                },
            }
            i += 1;
        }
        (out, sel.len())
    }

    /// Every label in use, each once, in increasing order.
    pub fn cmd_lbls(&self) -> (r: Vec<String>)
        ensures
            strictly_sorted(views(r@)),
            forall|x: Seq<char>| #[trigger] views(r@).contains(x) <==> label_in_use(self@.store.lbls, x),
    {
        self.db.distinct_labels()
    }

    /// Gives every selected note the label `l_lbl`, unless it has it already.
    pub fn lbl_add(&mut self, l_lbl: &str) -> (r: LabelStep)
        requires
            old(self)@.wf(),
        ensures
            selection(old(self)@.fb).len() == 0 ==> r is NoSelection && final(self)@ == old(self)@,
            selection(old(self)@.fb).len() > 0 ==> {
                &&& (r matches LabelStep::Applied(l, tids) && l@ == l_lbl@ && tids@ == selection(old(self)@.fb))
                &&& final(self)@ == (CtxV {
                    store: StoreV { lbls: with_label_all(old(self)@.store.lbls, selection(old(self)@.fb), l_lbl@), ..old(self)@.store },
                    ..old(self)@
                })
            },
            final(self)@.wf(),
    {
        let tids = self.mk_vec_of_selection();
        if tids.len() == 0 {
            return LabelStep::NoSelection;
        }
        self.db.add_label_many(tids.as_slice(), l_lbl);
        LabelStep::Applied(l_lbl.to_owned(), tids)
    }

    /// Takes the label `l_lbl` off every selected note.
    pub fn lbl_remove(&mut self, l_lbl: &str) -> (r: LabelStep)
        requires
            old(self)@.wf(),
        ensures
            selection(old(self)@.fb).len() == 0 ==> r is NoSelection && final(self)@ == old(self)@,
            selection(old(self)@.fb).len() > 0 ==> {
                &&& (r matches LabelStep::Applied(l, tids) && l@ == l_lbl@ && tids@ == selection(old(self)@.fb))
                &&& final(self)@ == (CtxV {
                    store: StoreV { lbls: without_label(old(self)@.store.lbls, selection(old(self)@.fb), l_lbl@), ..old(self)@.store },
                    ..old(self)@
                })
            },
            final(self)@.wf(),
    {
        let tids = self.mk_vec_of_selection();
        if tids.len() == 0 {
            return LabelStep::NoSelection;
        }
        self.db.remove_label_many(tids.as_slice(), l_lbl);
        LabelStep::Applied(l_lbl.to_owned(), tids)
    }

    /// Gives the selected notes the chosen label; nothing where no label is chosen.
    pub fn cmd_lbl_add(&mut self) -> (r: LabelStep)
        requires
            old(self)@.wf(),
        ensures
            old(self)@.chosen_lbl.len() == 0 ==> r is NoLabel && final(self)@ == old(self)@,
            old(self)@.chosen_lbl.len() > 0 && selection(old(self)@.fb).len() == 0 ==> r is NoSelection
                && final(self)@ == old(self)@,
            old(self)@.chosen_lbl.len() > 0 && selection(old(self)@.fb).len() > 0 ==> {
                &&& (r matches LabelStep::Applied(l, tids) && l@ == old(self)@.chosen_lbl && tids@ == selection(old(self)@.fb))
                &&& final(self)@ == (CtxV {
                    store: StoreV { lbls: with_label_all(old(self)@.store.lbls, selection(old(self)@.fb), old(self)@.chosen_lbl), ..old(self)@.store },
                    ..old(self)@
                })
            },
            final(self)@.wf(),
    {
        if self.def.chosen_lbl.as_str().is_empty() {
            return LabelStep::NoLabel;
        }
        let l = self.def.chosen_lbl.clone();
        self.lbl_add(l.as_str())
    }

    /// Takes the chosen label off the selected notes; nothing where no label is chosen.
    pub fn cmd_lbl_remove(&mut self) -> (r: LabelStep)
        requires
            old(self)@.wf(),
        ensures
            old(self)@.chosen_lbl.len() == 0 ==> r is NoLabel && final(self)@ == old(self)@,
            old(self)@.chosen_lbl.len() > 0 && selection(old(self)@.fb).len() == 0 ==> r is NoSelection
                && final(self)@ == old(self)@,
            old(self)@.chosen_lbl.len() > 0 && selection(old(self)@.fb).len() > 0 ==> {
                &&& (r matches LabelStep::Applied(l, tids) && l@ == old(self)@.chosen_lbl && tids@ == selection(old(self)@.fb))
                &&& final(self)@ == (CtxV {
                    store: StoreV { lbls: without_label(old(self)@.store.lbls, selection(old(self)@.fb), old(self)@.chosen_lbl), ..old(self)@.store },
                    ..old(self)@
                })
            },
            final(self)@.wf(),
    {
        if self.def.chosen_lbl.as_str().is_empty() {
            return LabelStep::NoLabel;
        }
        let l = self.def.chosen_lbl.clone();
        self.lbl_remove(l.as_str())
    }

    /// The labels containing the argument of the line (which is used up), each once, in
    /// increasing order.
    fn labels_matching_arg(&mut self) -> (r: (Vec<String>, Ghost<Seq<char>>))
        requires
            old(self)@.wf(),
            old(self)@.arg_ready(),
        ensures
            r.1@ == old(self)@.iline.skip(old(self)@.argidx as int),
            strictly_sorted(views(r.0@)),
            forall|x: Seq<char>| #[trigger] views(r.0@).contains(x) <==> label_matches(old(self)@.store, r.1@, x),
            final(self)@ == (CtxV { iline: Seq::<char>::empty(), ..old(self)@ }),
            final(self)@.wf(),
    {
        let pat = self.ilinearg();
        let m = self.db.labels_matching(pat.as_str());
        (m, Ghost(pat@))
    }

    /// The one label containing the argument of the line, or the labels it matched where
    /// that is not exactly one.
    pub fn get_single_lbl_match(&mut self) -> (r: Result<String, Vec<String>>)
        requires
            old(self)@.wf(),
            old(self)@.arg_ready(),
        ensures
            ({
                let pat = old(self)@.iline.skip(old(self)@.argidx as int);
                match r {
                    Ok(l) => label_matches(old(self)@.store, pat, l@) && forall|x: Seq<char>| #[trigger] label_matches(old(self)@.store, pat, x) ==> x == l@,
                    Err(v) => strictly_sorted(views(v@)) && v@.len() != 1
                        && forall|x: Seq<char>| views(v@).contains(x) <==> label_matches(old(self)@.store, pat, x),
                }
            }),
            final(self)@ == (CtxV { iline: Seq::<char>::empty(), ..old(self)@ }),
            final(self)@.wf(),
    {
        let (m, Ghost(pat)) = self.labels_matching_arg();
        if m.len() != 1 {
            return Err(m);
        }
        let l = m[0].clone();
        proof {
            assert(views(m@)[0] == m@[0]@);
                assert(views(m@).contains(m@[0]@));
            assert forall|x: Seq<char>| #[trigger] label_matches(old(self)@.store, pat, x)
                implies x == l@ by {
                assert(views(m@).contains(x));
            }
        }
        Ok(l)
    }

    /// `+pattern`: gives the selected notes the one label that contains the pattern.
    pub fn plus(&mut self) -> (r: LabelStep)
        requires
            old(self)@.wf(),
            old(self)@.arg_ready(),
        ensures
            final(self)@ == (CtxV { store: final(self)@.store, iline: Seq::<char>::empty(), ..old(self)@ }),
            final(self)@.wf(),
            final(self)@.store.files == old(self)@.store.files,
            final(self)@.fb == old(self)@.fb,
            ({
                let pat = old(self)@.iline.skip(old(self)@.argidx as int);
                match r {
                    LabelStep::NotOne(v) => v@.len() != 1 && (forall|x: Seq<char>| views(v@).contains(x) <==> label_matches(old(self)@.store, pat, x))
                        && final(self)@.store == old(self)@.store,
                    LabelStep::NoLabel => label_matches(old(self)@.store, pat, Seq::<char>::empty()) && (forall|x: Seq<char>| #[trigger] label_matches(old(self)@.store, pat, x) ==> x.len() == 0)
                        && final(self)@.store == old(self)@.store,
                    LabelStep::NoSelection => selection(old(self)@.fb).len() == 0 && final(self)@.store == old(self)@.store,
                    LabelStep::Applied(l, tids) => label_matches(old(self)@.store, pat, l@) && (forall|x: Seq<char>| #[trigger] label_matches(old(self)@.store, pat, x) ==> x == l@)
                        && l@.len() > 0 && tids@ == selection(old(self)@.fb)
                        && final(self)@.store.lbls == with_label_all(old(self)@.store.lbls, tids@, l@)
                        && final(self)@.store.atts == old(self)@.store.atts,
                }
            }),
    {
        match self.get_single_lbl_match() {
            Err(v) => LabelStep::NotOne(v),
            Ok(l) => {
                if l.as_str().is_empty() {
                    assert(l@ =~= Seq::<char>::empty());
                    LabelStep::NoLabel
                } else {
                    self.lbl_add(l.as_str())
                }
            },
        }
    }

    /// `-pattern`: takes the one label that contains the pattern off the selected notes.
    pub fn minus(&mut self) -> (r: LabelStep)
        requires
            old(self)@.wf(),
            old(self)@.arg_ready(),
        ensures
            final(self)@ == (CtxV { store: final(self)@.store, iline: Seq::<char>::empty(), ..old(self)@ }),
            final(self)@.wf(),
            final(self)@.store.files == old(self)@.store.files,
            final(self)@.fb == old(self)@.fb,
            ({
                let pat = old(self)@.iline.skip(old(self)@.argidx as int);
                match r {
                    LabelStep::NotOne(v) => v@.len() != 1 && (forall|x: Seq<char>| views(v@).contains(x) <==> label_matches(old(self)@.store, pat, x))
                        && final(self)@.store == old(self)@.store,
                    LabelStep::NoLabel => label_matches(old(self)@.store, pat, Seq::<char>::empty()) && (forall|x: Seq<char>| #[trigger] label_matches(old(self)@.store, pat, x) ==> x.len() == 0)
                        && final(self)@.store == old(self)@.store,
                    LabelStep::NoSelection => selection(old(self)@.fb).len() == 0 && final(self)@.store == old(self)@.store,
                    LabelStep::Applied(l, tids) => label_matches(old(self)@.store, pat, l@) && (forall|x: Seq<char>| #[trigger] label_matches(old(self)@.store, pat, x) ==> x == l@)
                        && l@.len() > 0 && tids@ == selection(old(self)@.fb)
                        && final(self)@.store.lbls == without_label(old(self)@.store.lbls, tids@, l@)
                        && final(self)@.store.atts == old(self)@.store.atts,
                }
            }),
    {
        match self.get_single_lbl_match() {
            Err(v) => LabelStep::NotOne(v),
            Ok(l) => {
                if l.as_str().is_empty() {
                    assert(l@ =~= Seq::<char>::empty());
                    LabelStep::NoLabel
                } else {
                    self.lbl_remove(l.as_str())
                }
            },
        }
    }

    /// `lbl name`: chooses the label `name`, unless it is empty or starts with `_`.
    pub fn lbl_input(&mut self) -> (r: LblInput)
        requires
            old(self)@.wf(),
            old(self)@.arg_ready(),
        ensures
            ({
                let pat = old(self)@.iline.skip(old(self)@.argidx as int);
                let cleared = CtxV { iline: Seq::<char>::empty(), ..old(self)@ };
                &&& pat.len() == 0 ==> r is Empty && final(self)@ == cleared
                &&& pat.len() > 0 && pat[0] == '_' ==> r is Reserved && final(self)@ == cleared
                &&& pat.len() > 0 && pat[0] != '_' ==> r is Chosen && final(self)@ == (CtxV { chosen_lbl: pat, ..cleared })
            }),
            final(self)@.wf(),
    {
        let pat = self.ilinearg();
        let c = to_chars(pat.as_str());
        if c.len() == 0 {
            return LblInput::Empty;
        }
        if c[0] == '_' {
            return LblInput::Reserved;
        }
        self.def.chosen_lbl = pat;
        LblInput::Chosen
    }

    /// `lbls pattern`: the labels that contain the pattern; where exactly one does, it is
    /// chosen.
    pub fn lbls_search(&mut self) -> (r: LblsSearch)
        requires
            old(self)@.wf(),
            old(self)@.arg_ready(),
        ensures
            ({
                let pat = old(self)@.iline.skip(old(self)@.argidx as int);
                let cleared = CtxV { iline: Seq::<char>::empty(), ..old(self)@ };
                match r {
                    LblsSearch::NoMatch => (forall|x: Seq<char>| !label_matches(old(self)@.store, pat, x)) && final(self)@ == cleared,
                    LblsSearch::Chosen => label_matches(old(self)@.store, pat, final(self)@.chosen_lbl)
                        && (forall|x: Seq<char>| #[trigger] label_matches(old(self)@.store, pat, x) ==> x == final(self)@.chosen_lbl)
                        && final(self)@ == (CtxV { chosen_lbl: final(self)@.chosen_lbl, ..cleared }),
                    LblsSearch::Choose(v) => v@.len() > 1 && strictly_sorted(views(v@))
                        && (forall|x: Seq<char>| views(v@).contains(x) <==> label_matches(old(self)@.store, pat, x)) && final(self)@ == cleared,
                }
            }),
            final(self)@.wf(),
    {
        let (m, Ghost(pat)) = self.labels_matching_arg();
        if m.len() == 0 {
            proof {
                assert forall|x: Seq<char>| !#[trigger] label_matches(old(self)@.store, pat, x) by {
                    if views(m@).contains(x) {
                        let j = choose|j: int| 0 <= j < views(m@).len() && views(m@)[j] == x;
                    }
                }
            }
            return LblsSearch::NoMatch;
        }
        if m.len() == 1 {
            self.def.chosen_lbl = m[0].clone();
            proof {
                assert(views(m@)[0] == m@[0]@);
                assert(views(m@).contains(m@[0]@));
                assert forall|x: Seq<char>| #[trigger] label_matches(old(self)@.store, pat, x)
                    implies x == m@[0]@ by {
                    assert(views(m@).contains(x));
                }
            }
            return LblsSearch::Chosen;
        }
        LblsSearch::Choose(m)
    }

    /// Chooses entry `choice` (a `usize` in decimal) of `list`; `false` where `choice`
    /// is no index of it.
    pub fn choose_label(&mut self, list: &Vec<String>, choice: &str) -> (ok: bool)
        requires
            old(self)@.wf(),
        ensures
            ({
                let c = parse_usize_spec(choice@);
                &&& ok == (c is Some && c->0 < list@.len())
                &&& ok ==> final(self)@ == (CtxV { chosen_lbl: list@[c->0 as int]@, ..old(self)@ })
                &&& !ok ==> final(self)@ == old(self)@
            }),
            final(self)@.wf(),
    {
        let c = to_chars(choice);
        match parse_usize(c.as_slice()) {
            Some(i) => {
                if i < list.len() {
                    self.def.chosen_lbl = list[i].clone();
                    true
                } else {
                    false
                }
            },
            None => false,
        }
    }

    /// Every folder that holds a note and the top folder `""`, each once, in increasing
    /// order, each marked whether it is the chosen folder.
    pub fn dir_listing(&self) -> (r: Vec<(bool, String)>)
        ensures
            strictly_sorted(listed_names(r@)),
            forall|x: Seq<char>| #[trigger] listed_names(r@).contains(x) <==> is_folder(self@.store.files, x),
            forall|j: int| 0 <= j < r@.len() ==> (#[trigger] r@[j]).0 == (r@[j].1@ == self@.chosen_dir),
    {
        let folders = get_all_folders(&self.db);
        let ghost fv = views(folders@);
        let mut out: Vec<(bool, String)> = Vec::new();
        let mut i: usize = 0;
        while i < folders.len()
            invariant
                i <= folders@.len(),
                fv == views(folders@),
                listed_names(out@) == fv.take(i as int),
                forall|j: int| 0 <= j < out@.len() ==> (#[trigger] out@[j]).0 == (out@[j].1@ == self@.chosen_dir),
            decreases folders.len() - i,
        {
            let f = folders[i].clone();
            let mark = f == self.def.chosen_dir;
            let ghost prev = listed_names(out@);
            let ghost fvi = f@;
            assert(fvi == fv[i as int]);
            out.push((mark, f));
            assert(listed_names(out@) =~= prev.push(fvi));
            assert(fv.take(i + 1) =~= fv.take(i as int).push(fv[i as int]));
            i += 1;
        }
        assert(fv.take(fv.len() as int) == fv);
        out
    }

    /// Chooses the folder at index `choice` (a `usize` in decimal) of `folders`.
    pub fn choose_dir(&mut self, folders: &Vec<String>, choice: &str) -> (r: DirChoice)
        requires
            old(self)@.wf(),
        ensures
            ({
                let c = parse_usize_spec(choice@);
                &&& c is None ==> r is InvalidIndex && final(self)@ == old(self)@
                &&& c is Some && c->0 >= folders@.len() ==> r is TooGreat && final(self)@ == old(self)@
                &&& c is Some && c->0 < folders@.len() ==> r is Chosen
                    && final(self)@ == (CtxV { chosen_dir: folders@[c->0 as int]@, ..old(self)@ })
            }),
            final(self)@.wf(),
    {
        let c = to_chars(choice);
        match parse_usize(c.as_slice()) {
            None => DirChoice::InvalidIndex,
            Some(i) => {
                if i < folders.len() {
                    self.def.chosen_dir = folders[i].clone();
                    DirChoice::Chosen
                } else {
                    DirChoice::TooGreat
                }
            },
        }
    }

    /// `dir pattern`: the folders whose name contains the pattern; where exactly one does,
    /// it is chosen.
    pub fn ca_dir(&mut self) -> (r: DirMatch)
        requires
            old(self)@.wf(),
            old(self)@.arg_ready(),
        ensures
            ({
                let pat = old(self)@.iline.skip(old(self)@.argidx as int);
                let cleared = CtxV { iline: Seq::<char>::empty(), ..old(self)@ };
                match r {
                    DirMatch::NoMatch => (forall|x: Seq<char>| !#[trigger] dir_hit(old(self)@.store.files, pat, x)) && final(self)@ == cleared,
                    DirMatch::Many(v) => v@.len() > 1 && strictly_sorted(views(v@))
                        && (forall|x: Seq<char>| #[trigger] views(v@).contains(x) <==> dir_hit(old(self)@.store.files, pat, x)) && final(self)@ == cleared,
                    DirMatch::One(d) => dir_hit(old(self)@.store.files, pat, d@) && (forall|x: Seq<char>| #[trigger] dir_hit(old(self)@.store.files, pat, x) ==> x == d@)
                        && final(self)@ == (CtxV { chosen_dir: d@, ..cleared }),
                }
            }),
            final(self)@.wf(),
    {
        let folders = get_all_folders(&self.db);
        let pat = self.ilinearg();
        let p = to_chars(pat.as_str());
        let ghost fv = views(folders@);
        assert forall|x: Seq<char>| #[trigger] fv.contains(x) <==> is_folder(old(self)@.store.files, x) by {
            assert(views(folders@).contains(x) <==> is_folder(self@.store.files, x));
        }
        let mut kept: Vec<String> = Vec::new();
        let mut i: usize = 0;
        while i < folders.len()
            invariant
                i <= folders@.len(),
                fv == views(folders@),
                p@ == pat@,
                views(kept@) == fv.take(i as int).filter(|x: Seq<char>| has_sub(x, pat@)),
            decreases folders.len() - i,
        {
            reveal(Seq::filter);
            assert(fv.take(i + 1).drop_last() == fv.take(i as int));
            let c = to_chars(folders[i].as_str());
            let ghost prev = views(kept@);
            if crate::text::contains_sub(c.as_slice(), p.as_slice()) {
                kept.push(folders[i].clone());
                assert(views(kept@) =~= prev.push(fv[i as int]));
            }
            assert(views(kept@) =~= fv.take(i + 1).filter(|x: Seq<char>| has_sub(x, pat@)));
            i += 1;
        }
        assert(fv.take(fv.len() as int) == fv);
        let ghost kv = views(kept@);
        let ghost pred = |x: Seq<char>| has_sub(x, pat@);
        proof {
            assert forall|x: Seq<char>| #[trigger] kv.contains(x) <==> dir_hit(old(self)@.store.files, pat@, x) by {
                assert(fv.contains(x) <==> is_folder(old(self)@.store.files, x));
                if kv.contains(x) {
                    let k = choose|k: int| 0 <= k < kv.len() && kv[k] == x;
                    fv.lemma_filter_pred(pred, k);
                    fv.lemma_filter_contains_rev(pred, x);
                }
                if has_sub(x, pat@) && fv.contains(x) {
                    let k = choose|k: int| 0 <= k < fv.len() && fv[k] == x;
                    fv.lemma_filter_contains(pred, k);
                }
            }
            assert forall|a: int, b: int| 0 <= a < b < kv.len() implies crate::order::lex_lt(kv[a], kv[b]) by {
                crate::order::lemma_filter_sorted(fv, pred);
            }
        }
        if kept.len() == 0 {
            proof {
                assert forall|x: Seq<char>| !#[trigger] dir_hit(old(self)@.store.files, pat@, x) by {
                    if dir_hit(old(self)@.store.files, pat@, x) {
                        assert(kv.contains(x));
                    }
                }
            }
            return DirMatch::NoMatch;
        }
        if kept.len() > 1 {
            return DirMatch::Many(kept);
        }
        let d = kept[0].clone();
        proof {
            assert(kv[0] == d@);
            assert(kv.contains(d@));
            assert forall|x: Seq<char>| #[trigger] dir_hit(old(self)@.store.files, pat@, x) implies x == d@ by {
                assert(kv.contains(x));
            }
        }
        self.def.chosen_dir = d.clone();
        DirMatch::One(d)
    }

    /// `recent`: lists the five most recent notes, most recent first; `false` (and nothing
    /// changes) where there are no notes.
    pub fn cmd_recent_notes(&mut self) -> (updated: bool)
        requires
            old(self)@.wf(),
        ensures
            updated == (old(self)@.store.files.len() > 0),
            final(self)@.wf(),
            !updated ==> final(self)@ == old(self)@,
            updated ==> {
                let f = old(self)@.store.files;
                let r = final(self)@.fb;
                &&& final(self)@ == (CtxV { fb: r, fbt: r, ..old(self)@ })
                &&& r.len() <= 5
                &&& forall|j: int| 0 <= j < r.len() ==> has_tid(f, #[trigger] r[j])
                &&& forall|j: int, l: int| 0 <= j < l < r.len() ==> newer(f[idx_of(f, r[j])], f[idx_of(f, r[l])])
                &&& forall|i: int, j: int| 0 <= i < f.len() && 0 <= j < r.len() && !r.contains(f[i].tmpid)
                    ==> newer(f[idx_of(f, r[j])], f[i])
                &&& r.len() < 5 ==> forall|i: int| 0 <= i < f.len() ==> r.contains(#[trigger] f[i].tmpid)
            },
    {
        let tids = self.db.recent(5);
        proof {
            let f = self@.store.files;
            if f.len() > 0 && tids@.len() == 0 {
                assert(tids@.contains(f[0].tmpid));
            }
            if f.len() == 0 && tids@.len() > 0 {
                assert(has_tid(f, tids@[0]));
            }
            assert forall|i: int, j: int| 0 <= i < j < tids@.len() implies tids@[i] != tids@[j] by {
                if tids@[i] == tids@[j] {
                    assert(newer(f[idx_of(f, tids@[i])], f[idx_of(f, tids@[j])]));
                }
            }
            lemma_note_ids_listable(self@.store, tids@);
        }
        self.iter_rows_to_update_filter_buf(tids)
    }

    /// `edit`: the command that opens the one selected note in the editor;
    /// `TmpidInvalid` where that entry names no note.
    pub fn cmd_edit(&self) -> (r: Result<EditTarget, CustomErr>)
        requires
            self@.wf(),
        ensures
            ({
                let sel = selection(self@.fb);
                &&& sel.len() > 1 ==> (r matches Ok(EditTarget::MoreThanOne))
                &&& sel.len() == 0 ==> (r matches Ok(EditTarget::NoneSelected))
                &&& sel.len() == 1 && self@.editor_cmd.len() == 0 ==> (r matches Ok(EditTarget::NoEditor))
                &&& sel.len() == 1 && self@.editor_cmd.len() > 0 && !has_tid(self@.store.files, sel[0])
                    ==> (r matches Err(CustomErr::TmpidInvalid))
                &&& sel.len() == 1 && self@.editor_cmd.len() > 0 && has_tid(self@.store.files, sel[0])
                    ==> (r matches Ok(EditTarget::Launch { program, args, path })
                    && program@ == self@.editor_cmd[0]
                    && views(args@) == self@.editor_cmd.drop_first()
                    && path@ == path_join(note_folder(self@.note_dir, file_of(self@.store, sel[0]).rel), "note"@))
            }),
    {
        let sel = self.mk_vec_of_selection();
        if sel.len() > 1 {
            return Ok(EditTarget::MoreThanOne);
        }
        if sel.len() == 0 {
            return Ok(EditTarget::NoneSelected);
        }
        if self.def.editor_cmd.len() == 0 {
            return Ok(EditTarget::NoEditor);
        }
        let tid = sel[0];
        let path = match mk_pathstr_for_note(self, tid) {
            Ok(p) => p,
            Err(e) => {
                return Err(e);
            },
        };
        let program = self.def.editor_cmd[0].clone();
        let ghost e = views(self.def.editor_cmd@);
        let mut args: Vec<String> = Vec::new();
        let mut i: usize = 1;
        while i < self.def.editor_cmd.len()
            invariant
                1 <= i <= self.def.editor_cmd@.len(),
                e == views(self.def.editor_cmd@),
                views(args@) == e.subrange(1, i as int),
            decreases self.def.editor_cmd.len() - i,
        {
            let c = self.def.editor_cmd[i].clone();
            let ghost prev = views(args@);
            assert(c@ == e[i as int]);
            args.push(c);
            assert(views(args@) =~= prev.push(e[i as int]));
            assert(views(args@) =~= e.subrange(1, i + 1));
            i += 1;
        }
        assert(views(self.def.editor_cmd@).subrange(1, self.def.editor_cmd@.len() as int) =~= views(self.def.editor_cmd@).drop_first());
        Ok(EditTarget::Launch { program, args, path })
    }

    /// The selected notes, each with its path relative to the note folder, in buffer order;
    /// `TmpidInvalid` where a selected entry names no note.
    pub fn selection_rels(&self) -> (r: Result<Vec<(i64, String)>, CustomErr>)
        requires
            self@.wf(),
        ensures
            match r {
                Ok(v) => {
                    &&& v@.map_values(|e: (i64, String)| e.0) == selection(self@.fb)
                    &&& forall|j: int| 0 <= j < v@.len() ==> has_tid(self@.store.files, (#[trigger] v@[j]).0)
                        && v@[j].1@ == file_of(self@.store, v@[j].0).rel
                },
                Err(e) => e is TmpidInvalid && exists|j: int| 0 <= j < selection(self@.fb).len()
                    && !has_tid(self@.store.files, #[trigger] selection(self@.fb)[j]),
            },
    {
        let sel = self.mk_vec_of_selection();
        let ghost sv = sel@;
        let mut out: Vec<(i64, String)> = Vec::new();
        let mut i: usize = 0;
        while i < sel.len()
            invariant
                i <= sel@.len(),
                sv == sel@,
                sv == selection(self@.fb),
                self@.wf(),
                out@.map_values(|e: (i64, String)| e.0) == sv.take(i as int),
                forall|j: int| 0 <= j < out@.len() ==> has_tid(self@.store.files, (#[trigger] out@[j]).0)
                    && out@[j].1@ == file_of(self@.store, out@[j].0).rel,
            decreases sel.len() - i,
        {
            let t = sel[i];
            let ghost prev = out@.map_values(|e: (i64, String)| e.0);
            match self.db.find(t) {
                Some(p) => {
                    proof {
                        lemma_idx_of(self@.store, p as int);
                    }
                    out.push((t, self.db.file_at(p).rel.clone()));
                },
                None => {
                    assert(!has_tid(self@.store.files, sv[i as int]));
                    return Err(CustomErr::TmpidInvalid);
                },
            }
            assert(out@.map_values(|e: (i64, String)| e.0) =~= prev.push(t));
            assert(sv.take(i + 1) =~= sv.take(i as int).push(sv[i as int]));
            i += 1;
        }
        assert(sv.take(sv.len() as int) == sv);
        Ok(out)
    }

    /// The path of the folder of the note at `rel`.
    pub fn note_folder_path(&self, rel: &str) -> (r: String)
        ensures
            r@ == note_folder(self@.note_dir, rel@),
    {
        let mut pb = self.def.note_dir.clone();
        push_comps_to_pb(&mut pb, rel);
        pb
    }

    /// The folders above the note at `rel` that become candidates for removal once the
    /// note is deleted, innermost first, stopping short of the note folder: the note
    /// folder with the first `n - 1`, then `n - 2`, ..., then 1 components of `rel`.
    pub fn upper_dirs(&self, rel: &str) -> (r: Vec<String>)
        ensures
            ({
                let comps = split_by(rel@, seq!['/']);
                &&& r@.len() == comps.len() - 1
                &&& forall|t: int| 0 <= t < r@.len() ==> (#[trigger] r@[t])@ == path_join_all(
                    self@.note_dir,
                    comps.take(comps.len() - 1 - t),
                )
            }),
    {
        let rc = to_chars(rel);
        let sep = ['/'];
        let comps = split_chars(rc.as_slice(), sep.as_slice());
        assert(sep@ == seq!['/']);
        let ghost cv = split_by(rel@, seq!['/']);
        proof {
            crate::text::lemma_split_nonempty(rel@, seq!['/']);
        }
        let n = comps.len();
        let mut out: Vec<String> = Vec::new();
        let mut j: usize = n - 1;
        while j > 0
            invariant
                n == cv.len(),
                views(comps@) == cv,
                j < n,
                out@.len() == n - 1 - j,
                forall|t: int| 0 <= t < out@.len() ==> (#[trigger] out@[t])@ == path_join_all(self@.note_dir, cv.take(n - 1 - t)),
            decreases j,
        {
            let mut pb = self.def.note_dir.clone();
            let part = comps.as_slice().split_at(j).0;
            path_push_all(&mut pb, part);
            assert(views(part@) =~= cv.take(j as int));
            out.push(pb);
            j -= 1;
        }
        out
    }

    /// Deletes the selected notes, with their labels and attachments, and drops them from
    /// the filter buffer.
    pub fn delete_selection(&mut self)
        requires
            old(self)@.wf(),
        ensures
            ({
                let sel = selection(old(self)@.fb);
                &&& final(self)@ == (CtxV {
                    store: StoreV {
                        files: old(self)@.store.files.filter(|f: FileV| !sel.contains(f.tmpid)),
                        lbls: old(self)@.store.lbls.filter(|r: (i64, Seq<char>)| !sel.contains(r.0)),
                        atts: old(self)@.store.atts.filter(|r: (i64, Seq<char>, i64)| !sel.contains(r.0)),
                    },
                    fb: old(self)@.fb.filter(|x: i64| x >= 0),
                    fbt: old(self)@.fbt.filter(|t: i64| !sel.contains(t)),
                    ..old(self)@
                })
            }),
            final(self)@.wf(),
    {
        let sel = self.mk_vec_of_selection();
        let ghost sv = sel@;
        let ghost fb0 = self@.fb;
        let ghost files0 = self@.store.files;
        self.db.delete_notes(sel.as_slice());
        let ghost keptf = self@.store.files;
        let mut kept: Vec<i64> = Vec::new();
        let mut i: usize = 0;
        while i < self.def.filter_buf.len()
            invariant
                i <= fb0.len(),
                fb0 == self.def.filter_buf@,
                kept@ == fb0.take(i as int).filter(|x: i64| x >= 0),
            decreases fb0.len() - i,
        {
            reveal(Seq::filter);
            assert(fb0.take(i + 1).drop_last() == fb0.take(i as int));
            let x = self.def.filter_buf[i];
            if x >= 0 {
                kept.push(x);
            }
            assert(kept@ =~= fb0.take(i + 1).filter(|x: i64| x >= 0));
            i += 1;
        }
        assert(fb0.take(fb0.len() as int) == fb0);
        proof {
            let pk = |x: i64| x >= 0;
            let pf = |f: FileV| !sv.contains(f.tmpid);
            assert forall|j: int| 0 <= j < kept@.len() implies #[trigger] kept@[j] != i64::MIN by {
                fb0.lemma_filter_contains_rev(pk, kept@[j]);
                let a = choose|a: int| 0 <= a < fb0.len() && fb0[a] == kept@[j];
            }
        }
        let ghost t0 = self@.fbt;
        let mut kept_t: Vec<i64> = Vec::new();
        let mut i: usize = 0;
        while i < self.listed_ids.len()
            invariant
                i <= t0.len(),
                t0 == self.listed_ids@,
                sv == sel@,
                kept_t@ == t0.take(i as int).filter(|t: i64| !sv.contains(t)),
            decreases t0.len() - i,
        {
            reveal(Seq::filter);
            assert(t0.take(i + 1).drop_last() == t0.take(i as int));
            let t = self.listed_ids[i];
            if !contains_id(sel.as_slice(), t) {
                kept_t.push(t);
            }
            assert(kept_t@ =~= t0.take(i + 1).filter(|t: i64| !sv.contains(t)));
            i += 1;
        }
        assert(t0.take(t0.len() as int) == t0);
        proof {
            lemma_filter_no_repeat(t0, |t: i64| !sv.contains(t));
        }
        self.def.filter_buf = kept;
        self.listed_ids = kept_t;
    }

    /// `where condition`: the query to run, given the `ORDER BY` text the user typed next.
    /// The line is used up.
    pub fn ca_where(&mut self, orderby: &str) -> (r: String)
        requires
            old(self)@.wf(),
            old(self)@.arg_ready(),
        ensures
            r@ == where_sql(old(self)@.fb.len() == 0, old(self)@.iline.skip(old(self)@.argidx as int), orderby@),
            starts_with(r@, "SELECT tmpid from files where "@),
            orderby@.len() > 0 ==> ends_with(r@, " order by "@ + orderby@),
            final(self)@ == (CtxV { iline: Seq::<char>::empty(), ..old(self)@ }),
            final(self)@.wf(),
    {
        proof {
            law_where_query_order(old(self)@.fb.len() == 0, old(self)@.iline.skip(old(self)@.argidx as int), orderby@);
        }
        let arg = self.ilinearg();
        let mut ob = String::new();
        if !orderby.is_empty() {
            ob.append(" order by ");
            ob.append(orderby);
        }
        let mut q: String;
        if self.def.filter_buf.len() == 0 {
            q = String::from_str("SELECT tmpid from files where ");
            q.append(arg.as_str());
        } else {
            q = String::from_str("SELECT tmpid from files where tmpid in(select tid from filter_buf) and (");
            q.append(arg.as_str());
            q.append(")");
        }
        q.append(ob.as_str());
        proof {
            assert(ob@ == (if orderby@.len() == 0 { Seq::<char>::empty() } else { " order by "@ + orderby@ }));
        }
        q
    }

    /// Lists the ids the `where` query gave (none selected), whether or not they name
    /// notes. `Ok(false)` where it gave none; `DuplicateIds` where one comes twice or one
    /// is `i64::MIN` (nothing changes).
    pub fn where_results(&mut self, tids: Vec<i64>) -> (r: Result<bool, CustomErr>)
        requires
            old(self)@.wf(),
        ensures
            match r {
                Ok(u) => listable(tids@) && u == (tids@.len() > 0) && (u ==> final(self)@ == (CtxV { fb: tids@, fbt: tids@, ..old(self)@ }))
                    && (!u ==> final(self)@ == old(self)@),
                Err(e) => !listable(tids@) && e is DuplicateIds && final(self)@ == old(self)@,
            },
            final(self)@.wf(),
    {
        let mut i: usize = 0;
        while i < tids.len()
            invariant
                i <= tids@.len(),
                self@ == old(self)@,
                self@.wf(),
                forall|k: int| 0 <= k < i ==> #[trigger] tids@[k] != i64::MIN,
                forall|a: int, b: int| 0 <= a < b < i ==> tids@[a] != tids@[b],
            decreases tids.len() - i,
        {
            let x = tids[i];
            if x == i64::MIN {
                return Err(CustomErr::DuplicateIds);
            }
            let mut j: usize = 0;
            while j < i
                invariant
                    j <= i < tids@.len(),
                    self@ == old(self)@,
                    self@.wf(),
                    tids@[i as int] == x,
                    forall|k: int| 0 <= k < i ==> #[trigger] tids@[k] != i64::MIN,
                    forall|a: int, b: int| 0 <= a < b < i ==> tids@[a] != tids@[b],
                    forall|k: int| 0 <= k < j ==> tids@[k] != x,
                decreases i - j,
            {
                if tids[j] == x {
                    return Err(CustomErr::DuplicateIds);
                }
                j += 1;
            }
            i += 1;
        }
        Ok(self.iter_rows_to_update_filter_buf(tids))
    }

    /// `where condition`: runs the query that [`Ctx::ca_where`] builds, with the `ORDER BY`
    /// text `orderby`, on a copy of the store and of the table of listed ids in a new
    /// SQLite database, and lists the ids it gives (see [`Ctx::where_results`]). What the
    /// query gives is SQLite's to say (it may call `random()` or read the clock), so only
    /// what holds of every answer is stated. The line is used up.
    pub fn run_where(&mut self, orderby: &str) -> (r: Result<WhereStep, CustomErr>)
        requires
            old(self)@.wf(),
            old(self)@.arg_ready(),
        ensures
            ({
                let cleared = CtxV { iline: Seq::<char>::empty(), ..old(self)@ };
                match r {
                    Ok(WhereStep::NotPrepared) => final(self)@ == cleared,
                    Ok(WhereStep::NothingFound) => final(self)@ == cleared,
                    Ok(WhereStep::Listed) => final(self)@.fb.len() > 0 && listable(final(self)@.fb)
                        && final(self)@ == (CtxV { fb: final(self)@.fb, fbt: final(self)@.fb, ..cleared }),
                    Err(e) => final(self)@ == cleared && (e is Sql || e is DuplicateIds),
                }
            }),
            final(self)@.wf(),
    {
        let sql = self.ca_where(orderby);
        let ghost v = self@.store;
        let ghost fbt = self@.fbt;
        let mut conn = match open_in_memory() {
            Ok(c) => c,
            Err(e) => {
                return Err(CustomErr::Sql(e));
            },
        };
        match create_tables(&mut conn) {
            Ok(_) => {},
            Err(e) => {
                return Err(CustomErr::Sql(e));
            },
        }
        let ghost frows = v.files.map_values(|f: FileV| file_row(f));
        let n = self.db.num_files();
        let mut i: usize = 0;
        while i < n
            invariant
                self@ == (CtxV { iline: Seq::<char>::empty(), ..old(self)@ }),
                old(self)@.wf(),
                n == v.files.len(),
                v == self@.store,
                i <= n,
                frows == v.files.map_values(|f: FileV| file_row(f)),
                db_files(conn) == frows.take(i as int),
                db_lbls(conn).len() == 0,
                db_atts(conn).len() == 0,
                db_filter_buf(conn).len() == 0,
            decreases n - i,
        {
            let f = self.db.file_at(i);
            match insert_file_row(&mut conn, f.tmpid, f.size, f.mtime, f.rel.as_str(), f.content.as_str()) {
                Ok(_) => {},
                Err(e) => {
                    return Err(CustomErr::Sql(e));
                },
            }
            assert(frows.take(i + 1) =~= frows.take(i as int).push(frows[i as int]));
            i += 1;
        }
        assert(frows.take(n as int) =~= frows);
        let nl = self.db.num_lbls();
        let mut i: usize = 0;
        while i < nl
            invariant
                self@ == (CtxV { iline: Seq::<char>::empty(), ..old(self)@ }),
                old(self)@.wf(),
                nl == v.lbls.len(),
                v == self@.store,
                i <= nl,
                db_files(conn) == frows,
                db_lbls(conn) == v.lbls.take(i as int),
                db_atts(conn).len() == 0,
                db_filter_buf(conn).len() == 0,
            decreases nl - i,
        {
            let l = self.db.lbl_at(i);
            match insert_lbl_row(&mut conn, l.tmpid, l.lbl.as_str()) {
                Ok(_) => {},
                Err(e) => {
                    return Err(CustomErr::Sql(e));
                },
            }
            assert(v.lbls.take(i + 1) =~= v.lbls.take(i as int).push(v.lbls[i as int]));
            i += 1;
        }
        assert(v.lbls.take(nl as int) =~= v.lbls);
        let na = self.db.num_atts();
        let mut i: usize = 0;
        while i < na
            invariant
                self@ == (CtxV { iline: Seq::<char>::empty(), ..old(self)@ }),
                old(self)@.wf(),
                na == v.atts.len(),
                v == self@.store,
                i <= na,
                db_files(conn) == frows,
                db_lbls(conn) == v.lbls,
                db_atts(conn) == v.atts.take(i as int),
                db_filter_buf(conn).len() == 0,
            decreases na - i,
        {
            let a = self.db.att_at(i);
            match insert_att_row(&mut conn, a.tmpid, a.rel.as_str(), a.size) {
                Ok(_) => {},
                Err(e) => {
                    return Err(CustomErr::Sql(e));
                },
            }
            assert(v.atts.take(i + 1) =~= v.atts.take(i as int).push(v.atts[i as int]));
            i += 1;
        }
        assert(v.atts.take(na as int) =~= v.atts);
        let nf = self.listed_ids.len();
        let mut i: usize = 0;
        while i < nf
            invariant
                self@ == (CtxV { iline: Seq::<char>::empty(), ..old(self)@ }),
                old(self)@.wf(),
                nf == fbt.len(),
                fbt == self@.fbt,
                i <= nf,
                db_files(conn) == frows,
                db_lbls(conn) == v.lbls,
                db_atts(conn) == v.atts,
                db_filter_buf(conn) == fbt.take(i as int),
            decreases nf - i,
        {
            match insert_filter_row(&mut conn, self.listed_ids[i]) {
                Ok(_) => {},
                Err(e) => {
                    return Err(CustomErr::Sql(e));
                },
            }
            assert(fbt.take(i + 1) =~= fbt.take(i as int).push(fbt[i as int]));
            i += 1;
        }
        assert(fbt.take(nf as int) =~= fbt);
        let tids = match where_query(&mut conn, sql.as_str()) {
            Ok(Some(t)) => t,
            Ok(None) => {
                return Ok(WhereStep::NotPrepared);
            },
            Err(e) => {
                return Err(CustomErr::Sql(e));
            },
        };
        match self.where_results(tids) {
            Ok(true) => Ok(WhereStep::Listed),
            Ok(false) => Ok(WhereStep::NothingFound),
            Err(e) => Err(e),
        }
    }

    /// The path of the chosen folder (see [`chosen_dir_path`]).
    pub fn mk_full_path_of_chosen_dir(&self) -> (r: String)
        ensures
            r@ == chosen_dir_path(self@.note_dir, self@.chosen_dir),
    {
        let mut retval = self.def.note_dir.clone();
        if self.def.chosen_dir.as_str().is_empty() {
            return retval;
        }
        push_comps_to_pb(&mut retval, self.def.chosen_dir.as_str());
        retval
    }

    /// `new path`: the plan for a new note at `path` in the chosen folder (see
    /// [`NewNotePlan`]). The line is used up.
    pub fn plan_new_note(&mut self) -> (r: NewNotePlan)
        requires
            old(self)@.wf(),
            old(self)@.arg_ready(),
        ensures
            ({
                let arg = old(self)@.iline.skip(old(self)@.argidx as int);
                let comps = split_by(arg, seq!['/', '\\']);
                let base = chosen_dir_path(old(self)@.note_dir, old(self)@.chosen_dir);
                let n = match r.fault { Some((k, _)) => k as int, None => comps.len() as int };
                &&& views(r.comps@) == comps
                &&& (r.fault matches Some((k, f)) ==> k < comps.len() && name_fault(comps[k as int]) == Some(f))
                &&& forall|j: int| 0 <= j < n ==> name_fault(#[trigger] comps[j]) is None
                &&& r.dirs@.len() == n
                &&& forall|j: int| 0 <= j < n ==> (#[trigger] r.dirs@[j])@ == path_join_all(base, comps.take(j + 1))
            }),
            final(self)@ == (CtxV { iline: Seq::<char>::empty(), ..old(self)@ }),
            final(self)@.wf(),
    {
        let base = self.mk_full_path_of_chosen_dir();
        let arg = self.ilinearg();
        let a = to_chars(arg.as_str());
        let seps = ['/', '\\'];
        let comps = split_chars(a.as_slice(), seps.as_slice());
        assert(seps@ == seq!['/', '\\']);
        let ghost cv = views(comps@);
        let mut dirs: Vec<String> = Vec::new();
        let mut dirp = base.clone();
        let mut i: usize = 0;
        while i < comps.len()
            invariant
                i <= comps@.len(),
                cv == views(comps@),
                cv == split_by(old(self)@.iline.skip(old(self)@.argidx as int), seq!['/', '\\']),
                base@ == chosen_dir_path(old(self)@.note_dir, old(self)@.chosen_dir),
                self@ == (CtxV { iline: Seq::<char>::empty(), ..old(self)@ }),
                self@.wf(),
                dirs@.len() == i,
                dirp@ == path_join_all(base@, cv.take(i as int)),
                forall|j: int| 0 <= j < i ==> name_fault(#[trigger] cv[j]) is None,
                forall|j: int| 0 <= j < i ==> (#[trigger] dirs@[j])@ == path_join_all(base@, cv.take(j + 1)),
            decreases comps.len() - i,
        {
            match check_name(comps[i].as_str()) {
                Some(f) => {
                    return NewNotePlan { comps, dirs, fault: Some((i, f)) };
                },
                None => {},
            }
            path_push(&mut dirp, comps[i].as_str());
            assert(cv.take(i + 1).drop_last() == cv.take(i as int));
            dirs.push(dirp.clone());
            i += 1;
        }
        NewNotePlan { comps, dirs, fault: None }
    }

    /// `new`, once the note `tid` is recorded: every listed note unselected and the new
    /// one listed last, selected, and added to the table of listed ids;
    /// `DuplicateIds` where that table holds `tid` already (nothing changes).
    pub fn select_new_note(&mut self, tid: i64) -> (r: Result<(), CustomErr>)
        requires
            old(self)@.wf(),
            tid != i64::MIN,
        ensures
            old(self)@.fbt.contains(tid) ==> (r matches Err(CustomErr::DuplicateIds)) && final(self)@ == old(self)@,
            !old(self)@.fbt.contains(tid) ==> r is Ok && final(self)@ == (CtxV {
                fb: deselected(old(self)@.fb).push((-tid) as i64),
                fbt: old(self)@.fbt.push(tid),
                ..old(self)@
            }),
            final(self)@.wf(),
    {
        if contains_id(self.listed_ids.as_slice(), tid) {
            return Err(CustomErr::DuplicateIds);
        }
        let ghost fb0 = self@.fb;
        let ghost t0 = self@.fbt;
        self.deselect();
        self.def.filter_buf.push(-tid);
        self.listed_ids.push(tid);
        proof {
            assert forall|i: int, j: int| 0 <= i < j < self@.fbt.len() implies self@.fbt[i] != self@.fbt[j] by {
                if j == t0.len() {
                    assert(t0.contains(t0[i]));
                }
            }
        }
        assert(self@.fb =~= deselected(fb0).push((-tid) as i64));
        Ok(())
    }

    /// `reload`, before the note folder is read again: no folder or label chosen, the
    /// filter buffer and the store emptied.
    pub fn reload_clear(&mut self)
        requires
            old(self)@.wf(),
        ensures
            final(self)@ == (CtxV {
                store: StoreV { files: Seq::empty(), lbls: Seq::empty(), atts: Seq::empty() },
                fb: Seq::empty(),
                fbt: Seq::empty(),
                chosen_dir: Seq::empty(),
                chosen_lbl: Seq::empty(),
                ..old(self)@
            }),
            final(self)@.wf(),
    {
        self.def.chosen_dir = String::new();
        self.def.chosen_lbl = String::new();
        self.def.filter_buf.clear();
        self.listed_ids.clear();
        self.db.clear();
        assert(self@.fbt =~= Seq::<i64>::empty());
        assert(self@.store.files =~= Seq::<FileV>::empty());
        assert(self@.store.lbls =~= Seq::<(i64, Seq<char>)>::empty());
        assert(self@.store.atts =~= Seq::<(i64, Seq<char>, i64)>::empty());
    }

    /// Fills the empty store with the notes read from the note folder, in the order they
    /// were found (see [`read_files`], [`read_lbls`], [`read_atts`]).
    pub fn read_notes(&mut self, notes: Vec<NoteScan>)
        requires
            old(self)@.wf(),
            old(self)@.store.files.len() == 0,
            old(self)@.store.lbls.len() == 0,
            old(self)@.store.atts.len() == 0,
            notes@.len() < i64::MAX,
        ensures
            ({
                let es = notes@.map_values(|n: NoteScan| scan_v(n));
                final(self)@ == (CtxV {
                    store: StoreV { files: read_files(es), lbls: read_lbls(es), atts: read_atts(es) },
                    ..old(self)@
                })
            }),
            final(self)@.wf(),
    {
        let ghost es = notes@.map_values(|n: NoteScan| scan_v(n));
        let mut i: usize = 0;
        assert(read_files(es.take(0)) =~= Seq::<FileV>::empty());
        assert(self@.store.files =~= Seq::<FileV>::empty());
        assert(self@.store.lbls =~= read_lbls(es.take(0)));
        assert(self@.store.atts =~= read_atts(es.take(0)));
        while i < notes.len()
            invariant
                i <= notes@.len(),
                notes@.len() < i64::MAX,
                es == notes@.map_values(|n: NoteScan| scan_v(n)),
                self@ == (CtxV { store: self@.store, ..old(self)@ }),
                self@.store.files == read_files(es.take(i as int)),
                self@.store.lbls == read_lbls(es.take(i as int)),
                self@.store.atts == read_atts(es.take(i as int)),
                self@.wf(),
                old(self)@.wf(),
            decreases notes.len() - i,
        {
            let n = &notes[i];
            let ghost ev = es[i as int];
            assert(ev == scan_v(notes@[i as int]));
            let rel = join_strings(n.comps.as_slice(), '/');
            let content = n.info.content.clone();
            let ghost files0 = self@.store.files;
            proof {
                if i > 0 {
                    assert(files0.last().tmpid == i);
                }
                assert(es.take(i + 1).drop_last() == es.take(i as int));
                assert(es.take(i + 1).last() == ev);
            }
            let tid = self.db.insert_file(n.info.size, n.info.mtime, rel, content);
            assert(tid == i + 1);
            assert(self@.store.files =~= read_files(es.take(i + 1)));
            let ghost atts0 = self@.store.atts;
            let mut k: usize = 0;
            while k < n.info.att.len()
                invariant
                    k <= n.info.att@.len(),
                    tid == i + 1,
                    ev.att == n.info.att@.map_values(|a: (String, i64)| (a.0@, a.1)),
                    self@.store.atts == atts0 + ev.att.take(k as int).map_values(|a: (Seq<char>, i64)| (tid, a.0, a.1)),
                    self@ == (CtxV { store: self@.store, ..old(self)@ }),
                    self@.store.files == read_files(es.take(i + 1)),
                    self@.store.lbls == read_lbls(es.take(i as int)),
                    self@.wf(),
                    old(self)@.wf(),
                decreases n.info.att.len() - k,
            {
                let a = &n.info.att[k];
                let ghost prev = self@.store.atts;
                self.db.push_attachment(tid, a.0.clone(), a.1);
                assert(ev.att[k as int] == (a.0@, a.1));
                assert(ev.att.take(k + 1) =~= ev.att.take(k as int).push(ev.att[k as int]));
                assert(self@.store.atts =~= atts0 + ev.att.take(k + 1).map_values(|a: (Seq<char>, i64)| (tid, a.0, a.1)));
                k += 1;
            }
            assert(ev.att.take(ev.att.len() as int) == ev.att);
            assert(self@.store.atts =~= read_atts(es.take(i + 1)));
            let ghost lbls0 = self@.store.lbls;
            let mut all: Vec<String> = Vec::new();
            let mut k: usize = 0;
            while k < n.info.lbls.len()
                invariant
                    k <= n.info.lbls@.len(),
                    views(all@) == views(n.info.lbls@).take(k as int),
                decreases n.info.lbls.len() - k,
            {
                let l = n.info.lbls[k].clone();
                let ghost prev = views(all@);
                all.push(l);
                assert(views(all@) =~= prev.push(n.info.lbls@[k as int]@));
                assert(views(n.info.lbls@).take(k + 1) =~= views(n.info.lbls@).take(k as int).push(n.info.lbls@[k as int]@));
                k += 1;
            }
            assert(views(n.info.lbls@).take(n.info.lbls@.len() as int) == views(n.info.lbls@));
            let extra = auto_label_list(n.info.content.as_str());
            let mut k: usize = 0;
            while k < extra.len()
                invariant
                    k <= extra@.len(),
                    views(all@) == views(n.info.lbls@) + views(extra@).take(k as int),
                decreases extra.len() - k,
            {
                let l = extra[k].clone();
                let ghost prev = views(all@);
                all.push(l);
                assert(views(all@) =~= prev.push(extra@[k as int]@));
                assert(views(extra@).take(k + 1) =~= views(extra@).take(k as int).push(extra@[k as int]@));
                k += 1;
            }
            assert(views(extra@).take(extra@.len() as int) == views(extra@));
            let ghost lv = views(all@);
            assert(lv == ev.lbls + auto_labels(ev.content));
            let mut k: usize = 0;
            while k < all.len()
                invariant
                    k <= all@.len(),
                    tid == i + 1,
                    lv == views(all@),
                    self@.store.lbls == lbls0 + lv.take(k as int).map_values(|l: Seq<char>| (tid, l)),
                    self@ == (CtxV { store: self@.store, ..old(self)@ }),
                    self@.store.files == read_files(es.take(i + 1)),
                    self@.store.atts == read_atts(es.take(i + 1)),
                    self@.wf(),
                    old(self)@.wf(),
                decreases all.len() - k,
            {
                self.db.push_label(tid, all[k].clone());
                assert(lv.take(k + 1) =~= lv.take(k as int).push(lv[k as int]));
                assert(self@.store.lbls =~= lbls0 + lv.take(k + 1).map_values(|l: Seq<char>| (tid, l)));
                k += 1;
            }
            assert(lv.take(lv.len() as int) == lv);
            assert(self@.store.lbls =~= read_lbls(es.take(i + 1)));
            i += 1;
        }
        assert(es.take(notes@.len() as int) == es);
    }

    /// Whether the filter buffer is empty or the table of listed ids holds `tid`.
    fn looks_at(&self, tid: i64) -> (b: bool)
        requires
            tid > 0,
        ensures
            b == in_scope(self@.fb, self@.fbt, tid),
    {
        if self.def.filter_buf.len() == 0 {
            return true;
        }
        contains_id(self.listed_ids.as_slice(), tid)
    }

    /// The ids of the notes that `hits` marks and a search looks at, in id order.
    pub fn select_hits(&self, hits: &Vec<bool>) -> (r: Vec<i64>)
        requires
            self@.wf(),
            hits@.len() == self@.store.files.len(),
        ensures
            r@ == hit_ids(self@.store.files, hits@, self@.fb, self@.fbt),
            forall|i: int| 0 <= i < r@.len() ==> has_tid(self@.store.files, #[trigger] r@[i]),
            forall|i: int, j: int| 0 <= i < j < r@.len() ==> r@[i] < r@[j],
    {
        let ghost f = self@.store.files;
        let n = self.db.num_files();
        let mut out: Vec<i64> = Vec::new();
        let mut i: usize = 0;
        while i < n
            invariant
                n == f.len(),
                f == self@.store.files,
                self@.wf(),
                hits@.len() == n,
                i <= n,
                out@ == hit_ids(f.take(i as int), hits@.take(i as int), self@.fb, self@.fbt),
                forall|a: int| 0 <= a < out@.len() ==> has_tid(f, #[trigger] out@[a]),
                forall|a: int, b: int| 0 <= a < b < out@.len() ==> out@[a] < out@[b],
                forall|a: int, k: int| 0 <= a < out@.len() && i <= k < n ==> out@[a] < f[k].tmpid,
            decreases n - i,
        {
            let t = self.db.file_at(i).tmpid;
            assert(f.take(i + 1).drop_last() == f.take(i as int));
            assert(hits@.take(i + 1).take(i as int) == hits@.take(i as int));
            if hits[i] && self.looks_at(t) {
                out.push(t);
                assert(has_tid(f, f[i as int].tmpid));
            }
            i += 1;
        }
        assert(f.take(n as int) == f);
        assert(hits@.take(n as int) == hits@);
        out
    }

    fn match_one(&self, op: PatternOp, pattern: &str, text: &str) -> (r: Result<bool, CustomErr>)
        ensures
            r matches Ok(b) ==> b == pattern_match(op, pattern@, text@),
            query_fits(pattern@, text@) ==> r is Ok,
    {
        let q = match op {
            PatternOp::Like => query_like(&self.conn, pattern, text),
            PatternOp::Glob => query_glob(&self.conn, pattern, text),
        };
        match q {
            Ok(b) => Ok(b),
            Err(e) => Err(CustomErr::Sql(e)),
        }
    }

    /// Whether the note at position `i` matches `pattern` (see [`note_hit`]). SQLite
    /// answers every query where the pattern and the store's texts are within its limits.
    pub fn note_hit(&self, op: PatternOp, pattern: &str, i: usize) -> (r: Result<bool, CustomErr>)
        requires
            i < self@.store.files.len(),
        ensures
            r matches Ok(b) ==> b == note_hit(op, self@.store, pattern@, self@.store.files[i as int]),
            utf8_len(pattern@) <= 50_000 && store_fits(self@.store) ==> r is Ok,
    {
        let f = self.db.file_at(i);
        let ghost v = self@.store;
        let ghost fits = utf8_len(pattern@) <= 50_000 && store_fits(v);
        let nl = self.db.num_lbls();
        let mut k: usize = 0;
        while k < nl
            invariant
                nl == v.lbls.len(),
                v == self@.store,
                f@ == v.files[i as int],
                k <= nl,
                forall|j: int| 0 <= j < k && v.lbls[j].0 == f.tmpid ==> !pattern_match(op, pattern@, v.lbls[j].1),
                fits == (utf8_len(pattern@) <= 50_000 && store_fits(v)),
            decreases nl - k,
        {
            let row = self.db.lbl_at(k);
            if row.tmpid == f.tmpid {
                match self.match_one(op, pattern, row.lbl.as_str()) {
                    Ok(true) => {
                        return Ok(true);
                    },
                    Ok(false) => {},
                    Err(e) => {
                        assert(fits ==> query_fits(pattern@, v.lbls[k as int].1));
                        return Err(e);
                    },
                }
            }
            k += 1;
        }
        let na = self.db.num_atts();
        let mut k: usize = 0;
        while k < na
            invariant
                na == v.atts.len(),
                v == self@.store,
                f@ == v.files[i as int],
                k <= na,
                forall|j: int| 0 <= j < k && v.atts[j].0 == f.tmpid ==> !pattern_match(op, pattern@, v.atts[j].1),
                fits == (utf8_len(pattern@) <= 50_000 && store_fits(v)),
            decreases na - k,
        {
            let row = self.db.att_at(k);
            if row.tmpid == f.tmpid {
                match self.match_one(op, pattern, row.rel.as_str()) {
                    Ok(true) => {
                        return Ok(true);
                    },
                    Ok(false) => {},
                    Err(e) => {
                        assert(fits ==> query_fits(pattern@, v.atts[k as int].1));
                        return Err(e);
                    },
                }
            }
            k += 1;
        }
        assert(fits ==> query_fits(pattern@, v.files[i as int].rel) && query_fits(pattern@, v.files[i as int].content));
        match self.match_one(op, pattern, f.rel.as_str()) {
            Ok(true) => {
                return Ok(true);
            },
            Ok(false) => {},
            Err(e) => {
                return Err(e);
            },
        }
        self.match_one(op, pattern, f.content.as_str())
    }

    /// Lists the notes the search looks at that match `pattern`, in id order; `Ok(false)`
    /// (nothing changes) where none does.
    pub fn search(&mut self, op: PatternOp, pattern: &str) -> (r: Result<bool, CustomErr>)
        requires
            old(self)@.wf(),
        ensures
            ({
                let ids = search_ids(op, old(self)@.store, old(self)@.fb, old(self)@.fbt, pattern@);
                match r {
                    Ok(u) => u == (ids.len() > 0) && (u ==> final(self)@ == (CtxV { fb: ids, fbt: ids, ..old(self)@ }))
                        && (!u ==> final(self)@ == old(self)@),
                    Err(_) => final(self)@ == old(self)@,
                }
            }),
            (forall|i: int| 0 <= i < old(self)@.store.files.len()
                ==> !in_scope(old(self)@.fb, old(self)@.fbt, #[trigger] old(self)@.store.files[i].tmpid)) ==> (r matches Ok(false)),
            utf8_len(pattern@) <= 50_000 && store_fits(old(self)@.store) ==> r is Ok,
            final(self)@.wf(),
    {
        let ghost v = self@.store;
        let ghost fb = self@.fb;
        let ghost fbt = self@.fbt;
        let ghost want = Seq::new(v.files.len(), |i: int| in_scope(fb, fbt, v.files[i].tmpid) && note_hit(op, v, pattern@, v.files[i]));
        let n = self.db.num_files();
        let mut hits: Vec<bool> = Vec::new();
        let mut i: usize = 0;
        while i < n
            invariant
                n == v.files.len(),
                v == self@.store,
                fb == self@.fb,
                fbt == self@.fbt,
                self@ == old(self)@,
                old(self)@.wf(),
                want.len() == n,
                want == Seq::new(v.files.len(), |i: int| in_scope(fb, fbt, v.files[i].tmpid) && note_hit(op, v, pattern@, v.files[i])),
                i <= n,
                hits@ == want.take(i as int),
            decreases n - i,
        {
            let t = self.db.file_at(i).tmpid;
            assert(t > 0);
            let h = if self.looks_at(t) {
                match self.note_hit(op, pattern, i) {
                    Ok(b) => b,
                    Err(e) => {
                        assert(in_scope(fb, fbt, v.files[i as int].tmpid));
                        return Err(e);
                    },
                }
            } else {
                false
            };
            assert(h == want[i as int]);
            hits.push(h);
            assert(want.take(i + 1) =~= want.take(i as int).push(want[i as int]));
            i += 1;
        }
        assert(want.take(n as int) == want);
        let ids = self.select_hits(&hits);
        proof {
            assert forall|a: int, b: int| 0 <= a < b < ids@.len() implies ids@[a] != ids@[b] by {}
            lemma_note_ids_listable(v, ids@);
            if forall|k: int| 0 <= k < v.files.len() ==> !in_scope(fb, fbt, #[trigger] v.files[k].tmpid) {
                lemma_hit_ids_from(v.files, want, fb, fbt);
                if ids@.len() > 0 {
                    let k = choose|k: int| 0 <= k < v.files.len() && v.files[k].tmpid == hit_ids(v.files, want, fb, fbt)[0]
                        && want[k] && in_scope(fb, fbt, v.files[k].tmpid);
                    assert(false);
                }
            }
        }
        Ok(self.iter_rows_to_update_filter_buf(ids))
    }

    fn search_arg(&mut self, op: PatternOp) -> (r: Result<SearchOutcome, CustomErr>)
        requires
            old(self)@.wf(),
            old(self)@.arg_ready(),
        ensures
            ({
                let pat = old(self)@.iline.skip(old(self)@.argidx as int);
                let cleared = CtxV { iline: Seq::<char>::empty(), ..old(self)@ };
                let p = if op == PatternOp::Like { seq!['%'] + pat + seq!['%'] } else { pat.push('*') };
                let ids = search_ids(op, old(self)@.store, old(self)@.fb, old(self)@.fbt, p);
                &&& pat.len() == 0 ==> (r matches Ok(SearchOutcome::EmptyPattern)) && final(self)@ == cleared
                &&& pat.len() > 0 ==> match r {
                    Ok(SearchOutcome::NothingFound) => ids.len() == 0 && final(self)@ == cleared,
                    Ok(SearchOutcome::Updated) => ids.len() > 0 && final(self)@ == (CtxV { fb: ids, fbt: ids, ..cleared }),
                    Ok(SearchOutcome::EmptyPattern) => false,
                    Err(_) => final(self)@ == cleared,
                }
            }),
            ({
                let pat = old(self)@.iline.skip(old(self)@.argidx as int);
                pat.len() > 0 && (forall|i: int| 0 <= i < old(self)@.store.files.len()
                    ==> !in_scope(old(self)@.fb, old(self)@.fbt, #[trigger] old(self)@.store.files[i].tmpid))
                    ==> (r matches Ok(SearchOutcome::NothingFound))
            }),
            (if op == PatternOp::Like { utf8_len(old(self)@.iline.skip(old(self)@.argidx as int)) + 2 } else { utf8_len(old(self)@.iline.skip(old(self)@.argidx as int)) + 1 }) <= 50_000 && store_fits(old(self)@.store) ==> r is Ok,
            final(self)@.wf(),
    {
        let pat = self.ilinearg();
        if pat.as_str().is_empty() {
            return Ok(SearchOutcome::EmptyPattern);
        }
        let mut p: String;
        if op == PatternOp::Like {
            p = String::from_str("%");
            p.append(pat.as_str());
            p.append("%");
            proof {
                reveal_strlit("%");
                assert(p@ =~= seq!['%'] + pat@ + seq!['%']);
                assert(seq!['%'].drop_last() =~= Seq::<char>::empty());
                assert(('%' as int) < 0x80);
                assert(utf8_len(Seq::<char>::empty()) == 0);
                assert(seq!['%'].last() == '%');
                assert(utf8_len(seq!['%']) == utf8_len(seq!['%'].drop_last()) + crate::text::char_utf8_len('%'));
                assert(utf8_len(seq!['%']) == 1);
                crate::text::lemma_utf8_len_concat(seq!['%'], pat@);
                crate::text::lemma_utf8_len_concat(seq!['%'] + pat@, seq!['%']);
            }
        } else {
            p = pat.clone();
            p.append("*");
            proof {
                reveal_strlit("*");
                assert(p@ =~= pat@.push('*'));
                assert(pat@.push('*').drop_last() =~= pat@);
                assert(('*' as int) < 0x80);
                assert(utf8_len(pat@.push('*')) == utf8_len(pat@) + 1);
            }
        }
        match self.search(op, p.as_str()) {
            Ok(true) => Ok(SearchOutcome::Updated),
            Ok(false) => Ok(SearchOutcome::NothingFound),
            Err(e) => Err(e),
        }
    }

    /// `like pattern`: lists the notes (among the listed ones, if any) of which a label,
    /// an attachment path, the path or the text is `LIKE '%pattern%'`.
    pub fn ca_like(&mut self) -> (r: Result<SearchOutcome, CustomErr>)
        requires
            old(self)@.wf(),
            old(self)@.arg_ready(),
        ensures
            ({
                let pat = old(self)@.iline.skip(old(self)@.argidx as int);
                let cleared = CtxV { iline: Seq::<char>::empty(), ..old(self)@ };
                let ids = search_ids(PatternOp::Like, old(self)@.store, old(self)@.fb, old(self)@.fbt, seq!['%'] + pat + seq!['%']);
                &&& pat.len() == 0 ==> (r matches Ok(SearchOutcome::EmptyPattern)) && final(self)@ == cleared
                &&& pat.len() > 0 ==> match r {
                    Ok(SearchOutcome::NothingFound) => ids.len() == 0 && final(self)@ == cleared,
                    Ok(SearchOutcome::Updated) => ids.len() > 0 && final(self)@ == (CtxV { fb: ids, fbt: ids, ..cleared }),
                    Ok(SearchOutcome::EmptyPattern) => false,
                    Err(_) => final(self)@ == cleared,
                }
            }),
            ({
                let pat = old(self)@.iline.skip(old(self)@.argidx as int);
                pat.len() > 0 && (forall|i: int| 0 <= i < old(self)@.store.files.len()
                    ==> !in_scope(old(self)@.fb, old(self)@.fbt, #[trigger] old(self)@.store.files[i].tmpid))
                    ==> (r matches Ok(SearchOutcome::NothingFound))
            }),
            utf8_len(old(self)@.iline.skip(old(self)@.argidx as int)) + 2 <= 50_000 && store_fits(old(self)@.store) ==> r is Ok,
            final(self)@.wf(),
    {
        self.search_arg(PatternOp::Like)
    }

    /// `/pattern`: lists the notes (among the listed ones, if any) of which a label, an
    /// attachment path, the path or the text is `GLOB 'pattern*'`.
    pub fn slash(&mut self) -> (r: Result<SearchOutcome, CustomErr>)
        requires
            old(self)@.wf(),
            old(self)@.arg_ready(),
        ensures
            ({
                let pat = old(self)@.iline.skip(old(self)@.argidx as int);
                let cleared = CtxV { iline: Seq::<char>::empty(), ..old(self)@ };
                let ids = search_ids(PatternOp::Glob, old(self)@.store, old(self)@.fb, old(self)@.fbt, pat.push('*'));
                &&& pat.len() == 0 ==> (r matches Ok(SearchOutcome::EmptyPattern)) && final(self)@ == cleared
                &&& pat.len() > 0 ==> match r {
                    Ok(SearchOutcome::NothingFound) => ids.len() == 0 && final(self)@ == cleared,
                    Ok(SearchOutcome::Updated) => ids.len() > 0 && final(self)@ == (CtxV { fb: ids, fbt: ids, ..cleared }),
                    Ok(SearchOutcome::EmptyPattern) => false,
                    Err(_) => final(self)@ == cleared,
                }
            }),
            ({
                let pat = old(self)@.iline.skip(old(self)@.argidx as int);
                pat.len() > 0 && (forall|i: int| 0 <= i < old(self)@.store.files.len()
                    ==> !in_scope(old(self)@.fb, old(self)@.fbt, #[trigger] old(self)@.store.files[i].tmpid))
                    ==> (r matches Ok(SearchOutcome::NothingFound))
            }),
            utf8_len(old(self)@.iline.skip(old(self)@.argidx as int)) + 1 <= 50_000 && store_fits(old(self)@.store) ==> r is Ok,
            final(self)@.wf(),
    {
        self.search_arg(PatternOp::Glob)
    }
}

/// The path of the text file of note `tid`: its folder, then `note`.
pub fn mk_pathstr_for_note(con: &Ctx, tid: i64) -> (r: Result<String, CustomErr>)
    requires
        con@.wf(),
    ensures
        match r {
            Ok(p) => has_tid(con@.store.files, tid) && p@ == path_join(
                note_folder(con@.note_dir, file_of(con@.store, tid).rel),
                "note"@,
            ),
            Err(e) => !has_tid(con@.store.files, tid) && e is TmpidInvalid,
        },
{
    match con.db.find(tid) {
        None => Err(CustomErr::TmpidInvalid),
        Some(i) => {
            proof {
                lemma_idx_of(con@.store, i as int);
            }
            let rel = con.db.file_at(i).rel.clone();
            let mut pb = con.def.note_dir.clone();
            push_comps_to_pb(&mut pb, rel.as_str());
            path_push(&mut pb, "note");
            Ok(pb)
        },
    }
}

/// What to write to the `info` file of note `tid`: the file's path (the note's folder,
/// then `info`) and an element holding the note's labels that start with `_`.
pub fn info_write_for_note(con: &Ctx, tid: i64) -> (r: Result<(String, InfoJsonElem), CustomErr>)
    requires
        con@.wf(),
    ensures
        match r {
            Ok((p, e)) => {
                &&& has_tid(con@.store.files, tid)
                &&& p@ == path_join(
                    note_folder(con@.note_dir, file_of(con@.store, tid).rel),
                    INFO_FN@,
                )
                &&& views(e.lbls@) == kept_labels(labels_of(con@.store.lbls, tid))
                &&& e.att@.len() == 0 && e.tmpid == 0 && e.size == 0 && e.mtime == 0
                &&& e.rel@.len() == 0 && e.content@.len() == 0
            },
            Err(e) => !has_tid(con@.store.files, tid) && e is TmpidInvalid,
        },
{
    let lbls = con.db.labels_of(tid);
    match con.db.find(tid) {
        None => Err(CustomErr::TmpidInvalid),
        Some(i) => {
            proof {
                lemma_idx_of(con@.store, i as int);
            }
            let rel = con.db.file_at(i).rel.clone();
            let mut pb = con.def.note_dir.clone();
            push_comps_to_pb(&mut pb, rel.as_str());
            path_push(&mut pb, INFO_FN);
            let mut e = InfoJsonElem::empty();
            e.lbls = keep_underscore_labels(lbls);
            Ok((pb, e))
        },
    }
}

/// Records a new note made of the path components `comps` in the chosen folder, its
/// text written at time `mtime`. Gives its id and the element to write to its `info`
/// file; `IdsExhausted` where no id is left. The filter buffer is left to
/// [`Ctx::select_new_note`].
pub fn new_note(con: &mut Ctx, comps: &Vec<String>, mtime: i64) -> (r: Result<(i64, InfoJsonElem), CustomErr>)
    requires
        old(con)@.wf(),
    ensures
        match r {
            Ok((tid, e)) => {
                let rel = new_rel(old(con)@.chosen_dir, views(comps@));
                &&& tid == next_tmpid(old(con)@.store.files)
                &&& final(con)@ == (CtxV {
                    store: StoreV {
                        files: old(con)@.store.files.push(FileV { tmpid: tid, size: 1, mtime, rel, content: seq!['\n'] }),
                        ..old(con)@.store
                    },
                    ..old(con)@
                })
                &&& e.tmpid == tid && e.size == 1 && e.mtime == mtime && e.rel@ == rel
                &&& e.content@ == seq!['\n'] && e.lbls@.len() == 0 && e.att@.len() == 0
            },
            Err(e) => e is IdsExhausted && final(con)@ == old(con)@,
        },
        (r is Ok) == old(con)@.store.can_insert(),
        final(con)@.wf(),
{
    if con.db.get_avail_tmpid().is_none() {
        return Err(CustomErr::IdsExhausted);
    }
    let mut rel = join_strings(comps.as_slice(), '/');
    if !con.def.chosen_dir.as_str().is_empty() {
        let mut p = con.def.chosen_dir.clone();
        let ghost cd = p@;
        let ghost j = rel@;
        p.append("/");
        p.append(rel.as_str());
        rel = p;
        proof {
            reveal_strlit("/");
            assert(rel@ =~= cd.push('/') + j);
        }
    }
    assert(rel@ == new_rel(old(con)@.chosen_dir, views(comps@)));
    let tid = ins_file(&mut con.db, mtime, rel.as_str());
    let mut e = InfoJsonElem::empty();
    e.tmpid = tid;
    e.size = 1;
    e.mtime = mtime;
    e.rel = rel;
    e.content = String::from_str("\n");
    proof {
        reveal_strlit("\n");
    }
    assert(con@.store.files == old(con)@.store.files.push(
        FileV { tmpid: tid, size: 1, mtime, rel: new_rel(old(con)@.chosen_dir, views(comps@)), content: seq!['\n'] },
    ));
    Ok((tid, e))
}

/// A new note is found where it was made: the folder of the note at the path that `new`
/// gives a note made of `comps` (pieces of the typed path, so none holds a `/`) in the
/// chosen folder `cd` is the chosen folder's path with each of `comps` pushed, the last
/// of the folders `new` plans.
pub proof fn law_new_note_found(ndir: Seq<char>, cd: Seq<char>, comps: Seq<Seq<char>>)
    requires
        comps.len() >= 1,
        forall|i: int| 0 <= i < comps.len() ==> !(#[trigger] comps[i]).contains('/'),
    ensures
        note_folder(ndir, new_rel(cd, comps)) == path_join_all(chosen_dir_path(ndir, cd), comps),
{
    crate::text::lemma_split_join(comps, '/');
    if cd.len() > 0 {
        crate::text::lemma_split_concat(cd, '/', join_by(comps, '/'));
        crate::text::lemma_path_join_all_concat(ndir, split_by(cd, seq!['/']), comps);
    }
}

/// After `new`, the new note is the one note selected.
pub proof fn law_new_note_selected(v: CtxV, tid: i64)
    requires
        v.wf(),
        tid > 0,
    ensures
        selection(deselected(v.fb).push((-tid) as i64)) == seq![tid],
{
    lemma_entries_in_range(v);
    let d = deselected(v.fb);
    lemma_none_negative(d);
    reveal(Seq::filter);
    assert(d.push((-tid) as i64).drop_last() =~= d);
    assert(d.push((-tid) as i64).filter(|x: i64| x < 0) =~= seq![(-tid) as i64]);
    assert(selection(d.push((-tid) as i64)) =~= seq![tid]);
}

/// `del` removes exactly the selected notes: none of them is left, every other note is,
/// and the entries that stay listed are none of them selected.
pub proof fn law_delete(v: CtxV)
    requires
        v.wf(),
    ensures
        ({
            let sel = selection(v.fb);
            let files = v.store.files.filter(|f: FileV| !sel.contains(f.tmpid));
            &&& forall|t: i64| sel.contains(t) ==> !has_tid(files, t)
            &&& forall|i: int| 0 <= i < v.store.files.len() && !sel.contains(v.store.files[i].tmpid)
                ==> has_tid(files, #[trigger] v.store.files[i].tmpid)
            &&& selection(v.fb.filter(|x: i64| x >= 0)).len() == 0
        }),
{
    let sel = selection(v.fb);
    let pf = |f: FileV| !sel.contains(f.tmpid);
    let files = v.store.files.filter(pf);
    assert forall|t: i64| sel.contains(t) implies !has_tid(files, t) by {
        if has_tid(files, t) {
            let k = choose|k: int| 0 <= k < files.len() && files[k].tmpid == t;
            v.store.files.lemma_filter_pred(pf, k);
        }
    }
    assert forall|i: int| 0 <= i < v.store.files.len() && !sel.contains(v.store.files[i].tmpid)
        implies has_tid(files, #[trigger] v.store.files[i].tmpid) by {
        v.store.files.lemma_filter_contains(pf, i);
        let k = choose|k: int| 0 <= k < files.len() && files[k] == v.store.files[i];
        assert(files[k].tmpid == v.store.files[i].tmpid);
    }
    let kept = v.fb.filter(|x: i64| x >= 0);
    assert forall|i: int| 0 <= i < kept.len() implies kept[i] >= 0 by {
        v.fb.lemma_filter_pred(|x: i64| x >= 0, i);
    }
    lemma_none_negative(kept);
}

/// Each id that `hit_ids` gives is that of a note of `files` that `hits` marks and the
/// search looks at.
proof fn lemma_hit_ids_from(files: Seq<FileV>, hits: Seq<bool>, fb: Seq<i64>, fbt: Seq<i64>)
    requires
        hits.len() == files.len(),
    ensures
        forall|j: int| 0 <= j < hit_ids(files, hits, fb, fbt).len() ==> exists|i: int|
            0 <= i < files.len() && files[i].tmpid == #[trigger] hit_ids(files, hits, fb, fbt)[j] && hits[i]
                && in_scope(fb, fbt, files[i].tmpid),
    decreases files.len(),
{
    if files.len() > 0 {
        let init = files.drop_last();
        let h = hits.take(files.len() - 1);
        lemma_hit_ids_from(init, h, fb, fbt);
        let rest = hit_ids(init, h, fb, fbt);
        let ids = hit_ids(files, hits, fb, fbt);
        assert forall|j: int| 0 <= j < ids.len() implies exists|i: int|
            0 <= i < files.len() && files[i].tmpid == #[trigger] ids[j] && hits[i] && in_scope(fb, fbt, files[i].tmpid) by {
            if j < rest.len() {
                assert(ids[j] == rest[j]);
                let i = choose|i: int| 0 <= i < init.len() && init[i].tmpid == rest[j] && h[i] && in_scope(fb, fbt, init[i].tmpid);
                assert(files[i] == init[i] && hits[i] == h[i]);
            } else {
                assert(files[files.len() - 1] == files.last());
            }
        }
    }
}

/// A `like` or `/` search only lists notes that match and that it looks at: where the
/// filter buffer lists notes, it narrows that list.
pub proof fn law_search_narrows(op: PatternOp, v: CtxV, p: Seq<char>)
    requires
        v.wf(),
    ensures
        forall|j: int| 0 <= j < search_ids(op, v.store, v.fb, v.fbt, p).len() ==> {
            let t = #[trigger] search_ids(op, v.store, v.fb, v.fbt, p)[j];
            &&& has_tid(v.store.files, t)
            &&& note_hit(op, v.store, p, file_of(v.store, t))
            &&& (v.fb.len() > 0 ==> v.fbt.contains(t))
        },
{
    let f = v.store.files;
    let hits = Seq::new(f.len(), |i: int| in_scope(v.fb, v.fbt, f[i].tmpid) && note_hit(op, v.store, p, f[i]));
    lemma_hit_ids_from(f, hits, v.fb, v.fbt);
    let ids = search_ids(op, v.store, v.fb, v.fbt, p);
    assert forall|j: int| 0 <= j < ids.len() implies {
        let t = #[trigger] ids[j];
        &&& has_tid(f, t)
        &&& note_hit(op, v.store, p, file_of(v.store, t))
        &&& (v.fb.len() > 0 ==> v.fbt.contains(t))
    } by {
        let i = choose|i: int| 0 <= i < f.len() && f[i].tmpid == ids[j] && hits[i] && in_scope(v.fb, v.fbt, f[i].tmpid);
        lemma_idx_of(v.store, i);
        assert(file_of(v.store, ids[j]) == f[i]);
    }
}

/// In every state the browser passes through (each command keeps [`CtxV::wf`]), the
/// table of listed ids holds no id twice, and no filter-buffer entry is `i64::MIN`. (The
/// buffer itself may hold an id both plain and negated, where a `where` query lists both.)
pub proof fn law_listed_ids_distinct(v: CtxV)
    requires
        v.wf(),
    ensures
        no_repeat(v.fbt),
        forall|i: int| 0 <= i < v.fb.len() ==> #[trigger] v.fb[i] != i64::MIN,
{
}

/// `s` ends with `suf`.
pub open spec fn ends_with(s: Seq<char>, suf: Seq<char>) -> bool {
    suf.len() <= s.len() && s.skip(s.len() - suf.len()) == suf
}

/// `s` starts with `pre`.
pub open spec fn starts_with(s: Seq<char>, pre: Seq<char>) -> bool {
    pre.len() <= s.len() && s.take(pre.len() as int) == pre
}

/// The query `where` runs selects ids from `files`; it ends with ` order by ` and the
/// `ORDER BY` text whenever that text is not empty, whether or not notes are listed, and
/// otherwise with the condition itself (closed by `)` where the listed notes restrict
/// it, after the test that restricts them).
pub proof fn law_where_query_order(fb_empty: bool, arg: Seq<char>, orderby: Seq<char>)
    ensures
        starts_with(where_sql(fb_empty, arg, orderby), "SELECT tmpid from files where "@),
        orderby.len() > 0 ==> ends_with(where_sql(fb_empty, arg, orderby), " order by "@ + orderby),
        orderby.len() == 0 && fb_empty ==> ends_with(where_sql(fb_empty, arg, orderby), arg),
        orderby.len() == 0 && !fb_empty ==> ends_with(where_sql(fb_empty, arg, orderby), arg + ")"@),
        !fb_empty ==> starts_with(
            where_sql(fb_empty, arg, orderby),
            "SELECT tmpid from files where tmpid in(select tid from filter_buf) and ("@,
        ),
{
    let sql = where_sql(fb_empty, arg, orderby);
    let head = "SELECT tmpid from files where "@;
    let headf = "SELECT tmpid from files where tmpid in(select tid from filter_buf) and ("@;
    let ob = if orderby.len() == 0 { Seq::<char>::empty() } else { " order by "@ + orderby };
    reveal_strlit("SELECT tmpid from files where ");
    reveal_strlit("SELECT tmpid from files where tmpid in(select tid from filter_buf) and (");
    if fb_empty {
        assert(sql =~= head + (arg + ob));
        assert(sql.take(head.len() as int) =~= head);
        assert(sql.skip(sql.len() - ob.len()) =~= ob);
        assert(sql.skip(sql.len() - arg.len() - ob.len()) =~= arg + ob);
        if orderby.len() == 0 {
            assert(arg + ob =~= arg);
        }
    } else {
        assert(sql =~= headf + (arg + ")"@ + ob));
        assert(sql.take(headf.len() as int) =~= headf);
        assert(headf.take(head.len() as int) =~= head);
        assert(sql.take(head.len() as int) =~= head);
        assert(sql.skip(sql.len() - ob.len()) =~= ob);
        assert(sql.skip(sql.len() - (arg + ")"@).len() - ob.len()) =~= arg + ")"@ + ob);
        if orderby.len() == 0 {
            assert(arg + ")"@ + ob =~= arg + ")"@);
        }
    }
}

/// A component of a new note's path passes the checks exactly when it is not empty,
/// every character is an ASCII letter of either case, an ASCII digit, `-` or `_`, and it
/// starts and ends with an ASCII letter or digit.
pub proof fn law_name_accepted(c: Seq<char>)
    ensures
        name_fault(c) is None <==> {
            &&& c.len() > 0
            &&& forall|i: int| 0 <= i < c.len() ==> {
                ||| ('a' <= #[trigger] c[i] && c[i] <= 'z')
                ||| ('A' <= c[i] && c[i] <= 'Z')
                ||| ('0' <= c[i] && c[i] <= '9')
                ||| c[i] == '-'
                ||| c[i] == '_'
            }
            &&& (('a' <= c[0] && c[0] <= 'z') || ('A' <= c[0] && c[0] <= 'Z') || ('0' <= c[0] && c[0] <= '9'))
            &&& (('a' <= c.last() && c.last() <= 'z') || ('A' <= c.last() && c.last() <= 'Z')
                || ('0' <= c.last() && c.last() <= '9'))
        },
        name_fault(seq!['I', 'd', 'e', 'a', 's']) is None,
{
    let ideas = seq!['I', 'd', 'e', 'a', 's'];
    assert forall|i: int| 0 <= i < ideas.len() implies name_char_ok(#[trigger] ideas[i]) by {}
}

/// A note matches a pattern when any one of its labels, any one of its attachments'
/// paths, its path or its text matches it, and only then.
pub proof fn law_note_hit_any(op: PatternOp, v: StoreV, p: Seq<char>, f: FileV)
    ensures
        forall|k: int| 0 <= k < v.lbls.len() && (#[trigger] v.lbls[k]).0 == f.tmpid && pattern_match(op, p, v.lbls[k].1)
            ==> note_hit(op, v, p, f),
        forall|k: int| 0 <= k < v.atts.len() && (#[trigger] v.atts[k]).0 == f.tmpid && pattern_match(op, p, v.atts[k].1)
            ==> note_hit(op, v, p, f),
        pattern_match(op, p, f.rel) ==> note_hit(op, v, p, f),
        pattern_match(op, p, f.content) ==> note_hit(op, v, p, f),
        note_hit(op, v, p, f) ==> {
            ||| exists|k: int| 0 <= k < v.lbls.len() && (#[trigger] v.lbls[k]).0 == f.tmpid && pattern_match(op, p, v.lbls[k].1)
            ||| exists|k: int| 0 <= k < v.atts.len() && (#[trigger] v.atts[k]).0 == f.tmpid && pattern_match(op, p, v.atts[k].1)
            ||| pattern_match(op, p, f.rel)
            ||| pattern_match(op, p, f.content)
        },
{
}

/// Keeping the negative entries of a sequence with none keeps nothing.
proof fn lemma_none_negative(s: Seq<i64>)
    requires
        forall|i: int| 0 <= i < s.len() ==> s[i] >= 0,
    ensures
        s.filter(|x: i64| x < 0) =~= Seq::<i64>::empty(),
    decreases s.len(),
{
    reveal(Seq::filter);
    if s.len() > 0 {
        lemma_none_negative(s.drop_last());
    }
}

/// Keeping the negative entries of a sequence of negative entries keeps them all.
proof fn lemma_all_negative(s: Seq<i64>)
    requires
        forall|i: int| 0 <= i < s.len() ==> s[i] < 0,
    ensures
        s.filter(|x: i64| x < 0) == s,
    decreases s.len(),
{
    reveal(Seq::filter);
    if s.len() > 0 {
        lemma_all_negative(s.drop_last());
        assert(s.drop_last().push(s.last()) =~= s);
    }
}

/// In a well-formed state, no filter-buffer entry is `i64::MIN`.
proof fn lemma_entries_in_range(v: CtxV)
    requires
        v.wf(),
    ensures
        forall|i: int| 0 <= i < v.fb.len() ==> #[trigger] v.fb[i] != i64::MIN,
{
}

/// Unselecting every listed note leaves none selected and the same notes listed.
pub proof fn law_deselect(v: CtxV)
    requires
        v.wf(),
    ensures
        selection(deselected(v.fb)).len() == 0,
        listed(deselected(v.fb)) == listed(v.fb),
{
    lemma_entries_in_range(v);
    lemma_none_negative(deselected(v.fb));
    assert(listed(deselected(v.fb)) =~= listed(v.fb));
}

/// Selecting every listed note selects exactly the listed notes, in buffer order, and
/// lists the same notes. (An entry 0, which a `where` query can list, has no selected
/// form.)
pub proof fn law_select_all(v: CtxV)
    requires
        v.wf(),
        forall|i: int| 0 <= i < v.fb.len() ==> #[trigger] v.fb[i] != 0,
    ensures
        selection(all_selected(v.fb)) == listed(v.fb),
        listed(all_selected(v.fb)) == listed(v.fb),
{
    lemma_entries_in_range(v);
    lemma_all_negative(all_selected(v.fb));
    assert(selection(all_selected(v.fb)) =~= listed(v.fb));
    assert(listed(all_selected(v.fb)) =~= listed(v.fb));
}

/// Flipping the same entry twice gives the filter buffer back, and a flip lists the same
/// notes.
pub proof fn law_toggle_twice(v: CtxV, idx: int)
    requires
        v.wf(),
        0 <= idx < v.fb.len(),
    ensures
        toggled(toggled(v.fb, idx), idx) == v.fb,
        listed(toggled(v.fb, idx)) == listed(v.fb),
{
    lemma_entries_in_range(v);
    assert(v.fb[idx] != i64::MIN);
    assert(toggled(toggled(v.fb, idx), idx) =~= v.fb);
    assert(listed(toggled(v.fb, idx)) =~= listed(v.fb));
}

} // verus!
