//! What a note's `info` file holds, and what the browser derives from a note's files.
use vstd::prelude::*;
use crate::text::{to_chars, from_chars, has_sub, contains_sub, split_by, split_chars, views, same_text, is_prefix};

verus! {

/// Name of the file that marks a folder as a note and holds its saved labels.
pub const INFO_FN: &'static str = "info";

/// The contents of a note's `info` file together with what the browser learned of the
/// note. Only `lbls` is kept in the file; the other fields are filled while reading.
pub struct InfoJsonElem {
    pub att: Vec<(String, i64)>,
    pub tmpid: i64,
    pub size: i64,
    pub rel: String,
    pub content: String,
    pub lbls: Vec<String>,
    pub mtime: i64,
}

impl InfoJsonElem {
    /// An element with every field empty or zero.
    pub fn empty() -> (r: InfoJsonElem)
        ensures
            r.att@.len() == 0,
            r.tmpid == 0,
            r.size == 0,
            r.rel@.len() == 0,
            r.content@.len() == 0,
            r.lbls@.len() == 0,
            r.mtime == 0,
    {
        InfoJsonElem {
            att: Vec::new(),
            tmpid: 0,
            size: 0,
            rel: String::new(),
            content: String::new(),
            lbls: Vec::new(),
            mtime: 0,
        }
    }
}

impl Default for InfoJsonElem {
    fn default() -> (r: InfoJsonElem)
        ensures
            r.att@.len() == 0,
            r.tmpid == 0,
            r.size == 0,
            r.rel@.len() == 0,
            r.content@.len() == 0,
            r.lbls@.len() == 0,
            r.mtime == 0,
    {
        InfoJsonElem::empty()
    }
}

/// The label that marks a note holding a web address.
pub open spec fn bm_label() -> Seq<char> {
    seq!['_', 'b', 'm']
}

/// The label that marks a note holding a fenced code block.
pub open spec fn code_label() -> Seq<char> {
    seq!['_', 'c', 'o', 'd', 'e']
}

/// The labels the browser gives a note by its text: `_bm` when it contains `http://` or
/// `https://`, then `_code` when one of its lines (split at `\n` and at `\r`) is exactly
/// three backquotes.
pub open spec fn auto_labels(content: Seq<char>) -> Seq<Seq<char>> {
    let bm = if has_sub(content, seq!['h', 't', 't', 'p', ':', '/', '/']) || has_sub(
        content,
        seq!['h', 't', 't', 'p', 's', ':', '/', '/'],
    ) {
        seq![bm_label()]
    } else {
        Seq::<Seq<char>>::empty()
    };
    let code = if split_by(content, seq!['\n', '\r']).contains(seq!['`', '`', '`']) {
        seq![code_label()]
    } else {
        Seq::<Seq<char>>::empty()
    };
    bm + code
}

/// The labels the text `content` earns (see [`auto_labels`]).
pub fn auto_label_list(content: &str) -> (r: Vec<String>)
    ensures
        views(r@) == auto_labels(content@),
{
    let c = to_chars(content);
    let http = ['h', 't', 't', 'p', ':', '/', '/'];
    let https = ['h', 't', 't', 'p', 's', ':', '/', '/'];
    let mut out: Vec<String> = Vec::new();
    let has_bm = contains_sub(c.as_slice(), http.as_slice()) || contains_sub(c.as_slice(), https.as_slice());
    if has_bm {
        let l = from_chars(['_', 'b', 'm'].as_slice());
        out.push(l);
    }
    let ghost mid = views(out@);
    assert(mid =~= (if has_bm { seq![bm_label()] } else { Seq::<Seq<char>>::empty() }));
    let seps = ['\n', '\r'];
    let pieces = split_chars(c.as_slice(), seps.as_slice());
    let mut found = false;
    let mut i: usize = 0;
    while i < pieces.len()
        invariant
            i <= pieces@.len(),
            found == (exists|k: int| 0 <= k < i && views(pieces@)[k] == seq!['`', '`', '`']),
        decreases pieces.len() - i,
    {
        let pc = to_chars(pieces[i].as_str());
        assert(pc@ == views(pieces@)[i as int]);
        if pc.len() == 3 && pc[0] == '`' && pc[1] == '`' && pc[2] == '`' {
            assert(pc@ =~= seq!['`', '`', '`']);
            found = true;
        } else {
            assert(pc@ != seq!['`', '`', '`']);
        }
        assert(found == (exists|k: int| 0 <= k < i + 1 && views(pieces@)[k] == seq!['`', '`', '`']));
        i += 1;
    }
    assert(seps@ == seq!['\n', '\r']);
    assert(found == split_by(c@, seq!['\n', '\r']).contains(seq!['`', '`', '`']));
    if found {
        let l = from_chars(['_', 'c', 'o', 'd', 'e'].as_slice());
        out.push(l);
    }
    assert(views(out@) =~= auto_labels(content@));
    out
}

/// Appends to `jobj.lbls` the labels its text earns (see [`auto_labels`]).
pub fn add_auto_labels(jobj: &mut InfoJsonElem)
    ensures
        views(final(jobj).lbls@) == views(old(jobj).lbls@) + auto_labels(old(jobj).content@),
        final(jobj).content == old(jobj).content,
        final(jobj).att == old(jobj).att,
        final(jobj).tmpid == old(jobj).tmpid,
        final(jobj).size == old(jobj).size,
        final(jobj).rel == old(jobj).rel,
        final(jobj).mtime == old(jobj).mtime,
{
    let extra = auto_label_list(jobj.content.as_str());
    let ghost start = views(jobj.lbls@);
    let mut i: usize = 0;
    while i < extra.len()
        invariant
            i <= extra@.len(),
            views(jobj.lbls@) == start + views(extra@).take(i as int),
            jobj.content == old(jobj).content,
            jobj.att == old(jobj).att,
            jobj.tmpid == old(jobj).tmpid,
            jobj.size == old(jobj).size,
            jobj.rel == old(jobj).rel,
            jobj.mtime == old(jobj).mtime,
        decreases extra.len() - i,
    {
        let l = extra[i].clone();
        let ghost prev = views(jobj.lbls@);
        jobj.lbls.push(l);
        assert(views(jobj.lbls@) =~= prev.push(extra@[i as int]@));
        assert(views(extra@).take(i + 1) =~= views(extra@).take(i as int).push(extra@[i as int]@));
        i += 1;
    }
    assert(views(extra@).take(extra@.len() as int) == views(extra@));
}

/// The path of an attachment relative to the attachment folder `att_dir`: what follows
/// `att_dir` and one separator in `full`; `None` where `full` does not lie under `att_dir`.
pub fn attachment_rel(full: &str, att_dir: &str) -> (r: Option<String>)
    ensures
        match r {
            Some(s) => is_prefix(att_dir@.push('/'), full@) && s@ == full@.skip(att_dir@.len() + 1 as int),
            None => !is_prefix(att_dir@.push('/'), full@),
        },
{
    let f = to_chars(full);
    let mut p = to_chars(att_dir);
    p.push('/');
    if p.len() > f.len() {
        return None;
    }
    let mut i: usize = 0;
    while i < p.len()
        invariant
            p@ == att_dir@.push('/'),
            f@ == full@,
            p@.len() <= f@.len(),
            i <= p@.len(),
            forall|k: int| 0 <= k < i ==> p@[k] == f@[k],
        decreases p.len() - i,
    {
        if p[i] != f[i] {
            assert(f@.take(p@.len() as int)[i as int] != p@[i as int]);
            return None;
        }
        i += 1;
    }
    assert(f@.take(p@.len() as int) =~= p@);
    let mut rest: Vec<char> = Vec::new();
    let mut j: usize = p.len();
    while j < f.len()
        invariant
            p@.len() <= j <= f@.len(),
            rest@ == f@.subrange(p@.len() as int, j as int),
        decreases f.len() - j,
    {
        rest.push(f[j]);
        assert(f@.subrange(p@.len() as int, j + 1) == f@.subrange(p@.len() as int, j as int).push(f@[j as int]));
        j += 1;
    }
    assert(rest@ =~= f@.skip(p@.len() as int));
    Some(from_chars(rest.as_slice()))
}

/// The labels that are written back to a note's `info` file: those starting with `_`.
pub open spec fn kept_labels(lbls: Seq<Seq<char>>) -> Seq<Seq<char>> {
    lbls.filter(|l: Seq<char>| l.len() > 0 && l[0] == '_')
}

/// Keeps, in order, the labels of `lbls` that start with `_`.
pub fn keep_underscore_labels(lbls: Vec<String>) -> (r: Vec<String>)
    ensures
        views(r@) == kept_labels(views(lbls@)),
{
    let ghost orig = views(lbls@);
    let mut out: Vec<String> = Vec::new();
    let mut i: usize = 0;
    while i < lbls.len()
        invariant
            i <= lbls@.len(),
            orig == views(lbls@),
            views(out@) == kept_labels(orig.take(i as int)),
        decreases lbls.len() - i,
    {
        reveal(Seq::filter);
        assert(orig.take(i + 1).drop_last() == orig.take(i as int));
        let c = to_chars(lbls[i].as_str());
        let ghost prev = views(out@);
        if c.len() > 0 && c[0] == '_' {
            out.push(lbls[i].clone());
            assert(views(out@) =~= prev.push(orig[i as int]));
        }
        assert(views(out@) =~= kept_labels(orig.take(i + 1)));
        i += 1;
    }
    assert(orig.take(orig.len() as int) == orig);
    out
}

} // verus!
