//! Character-level text helpers, each stated over `Seq<char>`.
use vstd::prelude::*;

verus! {

broadcast use vstd::string::group_string_axioms;

/// The number of bytes `c` takes in UTF-8.
pub open spec fn char_utf8_len(c: char) -> nat {
    if (c as int) < 0x80 {
        1
    } else if (c as int) < 0x800 {
        2
    } else if (c as int) < 0x10000 {
        3
    } else {
        4
    }
}

/// The number of bytes `s` takes in UTF-8, as a `str` holds it.
pub open spec fn utf8_len(s: Seq<char>) -> nat
    decreases s.len(),
{
    if s.len() == 0 {
        0
    } else {
        utf8_len(s.drop_last()) + char_utf8_len(s.last())
    }
}

/// The UTF-8 length of two texts one after the other is the sum of theirs.
pub proof fn lemma_utf8_len_concat(a: Seq<char>, b: Seq<char>)
    ensures
        utf8_len(a + b) == utf8_len(a) + utf8_len(b),
    decreases b.len(),
{
    if b.len() == 0 {
        assert(a + b =~= a);
    } else {
        lemma_utf8_len_concat(a, b.drop_last());
        assert((a + b).drop_last() =~= a + b.drop_last());
        assert((a + b).last() == b.last());
    }
}

/// The views of a sequence of strings.
pub open spec fn views(v: Seq<String>) -> Seq<Seq<char>> {
    v.map_values(|x: String| x@)
}

/// The characters of `s`, one per element.
pub fn to_chars(s: &str) -> (res: Vec<char>)
    ensures
        res@ == s@,
{
    let mut res: Vec<char> = Vec::new();
    for c in it: s.chars()
        invariant
            res@ == it.seq().take(it.index() as int),
            it.seq() == s@,
    {
        res.push(c);
    }
    res
}

/// Appends one character to a string (`String::push`).
#[verifier::external_body]
fn string_push(s: &mut String, c: char)
    ensures
        final(s)@ == old(s)@.push(c),
{
    s.push(c);
}

/// The string made of the characters of `v`.
pub fn from_chars(v: &[char]) -> (res: String)
    ensures
        res@ == v@,
{
    let mut res = String::new();
    let mut i: usize = 0;
    while i < v.len()
        invariant
            i <= v.len(),
            res@ == v@.take(i as int),
        decreases v.len() - i,
    {
        string_push(&mut res, v[i]);
        assert(v@.take(i + 1) == v@.take(i as int).push(v@[i as int]));
        i += 1;
    }
    assert(v@.take(v.len() as int) == v@);
    res
}

/// Whether two texts are equal.
pub fn same_text(a: &str, b: &str) -> (r: bool)
    ensures
        r == (a@ == b@),
{
    let x = to_chars(a);
    let y = to_chars(b);
    if x.len() != y.len() {
        assert(x@.len() != y@.len());
        return false;
    }
    let mut i: usize = 0;
    while i < x.len()
        invariant
            x@ == a@,
            y@ == b@,
            x@.len() == y@.len(),
            i <= x@.len(),
            forall|k: int| 0 <= k < i ==> x@[k] == y@[k],
        decreases x.len() - i,
    {
        if x[i] != y[i] {
            assert(x@[i as int] != y@[i as int]);
            return false;
        }
        i += 1;
    }
    assert(x@ =~= y@);
    true
}

/// `c` is an ASCII letter or digit.
pub open spec fn is_ascii_alnum(c: char) -> bool {
    ('0' <= c && c <= '9') || ('a' <= c && c <= 'z') || ('A' <= c && c <= 'Z')
}

/// `c` is an ASCII digit.
pub open spec fn is_ascii_digit(c: char) -> bool {
    '0' <= c && c <= '9'
}

/// Whether `c` is an ASCII letter or digit.
pub fn ascii_alnum(c: char) -> (b: bool)
    ensures
        b == is_ascii_alnum(c),
{
    ('0' <= c && c <= '9') || ('a' <= c && c <= 'z') || ('A' <= c && c <= 'Z')
}


/// `needle` occurs in `hay` at position `i`.
pub open spec fn occurs_at(hay: Seq<char>, needle: Seq<char>, i: int) -> bool {
    0 <= i && i + needle.len() <= hay.len() && hay.subrange(i, i + needle.len()) == needle
}

/// `needle` occurs somewhere in `hay` (the empty needle occurs everywhere).
pub open spec fn has_sub(hay: Seq<char>, needle: Seq<char>) -> bool {
    exists|i: int| occurs_at(hay, needle, i)
}

fn occurs_at_exec(hay: &[char], needle: &[char], i: usize) -> (b: bool)
    requires
        i + needle@.len() <= hay@.len(),
    ensures
        b == occurs_at(hay@, needle@, i as int),
{
    let n = hay.len();
    let mut j: usize = 0;
    while j < needle.len()
        invariant
            n == hay@.len(),
            i + needle@.len() <= hay@.len(),
            j <= needle.len(),
            forall|k: int| 0 <= k < j ==> hay@[i + k] == needle@[k],
        decreases needle.len() - j,
    {
        assert(i + j < hay@.len());
        if hay[i + j] != needle[j] {
            assert(hay@.subrange(i as int, i + needle@.len())[j as int] != needle@[j as int]);
            return false;
        }
        j += 1;
    }
    assert(hay@.subrange(i as int, i + needle@.len()) =~= needle@);
    true
}

/// Whether `needle` occurs in `hay`.
pub fn contains_sub(hay: &[char], needle: &[char]) -> (b: bool)
    ensures
        b == has_sub(hay@, needle@),
{
    if needle.len() > hay.len() {
        assert forall|i: int| !occurs_at(hay@, needle@, i) by {}
        return false;
    }
    let last = hay.len() - needle.len();
    let mut i: usize = 0;
    loop
        invariant
            last == hay@.len() - needle@.len(),
            i <= last,
            forall|k: int| 0 <= k < i ==> !occurs_at(hay@, needle@, k),
        ensures
            forall|k: int| 0 <= k <= last ==> !occurs_at(hay@, needle@, k),
        decreases last - i,
    {
        if occurs_at_exec(hay, needle, i) {
            return true;
        }
        if i == last {
            break;
        }
        i += 1;
    }
    assert forall|k: int| !occurs_at(hay@, needle@, k) by {
        if 0 <= k <= last {
        }
    }
    false
}

/// `prefix` is a prefix of `s`.
pub open spec fn is_prefix(prefix: Seq<char>, s: Seq<char>) -> bool {
    prefix.len() <= s.len() && s.take(prefix.len() as int) == prefix
}

/// Splits `s` at every character that occurs in `seps`, as `str::split` does:
/// `n` separators give `n + 1` pieces, empty ones included.
pub open spec fn split_by(s: Seq<char>, seps: Seq<char>) -> Seq<Seq<char>>
    decreases s.len(),
{
    if s.len() == 0 {
        seq![Seq::<char>::empty()]
    } else {
        let rest = split_by(s.drop_last(), seps);
        if seps.contains(s.last()) {
            rest.push(Seq::<char>::empty())
        } else {
            rest.update(rest.len() - 1, rest.last().push(s.last()))
        }
    }
}

/// Splitting always gives at least one piece.
pub proof fn lemma_split_nonempty(s: Seq<char>, seps: Seq<char>)
    ensures
        split_by(s, seps).len() >= 1,
    decreases s.len(),
{
    if s.len() > 0 {
        lemma_split_nonempty(s.drop_last(), seps);
    }
}

/// The pieces of `s` between the characters of `seps`.
pub fn split_chars(s: &[char], seps: &[char]) -> (res: Vec<String>)
    ensures
        views(res@) == split_by(s@, seps@),
{
    let mut done: Vec<String> = Vec::new();
    let mut cur: Vec<char> = Vec::new();
    let mut i: usize = 0;
    while i < s.len()
        invariant
            i <= s.len(),
            views(done@).push(cur@) == split_by(s@.take(i as int), seps@),
        decreases s.len() - i,
    {
        let c = s[i];
        let ghost prev = s@.take(i as int);
        assert(s@.take(i + 1).drop_last() == prev);
        assert(s@.take(i + 1).last() == c);
        let mut is_sep = false;
        let mut k: usize = 0;
        while k < seps.len()
            invariant
                k <= seps.len(),
                is_sep == (exists|j: int| 0 <= j < k && seps@[j] == c),
            decreases seps.len() - k,
        {
            if seps[k] == c {
                is_sep = true;
            }
            k += 1;
        }
        assert(is_sep == seps@.contains(c));
        if is_sep {
            let piece = from_chars(cur.as_slice());
            done.push(piece);
            cur = Vec::new();
            assert(views(done@).push(cur@) =~= split_by(s@.take(i + 1), seps@));
        } else {
            cur.push(c);
            assert(views(done@).push(cur@) =~= split_by(s@.take(i + 1), seps@));
        }
        i += 1;
    }
    assert(s@.take(s.len() as int) == s@);
    let piece = from_chars(cur.as_slice());
    done.push(piece);
    assert(views(done@) =~= split_by(s@, seps@));
    done
}

/// The pieces of `parts` with `sep` between neighbours.
pub open spec fn join_by(parts: Seq<Seq<char>>, sep: char) -> Seq<char>
    decreases parts.len(),
{
    if parts.len() == 0 {
        Seq::<char>::empty()
    } else if parts.len() == 1 {
        parts[0]
    } else {
        join_by(parts.drop_last(), sep).push(sep) + parts.last()
    }
}

/// Joins the strings of `parts` with `sep` between neighbours.
pub fn join_strings(parts: &[String], sep: char) -> (res: String)
    ensures
        res@ == join_by(views(parts@), sep),
{
    let mut out: Vec<char> = Vec::new();
    let mut i: usize = 0;
    while i < parts.len()
        invariant
            i <= parts.len(),
            out@ == join_by(views(parts@.take(i as int)), sep),
        decreases parts.len() - i,
    {
        let piece = to_chars(parts[i].as_str());
        let ghost before = out@;
        if i > 0 {
            out.push(sep);
        }
        let mut k: usize = 0;
        while k < piece.len()
            invariant
                k <= piece.len(),
                i > 0 ==> out@ == before.push(sep) + piece@.take(k as int),
                i == 0 ==> out@ == before + piece@.take(k as int),
            decreases piece.len() - k,
        {
            out.push(piece[k]);
            assert(piece@.take(k + 1) == piece@.take(k as int).push(piece@[k as int]));
            k += 1;
        }
        assert(piece@.take(piece.len() as int) == piece@);
        assert(views(parts@.take(i + 1)).drop_last() == views(parts@.take(i as int)));
        assert(views(parts@.take(i + 1)).last() == parts@[i as int]@);
        if i == 0 {
            assert(views(parts@.take(1)) =~= seq![parts@[0]@]);
        }
        i += 1;
    }
    assert(parts@.take(parts.len() as int) == parts@);
    from_chars(out.as_slice())
}

proof fn lemma_join_extend_last(parts: Seq<Seq<char>>, sep: char, c: char)
    requires
        parts.len() >= 1,
    ensures
        join_by(parts.update(parts.len() - 1, parts.last().push(c)), sep) == join_by(parts, sep).push(c),
{
    let q = parts.update(parts.len() - 1, parts.last().push(c));
    if parts.len() == 1 {
    } else {
        assert(q.drop_last() == parts.drop_last());
    }
}

/// Splitting at `sep` and joining the pieces with `sep` gives the text back.
pub proof fn lemma_join_split(s: Seq<char>, sep: char)
    ensures
        join_by(split_by(s, seq![sep]), sep) == s,
    decreases s.len(),
{
    if s.len() > 0 {
        let rest = split_by(s.drop_last(), seq![sep]);
        lemma_join_split(s.drop_last(), sep);
        lemma_split_nonempty(s.drop_last(), seq![sep]);
        if seq![sep].contains(s.last()) {
            let p = rest.push(Seq::<char>::empty());
            assert(p.drop_last() == rest);
            assert(s.last() == sep);
            assert(join_by(p, sep) =~= s);
        } else {
            lemma_join_extend_last(rest, sep, s.last());
            assert(s.drop_last().push(s.last()) == s);
        }
    }
}


/// A text without `sep` splits into itself alone.
proof fn lemma_split_sep_free(s: Seq<char>, sep: char)
    requires
        !s.contains(sep),
    ensures
        split_by(s, seq![sep]) == seq![s],
    decreases s.len(),
{
    if s.len() > 0 {
        assert(!s.drop_last().contains(sep)) by {
            if s.drop_last().contains(sep) {
                let k = choose|k: int| 0 <= k < s.drop_last().len() && s.drop_last()[k] == sep;
                assert(s[k] == sep);
            }
        }
        lemma_split_sep_free(s.drop_last(), sep);
        assert(s[s.len() - 1] == s.last());
        assert(!seq![sep].contains(s.last())) by {
            if seq![sep].contains(s.last()) {
                assert(seq![sep][0] == sep);
            }
        }
        assert(s.drop_last().push(s.last()) =~= s);
        assert(split_by(s, seq![sep]) =~= seq![s]);
    } else {
        assert(s =~= Seq::<char>::empty());
    }
}

/// Splitting `a`, a separator and `b` gives the pieces of `a` followed by those of `b`.
pub proof fn lemma_split_concat(a: Seq<char>, sep: char, b: Seq<char>)
    ensures
        split_by(a.push(sep) + b, seq![sep]) == split_by(a, seq![sep]) + split_by(b, seq![sep]),
    decreases b.len(),
{
    let s = a.push(sep) + b;
    lemma_split_nonempty(a, seq![sep]);
    if b.len() == 0 {
        assert(s =~= a.push(sep));
        assert(s.drop_last() =~= a);
        assert(seq![sep].contains(sep)) by {
            assert(seq![sep][0] == sep);
        }
        assert(split_by(s, seq![sep]) =~= split_by(a, seq![sep]) + split_by(b, seq![sep]));
    } else {
        lemma_split_concat(a, sep, b.drop_last());
        lemma_split_nonempty(b.drop_last(), seq![sep]);
        assert(s.drop_last() =~= a.push(sep) + b.drop_last());
        assert(s.last() == b.last());
        assert(split_by(s, seq![sep]) =~= split_by(a, seq![sep]) + split_by(b, seq![sep]));
    }
}

/// Joining pieces that hold no `sep` with `sep` and splitting the result at `sep` gives
/// the pieces back.
pub proof fn lemma_split_join(parts: Seq<Seq<char>>, sep: char)
    requires
        parts.len() >= 1,
        forall|i: int| 0 <= i < parts.len() ==> !(#[trigger] parts[i]).contains(sep),
    ensures
        split_by(join_by(parts, sep), seq![sep]) == parts,
    decreases parts.len(),
{
    if parts.len() == 1 {
        lemma_split_sep_free(parts[0], sep);
        assert(seq![parts[0]] =~= parts);
    } else {
        let init = parts.drop_last();
        assert forall|i: int| 0 <= i < init.len() implies !(#[trigger] init[i]).contains(sep) by {
            assert(init[i] == parts[i]);
        }
        lemma_split_join(init, sep);
        assert(parts[parts.len() - 1] == parts.last());
        lemma_split_sep_free(parts.last(), sep);
        lemma_split_concat(join_by(init, sep), sep, parts.last());
        assert(init + seq![parts.last()] =~= parts);
    }
}

/// Pushing `xs` and then `ys` is pushing `xs + ys`.
pub proof fn lemma_path_join_all_concat(base: Seq<char>, xs: Seq<Seq<char>>, ys: Seq<Seq<char>>)
    ensures
        path_join_all(base, xs + ys) == path_join_all(path_join_all(base, xs), ys),
    decreases ys.len(),
{
    if ys.len() == 0 {
        assert(xs + ys =~= xs);
    } else {
        lemma_path_join_all_concat(base, xs, ys.drop_last());
        assert((xs + ys).drop_last() =~= xs + ys.drop_last());
        assert((xs + ys).last() == ys.last());
    }
}


/// Appends the path component `comp` to the path `base` the way `PathBuf::push` does on Unix:
/// an absolute component replaces the path, otherwise a `/` is put in between unless `base`
/// is empty or already ends with one.
pub open spec fn path_join(base: Seq<char>, comp: Seq<char>) -> Seq<char> {
    if comp.len() > 0 && comp[0] == '/' {
        comp
    } else if base.len() == 0 || base.last() == '/' {
        base + comp
    } else {
        base.push('/') + comp
    }
}

/// `base` with each of `comps` pushed in turn.
pub open spec fn path_join_all(base: Seq<char>, comps: Seq<Seq<char>>) -> Seq<char>
    decreases comps.len(),
{
    if comps.len() == 0 {
        base
    } else {
        path_join(path_join_all(base, comps.drop_last()), comps.last())
    }
}

/// Pushes the path component `comp` onto `base`.
pub fn path_push(base: &mut String, comp: &str)
    ensures
        final(base)@ == path_join(old(base)@, comp@),
{
    let c = to_chars(comp);
    let b = to_chars(base.as_str());
    if c.len() > 0 && c[0] == '/' {
        *base = from_chars(c.as_slice());
    } else if b.len() == 0 || b[b.len() - 1] == '/' {
        base.append(comp);
    } else {
        base.append("/");
        assert("/"@ == seq!['/']) by {
            reveal_strlit("/");
        }
        base.append(comp);
    }
}

/// Pushes each of `comps` onto `base` in turn.
pub fn path_push_all(base: &mut String, comps: &[String])
    ensures
        final(base)@ == path_join_all(old(base)@, views(comps@)),
{
    let ghost start = base@;
    let mut i: usize = 0;
    while i < comps.len()
        invariant
            i <= comps.len(),
            base@ == path_join_all(start, views(comps@.take(i as int))),
        decreases comps.len() - i,
    {
        path_push(base, comps[i].as_str());
        assert(views(comps@.take(i + 1)).drop_last() == views(comps@.take(i as int)));
        i += 1;
    }
    assert(comps@.take(comps.len() as int) == comps@);
}

/// The value of a run of decimal digits.
pub open spec fn digits_value(d: Seq<char>) -> nat
    decreases d.len(),
{
    if d.len() == 0 {
        0
    } else {
        10 * digits_value(d.drop_last()) + ((d.last() as int - '0' as int) as nat)
    }
}

/// Every character of `d` is an ASCII digit.
pub open spec fn all_digits(d: Seq<char>) -> bool {
    forall|i: int| 0 <= i < d.len() ==> is_ascii_digit(#[trigger] d[i])
}

/// What `usize::from_str` gives for `s`: an optional `+`, then at least one ASCII digit,
/// and a value that fits in `usize`.
pub open spec fn parse_usize_spec(s: Seq<char>) -> Option<nat> {
    let d = if s.len() > 0 && s[0] == '+' { s.drop_first() } else { s };
    if d.len() == 0 || !all_digits(d) || digits_value(d) > usize::MAX {
        None
    } else {
        Some(digits_value(d))
    }
}

proof fn lemma_digits_value_grows(d: Seq<char>, k: int)
    requires
        0 <= k <= d.len(),
        all_digits(d),
    ensures
        digits_value(d.take(k)) <= digits_value(d),
    decreases d.len() - k,
{
    if k < d.len() {
        lemma_digits_value_grows(d, k + 1);
        assert(d.take(k + 1).drop_last() == d.take(k));
        assert(is_ascii_digit(d[k]));
    } else {
        assert(d.take(k) == d);
    }
}

/// Parses `s` as `usize::from_str` does.
pub fn parse_usize(s: &[char]) -> (res: Option<usize>)
    ensures
        match res {
            Some(v) => parse_usize_spec(s@) == Some(v as nat),
            None => parse_usize_spec(s@) is None,
        },
{
    let start: usize = if s.len() > 0 && s[0] == '+' { 1 } else { 0 };
    let ghost d = if s@.len() > 0 && s@[0] == '+' { s@.drop_first() } else { s@ };
    assert(d == s@.skip(start as int));
    if start == s.len() {
        return None;
    }
    let mut acc: usize = 0;
    let mut i: usize = start;
    while i < s.len()
        invariant
            start <= i <= s.len(),
            start < s.len(),
            d == s@.skip(start as int),
            d == (if s@.len() > 0 && s@[0] == '+' { s@.drop_first() } else { s@ }),
            all_digits(d.take(i - start)),
            acc as nat == digits_value(d.take(i - start)),
        decreases s.len() - i,
    {
        let c = s[i];
        assert(d.take(i + 1 - start).drop_last() == d.take(i - start));
        assert(d.take(i + 1 - start).last() == c);
        if !('0' <= c && c <= '9') {
            assert(!all_digits(d)) by {
                assert(d[i - start] == c);
            }
            return None;
        }
        let dig: usize = (c as u32 - '0' as u32) as usize;
        if acc > (usize::MAX - dig) / 10 {
            proof {
                assert(10 * acc + dig > usize::MAX) by (nonlinear_arith)
                    requires
                        acc > (usize::MAX - dig) / 10,
                        dig <= 9,
                ;
                if all_digits(d) {
                    lemma_digits_value_grows(d, i + 1 - start);
                }
            }
            return None;
        }
        assert(10 * acc + dig <= usize::MAX) by (nonlinear_arith)
            requires
                acc <= (usize::MAX - dig) / 10,
                dig <= 9,
        ;
        acc = 10 * acc + dig;
        i += 1;
    }
    assert(d.take(s.len() - start) == d);
    Some(acc)
}

/// The lines of `s` as `str::lines` gives them: split at `\n`, a `\r` just before a `\n`
/// dropped, and no empty last piece after a final line end.
pub open spec fn lines_spec(s: Seq<char>) -> Seq<Seq<char>> {
    let p = split_by(s, seq!['\n']);
    let k = if p.last().len() == 0 { p.len() - 1 } else { p.len() as int };
    Seq::new(
        k as nat,
        |i: int|
            if i < p.len() - 1 && p[i].len() > 0 && p[i].last() == '\r' {
                p[i].drop_last()
            } else {
                p[i]
            },
    )
}

/// The non-empty lines of `s`, in order.
pub fn nonempty_lines(s: &str) -> (res: Vec<String>)
    ensures
        views(res@) == lines_spec(s@).filter(|l: Seq<char>| l.len() > 0),
{
    let chars = to_chars(s);
    let nl = ['\n'];
    let pieces = split_chars(chars.as_slice(), nl.as_slice());
    let ghost p = split_by(s@, seq!['\n']);
    proof {
        lemma_split_nonempty(s@, seq!['\n']);
        assert(nl@ == seq!['\n']);
    }
    let np = pieces.len();
    let k: usize = if pieces[np - 1].as_str().is_empty() { np - 1 } else { np };
    let ghost lines = lines_spec(s@);
    assert(lines.len() == k);
    let mut res: Vec<String> = Vec::new();
    let mut i: usize = 0;
    while i < k
        invariant
            k <= np,
            np == pieces@.len(),
            views(pieces@) == p,
            p == split_by(s@, seq!['\n']),
            lines == lines_spec(s@),
            lines.len() == k,
            i <= k,
            views(res@) == lines.take(i as int).filter(|l: Seq<char>| l.len() > 0),
        decreases k - i,
    {
        let pc = to_chars(pieces[i].as_str());
        assert(pc@ == p[i as int]);
        let line: Vec<char> = if i + 1 < np && pc.len() > 0 && pc[pc.len() - 1] == '\r' {
            let mut t = pc;
            t.pop();
            t
        } else {
            pc
        };
        assert(line@ == lines[i as int]);
        assert(lines.take(i + 1).drop_last() == lines.take(i as int));
        reveal(Seq::filter);
        if line.len() > 0 {
            res.push(from_chars(line.as_slice()));
            assert(views(res@) =~= lines.take(i + 1).filter(|l: Seq<char>| l.len() > 0));
        } else {
            assert(views(res@) =~= lines.take(i + 1).filter(|l: Seq<char>| l.len() > 0));
        }
        i += 1;
    }
    assert(lines.take(k as int) == lines);
    res
}

} // verus!
