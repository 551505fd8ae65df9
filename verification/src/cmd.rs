//! Reading a line typed at the prompt as a command.
use vstd::prelude::*;
use crate::text::{to_chars, from_chars, same_text, all_digits, is_ascii_digit, parse_usize, parse_usize_spec, views};
use crate::order::{strictly_sorted, sorted_distinct};

verus! {

/// Commands typed alone on a line.
#[derive(PartialEq, Eq, Structural, Clone, Copy, Debug)]
pub enum SimpleCmd {
    Reload,
    Exit,
    Help,
    List,
    Lbl,
    Lbls,
    Dir,
    Edit,
    Reset,
    LblAdd,
    LblRemove,
    Noop,
    Recent,
    Del,
    All,
    Deselect,
    Cat,
}

/// Commands that take the rest of the line, after a space, as their argument.
#[derive(PartialEq, Eq, Structural, Clone, Copy, Debug)]
pub enum ArgCmd {
    Where,
    New,
    Lbl,
    Lbls,
    Dir,
    Like,
}

/// Commands named by the first character of the line, the rest being their argument.
#[derive(PartialEq, Eq, Structural, Clone, Copy, Debug)]
pub enum SpecialCmd {
    Glob,
    Plus,
    Minus,
}

/// What a line asks for.
#[derive(PartialEq, Eq, Structural, Clone, Copy, Debug)]
pub enum Command {
    Simple(SimpleCmd),
    /// The argument starts at character 1.
    Special(SpecialCmd),
    /// The argument starts at the given character index.
    WithArg(ArgCmd, usize),
    /// A line of digits: the index it denotes, or `None` where it does not fit a `usize`.
    Index(Option<usize>),
    Unknown,
}

/// The command a whole line names, if any.
pub open spec fn simple_spec(l: Seq<char>) -> Option<SimpleCmd> {
    if l == "reload"@ {
        Some(SimpleCmd::Reload)
    } else if l == "exit"@ || l == "quit"@ {
        Some(SimpleCmd::Exit)
    } else if l == "h"@ || l == "help"@ {
        Some(SimpleCmd::Help)
    } else if l == "l"@ || l == "list"@ {
        Some(SimpleCmd::List)
    } else if l == "lbl"@ {
        Some(SimpleCmd::Lbl)
    } else if l == "lbls"@ {
        Some(SimpleCmd::Lbls)
    } else if l == "dir"@ {
        Some(SimpleCmd::Dir)
    } else if l == "e"@ || l == "edit"@ {
        Some(SimpleCmd::Edit)
    } else if l == "reset"@ {
        Some(SimpleCmd::Reset)
    } else if l == "+"@ {
        Some(SimpleCmd::LblAdd)
    } else if l == "-"@ {
        Some(SimpleCmd::LblRemove)
    } else if l == ""@ {
        Some(SimpleCmd::Noop)
    } else if l == "recent"@ {
        Some(SimpleCmd::Recent)
    } else if l == "del"@ {
        Some(SimpleCmd::Del)
    } else if l == "all"@ {
        Some(SimpleCmd::All)
    } else if l == "deselect"@ {
        Some(SimpleCmd::Deselect)
    } else if l == "cat"@ {
        Some(SimpleCmd::Cat)
    } else {
        None
    }
}

/// The command taking an argument that the word `w` names, if any.
pub open spec fn arg_spec(w: Seq<char>) -> Option<ArgCmd> {
    if w == "where"@ {
        Some(ArgCmd::Where)
    } else if w == "new"@ {
        Some(ArgCmd::New)
    } else if w == "lbl"@ {
        Some(ArgCmd::Lbl)
    } else if w == "lbls"@ {
        Some(ArgCmd::Lbls)
    } else if w == "dir"@ {
        Some(ArgCmd::Dir)
    } else if w == "like"@ {
        Some(ArgCmd::Like)
    } else {
        None
    }
}

/// The command that the first character `c` names, if any.
pub open spec fn special_spec(c: char) -> Option<SpecialCmd> {
    if c == '/' {
        Some(SpecialCmd::Glob)
    } else if c == '+' {
        Some(SpecialCmd::Plus)
    } else if c == '-' {
        Some(SpecialCmd::Minus)
    } else {
        None
    }
}

/// The index of the first space in `l`.
pub open spec fn first_space(l: Seq<char>) -> Option<int>
    decreases l.len(),
{
    if l.len() == 0 {
        None
    } else if l[0] == ' ' {
        Some(0)
    } else {
        match first_space(l.drop_first()) {
            Some(k) => Some(k + 1),
            None => None,
        }
    }
}

/// `first_space` gives the least index holding a space, or `None` where there is none.
pub proof fn lemma_first_space(l: Seq<char>)
    ensures
        match first_space(l) {
            Some(k) => 0 <= k < l.len() && l[k] == ' ' && forall|j: int| 0 <= j < k ==> l[j] != ' ',
            None => forall|j: int| 0 <= j < l.len() ==> l[j] != ' ',
        },
    decreases l.len(),
{
    if l.len() > 0 && l[0] != ' ' {
        lemma_first_space(l.drop_first());
        assert forall|j: int| 1 <= j < l.len() implies l[j] == l.drop_first()[j - 1] by {}
    }
}

/// How a line is read: a whole-line command first; then a command named by the first
/// character; then a word before the first space that names a command taking an argument;
/// then a line of digits, which toggles the selection of that entry of the filter buffer.
pub open spec fn command_spec(l: Seq<char>) -> Command {
    match simple_spec(l) {
        Some(c) => Command::Simple(c),
        None => {
            if l.len() > 0 && special_spec(l[0]) is Some {
                Command::Special(special_spec(l[0])->0)
            } else if first_space(l) is Some && arg_spec(l.take(first_space(l)->0)) is Some {
                Command::WithArg(arg_spec(l.take(first_space(l)->0))->0, (first_space(l)->0 + 1) as usize)
            } else if all_digits(l) {
                Command::Index(
                    match parse_usize_spec(l) {
                        Some(v) => Some(v as usize),
                        None => None,
                    },
                )
            } else {
                Command::Unknown
            }
        },
    }
}

fn simple_cmd(l: &str) -> (r: Option<SimpleCmd>)
    ensures
        r == simple_spec(l@),
{
    if same_text(l, "reload") {
        Some(SimpleCmd::Reload)
    } else if same_text(l, "exit") || same_text(l, "quit") {
        Some(SimpleCmd::Exit)
    } else if same_text(l, "h") || same_text(l, "help") {
        Some(SimpleCmd::Help)
    } else if same_text(l, "l") || same_text(l, "list") {
        Some(SimpleCmd::List)
    } else if same_text(l, "lbl") {
        Some(SimpleCmd::Lbl)
    } else if same_text(l, "lbls") {
        Some(SimpleCmd::Lbls)
    } else if same_text(l, "dir") {
        Some(SimpleCmd::Dir)
    } else if same_text(l, "e") || same_text(l, "edit") {
        Some(SimpleCmd::Edit)
    } else if same_text(l, "reset") {
        Some(SimpleCmd::Reset)
    } else if same_text(l, "+") {
        Some(SimpleCmd::LblAdd)
    } else if same_text(l, "-") {
        Some(SimpleCmd::LblRemove)
    } else if same_text(l, "") {
        Some(SimpleCmd::Noop)
    } else if same_text(l, "recent") {
        Some(SimpleCmd::Recent)
    } else if same_text(l, "del") {
        Some(SimpleCmd::Del)
    } else if same_text(l, "all") {
        Some(SimpleCmd::All)
    } else if same_text(l, "deselect") {
        Some(SimpleCmd::Deselect)
    } else if same_text(l, "cat") {
        Some(SimpleCmd::Cat)
    } else {
        None
    }
}

fn arg_cmd(w: &str) -> (r: Option<ArgCmd>)
    ensures
        r == arg_spec(w@),
{
    if same_text(w, "where") {
        Some(ArgCmd::Where)
    } else if same_text(w, "new") {
        Some(ArgCmd::New)
    } else if same_text(w, "lbl") {
        Some(ArgCmd::Lbl)
    } else if same_text(w, "lbls") {
        Some(ArgCmd::Lbls)
    } else if same_text(w, "dir") {
        Some(ArgCmd::Dir)
    } else if same_text(w, "like") {
        Some(ArgCmd::Like)
    } else {
        None
    }
}

/// Reads `line` as a command (see [`command_spec`]).
pub fn parse_command(line: &str) -> (c: Command)
    ensures
        c == command_spec(line@),
{
    if let Some(s) = simple_cmd(line) {
        return Command::Simple(s);
    }
    let l = to_chars(line);
    if l.len() > 0 {
        let c0 = l[0];
        if c0 == '/' {
            return Command::Special(SpecialCmd::Glob);
        } else if c0 == '+' {
            return Command::Special(SpecialCmd::Plus);
        } else if c0 == '-' {
            return Command::Special(SpecialCmd::Minus);
        }
    }
    let mut i: usize = 0;
    while i < l.len() && l[i] != ' '
        invariant
            i <= l@.len(),
            forall|j: int| 0 <= j < i ==> l@[j] != ' ',
        decreases l.len() - i,
    {
        i += 1;
    }
    proof {
        lemma_first_space(l@);
    }
    if i < l.len() {
        proof {
            let fs = first_space(l@);
            if let Some(k) = fs {
                if k < i {
                    assert(l@[k] != ' ');
                }
                if k > i {
                    assert(l@[i as int] == ' ');
                }
                assert(k == i);
            } else {
                assert(l@[i as int] == ' ');
            }
        }
        let word = from_chars(l.as_slice().split_at(i).0);
        assert(word@ == l@.take(i as int));
        if let Some(a) = arg_cmd(word.as_str()) {
            return Command::WithArg(a, i + 1);
        }
    } else {
        proof {
            if let Some(k) = first_space(l@) {
                assert(l@[k] == ' ');
            }
        }
    }
    let mut all = true;
    let mut k: usize = 0;
    while k < l.len()
        invariant
            k <= l@.len(),
            all == (forall|j: int| 0 <= j < k ==> is_ascii_digit(l@[j])),
        decreases l.len() - k,
    {
        if !('0' <= l[k] && l[k] <= '9') {
            all = false;
        }
        k += 1;
    }
    if all {
        Command::Index(parse_usize(l.as_slice()))
    } else {
        Command::Unknown
    }
}

/// The texts of `lits`, as owned strings.
fn strings_of(lits: &Vec<&str>) -> (r: Vec<String>)
    ensures
        r@.len() == lits@.len(),
        forall|i: int| 0 <= i < lits@.len() ==> #[trigger] r@[i]@ == lits@[i]@,
{
    let mut r: Vec<String> = Vec::new();
    let mut i: usize = 0;
    while i < lits.len()
        invariant
            i <= lits@.len(),
            r@.len() == i,
            forall|j: int| 0 <= j < i ==> #[trigger] r@[j]@ == lits@[j]@,
        decreases lits.len() - i,
    {
        r.push(String::from_str(lits[i]));
        i += 1;
    }
    r
}

/// The whole-line commands, as the help lists them: each name once, in increasing order.
pub fn simple_cmd_names() -> (r: Vec<String>)
    ensures
        strictly_sorted(views(r@)),
        forall|l: Seq<char>| views(r@).contains(l) <==> simple_spec(l) is Some,
{
    let lits: Vec<&str> = vec!["reload", "exit", "quit", "h", "help", "l", "list", "lbl", "lbls", "dir", "e", "edit", "reset", "+", "-", "", "recent", "del", "all", "deselect", "cat"];
    proof {
        reveal_strlit("reload");
        reveal_strlit("exit");
        reveal_strlit("quit");
        reveal_strlit("h");
        reveal_strlit("help");
        reveal_strlit("l");
        reveal_strlit("list");
        reveal_strlit("lbl");
        reveal_strlit("lbls");
        reveal_strlit("dir");
        reveal_strlit("e");
        reveal_strlit("edit");
        reveal_strlit("reset");
        reveal_strlit("+");
        reveal_strlit("-");
        reveal_strlit("");
        reveal_strlit("recent");
        reveal_strlit("del");
        reveal_strlit("all");
        reveal_strlit("deselect");
        reveal_strlit("cat");
    }
    let names = strings_of(&lits);
    proof {
        let v = views(names@);
        assert forall|l: Seq<char>| v.contains(l) <==> simple_spec(l) is Some by {
            if simple_spec(l) is Some {
                if l == "reload"@ {
                    assert(v[0] == l);
                } else if l == "exit"@ {
                    assert(v[1] == l);
                } else if l == "quit"@ {
                    assert(v[2] == l);
                } else if l == "h"@ {
                    assert(v[3] == l);
                } else if l == "help"@ {
                    assert(v[4] == l);
                } else if l == "l"@ {
                    assert(v[5] == l);
                } else if l == "list"@ {
                    assert(v[6] == l);
                } else if l == "lbl"@ {
                    assert(v[7] == l);
                } else if l == "lbls"@ {
                    assert(v[8] == l);
                } else if l == "dir"@ {
                    assert(v[9] == l);
                } else if l == "e"@ {
                    assert(v[10] == l);
                } else if l == "edit"@ {
                    assert(v[11] == l);
                } else if l == "reset"@ {
                    assert(v[12] == l);
                } else if l == "+"@ {
                    assert(v[13] == l);
                } else if l == "-"@ {
                    assert(v[14] == l);
                } else if l == ""@ {
                    assert(v[15] == l);
                } else if l == "recent"@ {
                    assert(v[16] == l);
                } else if l == "del"@ {
                    assert(v[17] == l);
                } else if l == "all"@ {
                    assert(v[18] == l);
                } else if l == "deselect"@ {
                    assert(v[19] == l);
                } else if l == "cat"@ {
                    assert(v[20] == l);
                }
            }
            if v.contains(l) {
                let k = choose|k: int| 0 <= k < v.len() && v[k] == l;
                assert(simple_spec(v[k]) is Some);
            }
        }
    }
    sorted_distinct(names.as_slice())
}

/// The commands that take an argument, as the help lists them: each name once, in
/// increasing order.
pub fn arg_cmd_names() -> (r: Vec<String>)
    ensures
        strictly_sorted(views(r@)),
        forall|l: Seq<char>| views(r@).contains(l) <==> arg_spec(l) is Some,
{
    let lits: Vec<&str> = vec!["where", "new", "lbl", "lbls", "dir", "like"];
    proof {
        reveal_strlit("where");
        reveal_strlit("new");
        reveal_strlit("lbl");
        reveal_strlit("lbls");
        reveal_strlit("dir");
        reveal_strlit("like");
    }
    let names = strings_of(&lits);
    proof {
        let v = views(names@);
        assert forall|l: Seq<char>| v.contains(l) <==> arg_spec(l) is Some by {
            if arg_spec(l) is Some {
                if l == "where"@ {
                    assert(v[0] == l);
                } else if l == "new"@ {
                    assert(v[1] == l);
                } else if l == "lbl"@ {
                    assert(v[2] == l);
                } else if l == "lbls"@ {
                    assert(v[3] == l);
                } else if l == "dir"@ {
                    assert(v[4] == l);
                } else if l == "like"@ {
                    assert(v[5] == l);
                }
            }
            if v.contains(l) {
                let k = choose|k: int| 0 <= k < v.len() && v[k] == l;
                assert(arg_spec(v[k]) is Some);
            }
        }
    }
    sorted_distinct(names.as_slice())
}

/// The characters that name a command when they start a line, as the help lists them: in
/// increasing order.
pub fn special_cmd_chars() -> (r: Vec<char>)
    ensures
        r@ == seq!['+', '-', '/'],
        forall|c: char| r@.contains(c) <==> special_spec(c) is Some,
{
    let r = vec!['+', '-', '/'];
    proof {
        assert forall|c: char| r@.contains(c) <==> special_spec(c) is Some by {
            if special_spec(c) is Some {
                if c == '+' {
                    assert(r@[0] == c);
                } else if c == '-' {
                    assert(r@[1] == c);
                } else {
                    assert(r@[2] == c);
                }
            }
        }
    }
    r
}

} // verus!
