//! The commands of the interactive file-system shell: a line is split at
//! its spaces, and its first piece, without trailing white space, names the
//! command.
use vstd::prelude::*;
use crate::text::{chars_eq, chars_of, pieces, pieces_scan, split_chars, trim_end_chars, trimmed_end, unicode_whitespace};

verus! {

/// A command of the shell.
#[derive(PartialEq, Eq, Debug, Clone)]
pub enum Command {
    /// An empty command: leave the shell.
    Quit,
    /// Add an empty file system.
    New,
    /// Make the directory of this path.
    MkDir(String),
    /// Add the file system read from the directory of this path.
    FromDir(String),
    /// Remove the directory of this path.
    RmDir(String),
    /// Add the file of this path.
    NewFile(String),
    /// Remove the file of this path.
    RmFile(String),
    /// Look up the file of this path.
    GetFile(String),
    /// Search with these queries.
    Find(Vec<String>),
    /// A command that needs a name was given none (or too many).
    BadName,
    /// Leave the program at once.
    Exit,
    /// Nothing to do.
    Nothing,
}

/// What the shell makes of a line, by its pieces split at spaces: the
/// kind of command and, where there is one, its argument, as text.
pub enum Parsed {
    Quit,
    New,
    MkDir(Seq<char>),
    FromDir(Seq<char>),
    RmDir(Seq<char>),
    NewFile(Seq<char>),
    RmFile(Seq<char>),
    GetFile(Seq<char>),
    Find(Seq<Seq<char>>),
    BadName,
    Exit,
    Nothing,
}

/// The command that the pieces `p` of a line (at least one) give.
pub open spec fn parse(p: Seq<Seq<char>>) -> Parsed {
    let head = trimmed_end(p[0]);
    if head.len() == 0 {
        Parsed::Quit
    } else if (head == "0"@ || head == "new"@) {
        Parsed::New
    } else if (head == "1"@ || head == "mkdir"@ || head == "mk_dir"@) {
        if p.len() > 1 && p[1].len() > 0 {
            Parsed::MkDir(trimmed_end(p[1]))
        } else {
            Parsed::BadName
        }
    } else if (head == "2"@ || head == "cp"@ || head == "from_dir"@) {
        if p.len() == 2 && p[1].len() > 0 {
            Parsed::FromDir(trimmed_end(p[1]))
        } else {
            Parsed::BadName
        }
    } else if (head == "3"@ || head == "rmdir"@ || head == "rm_dir"@) {
        if p.len() == 2 && p[1].len() > 0 {
            Parsed::RmDir(trimmed_end(p[1]))
        } else {
            Parsed::BadName
        }
    } else if (head == "4"@ || head == "touch"@ || head == "new_file"@) {
        if p.len() >= 3 {
            Parsed::NewFile(trimmed_end(p[1]))
        } else {
            Parsed::Nothing
        }
    } else if (head == "5"@ || head == "rm"@ || head == "rm_file"@) {
        if p.len() == 2 {
            Parsed::RmFile(trimmed_end(p[1]))
        } else {
            Parsed::Nothing
        }
    } else if (head == "6"@ || head == "get_file"@) {
        if p.len() == 2 {
            Parsed::GetFile(trimmed_end(p[1]))
        } else {
            Parsed::Nothing
        }
    } else if (head == "7"@ || head == "find"@) {
        if p.len() >= 2 {
            Parsed::Find(p.subrange(1, p.len() as int))
        } else {
            Parsed::Nothing
        }
    } else if (head == "q"@ || head == "exit"@) {
        Parsed::Exit
    } else {
        Parsed::Nothing
    }
}

/// Whether the command `c` is what `parse` gives.
pub open spec fn command_is(c: Command, p: Parsed) -> bool {
    match (c, p) {
        (Command::Quit, Parsed::Quit) => true,
        (Command::New, Parsed::New) => true,
        (Command::MkDir(a), Parsed::MkDir(b)) => a@ == b,
        (Command::FromDir(a), Parsed::FromDir(b)) => a@ == b,
        (Command::RmDir(a), Parsed::RmDir(b)) => a@ == b,
        (Command::NewFile(a), Parsed::NewFile(b)) => a@ == b,
        (Command::RmFile(a), Parsed::RmFile(b)) => a@ == b,
        (Command::GetFile(a), Parsed::GetFile(b)) => a@ == b,
        (Command::Find(a), Parsed::Find(b)) => a@.len() == b.len() && forall|i: int|
            0 <= i < b.len() ==> #[trigger] a@[i]@ == b[i],
        (Command::BadName, Parsed::BadName) => true,
        (Command::Exit, Parsed::Exit) => true,
        (Command::Nothing, Parsed::Nothing) => true,
        _ => false,
    }
}

/// Scanning on past a stretch without separators extends the current
/// piece by it.
proof fn lemma_scan_append(pre: Seq<char>, a: Seq<char>, sep: char)
    requires
        !a.contains(sep),
    ensures
        pieces_scan(pre + a, sep) == (pieces_scan(pre, sep).0, pieces_scan(pre, sep).1 + a),
    decreases a.len(),
{
    if a.len() == 0 {
        assert(pre + a =~= pre);
        assert(pieces_scan(pre, sep).1 + a =~= pieces_scan(pre, sep).1);
    } else {
        let a0 = a.drop_last();
        assert(!a0.contains(sep)) by {
            if a0.contains(sep) {
                let k = choose|k: int| 0 <= k < a0.len() && a0[k] == sep;
                assert(a[k] == sep);
            }
        }
        lemma_scan_append(pre, a0, sep);
        assert((pre + a).drop_last() =~= pre + a0);
        assert((pre + a).last() == a.last());
        assert(a.last() != sep) by {
            if a.last() == sep {
                assert(a[a.len() - 1] == sep);
            }
        }
        assert(pieces_scan(pre, sep).1 + a0 + seq![a.last()] =~= pieces_scan(pre, sep).1 + a);
    }
}

/// A line of two words split at one space is those two words.
proof fn lemma_two_pieces(w: Seq<char>, p: Seq<char>)
    requires
        !w.contains(' '),
        !p.contains(' '),
    ensures
        pieces(w + seq![' '] + p, ' ') == seq![w, p],
{
    lemma_scan_append(Seq::empty(), w, ' ');
    assert(Seq::<char>::empty() + w =~= w);
    assert(pieces_scan(Seq::<char>::empty(), ' ') == (Seq::<Seq<char>>::empty(), Seq::<char>::empty()));
    assert(Seq::<char>::empty() + w =~= w);
    let ws = w + seq![' '];
    assert(ws.drop_last() =~= w);
    assert(pieces_scan(ws, ' ') == (seq![w], Seq::<char>::empty())) by {
        assert(Seq::<Seq<char>>::empty().push(w) =~= seq![w]);
    }
    lemma_scan_append(ws, p, ' ');
    assert(Seq::<char>::empty() + p =~= p);
    assert(seq![w].push(p) =~= seq![w, p]);
}

/// What a line of a command word and one argument gives: `w p`, where the
/// word `w` and the argument `p` hold no space and `w` does not end in
/// white space, makes the command that `w` names, with `p` (without its
/// trailing white space) as its argument; a word that needs two arguments
/// or none of them, given one, does nothing.
#[verifier::rlimit(50)]
pub proof fn lemma_one_argument_lines(w: Seq<char>, p: Seq<char>)
    requires
        w.len() > 0,
        !w.contains(' '),
        !unicode_whitespace(w.last()),
        !p.contains(' '),
        p.len() > 0,
    ensures
        (w == "0"@ || w == "new"@) ==> parse(pieces(w + seq![' '] + p, ' ')) == Parsed::New,
        (w == "1"@ || w == "mkdir"@ || w == "mk_dir"@) ==> parse(pieces(w + seq![' '] + p, ' '))
            == Parsed::MkDir(trimmed_end(p)),
        (w == "2"@ || w == "cp"@ || w == "from_dir"@) ==> parse(pieces(w + seq![' '] + p, ' '))
            == Parsed::FromDir(trimmed_end(p)),
        (w == "3"@ || w == "rmdir"@ || w == "rm_dir"@) ==> parse(pieces(w + seq![' '] + p, ' '))
            == Parsed::RmDir(trimmed_end(p)),
        (w == "4"@ || w == "touch"@ || w == "new_file"@) ==> parse(pieces(w + seq![' '] + p, ' '))
            == Parsed::Nothing,
        (w == "5"@ || w == "rm"@ || w == "rm_file"@) ==> parse(pieces(w + seq![' '] + p, ' '))
            == Parsed::RmFile(trimmed_end(p)),
        (w == "6"@ || w == "get_file"@) ==> parse(pieces(w + seq![' '] + p, ' '))
            == Parsed::GetFile(trimmed_end(p)),
        (w == "7"@ || w == "find"@) ==> parse(pieces(w + seq![' '] + p, ' ')) == Parsed::Find(seq![p]),
        (w == "q"@ || w == "exit"@) ==> parse(pieces(w + seq![' '] + p, ' ')) == Parsed::Exit,
{
    reveal_strlit("0");
    reveal_strlit("new");
    reveal_strlit("1");
    reveal_strlit("mkdir");
    reveal_strlit("mk_dir");
    reveal_strlit("2");
    reveal_strlit("cp");
    reveal_strlit("from_dir");
    reveal_strlit("3");
    reveal_strlit("rmdir");
    reveal_strlit("rm_dir");
    reveal_strlit("4");
    reveal_strlit("touch");
    reveal_strlit("new_file");
    reveal_strlit("5");
    reveal_strlit("rm");
    reveal_strlit("rm_file");
    reveal_strlit("6");
    reveal_strlit("get_file");
    reveal_strlit("7");
    reveal_strlit("find");
    reveal_strlit("q");
    reveal_strlit("exit");
    lemma_two_pieces(w, p);
    let ps = seq![w, p];
    assert(ps[0] == w && ps[1] == p);
    assert(trimmed_end(w) == w);
    assert(ps.subrange(1, 2) =~= seq![p]);
    if w == "3"@ || w == "rmdir"@ || w == "rm_dir"@ {
        assert(w[0] == '3' || w[0] == 'r');
        assert(w != "0"@ && w != "new"@ && w != "1"@ && w != "mkdir"@ && w != "mk_dir"@);
        assert(w != "2"@ && w != "cp"@ && w != "from_dir"@);
    }
    if w == "6"@ || w == "get_file"@ {
        assert(w[0] == '6' || w[0] == 'g');
        assert(w != "0"@ && w != "new"@ && w != "1"@ && w != "mkdir"@ && w != "mk_dir"@);
        assert(w != "2"@ && w != "cp"@ && w != "from_dir"@ && w != "3"@ && w != "rmdir"@ && w != "rm_dir"@);
        assert(w != "4"@ && w != "touch"@ && w != "new_file"@ && w != "5"@ && w != "rm"@ && w != "rm_file"@);
    }
}

/// What a line of a single word gives: the empty line leaves the shell,
/// the words of `new` and `exit` act, the words that need an argument
/// report a bad name (those of `mk_dir`, `from_dir` and `rm_dir`) or do
/// nothing (those of `new_file`, `rm_file`, `get_file` and `find`).
#[verifier::rlimit(50)]
pub proof fn lemma_one_word_lines(w: Seq<char>)
    requires
        !w.contains(' '),
        w.len() == 0 || !unicode_whitespace(w.last()),
    ensures
        w.len() == 0 ==> parse(pieces(w, ' ')) == Parsed::Quit,
        (w == "0"@ || w == "new"@) ==> parse(pieces(w, ' ')) == Parsed::New,
        (w == "1"@ || w == "mkdir"@ || w == "mk_dir"@ || w == "2"@ || w == "cp"@ || w == "from_dir"@
            || w == "3"@ || w == "rmdir"@ || w == "rm_dir"@) ==> parse(pieces(w, ' ')) == Parsed::BadName,
        (w == "4"@ || w == "touch"@ || w == "new_file"@ || w == "5"@ || w == "rm"@ || w == "rm_file"@
            || w == "6"@ || w == "get_file"@ || w == "7"@ || w == "find"@) ==> parse(pieces(w, ' '))
            == Parsed::Nothing,
        (w == "q"@ || w == "exit"@) ==> parse(pieces(w, ' ')) == Parsed::Exit,
{
    reveal_strlit("0");
    reveal_strlit("new");
    reveal_strlit("1");
    reveal_strlit("mkdir");
    reveal_strlit("mk_dir");
    reveal_strlit("2");
    reveal_strlit("cp");
    reveal_strlit("from_dir");
    reveal_strlit("3");
    reveal_strlit("rmdir");
    reveal_strlit("rm_dir");
    reveal_strlit("4");
    reveal_strlit("touch");
    reveal_strlit("new_file");
    reveal_strlit("5");
    reveal_strlit("rm");
    reveal_strlit("rm_file");
    reveal_strlit("6");
    reveal_strlit("get_file");
    reveal_strlit("7");
    reveal_strlit("find");
    reveal_strlit("q");
    reveal_strlit("exit");
    lemma_scan_append(Seq::empty(), w, ' ');
    assert(Seq::<char>::empty() + w =~= w);
    assert(pieces_scan(Seq::<char>::empty(), ' ') == (Seq::<Seq<char>>::empty(), Seq::<char>::empty()));
    assert(Seq::<char>::empty() + w =~= w);
    assert(pieces(w, ' ') =~= seq![w]);
    let ps = seq![w];
    assert(ps[0] == w && ps.len() == 1);
    assert(trimmed_end(w) == w);
    if w == "4"@ || w == "touch"@ || w == "new_file"@ || w == "5"@ || w == "rm"@ || w == "rm_file"@
        || w == "6"@ || w == "get_file"@ || w == "7"@ || w == "find"@ {
        assert(w.len() > 0);
        assert(w != "0"@ && w != "new"@ && w != "1"@ && w != "mkdir"@ && w != "mk_dir"@);
        assert(w != "2"@ && w != "cp"@ && w != "from_dir"@ && w != "3"@ && w != "rmdir"@ && w != "rm_dir"@);
    }
    if w == "q"@ || w == "exit"@ {
        assert(w[0] == 'q' || w[0] == 'e');
        assert(w != "0"@ && w != "new"@ && w != "1"@ && w != "mkdir"@ && w != "mk_dir"@);
        assert(w != "2"@ && w != "cp"@ && w != "from_dir"@ && w != "3"@ && w != "rmdir"@ && w != "rm_dir"@);
        assert(w != "4"@ && w != "touch"@ && w != "new_file"@ && w != "5"@ && w != "rm"@ && w != "rm_file"@);
        assert(w != "6"@ && w != "get_file"@ && w != "7"@ && w != "find"@);
    }
}

/// A line of three words split at single spaces is those three words.
proof fn lemma_three_pieces(w: Seq<char>, p: Seq<char>, c: Seq<char>)
    requires
        !w.contains(' '),
        !p.contains(' '),
        !c.contains(' '),
    ensures
        pieces(w + seq![' '] + p + seq![' '] + c, ' ') == seq![w, p, c],
{
    lemma_scan_append(Seq::empty(), w, ' ');
    assert(Seq::<char>::empty() + w =~= w);
    let ws = w + seq![' '];
    assert(ws.drop_last() =~= w);
    assert(pieces_scan(ws, ' ') == (seq![w], Seq::<char>::empty())) by {
        assert(Seq::<Seq<char>>::empty().push(w) =~= seq![w]);
    }
    lemma_scan_append(ws, p, ' ');
    assert(Seq::<char>::empty() + p =~= p);
    let wps = ws + p + seq![' '];
    assert(wps.drop_last() =~= ws + p);
    assert(pieces_scan(wps, ' ') == (seq![w, p], Seq::<char>::empty())) by {
        assert(seq![w].push(p) =~= seq![w, p]);
    }
    lemma_scan_append(wps, c, ' ');
    assert(Seq::<char>::empty() + c =~= c);
    assert(seq![w, p].push(c) =~= seq![w, p, c]);
}

/// What a line of a command word and two arguments gives: `w p c` (no
/// space inside `w`, `p` or `c`, and `w` not ending in white space) adds
/// the file `p` for `4`, `touch` and `new_file`, makes the directory `p`
/// for the words of `mk_dir`, searches with `p` and `c` for those of
/// `find`, reports a bad name for the words of `from_dir` and `rm_dir`,
/// and does nothing for those of `rm_file` and `get_file`.
#[verifier::rlimit(50)]
pub proof fn lemma_two_argument_lines(w: Seq<char>, p: Seq<char>, c: Seq<char>)
    requires
        w.len() > 0,
        !w.contains(' '),
        !unicode_whitespace(w.last()),
        !p.contains(' '),
        !c.contains(' '),
        p.len() > 0,
    ensures
        (w == "4"@ || w == "touch"@ || w == "new_file"@) ==> parse(
            pieces(w + seq![' '] + p + seq![' '] + c, ' '),
        ) == Parsed::NewFile(trimmed_end(p)),
        (w == "1"@ || w == "mkdir"@ || w == "mk_dir"@) ==> parse(
            pieces(w + seq![' '] + p + seq![' '] + c, ' '),
        ) == Parsed::MkDir(trimmed_end(p)),
        (w == "2"@ || w == "cp"@ || w == "from_dir"@ || w == "3"@ || w == "rmdir"@ || w == "rm_dir"@)
            ==> parse(pieces(w + seq![' '] + p + seq![' '] + c, ' ')) == Parsed::BadName,
        (w == "5"@ || w == "rm"@ || w == "rm_file"@ || w == "6"@ || w == "get_file"@) ==> parse(
            pieces(w + seq![' '] + p + seq![' '] + c, ' '),
        ) == Parsed::Nothing,
        (w == "7"@ || w == "find"@) ==> parse(pieces(w + seq![' '] + p + seq![' '] + c, ' '))
            == Parsed::Find(seq![p, c]),
{
    reveal_strlit("0");
    reveal_strlit("new");
    reveal_strlit("1");
    reveal_strlit("mkdir");
    reveal_strlit("mk_dir");
    reveal_strlit("2");
    reveal_strlit("cp");
    reveal_strlit("from_dir");
    reveal_strlit("3");
    reveal_strlit("rmdir");
    reveal_strlit("rm_dir");
    reveal_strlit("4");
    reveal_strlit("touch");
    reveal_strlit("new_file");
    reveal_strlit("5");
    reveal_strlit("rm");
    reveal_strlit("rm_file");
    reveal_strlit("6");
    reveal_strlit("get_file");
    reveal_strlit("7");
    reveal_strlit("find");
    lemma_three_pieces(w, p, c);
    let ps = seq![w, p, c];
    assert(ps[0] == w && ps[1] == p && ps[2] == c);
    assert(trimmed_end(w) == w);
    assert(ps.subrange(1, 3) =~= seq![p, c]);
    if w == "4"@ || w == "touch"@ || w == "new_file"@ {
        assert(w[0] == '4' || w[0] == 't' || w[0] == 'n');
        assert(w != "0"@ && w != "new"@ && w != "1"@ && w != "mkdir"@ && w != "mk_dir"@);
        assert(w != "2"@ && w != "cp"@ && w != "from_dir"@ && w != "3"@ && w != "rmdir"@ && w != "rm_dir"@);
    }
    if w == "5"@ || w == "rm"@ || w == "rm_file"@ || w == "6"@ || w == "get_file"@ {
        assert(w[0] == '5' || w[0] == 'r' || w[0] == '6' || w[0] == 'g');
        assert(w != "0"@ && w != "new"@ && w != "1"@ && w != "mkdir"@ && w != "mk_dir"@);
        assert(w != "2"@ && w != "cp"@ && w != "from_dir"@ && w != "3"@ && w != "rmdir"@ && w != "rm_dir"@);
        assert(w != "4"@ && w != "touch"@ && w != "new_file"@);
    }
    if w == "2"@ || w == "cp"@ || w == "from_dir"@ || w == "3"@ || w == "rmdir"@ || w == "rm_dir"@ {
        assert(w[0] == '2' || w[0] == 'c' || w[0] == 'f' || w[0] == '3' || w[0] == 'r');
        assert(w != "0"@ && w != "new"@ && w != "1"@ && w != "mkdir"@ && w != "mk_dir"@);
        assert(ps.len() == 3);
    }
    if w == "7"@ || w == "find"@ {
        assert(w[0] == '7' || w[0] == 'f');
        assert(w != "0"@ && w != "new"@ && w != "1"@ && w != "mkdir"@ && w != "mk_dir"@);
        assert(w != "2"@ && w != "cp"@ && w != "from_dir"@ && w != "3"@ && w != "rmdir"@ && w != "rm_dir"@);
        assert(w != "4"@ && w != "touch"@ && w != "new_file"@ && w != "5"@ && w != "rm"@ && w != "rm_file"@);
        assert(w != "6"@ && w != "get_file"@);
    }
}

/// Whether the characters `s` are the text `w`.
fn is_word(s: &Vec<char>, w: &str) -> (r: bool)
    ensures
        r == (s@ == w@),
{
    let wc = chars_of(w);
    chars_eq(s, &wc)
}

/// The texts of `p[from..]`, as strings.
fn tail_strings(p: &Vec<String>, from: usize) -> (r: Vec<String>)
    requires
        from <= p@.len(),
    ensures
        r@.len() == p@.len() - from,
        forall|i: int| 0 <= i < r@.len() ==> #[trigger] r@[i]@ == p@[from + i]@,
{
    let mut r: Vec<String> = Vec::new();
    let mut i = from;
    while i < p.len()
        invariant
            from <= i <= p@.len(),
            r@.len() == i - from,
            forall|k: int| 0 <= k < r@.len() ==> #[trigger] r@[k]@ == p@[from + k]@,
        decreases p@.len() - i,
    {
        r.push(p[i].clone());
        i = i + 1;
    }
    r
}

/// The command of the line `line`.
pub fn parse_command(line: &str) -> (c: Command)
    ensures
        command_is(c, parse(pieces(line@, ' '))),
{
    let p = split_chars(line, ' ');
    let ghost ps = pieces(line@, ' ');
    let n = p.len();
    let h = trim_end_chars(p[0].as_str());
    let head = chars_of(h.as_str());
    assert(p@[0]@ == ps[0]);
    if head.len() == 0 {
        return Command::Quit;
    }
    if is_word(&head, "0") || is_word(&head, "new") {
        return Command::New;
    }
    if is_word(&head, "1") || is_word(&head, "mkdir") || is_word(&head, "mk_dir") {
        if n > 1 && !p[1].as_str().is_empty() {
            return Command::MkDir(trim_end_chars(p[1].as_str()));
        }
        return Command::BadName;
    }
    if is_word(&head, "2") || is_word(&head, "cp") || is_word(&head, "from_dir") {
        if n == 2 && !p[1].as_str().is_empty() {
            return Command::FromDir(trim_end_chars(p[1].as_str()));
        }
        return Command::BadName;
    }
    if is_word(&head, "3") || is_word(&head, "rmdir") || is_word(&head, "rm_dir") {
        if n == 2 && !p[1].as_str().is_empty() {
            return Command::RmDir(trim_end_chars(p[1].as_str()));
        }
        return Command::BadName;
    }
    if is_word(&head, "4") || is_word(&head, "touch") || is_word(&head, "new_file") {
        if n >= 3 {
            return Command::NewFile(trim_end_chars(p[1].as_str()));
        }
        return Command::Nothing;
    }
    if is_word(&head, "5") || is_word(&head, "rm") || is_word(&head, "rm_file") {
        if n == 2 {
            return Command::RmFile(trim_end_chars(p[1].as_str()));
        }
        return Command::Nothing;
    }
    if is_word(&head, "6") || is_word(&head, "get_file") {
        if n == 2 {
            return Command::GetFile(trim_end_chars(p[1].as_str()));
        }
        return Command::Nothing;
    }
    if is_word(&head, "7") || is_word(&head, "find") {
        if n >= 2 {
            let queries = tail_strings(&p, 1);
            assert(queries@.len() == ps.subrange(1, ps.len() as int).len());
            return Command::Find(queries);
        }
        return Command::Nothing;
    }
    if is_word(&head, "q") || is_word(&head, "exit") {
        return Command::Exit;
    }
    Command::Nothing
}

} // verus!
