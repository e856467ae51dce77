//! An in-memory tree of directories and files, with queries over the files:
//! by name, by text content, by size and by creation time.
use vstd::prelude::*;
use vstd::string::*;
use vstd::utf8::*;
use crate::clock::now_millis;
use crate::text::{chars_of, chars_eq, last_piece, last_piece_of, first_piece, second_piece, first_two_pieces, occurs_in, contains_chars, parse_usize, parse_usize_chars, lemma_first_index};

verus! {

/// Whether a file holds text or binary content.
#[derive(Debug, Eq, PartialEq, Clone, Copy, Structural)]
pub enum FileType {
    Text,
    Binary,
}

/// A file: its name, its content, its creation time in milliseconds since
/// the Unix epoch, and its type.
#[derive(Debug, Eq, PartialEq, Clone)]
pub struct File {
    name: String,
    content: Vec<u8>,
    creation_time: u64,
    type_: FileType,
}

/// The largest content size that a file reserves room for in advance.
pub const CONTENT_MAX_SIZE: usize = 1000;

/// The plain values of a file.
pub struct FileView {
    pub name: Seq<char>,
    pub content: Seq<u8>,
    pub creation_time: u64,
    pub type_: FileType,
}

impl View for File {
    type V = FileView;

    closed spec fn view(&self) -> FileView {
        FileView {
            name: self.name@,
            content: self.content@,
            creation_time: self.creation_time,
            type_: self.type_,
        }
    }
}

/// The type of a file named `path`: text when the part after its last `.`
/// is `txt`, binary otherwise.
pub open spec fn type_of_path(path: Seq<char>) -> FileType {
    if last_piece(path, '.') == seq!['t', 'x', 't'] {
        FileType::Text
    } else {
        FileType::Binary
    }
}

/// A file is a text file exactly when its path is `txt` or ends in `.txt`:
/// the type goes by the piece after the last `.` alone.
pub proof fn lemma_text_paths(path: Seq<char>)
    ensures
        type_of_path(path) == FileType::Text <==> (path == seq!['t', 'x', 't'] || (path.len() >= 4
            && path.subrange(path.len() - 4, path.len() as int) == seq!['.', 't', 'x', 't'])),
{
    lemma_last_piece_txt(path);
}

/// The piece after the last `.` is `txt` exactly when the path is `txt` or
/// ends in `.txt`.
proof fn lemma_last_piece_txt(path: Seq<char>)
    ensures
        last_piece(path, '.') == seq!['t', 'x', 't'] <==> (path == seq!['t', 'x', 't'] || (path.len() >= 4
            && path.subrange(path.len() - 4, path.len() as int) == seq!['.', 't', 'x', 't'])),
{
    let n = path.len() as int;
    let txt = seq!['t', 'x', 't'];
    if exists|i: int| 0 <= i < n && path[i] == '.' {
        let i = choose|i: int| 0 <= i < n && path[i] == '.' && forall|j: int| i < j < n ==> path[j] != '.';
        assert(exists|i: int| 0 <= i < n && path[i] == '.' && forall|j: int| i < j < n ==> path[j] != '.') by {
            let k = choose|k: int| 0 <= k < n && path[k] == '.';
            lemma_last_dot(path, k);
        }
        assert(0 <= i < n && path[i] == '.' && forall|j: int| i < j < n ==> path[j] != '.');
        let lp = path.subrange(i + 1, n);
        assert(last_piece(path, '.') == lp);
        if lp == txt {
            assert(i == n - 4);
            assert(path.subrange(n - 4, n) =~= seq!['.', 't', 'x', 't']) by {
                assert(path[n - 3] == lp[0] && path[n - 2] == lp[1] && path[n - 1] == lp[2]);
            }
        }
        if path.len() >= 4 && path.subrange(n - 4, n) == seq!['.', 't', 'x', 't'] {
            let e = path.subrange(n - 4, n);
            assert(path[n - 4] == e[0] && path[n - 3] == e[1] && path[n - 2] == e[2] && path[n - 1] == e[3]);
            if i < n - 4 {
                assert(path[n - 4] != '.');
            }
            assert(i == n - 4);
            assert(lp =~= txt);
        }
        if path == txt {
            assert(path[i] != '.');
        }
    } else {
        assert(last_piece(path, '.') == path);
        if path.len() >= 4 && path.subrange(n - 4, n) == seq!['.', 't', 'x', 't'] {
            let e = path.subrange(n - 4, n);
            assert(path[n - 4] == e[0]);
        }
    }
}

/// Some `.` is the last one.
proof fn lemma_last_dot(path: Seq<char>, k: int)
    requires
        0 <= k < path.len(),
        path[k] == '.',
    ensures
        exists|i: int| 0 <= i < path.len() && path[i] == '.' && forall|j: int| i < j < path.len() ==> path[j] != '.',
    decreases path.len() - k,
{
    if exists|j: int| k < j < path.len() && path[j] == '.' {
        let j = choose|j: int| k < j < path.len() && path[j] == '.';
        lemma_last_dot(path, j);
    } else {
        assert(forall|j: int| k < j < path.len() ==> path[j] != '.');
    }
}

/// A name query tests the whole name for equality: `name:n` (where `n`
/// holds no `:`) holds of a file exactly when the file's name is `n`, so
/// put alone it is answered by the files of that name and by no other.
pub proof fn lemma_name_query_is_equality(n: Seq<char>, f: FileView, now: u64)
    requires
        !n.contains(':'),
    ensures
        query_matches(word_name() + seq![':'] + n, f, now) <==> f.name == n,
        matched_queries(seq![word_name() + seq![':'] + n], f, now).len() > 0 <==> f.name == n,
{
    let q = word_name() + seq![':'] + n;
    assert(q[4] == ':');
    assert forall|j: int| 0 <= j < 4 implies q[j] != ':' by {}
    lemma_first_index(q, ':', 4);
    assert(first_piece(q, ':') =~= word_name());
    let rest = q.subrange(5, q.len() as int);
    assert(rest =~= n);
    assert forall|j: int| 0 <= j < n.len() implies n[j] != ':' by {
        if n[j] == ':' {
            assert(n.contains(':'));
        }
    }
    lemma_first_index(n, ':', n.len() as int);
    assert(first_piece(n, ':') == n);
    assert(second_piece(q, ':') == Some(n));
    let qs = seq![q];
    assert(qs.drop_last() =~= Seq::<Seq<char>>::empty());
    assert(matched_queries(qs.drop_last(), f, now).len() == 0);
    assert(qs.last() == q);
    assert(query_matches(q, f, now) <==> f.name == n);
}

/// A query `w:a`, where neither the word `w` nor the argument `a` holds a
/// `:`, splits into that word and that argument.
proof fn lemma_query_pieces(w: Seq<char>, a: Seq<char>)
    requires
        !w.contains(':'),
        !a.contains(':'),
    ensures
        first_piece(w + seq![':'] + a, ':') == w,
        second_piece(w + seq![':'] + a, ':') == Some(a),
{
    let q = w + seq![':'] + a;
    assert forall|j: int| 0 <= j < w.len() implies q[j] != ':' by {
        if q[j] == ':' {
            assert(w[j] == ':');
            assert(w.contains(':'));
        }
    }
    assert(q[w.len() as int] == ':');
    lemma_first_index(q, ':', w.len() as int);
    assert(q.subrange(0, w.len() as int) =~= w);
    assert(q.subrange(w.len() as int + 1, q.len() as int) =~= a);
    assert forall|j: int| 0 <= j < a.len() implies a[j] != ':' by {
        if a[j] == ':' {
            assert(a.contains(':'));
        }
    }
    lemma_first_index(a, ':', a.len() as int);
}

/// A word without `:` is a query of that word alone.
proof fn lemma_bare_query(w: Seq<char>)
    requires
        !w.contains(':'),
    ensures
        first_piece(w, ':') == w,
{
    assert forall|j: int| 0 <= j < w.len() implies w[j] != ':' by {
        if w[j] == ':' {
            assert(w.contains(':'));
        }
    }
    lemma_first_index(w, ':', w.len() as int);
}

/// The queries come in complementary pairs: for any number `a`, a file
/// answers exactly one of `larger:a` and `smaller:a`; at any time, it
/// answers exactly one of `newer` and `older`.
pub proof fn lemma_complementary_queries(a: Seq<char>, f: FileView, now: u64)
    requires
        !a.contains(':'),
        parse_usize(a) is Some,
    ensures
        query_matches(word_larger() + seq![':'] + a, f, now) <==> !query_matches(
            word_smaller() + seq![':'] + a,
            f,
            now,
        ),
        query_matches(word_newer(), f, now) <==> !query_matches(word_older(), f, now),
{
    assert(!word_larger().contains(':')) by {
        assert forall|j: int| 0 <= j < word_larger().len() implies word_larger()[j] != ':' by {}
    }
    assert(!word_smaller().contains(':')) by {
        assert forall|j: int| 0 <= j < word_smaller().len() implies word_smaller()[j] != ':' by {}
    }
    assert(!word_newer().contains(':')) by {
        assert forall|j: int| 0 <= j < word_newer().len() implies word_newer()[j] != ':' by {}
    }
    assert(!word_older().contains(':')) by {
        assert forall|j: int| 0 <= j < word_older().len() implies word_older()[j] != ':' by {}
    }
    lemma_query_pieces(word_larger(), a);
    lemma_query_pieces(word_smaller(), a);
    lemma_bare_query(word_newer());
    lemma_bare_query(word_older());
}

/// A content query looks into text files only: `content:c` (no `:` in
/// `c`) holds of no binary file, and holds of every text file whose text
/// is `c` itself, or starts with it.
pub proof fn lemma_content_query(c: Seq<char>, rest: Seq<char>, f: FileView, now: u64)
    requires
        !c.contains(':'),
    ensures
        f.type_ == FileType::Binary ==> !query_matches(word_content() + seq![':'] + c, f, now),
        f.type_ == FileType::Text && valid_utf8(f.content) && decode_utf8(f.content) == c + rest
            ==> query_matches(
            word_content() + seq![':'] + c,
            f,
            now,
        ),
{
    assert(!word_content().contains(':')) by {
        assert forall|j: int| 0 <= j < word_content().len() implies word_content()[j] != ':' by {}
    }
    lemma_query_pieces(word_content(), c);
    if f.type_ == FileType::Text && valid_utf8(f.content) && decode_utf8(f.content) == c + rest {
        let t = decode_utf8(f.content);
        assert(t.subrange(0int, 0int + c.len()) =~= c);
        assert(occurs_in(c, t));
    }
}

/// How many bytes of a content of `n` bytes a file keeps: all of them,
/// but at most `CONTENT_MAX_SIZE`.
pub open spec fn kept_len(n: nat) -> int {
    if n > CONTENT_MAX_SIZE {
        CONTENT_MAX_SIZE as int
    } else {
        n as int
    }
}

impl File {
    /// The room reserved for a content of `s` bytes: `s`, but at most
    /// `CONTENT_MAX_SIZE`.
    pub fn bound(s: usize) -> (r: usize)
        ensures
            r == (if s > CONTENT_MAX_SIZE { CONTENT_MAX_SIZE } else { s }),
    {
        if s > CONTENT_MAX_SIZE {
            return CONTENT_MAX_SIZE;
        }
        s
    }

    /// The file found at `path` with the given content, cut to its first
    /// `CONTENT_MAX_SIZE` bytes, and creation time; its type follows from
    /// the extension of `path`.
    pub fn from_parts(path: &str, content: Vec<u8>, creation_time: u64) -> (f: File)
        ensures
            f@.name == path@,
            f@.content == content@.subrange(0, kept_len(content@.len())),
            f@.creation_time == creation_time,
            f@.type_ == type_of_path(path@),
    {
        let chars = chars_of(path);
        let ext = last_piece_of(&chars, '.');
        let txt: Vec<char> = vec!['t', 'x', 't'];
        let type_ = if chars_eq(&ext, &txt) {
            FileType::Text
        } else {
            FileType::Binary
        };
        proof {
            assert(txt@ =~= seq!['t', 'x', 't']);
        }
        let mut content = content;
        let keep = Self::bound(content.len());
        content.truncate(keep);
        Self { name: path.to_owned(), content, creation_time, type_ }
    }

    /// The file's name.
    pub fn name(&self) -> (n: &String)
        ensures
            n@ == self@.name,
    {
        &self.name
    }

    /// The file's content.
    pub fn content(&self) -> (c: &Vec<u8>)
        ensures
            c@ == self@.content,
    {
        &self.content
    }

    /// The file's creation time.
    pub fn creation_time(&self) -> (t: u64)
        ensures
            t == self@.creation_time,
    {
        self.creation_time
    }

    /// The file's type.
    pub fn file_type(&self) -> (t: FileType)
        ensures
            t == self@.type_,
    {
        self.type_
    }
}

impl Default for File {
    /// An empty text file with an empty name, created at time zero.
    fn default() -> (f: Self)
        ensures
            f@.name == Seq::<char>::empty(),
            f@.content == Seq::<u8>::empty(),
            f@.creation_time == 0,
            f@.type_ == FileType::Text,
    {
        Self { name: String::new(), content: Vec::new(), creation_time: 0, type_: FileType::Text }
    }
}

/// The words that a query can start with.
pub open spec fn word_name() -> Seq<char> {
    seq!['n', 'a', 'm', 'e']
}

pub open spec fn word_content() -> Seq<char> {
    seq!['c', 'o', 'n', 't', 'e', 'n', 't']
}

pub open spec fn word_larger() -> Seq<char> {
    seq!['l', 'a', 'r', 'g', 'e', 'r']
}

pub open spec fn word_smaller() -> Seq<char> {
    seq!['s', 'm', 'a', 'l', 'l', 'e', 'r']
}

pub open spec fn word_newer() -> Seq<char> {
    seq!['n', 'e', 'w', 'e', 'r']
}

pub open spec fn word_older() -> Seq<char> {
    seq!['o', 'l', 'd', 'e', 'r']
}

/// Whether the query `q` can be put to the file `f`. A query is
/// `<word>:<argument>`; the argument is needed by `name` and `larger` and
/// `smaller` (whose argument must be a number), and by `content` on a text
/// file, whose content must then be valid UTF-8.
pub open spec fn query_defined(q: Seq<char>, f: FileView) -> bool {
    let head = first_piece(q, ':');
    let arg = second_piece(q, ':');
    if head == word_name() {
        arg is Some
    } else if head == word_content() {
        f.type_ == FileType::Text ==> valid_utf8(f.content) && arg is Some
    } else if head == word_larger() || head == word_smaller() {
        arg is Some && parse_usize(arg.unwrap()) is Some
    } else {
        true
    }
}

/// Whether the file `f` answers the query `q` at time `now` (milliseconds
/// since the Unix epoch): `name:n` holds of the file named `n`,
/// `content:c` of a text file whose text holds `c`, `larger:n` of a file of
/// `n` bytes or more, `smaller:n` of one of fewer, `newer` of a file created
/// at `now` or later, `older` of one created before; any other query holds
/// of no file.
pub open spec fn query_matches(q: Seq<char>, f: FileView, now: u64) -> bool {
    let head = first_piece(q, ':');
    let arg = second_piece(q, ':').unwrap();
    if head == word_name() {
        arg == f.name
    } else if head == word_content() {
        f.type_ == FileType::Text && occurs_in(arg, decode_utf8(f.content))
    } else if head == word_larger() {
        f.content.len() >= parse_usize(arg).unwrap()
    } else if head == word_smaller() {
        f.content.len() < parse_usize(arg).unwrap()
    } else if head == word_newer() {
        f.creation_time >= now
    } else if head == word_older() {
        f.creation_time < now
    } else {
        false
    }
}

/// The queries of `qs` that the file `f` answers at time `now`, in order.
pub open spec fn matched_queries(qs: Seq<Seq<char>>, f: FileView, now: u64) -> Seq<Seq<char>>
    decreases qs.len(),
{
    if qs.len() == 0 {
        Seq::empty()
    } else {
        let rest = matched_queries(qs.drop_last(), f, now);
        if query_matches(qs.last(), f, now) {
            rest.push(qs.last())
        } else {
            rest
        }
    }
}

/// The texts of a sequence of string slices.
pub open spec fn texts(qs: Seq<&str>) -> Seq<Seq<char>> {
    qs.map_values(|q: &str| q@)
}

/// `std::str::from_utf8`: the text that `bytes` encode in UTF-8, or `None`
/// when they are no valid UTF-8. Claimed: the result is there exactly when
/// the bytes are valid UTF-8, and its characters are their decoding.
#[verifier::external_body]
fn utf8_text(bytes: &[u8]) -> (r: Option<&str>)
    ensures
        r is Some <==> valid_utf8(bytes@),
        r matches Some(s) ==> s@ == decode_utf8(bytes@),
{
    std::str::from_utf8(bytes).ok()
}

/// The word of a query and its argument, if it has one.
fn query_parts(q: &str) -> (r: (Vec<char>, Option<Vec<char>>))
    ensures
        r.0@ == first_piece(q@, ':'),
        match r.1 {
            Some(p) => second_piece(q@, ':') == Some(p@),
            None => second_piece(q@, ':') is None,
        },
{
    let chars = chars_of(q);
    first_two_pieces(&chars, ':')
}

fn is_word(v: &Vec<char>, w: &[char]) -> (r: bool)
    ensures
        r == (v@ == w@),
{
    let mut i: usize = 0;
    if v.len() != w.len() {
        return false;
    }
    while i < v.len()
        invariant
            v@.len() == w@.len(),
            i <= v@.len(),
            forall|j: int| 0 <= j < i ==> v@[j] == w@[j],
        decreases v@.len() - i,
    {
        if v[i] != w[i] {
            return false;
        }
        i = i + 1;
    }
    assert(v@ =~= w@);
    true
}

/// Whether the file `f` answers the query `q` at time `now`.
fn query_matches_at(q: &str, f: &File, now: u64) -> (r: bool)
    requires
        query_defined(q@, f@),
    ensures
        r == query_matches(q@, f@, now),
{
    let (head, arg) = query_parts(q);
    let name_w: [char; 4] = ['n', 'a', 'm', 'e'];
    let content_w: [char; 7] = ['c', 'o', 'n', 't', 'e', 'n', 't'];
    let larger_w: [char; 6] = ['l', 'a', 'r', 'g', 'e', 'r'];
    let smaller_w: [char; 7] = ['s', 'm', 'a', 'l', 'l', 'e', 'r'];
    let newer_w: [char; 5] = ['n', 'e', 'w', 'e', 'r'];
    let older_w: [char; 5] = ['o', 'l', 'd', 'e', 'r'];
    proof {
        assert(name_w@ =~= word_name());
        assert(content_w@ =~= word_content());
        assert(larger_w@ =~= word_larger());
        assert(smaller_w@ =~= word_smaller());
        assert(newer_w@ =~= word_newer());
        assert(older_w@ =~= word_older());
    }
    if is_word(&head, &name_w) {
        match arg {
            Some(a) => {
                let name = chars_of(f.name.as_str());
                chars_eq(&a, &name)
            },
            None => false,
        }
    } else if is_word(&head, &content_w) {
        if f.type_ == FileType::Text {
            match utf8_text(f.content.as_slice()) {
                Some(text) => {
                    let hay = chars_of(text);
                    match arg {
                        Some(a) => contains_chars(&hay, &a),
                        None => false,
                    }
                },
                None => false,
            }
        } else {
            false
        }
    } else if is_word(&head, &larger_w) {
        match arg {
            Some(a) => match parse_usize_chars(&a) {
                Some(n) => f.content.len() >= n,
                None => false,
            },
            None => false,
        }
    } else if is_word(&head, &smaller_w) {
        match arg {
            Some(a) => match parse_usize_chars(&a) {
                Some(n) => f.content.len() < n,
                None => false,
            },
            None => false,
        }
    } else if is_word(&head, &newer_w) {
        f.creation_time >= now
    } else if is_word(&head, &older_w) {
        f.creation_time < now
    } else {
        false
    }
}

/// A query result: the queries that matched, and the files that matched
/// them.
pub struct MatchResult<'a, 'b> {
    pub queries: Vec<&'a str>,
    pub nodes: Vec<&'b File>,
}

impl<'a, 'b> MatchResult<'a, 'b> {
    /// The queries of `queries` that `node` answers at time `now`, in order,
    /// or `None` when it answers none.
    pub fn check_at(queries: &'a [&'a str], node: &File, now: u64) -> (r: Option<Vec<&'a str>>)
        requires
            forall|i: int| 0 <= i < queries@.len() ==> query_defined(#[trigger] queries@[i]@, node@),
        ensures
            match r {
                Some(v) => texts(v@) == matched_queries(texts(queries@), node@, now)
                    && v@.len() > 0,
                None => matched_queries(texts(queries@), node@, now).len() == 0,
            },
    {
        let mut result: Vec<&'a str> = Vec::new();
        let mut i: usize = 0;
        while i < queries.len()
            invariant
                i <= queries@.len(),
                forall|j: int| 0 <= j < queries@.len() ==> query_defined(#[trigger] queries@[j]@, node@),
                texts(result@) == matched_queries(texts(queries@.subrange(0, i as int)), node@, now),
            decreases queries@.len() - i,
        {
            let q = queries[i];
            let m = query_matches_at(q, node, now);
            proof {
                assert(texts(queries@.subrange(0, i + 1)).drop_last() =~= texts(queries@.subrange(0, i as int)));
                assert(texts(queries@.subrange(0, i + 1)).last() == q@);
            }
            if m {
                let ghost before = result@;
                result.push(q);
                assert(result@.drop_last() =~= before);
                assert(texts(result@) =~= texts(before).push(q@));
            }
            i = i + 1;
        }
        assert(queries@.subrange(0, i as int) =~= queries@);
        if result.len() == 0 {
            return None;
        }
        Some(result)
    }

    /// The queries of `queries` that `node` answers now, in order, or `None`
    /// when it answers none. The answer depends on the clock for the queries
    /// `newer` and `older`.
    pub fn check(queries: &'a [&'a str], node: &File) -> (r: Option<Vec<&'a str>>)
        requires
            forall|i: int| 0 <= i < queries@.len() ==> query_defined(#[trigger] queries@[i]@, node@),
        ensures
            exists|now: u64| match r {
                Some(v) => texts(v@) == matched_queries(texts(queries@), node@, now)
                    && v@.len() > 0,
                None => matched_queries(texts(queries@), node@, now).len() == 0,
            },
    {
        let now = now_millis();
        Self::check_at(queries, node, now)
    }
}

/// A directory: its name, its creation time and its entries.
#[derive(Debug)]
pub struct Dir {
    name: String,
    creation_time: u64,
    children: Vec<Node>,
}

/// An entry of a directory: a file or a directory.
#[derive(Debug)]
pub enum Node {
    File(File),
    Dir(Dir),
}

impl Dir {
    /// The directory's name.
    pub closed spec fn spec_name(&self) -> Seq<char> {
        self.name@
    }

    /// The directory's creation time.
    pub closed spec fn spec_creation_time(&self) -> u64 {
        self.creation_time
    }

    /// The directory's entries, in order.
    pub closed spec fn spec_children(&self) -> Seq<Node> {
        self.children@
    }

    /// The directory named `path`, created at `creation_time`, with the
    /// entries `children`.
    pub fn with_children(path: &str, creation_time: u64, children: Vec<Node>) -> (d: Dir)
        ensures
            d.spec_name() == path@,
            d.spec_creation_time() == creation_time,
            d.spec_children() == children@,
    {
        Dir { name: path.to_owned(), creation_time, children }
    }

    /// Appends `node` to the entries.
    pub fn add_child(&mut self, node: Node)
        ensures
            final(self).spec_name() == old(self).spec_name(),
            final(self).spec_creation_time() == old(self).spec_creation_time(),
            final(self).spec_children() == old(self).spec_children().push(node),
    {
        self.children.push(node);
    }

    /// The file of the entry at `index`, if that entry is a file.
    fn child_file_mut(&mut self, index: usize) -> (r: Option<&mut File>)
        requires
            index < old(self).spec_children().len(),
        ensures
            r matches Some(f) ==> old(self).spec_children()[index as int] == Node::File(*f),
            r matches Some(f) ==> final(self).spec_children() == old(self).spec_children().update(index as int, Node::File(*final(f))),
            r is Some ==> final(self).spec_name() == old(self).spec_name(),
            r is Some ==> final(self).spec_creation_time() == old(self).spec_creation_time(),
            r is None ==> old(self).spec_children()[index as int] is Dir,
            r is None ==> final(self).spec_children() == old(self).spec_children(),
            r is None ==> final(self).spec_name() == old(self).spec_name(),
            r is None ==> final(self).spec_creation_time() == old(self).spec_creation_time(),
    {
        let node: &mut Node = &mut self.children[index];
        node.get_mut_file()
    }

    /// The position of the first entry named `name`, if there is one.
    pub fn get_index_by_name(&self, name: &String) -> (r: Option<usize>)
        ensures
            match r {
                Some(i) => i < self.spec_children().len() && self.spec_children()[i as int].spec_name()
                    == name@ && forall|j: int|
                    0 <= j < i ==> #[trigger] self.spec_children()[j].spec_name() != name@,
                None => forall|j: int|
                    0 <= j < self.spec_children().len() ==> #[trigger] self.spec_children()[j].spec_name()
                        != name@,
            },
    {
        let target = chars_of(name.as_str());
        let mut i: usize = 0;
        while i < self.children.len()
            invariant
                i <= self.children@.len(),
                target@ == name@,
                forall|j: int| 0 <= j < i ==> #[trigger] self.children@[j].spec_name() != name@,
            decreases self.children@.len() - i,
        {
            let n = chars_of(self.children[i].get_name().as_str());
            if chars_eq(&n, &target) {
                return Some(i);
            }
            i = i + 1;
        }
        None
    }
}

impl Default for Dir {
    /// A directory with an empty name, created at time zero, without
    /// entries.
    fn default() -> (d: Self)
        ensures
            d.spec_name() == Seq::<char>::empty(),
            d.spec_creation_time() == 0,
            d.spec_children() == Seq::<Node>::empty(),
    {
        Dir { name: String::new(), creation_time: 0, children: Vec::new() }
    }
}

impl Node {
    /// The entry's name.
    pub open spec fn spec_name(&self) -> Seq<char> {
        match self {
            Node::File(f) => f@.name,
            Node::Dir(d) => d.spec_name(),
        }
    }

    /// The entry's name.
    pub fn get_name(&self) -> (n: &String)
        ensures
            n@ == self.spec_name(),
    {
        match self {
            Node::File(file) => &file.name,
            Node::Dir(dir) => &dir.name,
        }
    }

    /// Whether the entry is a directory.
    pub fn is_dir(&self) -> (r: bool)
        ensures
            r == (self is Dir),
    {
        match self {
            Node::File(_) => false,
            Node::Dir(_) => true,
        }
    }

    /// Whether the entry is a file.
    pub fn is_file(&self) -> (r: bool)
        ensures
            r == (self is File),
    {
        match self {
            Node::File(_) => true,
            Node::Dir(_) => false,
        }
    }

    /// Whether the entry is a directory.
    pub fn is_dir_mut(&mut self) -> (r: bool)
        ensures
            r == (*old(self) is Dir),
            *final(self) == *old(self),
    {
        match self {
            Node::File(_) => false,
            Node::Dir(_) => true,
        }
    }

    /// Whether the entry is a file.
    pub fn is_file_mut(&mut self) -> (r: bool)
        ensures
            r == (*old(self) is File),
            *final(self) == *old(self),
    {
        match self {
            Node::File(_) => true,
            Node::Dir(_) => false,
        }
    }

    /// The directory, for a directory entry.
    pub fn get_mut_dir(&mut self) -> (r: Option<&mut Dir>)
        ensures
            match r {
                Some(d) => *old(self) == Node::Dir(*d) && *final(self) == Node::Dir(*final(d)),
                None => *old(self) is File && *final(self) == *old(self),
            },
    {
        match self {
            Node::File(_) => None,
            Node::Dir(dir) => Some(dir),
        }
    }

    /// The directory, for a directory entry.
    pub fn get_dir(&self) -> (r: Option<&Dir>)
        ensures
            match r {
                Some(d) => *self == Node::Dir(*d),
                None => self is File,
            },
    {
        match self {
            Node::File(_) => None,
            Node::Dir(dir) => Some(dir),
        }
    }

    /// The file, for a file entry.
    pub fn get_mut_file(&mut self) -> (r: Option<&mut File>)
        ensures
            match r {
                Some(f) => *old(self) == Node::File(*f) && *final(self) == Node::File(*final(f)),
                None => *old(self) is Dir && *final(self) == *old(self),
            },
    {
        match self {
            Node::File(file) => Some(file),
            Node::Dir(_) => None,
        }
    }

    /// The file, for a file entry.
    pub fn get_file(&self) -> (r: Option<&File>)
        ensures
            match r {
                Some(f) => *self == Node::File(*f),
                None => self is Dir,
            },
    {
        match self {
            Node::File(file) => Some(file),
            Node::Dir(_) => None,
        }
    }
}

/// The files of the entries `s`, in order: a file entry is its file, a
/// directory entry the files of its tree.
pub open spec fn entries_files(s: Seq<Node>) -> Seq<File>
    decreases s,
{
    if s.len() == 0 {
        Seq::empty()
    } else {
        entries_files(s.drop_last()) + match s.last() {
            Node::File(f) => seq![f],
            Node::Dir(d) => tree_files(d),
        }
    }
}

/// The files of the tree `d`, in order.
pub open spec fn tree_files(d: Dir) -> Seq<File>
    decreases d,
{
    entries_files(d.spec_children())
}

/// `acc` followed by the queries of `new` that it does not hold yet, each
/// once, in the order of `new`.
pub open spec fn add_unique(acc: Seq<Seq<char>>, new: Seq<Seq<char>>) -> Seq<Seq<char>>
    decreases new.len(),
{
    if new.len() == 0 {
        acc
    } else {
        let before = add_unique(acc, new.drop_last());
        if before.contains(new.last()) {
            before
        } else {
            before.push(new.last())
        }
    }
}

/// The files of the entries `s` that answer some query of `qs` at time
/// `now`, each directory searched in turn, and the queries that they answer,
/// each once, in the order in which they were first answered.
pub open spec fn entries_search(s: Seq<Node>, qs: Seq<Seq<char>>, now: u64) -> (Seq<File>, Seq<Seq<char>>)
    decreases s,
{
    if s.len() == 0 {
        (Seq::empty(), Seq::empty())
    } else {
        let (n, q) = entries_search(s.drop_last(), qs, now);
        match s.last() {
            Node::File(f) => {
                let m = matched_queries(qs, f@, now);
                if m.len() > 0 {
                    (n.push(f), add_unique(q, m))
                } else {
                    (n, q)
                }
            },
            Node::Dir(d) => {
                let (dn, dq) = tree_search(d, qs, now);
                if dq.len() > 0 {
                    (n + dn, add_unique(q, dq))
                } else {
                    (n, q)
                }
            },
        }
    }
}

/// The search of `entries_search` over the entries of `d`.
pub open spec fn tree_search(d: Dir, qs: Seq<Seq<char>>, now: u64) -> (Seq<File>, Seq<Seq<char>>)
    decreases d,
{
    entries_search(d.spec_children(), qs, now)
}

/// The files that a sequence of references points to.
pub open spec fn deref_files(s: Seq<&File>) -> Seq<File> {
    s.map_values(|f: &File| *f)
}

/// Whether every query of `qs` can be put to every file of `files`.
pub open spec fn queries_defined_on(qs: Seq<&str>, files: Seq<File>) -> bool {
    forall|i: int, j: int|
        0 <= i < qs.len() && 0 <= j < files.len() ==> query_defined(#[trigger] qs[i]@, #[trigger] files[j]@)
}

/// Whether `v` holds a string with the text of `q`.
fn contains_text(v: &Vec<&str>, q: &str) -> (r: bool)
    ensures
        r == texts(v@).contains(q@),
{
    let target = chars_of(q);
    let mut i: usize = 0;
    while i < v.len()
        invariant
            i <= v@.len(),
            target@ == q@,
            forall|j: int| 0 <= j < i ==> v@[j]@ != q@,
        decreases v@.len() - i,
    {
        let c = chars_of(v[i]);
        if chars_eq(&c, &target) {
            assert(texts(v@)[i as int] == q@);
            return true;
        }
        i = i + 1;
    }
    proof {
        if texts(v@).contains(q@) {
            let w = choose|w: int| 0 <= w < texts(v@).len() && texts(v@)[w] == q@;
            assert(v@[w]@ == q@);
        }
    }
    false
}

/// Appends to `acc` the queries of `new` that it does not hold yet.
fn add_unique_queries<'a>(acc: &mut Vec<&'a str>, new: &Vec<&'a str>)
    ensures
        texts(final(acc)@) == add_unique(texts(old(acc)@), texts(new@)),
{
    let ghost a0 = texts(acc@);
    let mut j: usize = 0;
    while j < new.len()
        invariant
            j <= new@.len(),
            texts(acc@) == add_unique(a0, texts(new@.subrange(0, j as int))),
        decreases new@.len() - j,
    {
        let q = new[j];
        proof {
            assert(texts(new@.subrange(0, j + 1)).drop_last() =~= texts(new@.subrange(0, j as int)));
            assert(texts(new@.subrange(0, j + 1)).last() == q@);
        }
        if !contains_text(acc, q) {
            let ghost before = acc@;
            acc.push(q);
            assert(texts(acc@) =~= texts(before).push(q@));
        }
        j = j + 1;
    }
    assert(new@.subrange(0, j as int) =~= new@);
}

proof fn lemma_entries_files_prefix(s: Seq<Node>, i: int)
    requires
        0 <= i <= s.len(),
    ensures
        entries_files(s) == entries_files(s.subrange(0, i)) + entries_files(s.subrange(i, s.len() as int)),
    decreases s.len(),
{
    if i == s.len() {
        assert(s.subrange(0, i) =~= s);
        assert(entries_files(s.subrange(i, s.len() as int)) =~= Seq::<File>::empty());
        assert(entries_files(s) + Seq::<File>::empty() =~= entries_files(s));
    } else {
        lemma_entries_files_prefix(s.drop_last(), i);
        assert(s.drop_last().subrange(0, i) =~= s.subrange(0, i));
        let tail = s.subrange(i, s.len() as int);
        assert(tail.drop_last() =~= s.drop_last().subrange(i, s.drop_last().len() as int));
        assert(tail.last() == s.last());
    }
}

proof fn lemma_entries_files_single(n: Node)
    ensures
        entries_files(seq![n]) == match n {
            Node::File(f) => seq![f],
            Node::Dir(d) => tree_files(d),
        },
{
    assert(seq![n].drop_last() =~= Seq::<Node>::empty());
    assert(seq![n].last() == n);
    let e = entries_files(Seq::<Node>::empty());
    assert(e =~= Seq::<File>::empty());
    match n {
        Node::File(f) => {
            assert(e + seq![f] =~= seq![f]);
        },
        Node::Dir(d) => {
            assert(e + tree_files(d) =~= tree_files(d));
        },
    }
}

/// The files of one entry of `s` are among the files of `s`.
proof fn lemma_entry_files_within(s: Seq<Node>, i: int, k: int)
    requires
        0 <= i < s.len(),
        0 <= k < entries_files(seq![s[i]]).len(),
    ensures
        entries_files(s).contains(entries_files(seq![s[i]])[k]),
{
    lemma_entries_files_prefix(s, i);
    let rest = s.subrange(i, s.len() as int);
    lemma_entries_files_prefix(rest, 1);
    assert(rest.subrange(0, 1) =~= seq![s[i]]);
    let pre = entries_files(s.subrange(0, i)).len();
    assert(entries_files(s)[pre + k] == entries_files(seq![s[i]])[k]);
}

impl Dir {
    /// The search of `tree_search` on this directory at time `now`, or
    /// `None` when no file answers a query.
    pub fn search_r_at<'a>(&'a self, queries: &'a [&'a str], now: u64) -> (r: Option<MatchResult<'a, 'a>>)
        requires
            queries_defined_on(queries@, tree_files(*self)),
        ensures
            match r {
                Some(m) => deref_files(m.nodes@) == tree_search(*self, texts(queries@), now).0 && texts(m.queries@)
                    == tree_search(*self, texts(queries@), now).1 && m.queries@.len() > 0,
                None => tree_search(*self, texts(queries@), now).1.len() == 0,
            },
        decreases self,
    {
        let mut results = MatchResult { queries: Vec::new(), nodes: Vec::new() };
        let ghost qs = texts(queries@);
        let mut i: usize = 0;
        while i < self.children.len()
            invariant
                i <= self.children@.len(),
                queries_defined_on(queries@, tree_files(*self)),
                qs == texts(queries@),
                deref_files(results.nodes@) == entries_search(self.children@.subrange(0, i as int), qs, now).0,
                texts(results.queries@) == entries_search(self.children@.subrange(0, i as int), qs, now).1,
            decreases self.children@.len() - i,
        {
            let ghost pre = self.children@.subrange(0, i as int);
            proof {
                assert(self.children@.subrange(0, i + 1).drop_last() =~= pre);
                assert(self.children@.subrange(0, i + 1).last() == self.children@[i as int]);
            }
            match &self.children[i] {
                Node::File(file) => {
                    proof {
                        assert forall|k: int| 0 <= k < queries@.len() implies query_defined(#[trigger] queries@[k]@, file@) by {
                            lemma_entries_files_single(self.children@[i as int]);
                            lemma_entry_files_within(self.children@, i as int, 0);
                            let w = choose|w: int| 0 <= w < tree_files(*self).len() && tree_files(*self)[w] == *file;
                            assert(query_defined(queries@[k]@, tree_files(*self)[w]@));
                        }
                    }
                    match MatchResult::check_at(queries, file, now) {
                        None => {
                            assert(texts(results.queries@) == entries_search(self.children@.subrange(0, i + 1), qs, now).1);
                        },
                        Some(q) => {
                            let ghost n0 = results.nodes@;
                            results.nodes.push(file);
                            assert(deref_files(results.nodes@) =~= deref_files(n0).push(*file));
                            add_unique_queries(&mut results.queries, &q);
                            assert(texts(results.queries@) == entries_search(self.children@.subrange(0, i + 1), qs, now).1);
                        },
                    }
                },
                Node::Dir(dir) => {
                    proof {
                        lemma_entries_files_single(self.children@[i as int]);
                        assert forall|a: int, b: int|
                            0 <= a < queries@.len() && 0 <= b < tree_files(*dir).len()
                            implies query_defined(#[trigger] queries@[a]@, #[trigger] tree_files(*dir)[b]@) by {
                            lemma_entry_files_within(self.children@, i as int, b);
                            let w = choose|w: int| 0 <= w < tree_files(*self).len() && tree_files(*self)[w] == tree_files(*dir)[b];
                            assert(query_defined(queries@[a]@, tree_files(*self)[w]@));
                        }
                    }
                    match dir.search_r_at(queries, now) {
                        None => {
                            assert(texts(results.queries@) == entries_search(self.children@.subrange(0, i + 1), qs, now).1);
                        },
                        Some(result) => {
                            let mut k: usize = 0;
                            let ghost n0 = results.nodes@;
                            let ghost rq0 = results.queries@;
                            while k < result.nodes.len()
                                invariant
                                    k <= result.nodes@.len(),
                                    results.queries@ == rq0,
                                    deref_files(results.nodes@) == deref_files(n0) + deref_files(result.nodes@.subrange(0, k as int)),
                                decreases result.nodes@.len() - k,
                            {
                                let ghost n1 = results.nodes@;
                                results.nodes.push(result.nodes[k]);
                                k = k + 1;
                                assert(deref_files(results.nodes@) =~= deref_files(n1).push(*result.nodes@[k - 1]));
                                assert(deref_files(result.nodes@.subrange(0, k as int)) =~= deref_files(result.nodes@.subrange(0, k - 1)).push(*result.nodes@[k - 1]));
                            }
                            assert(result.nodes@.subrange(0, k as int) =~= result.nodes@);
                            add_unique_queries(&mut results.queries, &result.queries);
                            assert(texts(results.queries@) == entries_search(self.children@.subrange(0, i + 1), qs, now).1);
                        },
                    }
                },
            }
            i = i + 1;
        }
        assert(self.children@.subrange(0, i as int) =~= self.children@);
        if results.queries.len() == 0 {
            return None;
        }
        Some(results)
    }
}

impl Dir {
    /// The search of `search_r_at` at the present time, which is read once
    /// for the whole search.
    pub fn search_r<'a>(&'a self, queries: &'a [&'a str]) -> (r: Option<MatchResult<'a, 'a>>)
        requires
            queries_defined_on(queries@, tree_files(*self)),
        ensures
            exists|now: u64| match r {
                Some(m) => deref_files(m.nodes@) == tree_search(*self, texts(queries@), now).0 && texts(m.queries@)
                    == tree_search(*self, texts(queries@), now).1 && m.queries@.len() > 0,
                None => tree_search(*self, texts(queries@), now).1.len() == 0,
            },
    {
        let now = now_millis();
        self.search_r_at(queries, now)
    }
}

/// The size of an entry: one for a file, one plus the sizes of its entries
/// for a directory.
pub open spec fn node_size(n: Node) -> nat
    decreases n,
{
    match n {
        Node::File(_) => 1,
        Node::Dir(d) => 1 + entries_size(d.spec_children()),
    }
}

/// The sum of the sizes of the entries `s`.
pub open spec fn entries_size(s: Seq<Node>) -> nat
    decreases s,
{
    if s.len() == 0 {
        0
    } else {
        entries_size(s.drop_last()) + node_size(s.last())
    }
}

/// The sum of the sizes of the directories `s`.
pub open spec fn stack_size(s: Seq<Dir>) -> nat
    decreases s.len(),
{
    if s.len() == 0 {
        0
    } else {
        stack_size(s.drop_last()) + 1 + entries_size(s.last().spec_children())
    }
}

/// One visit of the directory entries `s` by the iterative search: each
/// file is added with the queries it answers, each directory is set aside
/// for later, in order.
pub open spec fn children_step(
    s: Seq<Node>,
    qs: Seq<Seq<char>>,
    now: u64,
    acc: (Seq<File>, Seq<Seq<char>>),
) -> ((Seq<File>, Seq<Seq<char>>), Seq<Dir>)
    decreases s.len(),
{
    if s.len() == 0 {
        (acc, Seq::empty())
    } else {
        let (a, ds) = children_step(s.drop_last(), qs, now, acc);
        match s.last() {
            Node::File(f) => ((a.0.push(f), add_unique(a.1, matched_queries(qs, f@, now))), ds),
            Node::Dir(d) => (a, ds.push(d)),
        }
    }
}

pub proof fn lemma_stack_size_concat(a: Seq<Dir>, b: Seq<Dir>)
    ensures
        stack_size(a + b) == stack_size(a) + stack_size(b),
    decreases b.len(),
{
    if b.len() == 0 {
        assert(a + b =~= a);
    } else {
        assert((a + b).drop_last() =~= a + b.drop_last());
        lemma_stack_size_concat(a, b.drop_last());
    }
}

pub proof fn lemma_children_step_dirs_size(s: Seq<Node>, qs: Seq<Seq<char>>, now: u64, acc: (Seq<File>, Seq<Seq<char>>))
    ensures
        stack_size(children_step(s, qs, now, acc).1) <= entries_size(s),
    decreases s.len(),
{
    if s.len() > 0 {
        lemma_children_step_dirs_size(s.drop_last(), qs, now, acc);
        let ds = children_step(s.drop_last(), qs, now, acc).1;
        match s.last() {
            Node::File(_) => {},
            Node::Dir(d) => {
                assert(ds.push(d).drop_last() =~= ds);
                assert(ds.push(d).last() == d);
                assert(stack_size(ds.push(d)) == stack_size(ds) + 1 + entries_size(d.spec_children()));
                assert(node_size(Node::Dir(d)) == 1 + entries_size(d.spec_children()));
            },
        }
    }
}

/// The iterative search: the directories of `stack` are visited from the
/// last one, each visit setting the directories it meets on the stack.
pub open spec fn stack_search(
    stack: Seq<Dir>,
    qs: Seq<Seq<char>>,
    now: u64,
    acc: (Seq<File>, Seq<Seq<char>>),
) -> (Seq<File>, Seq<Seq<char>>)
    decreases stack_size(stack),
{
    if stack.len() == 0 {
        acc
    } else {
        let (acc2, dirs) = children_step(stack.last().spec_children(), qs, now, acc);
        proof {
            lemma_children_step_dirs_size(stack.last().spec_children(), qs, now, acc);
            lemma_stack_size_concat(stack.drop_last(), dirs);
        }
        stack_search(stack.drop_last() + dirs, qs, now, acc2)
    }
}

/// The files of the trees of the directories `s`, one tree after the other.
pub open spec fn stack_files(s: Seq<Dir>) -> Seq<File>
    decreases s.len(),
{
    if s.len() == 0 {
        Seq::empty()
    } else {
        stack_files(s.drop_last()) + tree_files(s.last())
    }
}

proof fn lemma_stack_files_concat(a: Seq<Dir>, b: Seq<Dir>)
    ensures
        stack_files(a + b) == stack_files(a) + stack_files(b),
    decreases b.len(),
{
    if b.len() == 0 {
        assert(a + b =~= a);
        assert(stack_files(a) + stack_files(b) =~= stack_files(a));
    } else {
        assert((a + b).drop_last() =~= a + b.drop_last());
        assert((a + b).last() == b.last());
        lemma_stack_files_concat(a, b.drop_last());
        assert(stack_files(a) + stack_files(b.drop_last()) + tree_files(b.last()) =~= stack_files(a) + (
        stack_files(b.drop_last()) + tree_files(b.last())));
    }
}

/// A visit of the entries `s` keeps every file: those it adds and those of
/// the directories it sets aside are the files of the entries.
proof fn lemma_children_step_files(s: Seq<Node>, qs: Seq<Seq<char>>, now: u64, acc: (Seq<File>, Seq<Seq<char>>))
    ensures
        children_step(s, qs, now, acc).0.0.to_multiset().add(stack_files(children_step(s, qs, now, acc).1).to_multiset())
            == acc.0.to_multiset().add(entries_files(s).to_multiset()),
    decreases s.len(),
{
    broadcast use vstd::seq_lib::group_to_multiset_ensures, vstd::multiset::group_multiset_axioms;
    if s.len() == 0 {
        assert(stack_files(Seq::<Dir>::empty()) =~= Seq::<File>::empty());
        assert(entries_files(s) =~= Seq::<File>::empty());
        assert(acc.0.to_multiset().add(Seq::<File>::empty().to_multiset()) =~= acc.0.to_multiset());
    } else {
        lemma_children_step_files(s.drop_last(), qs, now, acc);
        let (a, ds) = children_step(s.drop_last(), qs, now, acc);
        let e = entries_files(s.drop_last());
        match s.last() {
            Node::File(f) => {
                assert(children_step(s, qs, now, acc) == ((a.0.push(f), add_unique(a.1, matched_queries(qs, f@, now))), ds));
                assert(entries_files(s) == e + seq![f]);
                vstd::seq_lib::lemma_multiset_commutative(e, seq![f]);
                assert(seq![f].to_multiset() =~= vstd::multiset::Multiset::<File>::empty().insert(f)) by {
                    assert(Seq::<File>::empty().push(f) =~= seq![f]);
                }
                let ma = a.0.to_multiset();
                let mds = stack_files(ds).to_multiset();
                let macc = acc.0.to_multiset();
                let me = e.to_multiset();
                assert(ma.add(mds) =~= macc.add(me));
                assert(a.0.push(f).to_multiset() =~= ma.insert(f));
                assert((e + seq![f]).to_multiset() =~= me.insert(f));
                assert(ma.insert(f).add(mds) =~= macc.add(me.insert(f))) by {
                    assert forall|x: File| #[trigger] ma.insert(f).add(mds).count(x) == macc.add(me.insert(f)).count(x) by {
                        assert(ma.add(mds).count(x) == macc.add(me).count(x));
                    }
                }
            },
            Node::Dir(d) => {
                assert(children_step(s, qs, now, acc) == (a, ds.push(d)));
                assert(entries_files(s) == e + tree_files(d));
                assert(ds.push(d).drop_last() =~= ds);
                assert(ds.push(d).last() == d);
                assert(stack_files(ds.push(d)) == stack_files(ds) + tree_files(d));
                vstd::seq_lib::lemma_multiset_commutative(stack_files(ds), tree_files(d));
                vstd::seq_lib::lemma_multiset_commutative(e, tree_files(d));
                let ma = a.0.to_multiset();
                let mds = stack_files(ds).to_multiset();
                let macc = acc.0.to_multiset();
                let me = e.to_multiset();
                let mt = tree_files(d).to_multiset();
                assert(ma.add(mds) =~= macc.add(me));
                assert(ma.add(mds.add(mt)) =~= macc.add(me.add(mt))) by {
                    assert forall|x: File| #[trigger] ma.add(mds.add(mt)).count(x) == macc.add(me.add(mt)).count(x) by {
                        assert(ma.add(mds).count(x) == macc.add(me).count(x));
                    }
                }
            },
        }
    }
}

/// The iterative search from the directories `stack` adds every file of
/// their trees to what it found before.
proof fn lemma_stack_search_files(stack: Seq<Dir>, qs: Seq<Seq<char>>, now: u64, acc: (Seq<File>, Seq<Seq<char>>))
    ensures
        stack_search(stack, qs, now, acc).0.to_multiset() == acc.0.to_multiset().add(stack_files(stack).to_multiset()),
    decreases stack_size(stack),
{
    broadcast use vstd::seq_lib::group_to_multiset_ensures, vstd::multiset::group_multiset_axioms;
    if stack.len() == 0 {
        assert(stack_files(stack) =~= Seq::<File>::empty());
        assert(acc.0.to_multiset().add(Seq::<File>::empty().to_multiset()) =~= acc.0.to_multiset());
    } else {
        let rest = stack.drop_last();
        let d = stack.last();
        let (acc2, dirs) = children_step(d.spec_children(), qs, now, acc);
        lemma_children_step_dirs_size(d.spec_children(), qs, now, acc);
        lemma_stack_size_concat(rest, dirs);
        lemma_stack_search_files(rest + dirs, qs, now, acc2);
        lemma_stack_files_concat(rest, dirs);
        lemma_children_step_files(d.spec_children(), qs, now, acc);
        vstd::seq_lib::lemma_multiset_commutative(stack_files(rest), stack_files(dirs));
        vstd::seq_lib::lemma_multiset_commutative(stack_files(rest), tree_files(d));
        assert(stack_search(stack, qs, now, acc) == stack_search(rest + dirs, qs, now, acc2));
        assert(stack_files(stack) == stack_files(rest) + tree_files(d));
        assert(entries_files(d.spec_children()) == tree_files(d));
        let m2 = acc2.0.to_multiset();
        let mr = stack_files(rest).to_multiset();
        let md = stack_files(dirs).to_multiset();
        let macc = acc.0.to_multiset();
        let mt = tree_files(d).to_multiset();
        assert(m2.add(md) =~= macc.add(mt));
        assert(m2.add(mr.add(md)) =~= macc.add(mr.add(mt))) by {
            assert forall|x: File| #[trigger] m2.add(mr.add(md)).count(x) == macc.add(mr.add(mt)).count(x) by {
                assert(m2.add(md).count(x) == macc.add(mt).count(x));
            }
        }
    }
}

proof fn lemma_add_unique_grows(acc: Seq<Seq<char>>, new: Seq<Seq<char>>)
    ensures
        add_unique(acc, new).len() >= acc.len(),
        new.len() > 0 ==> add_unique(acc, new).len() > 0,
    decreases new.len(),
{
    if new.len() > 0 {
        lemma_add_unique_grows(acc, new.drop_last());
        let before = add_unique(acc, new.drop_last());
        if before.contains(new.last()) {
            assert(before.len() > 0);
        }
    }
}

/// Where every file of the entries `s` answers some query, the recursive
/// search finds all of them, in order, and some query.
#[verifier::spinoff_prover]
#[verifier::rlimit(40)]
proof fn lemma_entries_search_all(s: Seq<Node>, qs: Seq<Seq<char>>, now: u64)
    requires
        all_files_answer(qs, entries_files(s), now),
    ensures
        entries_search(s, qs, now).0 == entries_files(s),
        entries_files(s).len() > 0 ==> entries_search(s, qs, now).1.len() > 0,
    decreases s,
{
    if s.len() > 0 {
        let pre = s.drop_last();
        lemma_entries_files_prefix_answer(s, qs, now);
        lemma_entries_search_all(pre, qs, now);
        let (n, q) = entries_search(pre, qs, now);
        match s.last() {
            Node::File(f) => {
                assert(entries_files(s) == entries_files(pre) + seq![f]);
                assert(entries_files(s)[entries_files(pre).len() as int] == f);
                let m = matched_queries(qs, f@, now);
                assert(m.len() > 0);
                lemma_add_unique_grows(q, m);
                assert(n.push(f) =~= entries_files(pre) + seq![f]);
            },
            Node::Dir(d) => {
                assert(entries_files(s) == entries_files(pre) + tree_files(d));
                assert forall|j: int| 0 <= j < tree_files(d).len() implies matched_queries(qs, #[trigger] tree_files(d)[j]@, now).len() > 0 by {
                    assert(entries_files(s)[entries_files(pre).len() + j] == tree_files(d)[j]);
                }
                lemma_tree_search_all(d, qs, now);
                let (dn, dq) = tree_search(d, qs, now);
                if dq.len() > 0 {
                    lemma_add_unique_grows(q, dq);
                } else {
                    assert(tree_files(d).len() == 0);
                    assert(entries_files(pre) + tree_files(d) =~= entries_files(pre));
                }
            },
        }
    } else {
        assert(entries_files(s) =~= Seq::<File>::empty());
    }
}

proof fn lemma_tree_search_all(d: Dir, qs: Seq<Seq<char>>, now: u64)
    requires
        all_files_answer(qs, tree_files(d), now),
    ensures
        tree_search(d, qs, now).0 == tree_files(d),
        tree_files(d).len() > 0 ==> tree_search(d, qs, now).1.len() > 0,
    decreases d,
{
    lemma_entries_search_all(d.spec_children(), qs, now);
}

proof fn lemma_entries_files_prefix_answer(s: Seq<Node>, qs: Seq<Seq<char>>, now: u64)
    requires
        s.len() > 0,
        all_files_answer(qs, entries_files(s), now),
    ensures
        all_files_answer(qs, entries_files(s.drop_last()), now),
{
    let pre = entries_files(s.drop_last());
    assert(entries_files(s) == pre + match s.last() {
        Node::File(f) => seq![f],
        Node::Dir(d) => tree_files(d),
    });
    assert forall|j: int| 0 <= j < pre.len() implies matched_queries(qs, #[trigger] pre[j]@, now).len() > 0 by {
        assert(entries_files(s)[j] == pre[j]);
    }
}

/// The queries of `qs` that some file of `files` answers at time `now`.
pub open spec fn answered_queries(qs: Seq<Seq<char>>, files: Seq<File>, now: u64) -> Set<Seq<char>>
    decreases files.len(),
{
    if files.len() == 0 {
        Set::empty()
    } else {
        answered_queries(qs, files.drop_last(), now).union(matched_queries(qs, files.last()@, now).to_set())
    }
}

proof fn lemma_answered_concat(qs: Seq<Seq<char>>, a: Seq<File>, b: Seq<File>, now: u64)
    ensures
        answered_queries(qs, a + b, now) == answered_queries(qs, a, now).union(answered_queries(qs, b, now)),
    decreases b.len(),
{
    if b.len() == 0 {
        assert(a + b =~= a);
        assert(answered_queries(qs, a, now).union(Set::empty()) =~= answered_queries(qs, a, now));
    } else {
        assert((a + b).drop_last() =~= a + b.drop_last());
        assert((a + b).last() == b.last());
        lemma_answered_concat(qs, a, b.drop_last(), now);
        let m = matched_queries(qs, b.last()@, now).to_set();
        assert(answered_queries(qs, a, now).union(answered_queries(qs, b.drop_last(), now)).union(m)
            =~= answered_queries(qs, a, now).union(answered_queries(qs, b.drop_last(), now).union(m)));
    }
}

proof fn lemma_answered_single(qs: Seq<Seq<char>>, f: File, now: u64)
    ensures
        answered_queries(qs, seq![f], now) == matched_queries(qs, f@, now).to_set(),
{
    assert(seq![f].drop_last() =~= Seq::<File>::empty());
    assert(seq![f].last() == f);
    assert(answered_queries(qs, Seq::<File>::empty(), now) == Set::<Seq<char>>::empty());
    assert(Set::<Seq<char>>::empty().union(matched_queries(qs, f@, now).to_set()) =~= matched_queries(qs, f@, now).to_set());
}

proof fn lemma_add_unique_set(acc: Seq<Seq<char>>, new: Seq<Seq<char>>)
    ensures
        add_unique(acc, new).to_set() == acc.to_set().union(new.to_set()),
    decreases new.len(),
{
    broadcast use vstd::seq_lib::group_seq_properties;
    if new.len() == 0 {
        assert(acc.to_set().union(new.to_set()) =~= acc.to_set());
    } else {
        lemma_add_unique_set(acc, new.drop_last());
        let before = add_unique(acc, new.drop_last());
        let x = new.last();
        assert(new.drop_last() + seq![x] =~= new);
        Seq::lemma_to_set_insert_commutes(new.drop_last(), x);
        if before.contains(x) {
            assert(before.to_set().contains(x));
            assert(acc.to_set().union(new.to_set()) =~= before.to_set());
        } else {
            assert(before + seq![x] =~= before.push(x));
            Seq::lemma_to_set_insert_commutes(before, x);
            assert(before.push(x).to_set() =~= acc.to_set().union(new.to_set()));
        }
    }
}

proof fn lemma_children_step_queries(s: Seq<Node>, qs: Seq<Seq<char>>, now: u64, acc: (Seq<File>, Seq<Seq<char>>))
    ensures
        children_step(s, qs, now, acc).0.1.to_set().union(
            answered_queries(qs, stack_files(children_step(s, qs, now, acc).1), now),
        ) == acc.1.to_set().union(answered_queries(qs, entries_files(s), now)),
    decreases s.len(),
{
    if s.len() == 0 {
        assert(stack_files(Seq::<Dir>::empty()) =~= Seq::<File>::empty());
        assert(entries_files(s) =~= Seq::<File>::empty());
        assert(acc.1.to_set().union(Set::empty()) =~= acc.1.to_set());
    } else {
        lemma_children_step_queries(s.drop_last(), qs, now, acc);
        let (a, ds) = children_step(s.drop_last(), qs, now, acc);
        let e = entries_files(s.drop_last());
        match s.last() {
            Node::File(f) => {
                assert(children_step(s, qs, now, acc) == ((a.0.push(f), add_unique(a.1, matched_queries(qs, f@, now))), ds));
                assert(entries_files(s) == e + seq![f]);
                lemma_answered_concat(qs, e, seq![f], now);
                lemma_answered_single(qs, f, now);
                lemma_add_unique_set(a.1, matched_queries(qs, f@, now));
                let m = matched_queries(qs, f@, now).to_set();
                let sd = answered_queries(qs, stack_files(ds), now);
                assert(a.1.to_set().union(m).union(sd) =~= a.1.to_set().union(sd).union(m));
                assert(acc.1.to_set().union(answered_queries(qs, e, now)).union(m) =~= acc.1.to_set().union(
                    answered_queries(qs, e, now).union(m),
                ));
            },
            Node::Dir(d) => {
                assert(children_step(s, qs, now, acc) == (a, ds.push(d)));
                assert(entries_files(s) == e + tree_files(d));
                assert(ds.push(d).drop_last() =~= ds);
                assert(ds.push(d).last() == d);
                assert(stack_files(ds.push(d)) == stack_files(ds) + tree_files(d));
                lemma_answered_concat(qs, stack_files(ds), tree_files(d), now);
                lemma_answered_concat(qs, e, tree_files(d), now);
                let t = answered_queries(qs, tree_files(d), now);
                let sd = answered_queries(qs, stack_files(ds), now);
                assert(a.1.to_set().union(sd.union(t)) =~= a.1.to_set().union(sd).union(t));
                assert(acc.1.to_set().union(answered_queries(qs, e, now).union(t)) =~= acc.1.to_set().union(
                    answered_queries(qs, e, now),
                ).union(t));
            },
        }
    }
}

proof fn lemma_stack_search_queries(stack: Seq<Dir>, qs: Seq<Seq<char>>, now: u64, acc: (Seq<File>, Seq<Seq<char>>))
    ensures
        stack_search(stack, qs, now, acc).1.to_set() == acc.1.to_set().union(
            answered_queries(qs, stack_files(stack), now),
        ),
    decreases stack_size(stack),
{
    if stack.len() == 0 {
        assert(stack_files(stack) =~= Seq::<File>::empty());
        assert(acc.1.to_set().union(Set::empty()) =~= acc.1.to_set());
    } else {
        let rest = stack.drop_last();
        let d = stack.last();
        let (acc2, dirs) = children_step(d.spec_children(), qs, now, acc);
        lemma_children_step_dirs_size(d.spec_children(), qs, now, acc);
        lemma_stack_size_concat(rest, dirs);
        lemma_stack_search_queries(rest + dirs, qs, now, acc2);
        lemma_stack_files_concat(rest, dirs);
        lemma_children_step_queries(d.spec_children(), qs, now, acc);
        lemma_answered_concat(qs, stack_files(rest), stack_files(dirs), now);
        lemma_answered_concat(qs, stack_files(rest), tree_files(d), now);
        assert(stack_search(stack, qs, now, acc) == stack_search(rest + dirs, qs, now, acc2));
        assert(stack_files(stack) == stack_files(rest) + tree_files(d));
        assert(entries_files(d.spec_children()) == tree_files(d));
        let q2 = acc2.1.to_set();
        let r = answered_queries(qs, stack_files(rest), now);
        let ds = answered_queries(qs, stack_files(dirs), now);
        let t = answered_queries(qs, tree_files(d), now);
        assert(q2.union(ds) == acc.1.to_set().union(t));
        assert(q2.union(r.union(ds)) =~= acc.1.to_set().union(r.union(t))) by {
            assert forall|x: Seq<char>| q2.union(r.union(ds)).contains(x) == acc.1.to_set().union(r.union(t)).contains(x) by {
                assert(q2.union(ds).contains(x) == acc.1.to_set().union(t).contains(x));
            }
        }
    }
}

#[verifier::spinoff_prover]
proof fn lemma_entries_search_queries(s: Seq<Node>, qs: Seq<Seq<char>>, now: u64)
    ensures
        entries_search(s, qs, now).1.to_set() == answered_queries(qs, entries_files(s), now),
    decreases s,
{
    broadcast use vstd::seq_lib::group_seq_properties;
    if s.len() == 0 {
        assert(entries_files(s) =~= Seq::<File>::empty());
        assert(Seq::<Seq<char>>::empty().to_set() =~= Set::<Seq<char>>::empty());
    } else {
        let pre = s.drop_last();
        lemma_entries_search_queries(pre, qs, now);
        let (n, q) = entries_search(pre, qs, now);
        let e = entries_files(pre);
        match s.last() {
            Node::File(f) => {
                assert(entries_files(s) == e + seq![f]);
                lemma_answered_concat(qs, e, seq![f], now);
                lemma_answered_single(qs, f, now);
                let m = matched_queries(qs, f@, now);
                if m.len() > 0 {
                    lemma_add_unique_set(q, m);
                } else {
                    assert(m.to_set() =~= Set::<Seq<char>>::empty());
                    assert(answered_queries(qs, e, now).union(m.to_set()) =~= answered_queries(qs, e, now));
                }
            },
            Node::Dir(d) => {
                assert(entries_files(s) == e + tree_files(d));
                lemma_answered_concat(qs, e, tree_files(d), now);
                lemma_tree_search_queries(d, qs, now);
                let (dn, dq) = tree_search(d, qs, now);
                if dq.len() > 0 {
                    lemma_add_unique_set(q, dq);
                } else {
                    assert(dq.to_set() =~= Set::<Seq<char>>::empty());
                    assert(answered_queries(qs, e, now).union(dq.to_set()) =~= answered_queries(qs, e, now));
                }
            },
        }
    }
}

proof fn lemma_tree_search_queries(d: Dir, qs: Seq<Seq<char>>, now: u64)
    ensures
        tree_search(d, qs, now).1.to_set() == answered_queries(qs, tree_files(d), now),
    decreases d,
{
    lemma_entries_search_queries(d.spec_children(), qs, now);
}

/// Adding queries to a list without repeats keeps it without repeats.
proof fn lemma_add_unique_no_dup(acc: Seq<Seq<char>>, new: Seq<Seq<char>>)
    requires
        acc.no_duplicates(),
    ensures
        add_unique(acc, new).no_duplicates(),
    decreases new.len(),
{
    if new.len() > 0 {
        lemma_add_unique_no_dup(acc, new.drop_last());
        let before = add_unique(acc, new.drop_last());
        if !before.contains(new.last()) {
            let after = before.push(new.last());
            assert forall|i: int, j: int| 0 <= i < after.len() && 0 <= j < after.len() && i != j
                implies after[i] != after[j] by {
                if i == before.len() {
                    assert(before[j] != new.last());
                } else if j == before.len() {
                    assert(before[i] != new.last());
                }
            }
        }
    }
}

proof fn lemma_entries_search_no_dup(s: Seq<Node>, qs: Seq<Seq<char>>, now: u64)
    ensures
        entries_search(s, qs, now).1.no_duplicates(),
    decreases s,
{
    if s.len() > 0 {
        lemma_entries_search_no_dup(s.drop_last(), qs, now);
        let (n, q) = entries_search(s.drop_last(), qs, now);
        match s.last() {
            Node::File(f) => {
                lemma_add_unique_no_dup(q, matched_queries(qs, f@, now));
            },
            Node::Dir(d) => {
                lemma_add_unique_no_dup(q, tree_search(d, qs, now).1);
            },
        }
    }
}

proof fn lemma_children_step_no_dup(
    s: Seq<Node>,
    qs: Seq<Seq<char>>,
    now: u64,
    acc: (Seq<File>, Seq<Seq<char>>),
)
    requires
        acc.1.no_duplicates(),
    ensures
        children_step(s, qs, now, acc).0.1.no_duplicates(),
    decreases s.len(),
{
    if s.len() > 0 {
        lemma_children_step_no_dup(s.drop_last(), qs, now, acc);
        let (a, ds) = children_step(s.drop_last(), qs, now, acc);
        match s.last() {
            Node::File(f) => {
                lemma_add_unique_no_dup(a.1, matched_queries(qs, f@, now));
            },
            Node::Dir(d) => {},
        }
    }
}

proof fn lemma_stack_search_no_dup(
    stack: Seq<Dir>,
    qs: Seq<Seq<char>>,
    now: u64,
    acc: (Seq<File>, Seq<Seq<char>>),
)
    requires
        acc.1.no_duplicates(),
    ensures
        stack_search(stack, qs, now, acc).1.no_duplicates(),
    decreases stack_size(stack),
{
    if stack.len() > 0 {
        let (acc2, dirs) = children_step(stack.last().spec_children(), qs, now, acc);
        lemma_children_step_dirs_size(stack.last().spec_children(), qs, now, acc);
        lemma_stack_size_concat(stack.drop_last(), dirs);
        lemma_children_step_no_dup(stack.last().spec_children(), qs, now, acc);
        lemma_stack_search_no_dup(stack.drop_last() + dirs, qs, now, acc2);
    }
}

/// Both searches report the same queries: those that some file of the tree
/// answers, each once.
pub proof fn lemma_searches_report_the_same_queries(root: Dir, qs: Seq<Seq<char>>, now: u64)
    ensures
        tree_search(root, qs, now).1.to_set() == answered_queries(qs, tree_files(root), now),
        stack_search(seq![root], qs, now, (Seq::empty(), Seq::empty())).1.to_set() == answered_queries(
            qs,
            tree_files(root),
            now,
        ),
        tree_search(root, qs, now).1.no_duplicates(),
        stack_search(seq![root], qs, now, (Seq::empty(), Seq::empty())).1.no_duplicates(),
{
    lemma_entries_search_no_dup(root.spec_children(), qs, now);
    lemma_stack_search_no_dup(seq![root], qs, now, (Seq::empty(), Seq::empty()));
    lemma_tree_search_queries(root, qs, now);
    lemma_stack_search_queries(seq![root], qs, now, (Seq::empty(), Seq::empty()));
    assert(seq![root].drop_last() =~= Seq::<Dir>::empty());
    assert(stack_files(seq![root]) =~= tree_files(root)) by {
        assert(stack_files(Seq::<Dir>::empty()) =~= Seq::<File>::empty());
    }
    assert(Seq::<Seq<char>>::empty().to_set().union(answered_queries(qs, tree_files(root), now)) =~= answered_queries(
        qs,
        tree_files(root),
        now,
    ));
}

/// Where every file answers some query, both searches succeed on the same
/// trees: the recursive search reports a query exactly when the iterative
/// search finds a file, that is, exactly when the tree holds a file.
pub proof fn lemma_searches_succeed_together(root: Dir, qs: Seq<Seq<char>>, now: u64)
    requires
        all_files_answer(qs, tree_files(root), now),
    ensures
        (tree_search(root, qs, now).1.len() == 0) == (tree_files(root).len() == 0),
        (stack_search(seq![root], qs, now, (Seq::empty(), Seq::empty())).0.len() == 0) == (
        tree_files(root).len() == 0),
{
    broadcast use vstd::seq_lib::group_to_multiset_ensures, vstd::multiset::group_multiset_axioms;
    lemma_searches_find_the_same_files(root, qs, now);
    lemma_searches_report_the_same_queries(root, qs, now);
    let files = tree_files(root);
    let found = tree_search(root, qs, now).1;
    let nodes = stack_search(seq![root], qs, now, (Seq::empty(), Seq::empty())).0;
    assert(nodes.to_multiset().len() == nodes.len());
    assert(files.to_multiset().len() == files.len());
    if files.len() == 0 {
        assert(answered_queries(qs, files, now) == Set::<Seq<char>>::empty());
        if found.len() > 0 {
            assert(found.to_set().contains(found[0]));
        }
    } else {
        let f = files.last();
        assert(matched_queries(qs, files[files.len() - 1]@, now).len() > 0);
        let m = matched_queries(qs, f@, now);
        assert(m.to_set().contains(m[0]));
        assert(answered_queries(qs, files, now).contains(m[0]));
        if found.len() == 0 {
            assert(found.to_set().contains(m[0]));
        }
    }
}

/// Where every file answers some query, both searches find every file of
/// the tree: the recursive search in the order of the tree, the iterative
/// search in another order.
pub proof fn lemma_searches_find_the_same_files(root: Dir, qs: Seq<Seq<char>>, now: u64)
    requires
        all_files_answer(qs, tree_files(root), now),
    ensures
        tree_search(root, qs, now).0 == tree_files(root),
        stack_search(seq![root], qs, now, (Seq::empty(), Seq::empty())).0.to_multiset() == tree_files(
            root,
        ).to_multiset(),
{
    broadcast use vstd::seq_lib::group_to_multiset_ensures, vstd::multiset::group_multiset_axioms;
    lemma_tree_search_all(root, qs, now);
    lemma_stack_search_files(seq![root], qs, now, (Seq::empty(), Seq::empty()));
    assert(seq![root].drop_last() =~= Seq::<Dir>::empty());
    assert(stack_files(seq![root]) =~= tree_files(root)) by {
        assert(stack_files(Seq::<Dir>::empty()) =~= Seq::<File>::empty());
    }
    assert(Seq::<File>::empty().to_multiset().add(tree_files(root).to_multiset()) =~= tree_files(root).to_multiset());
}

/// The directories that a sequence of references points to.
pub open spec fn deref_dirs(s: Seq<&Dir>) -> Seq<Dir> {
    s.map_values(|d: &Dir| *d)
}

/// Whether every file of `files` answers some query of `qs` at time `now`.
pub open spec fn all_files_answer(qs: Seq<Seq<char>>, files: Seq<File>, now: u64) -> bool {
    forall|j: int| 0 <= j < files.len() ==> matched_queries(qs, #[trigger] files[j]@, now).len() > 0
}

/// The files of a subtree are files of the tree.
proof fn lemma_subtree_files(d: Dir, i: int, k: int)
    requires
        0 <= i < d.spec_children().len(),
        d.spec_children()[i] is Dir,
        0 <= k < tree_files(d.spec_children()[i]->Dir_0).len(),
    ensures
        tree_files(d).contains(tree_files(d.spec_children()[i]->Dir_0)[k]),
{
    lemma_entries_files_single(d.spec_children()[i]);
    lemma_entry_files_within(d.spec_children(), i, k);
}

/// A file entry of a directory is a file of its tree.
proof fn lemma_child_file(d: Dir, i: int)
    requires
        0 <= i < d.spec_children().len(),
        d.spec_children()[i] is File,
    ensures
        tree_files(d).contains(d.spec_children()[i]->File_0),
{
    lemma_entries_files_single(d.spec_children()[i]);
    lemma_entry_files_within(d.spec_children(), i, 0);
}

impl Dir {
    /// Whether every file of this tree answers some query of `queries` at
    /// time `now`.
    fn all_files_answer_at(&self, queries: &[&str], now: u64) -> (r: bool)
        requires
            queries_defined_on(queries@, tree_files(*self)),
        ensures
            r == all_files_answer(texts(queries@), tree_files(*self), now),
        decreases self,
    {
        let mut i: usize = 0;
        while i < self.children.len()
            invariant
                i <= self.children@.len(),
                queries_defined_on(queries@, tree_files(*self)),
                all_files_answer(texts(queries@), entries_files(self.children@.subrange(0, i as int)), now),
            decreases self.children@.len() - i,
        {
            let ghost pre = self.children@.subrange(0, i as int);
            proof {
                assert(self.children@.subrange(0, i + 1).drop_last() =~= pre);
                assert(self.children@.subrange(0, i + 1).last() == self.children@[i as int]);
            }
            match &self.children[i] {
                Node::File(file) => {
                    proof {
                        lemma_child_file(*self, i as int);
                        assert forall|k: int| 0 <= k < queries@.len() implies query_defined(#[trigger] queries@[k]@, file@) by {
                            let w = choose|w: int| 0 <= w < tree_files(*self).len() && tree_files(*self)[w] == *file;
                            assert(query_defined(queries@[k]@, tree_files(*self)[w]@));
                        }
                    }
                    if MatchResult::check_at(queries, file, now).is_none() {
                        proof {
                            lemma_child_file(*self, i as int);
                            let w = choose|w: int| 0 <= w < tree_files(*self).len() && tree_files(*self)[w] == *file;
                            assert(matched_queries(texts(queries@), tree_files(*self)[w]@, now).len() == 0);
                        }
                        return false;
                    }
                    proof {
                        let e = entries_files(self.children@.subrange(0, i + 1));
                        assert(e =~= entries_files(pre).push(*file));
                        assert forall|j: int| 0 <= j < e.len() implies matched_queries(texts(queries@), #[trigger] e[j]@, now).len() > 0 by {
                            if j < e.len() - 1 {
                                assert(e[j] == entries_files(pre)[j]);
                            }
                        }
                    }
                },
                Node::Dir(dir) => {
                    proof {
                        assert forall|a: int, b: int|
                            0 <= a < queries@.len() && 0 <= b < tree_files(*dir).len()
                            implies query_defined(#[trigger] queries@[a]@, #[trigger] tree_files(*dir)[b]@) by {
                            lemma_subtree_files(*self, i as int, b);
                            let w = choose|w: int| 0 <= w < tree_files(*self).len() && tree_files(*self)[w] == tree_files(*dir)[b];
                            assert(query_defined(queries@[a]@, tree_files(*self)[w]@));
                        }
                    }
                    if !dir.all_files_answer_at(queries, now) {
                        proof {
                            let b = choose|b: int| 0 <= b < tree_files(*dir).len() && !(matched_queries(texts(queries@), #[trigger] tree_files(*dir)[b]@, now).len() > 0);
                            lemma_subtree_files(*self, i as int, b);
                            let w = choose|w: int| 0 <= w < tree_files(*self).len() && tree_files(*self)[w] == tree_files(*dir)[b];
                            assert(matched_queries(texts(queries@), tree_files(*self)[w]@, now).len() == 0);
                        }
                        return false;
                    }
                    proof {
                        let e = entries_files(self.children@.subrange(0, i + 1));
                        assert(e =~= entries_files(pre) + tree_files(*dir));
                        assert forall|j: int| 0 <= j < e.len() implies matched_queries(texts(queries@), #[trigger] e[j]@, now).len() > 0 by {
                            if j < entries_files(pre).len() {
                                assert(e[j] == entries_files(pre)[j]);
                            } else {
                                assert(e[j] == tree_files(*dir)[j - entries_files(pre).len()]);
                            }
                        }
                    }
                },
            }
            i = i + 1;
        }
        assert(self.children@.subrange(0, i as int) =~= self.children@);
        true
    }
}

/// Whether the query `q` can be put to the file `f`.
fn query_defined_at(q: &str, f: &File) -> (r: bool)
    ensures
        r == query_defined(q@, f@),
{
    let (head, arg) = query_parts(q);
    let name_w: [char; 4] = ['n', 'a', 'm', 'e'];
    let content_w: [char; 7] = ['c', 'o', 'n', 't', 'e', 'n', 't'];
    let larger_w: [char; 6] = ['l', 'a', 'r', 'g', 'e', 'r'];
    let smaller_w: [char; 7] = ['s', 'm', 'a', 'l', 'l', 'e', 'r'];
    proof {
        assert(name_w@ =~= word_name());
        assert(content_w@ =~= word_content());
        assert(larger_w@ =~= word_larger());
        assert(smaller_w@ =~= word_smaller());
    }
    if is_word(&head, &name_w) {
        arg.is_some()
    } else if is_word(&head, &content_w) {
        if f.type_ == FileType::Text {
            utf8_text(f.content.as_slice()).is_some() && arg.is_some()
        } else {
            true
        }
    } else if is_word(&head, &larger_w) || is_word(&head, &smaller_w) {
        match arg {
            Some(a) => parse_usize_chars(&a).is_some(),
            None => false,
        }
    } else {
        true
    }
}

/// Whether every query of `queries` can be put to `f`.
fn queries_defined_for(queries: &[&str], f: &File) -> (r: bool)
    ensures
        r == forall|k: int| 0 <= k < queries@.len() ==> query_defined(#[trigger] queries@[k]@, f@),
{
    let mut k: usize = 0;
    while k < queries.len()
        invariant
            k <= queries@.len(),
            forall|j: int| 0 <= j < k ==> query_defined(#[trigger] queries@[j]@, f@),
        decreases queries@.len() - k,
    {
        if !query_defined_at(queries[k], f) {
            return false;
        }
        k = k + 1;
    }
    true
}

impl Dir {
    /// Whether every query of `queries` can be put to every file of this
    /// tree.
    fn queries_defined_here(&self, queries: &[&str]) -> (r: bool)
        ensures
            r == queries_defined_on(queries@, tree_files(*self)),
        decreases self,
    {
        let mut i: usize = 0;
        while i < self.children.len()
            invariant
                i <= self.children@.len(),
                queries_defined_on(queries@, entries_files(self.children@.subrange(0, i as int))),
            decreases self.children@.len() - i,
        {
            let ghost pre = self.children@.subrange(0, i as int);
            proof {
                assert(self.children@.subrange(0, i + 1).drop_last() =~= pre);
                assert(self.children@.subrange(0, i + 1).last() == self.children@[i as int]);
            }
            match &self.children[i] {
                Node::File(file) => {
                    if !queries_defined_for(queries, file) {
                        proof {
                            lemma_child_file(*self, i as int);
                            let w = choose|w: int| 0 <= w < tree_files(*self).len() && tree_files(*self)[w] == *file;
                            let k = choose|k: int| 0 <= k < queries@.len() && !query_defined(#[trigger] queries@[k]@, file@);
                            assert(!query_defined(queries@[k]@, tree_files(*self)[w]@));
                        }
                        return false;
                    }
                    proof {
                        let e = entries_files(self.children@.subrange(0, i + 1));
                        assert(e =~= entries_files(pre).push(*file));
                        assert forall|a: int, b: int| 0 <= a < queries@.len() && 0 <= b < e.len()
                            implies query_defined(#[trigger] queries@[a]@, #[trigger] e[b]@) by {
                            if b < e.len() - 1 {
                                assert(e[b] == entries_files(pre)[b]);
                            }
                        }
                    }
                },
                Node::Dir(dir) => {
                    if !dir.queries_defined_here(queries) {
                        proof {
                            let (a, b) = choose|a: int, b: int| 0 <= a < queries@.len() && 0 <= b < tree_files(*dir).len()
                                && !query_defined(#[trigger] queries@[a]@, #[trigger] tree_files(*dir)[b]@);
                            lemma_subtree_files(*self, i as int, b);
                            let w = choose|w: int| 0 <= w < tree_files(*self).len() && tree_files(*self)[w] == tree_files(*dir)[b];
                            assert(!query_defined(queries@[a]@, tree_files(*self)[w]@));
                        }
                        return false;
                    }
                    proof {
                        let e = entries_files(self.children@.subrange(0, i + 1));
                        assert(e =~= entries_files(pre) + tree_files(*dir));
                        assert forall|a: int, b: int| 0 <= a < queries@.len() && 0 <= b < e.len()
                            implies query_defined(#[trigger] queries@[a]@, #[trigger] e[b]@) by {
                            if b < entries_files(pre).len() {
                                assert(e[b] == entries_files(pre)[b]);
                            } else {
                                assert(e[b] == tree_files(*dir)[b - entries_files(pre).len()]);
                            }
                        }
                    }
                },
            }
            i = i + 1;
        }
        assert(self.children@.subrange(0, i as int) =~= self.children@);
        true
    }
}

/// The position of the first entry of `s` named `name`, if there is one.
pub open spec fn first_named(s: Seq<Node>, name: Seq<char>) -> Option<int> {
    if exists|i: int| 0 <= i < s.len() && #[trigger] s[i].spec_name() == name {
        Some(choose|i: int| 0 <= i < s.len() && #[trigger] s[i].spec_name() == name
            && forall|j: int| 0 <= j < i ==> #[trigger] s[j].spec_name() != name)
    } else {
        None
    }
}

proof fn lemma_first_named(s: Seq<Node>, name: Seq<char>, i: int)
    requires
        0 <= i < s.len(),
        s[i].spec_name() == name,
        forall|j: int| 0 <= j < i ==> #[trigger] s[j].spec_name() != name,
    ensures
        first_named(s, name) == Some(i),
{
    let k = choose|k: int| 0 <= k < s.len() && #[trigger] s[k].spec_name() == name
        && forall|j: int| 0 <= j < k ==> #[trigger] s[j].spec_name() != name;
    assert(0 <= k < s.len() && s[k].spec_name() == name && forall|j: int| 0 <= j < k ==> #[trigger] s[j].spec_name() != name) by {
        assert(0 <= i < s.len() && s[i].spec_name() == name && forall|j: int| 0 <= j < i ==> #[trigger] s[j].spec_name() != name);
    }
    if k < i {
        assert(s[k].spec_name() != name);
    }
    if i < k {
        assert(s[i].spec_name() != name);
    }
}

/// A file system: a tree under a root directory.
#[derive(Debug)]
pub struct FileSystem {
    root: Dir,
}

/// The pieces of `s` split at `sep`, as `str::split` gives them.
fn split_str<'a>(s: &'a str, sep: char) -> (r: Vec<&'a str>)
    ensures
        r@.len() >= 1,
{
    let n = s.unicode_len();
    let mut pieces: Vec<&'a str> = Vec::new();
    let mut start: usize = 0;
    let mut i: usize = 0;
    while i < n
        invariant
            n == s@.len(),
            start <= i <= n,
        decreases n - i,
    {
        if s.get_char(i) == sep {
            pieces.push(s.substring_char(start, i));
            start = i + 1;
        }
        i = i + 1;
    }
    pieces.push(s.substring_char(start, n));
    pieces
}

impl FileSystem {
    /// The root directory.
    pub closed spec fn spec_root(&self) -> Dir {
        self.root
    }

    /// The steps of `path` to walk from the root. The pieces of `path`
    /// between its `/` are taken off one by one, the last one first, until
    /// none is left: no step remains.
    pub fn get_path(path: &str) -> (r: Vec<&str>)
        ensures
            r@.len() == 0,
    {
        let mut queue = split_str(path, '/');
        queue.pop();
        while queue.len() > 0
            decreases queue@.len(),
        {
            queue.pop();
        }
        queue
    }

    /// Whether every query of `queries` can be put to every file of the
    /// tree, as the searches need.
    pub fn queries_defined(&self, queries: &[&str]) -> (r: bool)
        ensures
            r == queries_defined_on(queries@, tree_files(self.spec_root())),
    {
        self.root.queries_defined_here(queries)
    }

    /// Whether the root has an entry named `path_name`, as `rm_dir` and
    /// `rm_file` need.
    pub fn has_entry(&self, path_name: &str) -> (r: bool)
        ensures
            r == exists|i: int|
                0 <= i < self.spec_root().spec_children().len()
                    && #[trigger] self.spec_root().spec_children()[i].spec_name() == path_name@,
    {
        let name = path_name.to_owned();
        assert(name@ == path_name@);
        match self.root.get_index_by_name(&name) {
            Some(i) => {
                assert(self.spec_root().spec_children()[i as int].spec_name() == path_name@);
                true
            },
            None => {
                assert(forall|j: int| 0 <= j < self.spec_root().spec_children().len()
                    ==> #[trigger] self.spec_root().spec_children()[j].spec_name() != path_name@);
                false
            },
        }
    }

    /// Whether every file of the tree answers some query of `queries` at
    /// time `now`, as `search_at` needs.
    pub fn every_file_answers(&self, queries: &[&str], now: u64) -> (r: bool)
        requires
            queries_defined_on(queries@, tree_files(self.spec_root())),
        ensures
            r == all_files_answer(texts(queries@), tree_files(self.spec_root()), now),
    {
        self.root.all_files_answer_at(queries, now)
    }

    /// A file system with an empty root directory.
    pub fn new() -> (fs: Self)
        ensures
            fs.spec_root().spec_name() == Seq::<char>::empty(),
            fs.spec_root().spec_creation_time() == 0,
            fs.spec_root().spec_children() == Seq::<Node>::empty(),
    {
        FileSystem { root: Dir::default() }
    }

    /// The file system rooted at the directory `root`.
    pub fn from_dir(root: Dir) -> (fs: Self)
        ensures
            fs.spec_root() == root,
    {
        Self { root }
    }

    /// Adds the directory `created_dir`, made at `path_name`, to the root:
    /// the walk over the steps of `path_name` (see `get_path`) stays at the
    /// root.
    pub fn mk_dir<'a>(&mut self, path_name: &'a str, created_dir: Dir) -> (r: &'a str)
        ensures
            r@ == path_name@,
            final(self).spec_root().spec_name() == old(self).spec_root().spec_name(),
            final(self).spec_root().spec_creation_time() == old(self).spec_root().spec_creation_time(),
            final(self).spec_root().spec_children() == old(self).spec_root().spec_children().push(
                Node::Dir(created_dir),
            ),
    {
        let steps = Self::get_path(path_name);
        assert(steps@.len() == 0);
        self.root.children.push(Node::Dir(created_dir));
        path_name
    }

    /// Removes from the root the first entry named `path_name`, which must
    /// be there.
    pub fn rm_dir<'a>(&mut self, path_name: &'a str) -> (r: &'a str)
        requires
            exists|i: int|
                0 <= i < old(self).spec_root().spec_children().len()
                    && #[trigger] old(self).spec_root().spec_children()[i].spec_name() == path_name@,
        ensures
            r@ == path_name@,
            Self::removed_first_named(*old(self), *final(self), path_name@),
    {
        self.remove_named(path_name);
        path_name
    }

    /// Removes from the root the first entry named `path_name`, which must
    /// be there.
    pub fn rm_file<'a>(&mut self, path_name: &'a str) -> (r: &'a str)
        requires
            exists|i: int|
                0 <= i < old(self).spec_root().spec_children().len()
                    && #[trigger] old(self).spec_root().spec_children()[i].spec_name() == path_name@,
        ensures
            r@ == path_name@,
            Self::removed_first_named(*old(self), *final(self), path_name@),
    {
        self.remove_named(path_name);
        path_name
    }

    /// `after` is `before` without the first entry of its root named `name`.
    pub open spec fn removed_first_named(before: Self, after: Self, name: Seq<char>) -> bool {
        exists|i: int|
            0 <= i < before.spec_root().spec_children().len()
                && before.spec_root().spec_children()[i].spec_name() == name
                && (forall|j: int| 0 <= j < i ==> #[trigger] before.spec_root().spec_children()[j].spec_name() != name)
                && after.spec_root().spec_children() == before.spec_root().spec_children().remove(i)
                && after.spec_root().spec_name() == before.spec_root().spec_name()
                && after.spec_root().spec_creation_time() == before.spec_root().spec_creation_time()
    }

    fn remove_named(&mut self, path_name: &str)
        requires
            exists|i: int|
                0 <= i < old(self).spec_root().spec_children().len()
                    && #[trigger] old(self).spec_root().spec_children()[i].spec_name() == path_name@,
        ensures
            Self::removed_first_named(*old(self), *final(self), path_name@),
    {
        let steps = Self::get_path(path_name);
        assert(steps@.len() == 0);
        let name = path_name.to_owned();
        match self.root.get_index_by_name(&name) {
            Some(index) => {
                self.root.children.remove(index);
            },
            None => {
                proof {
                    let i = choose|i: int|
                        0 <= i < old(self).spec_root().spec_children().len()
                            && #[trigger] old(self).spec_root().spec_children()[i].spec_name() == path_name@;
                    assert(self.root.children@[i].spec_name() != name@);
                }
            },
        }
    }

    /// Adds the file `file`, found at `path_name`, to the root.
    pub fn new_file<'a>(&mut self, path_name: &'a str, file: File) -> (r: &'a str)
        ensures
            r@ == path_name@,
            final(self).spec_root().spec_name() == old(self).spec_root().spec_name(),
            final(self).spec_root().spec_creation_time() == old(self).spec_root().spec_creation_time(),
            final(self).spec_root().spec_children() == old(self).spec_root().spec_children().push(
                Node::File(file),
            ),
    {
        let steps = Self::get_path(path_name);
        assert(steps@.len() == 0);
        self.root.children.push(Node::File(file));
        path_name
    }

    /// The file of the first entry of the root named `path_name`, or `None`
    /// when there is no such entry or it is a directory.
    pub fn get_file(&mut self, path_name: &str) -> (r: Option<&mut File>)
        ensures
            r is Some ==> first_named(old(self).spec_root().spec_children(), path_name@) is Some,
            r matches Some(f) ==> old(self).spec_root().spec_children()[first_named(
                old(self).spec_root().spec_children(),
                path_name@,
            ).unwrap()] == Node::File(*f),
            r matches Some(f) ==> final(self).spec_root().spec_children() == old(
                self,
            ).spec_root().spec_children().update(
                first_named(old(self).spec_root().spec_children(), path_name@).unwrap(),
                Node::File(*final(f)),
            ),
            r is None ==> match first_named(old(self).spec_root().spec_children(), path_name@) {
                Some(i) => old(self).spec_root().spec_children()[i] is Dir,
                None => true,
            },
            r is None ==> final(self).spec_root().spec_children() == old(self).spec_root().spec_children(),
            final(self).spec_root().spec_name() == old(self).spec_root().spec_name(),
            final(self).spec_root().spec_creation_time() == old(self).spec_root().spec_creation_time(),
    {
        let steps = Self::get_path(path_name);
        assert(steps@.len() == 0);
        let name = path_name.to_owned();
        match self.root.get_index_by_name(&name) {
            None => {
                proof {
                    if first_named(self.root.children@, path_name@) is Some {
                        let i = choose|i: int| 0 <= i < self.root.children@.len() && #[trigger] self.root.children@[i].spec_name() == path_name@;
                        assert(self.root.children@[i].spec_name() != name@);
                    }
                }
                None
            },
            Some(index) => {
                proof {
                    lemma_first_named(self.root.children@, path_name@, index as int);
                }
                self.root.child_file_mut(index)
            },
        }
    }

    /// Every file of the tree, found by the iterative walk of
    /// `stack_search`, with the queries of `queries` that it answers at time
    /// `now`; `None` when the tree has no file. Every file must answer some
    /// query.
    pub fn search_at<'a>(&'a self, queries: &'a [&'a str], now: u64) -> (r: Option<MatchResult<'a, 'a>>)
        requires
            queries_defined_on(queries@, tree_files(self.spec_root())),
            all_files_answer(texts(queries@), tree_files(self.spec_root()), now),
        ensures
            ({
                let (nodes, qs) = stack_search(seq![self.spec_root()], texts(queries@), now, (Seq::empty(), Seq::empty()));
                match r {
                    Some(m) => deref_files(m.nodes@) == nodes && texts(m.queries@) == qs && nodes.len() > 0,
                    None => nodes.len() == 0,
                }
            }),
    {
        let ghost qs = texts(queries@);
        let ghost root = self.root;
        let ghost goal = stack_search(seq![root], qs, now, (Seq::<File>::empty(), Seq::<Seq<char>>::empty()));
        let mut results = MatchResult { queries: Vec::new(), nodes: Vec::new() };
        let mut dir_queue: Vec<&Dir> = Vec::new();
        dir_queue.push(&self.root);
        proof {
            assert(deref_dirs(dir_queue@) =~= seq![root]);
            assert(deref_files(results.nodes@) =~= Seq::<File>::empty());
            assert(texts(results.queries@) =~= Seq::<Seq<char>>::empty());
        }
        while dir_queue.len() > 0
            invariant
                qs == texts(queries@),
                root == self.root,
                goal == stack_search(seq![root], qs, now, (Seq::<File>::empty(), Seq::<Seq<char>>::empty())),
                queries_defined_on(queries@, tree_files(root)),
                all_files_answer(qs, tree_files(root), now),
                forall|a: int, k: int| 0 <= a < dir_queue@.len() && 0 <= k < tree_files(*dir_queue@[a]).len()
                    ==> #[trigger] tree_files(root).contains(#[trigger] tree_files(*dir_queue@[a])[k]),
                stack_search(deref_dirs(dir_queue@), qs, now, (deref_files(results.nodes@), texts(results.queries@))) == goal,
            decreases stack_size(deref_dirs(dir_queue@)),
        {
            let ghost st0 = deref_dirs(dir_queue@);
            let ghost qv0 = dir_queue@;
            let ghost acc0 = (deref_files(results.nodes@), texts(results.queries@));
            let dir = dir_queue.pop().unwrap();
            proof {
                assert(deref_dirs(dir_queue@) =~= st0.drop_last());
                assert(st0.last() == *dir);
                lemma_children_step_dirs_size(dir.children@, qs, now, acc0);
                lemma_stack_size_concat(st0.drop_last(), children_step(dir.children@, qs, now, acc0).1);
            }
            let ghost base = deref_dirs(dir_queue@);
            let ghost dfiles = tree_files(*dir);
            proof {
                assert forall|k: int| 0 <= k < dfiles.len() implies #[trigger] tree_files(root).contains(dfiles[k]) by {
                    let a = qv0.len() - 1;
                    assert(*qv0[a] == *dir);
                    assert(tree_files(root).contains(tree_files(*qv0[a])[k]));
                }
            }
            let mut i: usize = 0;
            while i < dir.children.len()
                invariant
                    i <= dir.children@.len(),
                    qs == texts(queries@),
                    root == self.root,
                    dfiles == tree_files(*dir),
                    queries_defined_on(queries@, tree_files(root)),
                    all_files_answer(qs, tree_files(root), now),
                    forall|k: int| 0 <= k < dfiles.len() ==> #[trigger] tree_files(root).contains(dfiles[k]),
                    forall|a: int, k: int| 0 <= a < dir_queue@.len() && 0 <= k < tree_files(*dir_queue@[a]).len()
                        ==> #[trigger] tree_files(root).contains(#[trigger] tree_files(*dir_queue@[a])[k]),
                    ({
                        let (acc, ds) = children_step(dir.children@.subrange(0, i as int), qs, now, acc0);
                        &&& deref_files(results.nodes@) == acc.0
                        &&& texts(results.queries@) == acc.1
                        &&& deref_dirs(dir_queue@) == base + ds
                    }),
                decreases dir.children@.len() - i,
            {
                proof {
                    assert(dir.children@.subrange(0, i + 1).drop_last() =~= dir.children@.subrange(0, i as int));
                    assert(dir.children@.subrange(0, i + 1).last() == dir.children@[i as int]);
                }
                match &dir.children[i] {
                    Node::File(file) => {
                        proof {
                            lemma_child_file(*dir, i as int);
                            let w = choose|w: int| 0 <= w < dfiles.len() && dfiles[w] == *file;
                            assert(tree_files(root).contains(dfiles[w]));
                            let v = choose|v: int| 0 <= v < tree_files(root).len() && tree_files(root)[v] == *file;
                            assert forall|k: int| 0 <= k < queries@.len() implies query_defined(#[trigger] queries@[k]@, file@) by {
                                assert(query_defined(queries@[k]@, tree_files(root)[v]@));
                            }
                            assert(matched_queries(qs, tree_files(root)[v]@, now).len() > 0);
                        }
                        match MatchResult::check_at(queries, file, now) {
                            Some(q) => {
                                let ghost n0 = results.nodes@;
                                results.nodes.push(file);
                                assert(deref_files(results.nodes@) =~= deref_files(n0).push(*file));
                                add_unique_queries(&mut results.queries, &q);
                            },
                            None => {},
                        }
                    },
                    Node::Dir(sub) => {
                        let ghost q0 = dir_queue@;
                        dir_queue.push(sub);
                        proof {
                            assert(deref_dirs(dir_queue@) =~= deref_dirs(q0).push(*sub));
                            let (acc, ds) = children_step(dir.children@.subrange(0, i as int), qs, now, acc0);
                            assert(base + ds.push(*sub) =~= (base + ds).push(*sub));
                            assert forall|a: int, k: int| 0 <= a < dir_queue@.len() && 0 <= k < tree_files(*dir_queue@[a]).len()
                                implies #[trigger] tree_files(root).contains(#[trigger] tree_files(*dir_queue@[a])[k]) by {
                                if a == q0.len() {
                                    lemma_subtree_files(*dir, i as int, k);
                                    let w = choose|w: int| 0 <= w < dfiles.len() && dfiles[w] == tree_files(*sub)[k];
                                    assert(tree_files(root).contains(dfiles[w]));
                                } else {
                                    assert(dir_queue@[a] == q0[a]);
                                }
                            }
                        }
                    },
                }
                i = i + 1;
            }
            proof {
                assert(dir.children@.subrange(0, i as int) =~= dir.children@);
            }
        }
        proof {
            assert(deref_dirs(dir_queue@) =~= Seq::<Dir>::empty());
        }
        if results.nodes.len() > 0 {
            Some(results)
        } else {
            None
        }
    }

    /// The iterative search of `search_at` at the present time, read once for
    /// the whole search, where every file answers some query then; `None`
    /// where some file answers none (or there is no file).
    pub fn search<'a>(&'a self, queries: &'a [&'a str]) -> (r: Option<MatchResult<'a, 'a>>)
        requires
            queries_defined_on(queries@, tree_files(self.spec_root())),
        ensures
            exists|now: u64| #![trigger all_files_answer(texts(queries@), tree_files(self.spec_root()), now)] {
                let (nodes, qs) = stack_search(seq![self.spec_root()], texts(queries@), now, (Seq::empty(), Seq::empty()));
                if all_files_answer(texts(queries@), tree_files(self.spec_root()), now) {
                    match r {
                        Some(m) => deref_files(m.nodes@) == nodes && texts(m.queries@) == qs && nodes.len() > 0,
                        None => nodes.len() == 0,
                    }
                } else {
                    r is None
                }
            },
    {
        let now = now_millis();
        if self.root.all_files_answer_at(queries, now) {
            self.search_at(queries, now)
        } else {
            None
        }
    }

    /// Every file of the tree that answers some query of `queries` at time
    /// `now`, found by a recursive walk (see `tree_search`), or `None` when
    /// no file answers.
    pub fn search_r_at<'a>(&'a self, queries: &'a [&'a str], now: u64) -> (r: Option<MatchResult<'a, 'a>>)
        requires
            queries_defined_on(queries@, tree_files(self.spec_root())),
        ensures
            match r {
                Some(m) => deref_files(m.nodes@) == tree_search(self.spec_root(), texts(queries@), now).0
                    && texts(m.queries@) == tree_search(self.spec_root(), texts(queries@), now).1
                    && m.queries@.len() > 0,
                None => tree_search(self.spec_root(), texts(queries@), now).1.len() == 0,
            },
    {
        self.root.search_r_at(queries, now)
    }

    /// The recursive search of `search_r_at`, at the present time, which is
    /// read once for the whole search.
    pub fn search_r<'a>(&'a self, queries: &'a [&'a str]) -> (r: Option<MatchResult<'a, 'a>>)
        requires
            queries_defined_on(queries@, tree_files(self.spec_root())),
        ensures
            exists|now: u64| match r {
                Some(m) => deref_files(m.nodes@) == tree_search(self.spec_root(), texts(queries@), now).0
                    && texts(m.queries@) == tree_search(self.spec_root(), texts(queries@), now).1
                    && m.queries@.len() > 0,
                None => tree_search(self.spec_root(), texts(queries@), now).1.len() == 0,
            },
    {
        let now = now_millis();
        self.search_r_at(queries, now)
    }
}

impl vstd::std_specs::convert::FromSpecImpl<Dir> for FileSystem {
    open spec fn obeys_from_spec() -> bool {
        true
    }

    closed spec fn from_spec(v: Dir) -> Self {
        FileSystem { root: v }
    }
}

impl From<Dir> for FileSystem {
    /// The file system rooted at `value`.
    fn from(value: Dir) -> (fs: Self)
        ensures
            fs.spec_root() == value,
    {
        Self { root: value }
    }
}

} // verus!
