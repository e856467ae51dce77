//! Turning free text into a URL slug: accented letters lose their accent,
//! everything else that is not an ASCII letter or digit becomes a single
//! `-`, and no slug ends in `-`.
use vstd::prelude::*;
use vstd::string::*;
use crate::text::{chars_of, first_index_of, lemma_first_index, string_from_chars};

verus! {

/// The accented letters that the slug knows, lower case.
pub const SUBS_I: &'static str = "àáâäæãåāăąçćčđďèéêëēėęěğǵḧîïíīįìıİłḿñńǹňôöòóœøōõőṕŕřßśšşșťțûüùúūǘůűųẃẍÿýžźż";

/// The unaccented letter of each letter of `SUBS_I`, at the same position.
pub const SUBS_O: &'static str = "aaaaaaaaaacccddeeeeeeeegghiiiiiiiilmnnnnoooooooooprrsssssttuuuuuuuuuwxyyzzz";

/// What stands in a slug for a run of other characters.
pub const TRIMMER: char = '-';

/// `str::to_lowercase`: the lower-case form of a text, by the Unicode
/// lower-case mapping of each character.
pub uninterp spec fn lowercase(s: Seq<char>) -> Seq<char>;

/// `str::to_lowercase`. The contract names its result `lowercase(s@)`; the
/// Unicode tables that decide it are not restated. Claimed beyond the name:
/// the result holds no ASCII upper-case letter (each of them has a
/// lower-case mapping, and no lower-case mapping gives one).
#[verifier::external_body]
fn to_lowercase(s: &str) -> (r: String)
    ensures
        r@ == lowercase(s@),
        no_ascii_upper(r@),
{
    s.to_lowercase()
}

/// Whether `t` holds no ASCII upper-case letter.
pub open spec fn no_ascii_upper(t: Seq<char>) -> bool {
    forall|i: int| 0 <= i < t.len() ==> !('A' <= #[trigger] t[i] && t[i] <= 'Z')
}

/// Whether `c` is an ASCII letter or digit, as `char::is_ascii_alphanumeric`.
pub open spec fn is_ascii_alnum(c: char) -> bool {
    ('a' <= c && c <= 'z') || ('A' <= c && c <= 'Z') || ('0' <= c && c <= '9')
}

/// Whether `c` is one of the accented letters of `SUBS_I`.
pub open spec fn is_accented(c: char) -> bool {
    first_index_of(SUBS_I@, c) is Some
}

/// The unaccented form of an accented letter.
pub open spec fn unaccented(c: char) -> char {
    match first_index_of(SUBS_I@, c) {
        Some(i) => SUBS_O@[i],
        None => c,
    }
}

/// One step of the scan: the slug so far and whether a `-` may follow,
/// after the character `c`.
pub open spec fn scan_step(acc: (Seq<char>, bool), c: char) -> (Seq<char>, bool) {
    if is_ascii_alnum(c) {
        (acc.0.push(c), true)
    } else if is_accented(c) {
        (acc.0.push(unaccented(c)), true)
    } else if acc.1 {
        (acc.0.push(TRIMMER), false)
    } else {
        (acc.0, false)
    }
}

/// The scan of `t` from its left end: letters and digits are kept, accented
/// letters replaced, and each run of other characters gives one `-`.
pub open spec fn scan(t: Seq<char>) -> (Seq<char>, bool)
    decreases t.len(),
{
    if t.len() == 0 {
        (Seq::empty(), true)
    } else {
        scan_step(scan(t.drop_last()), t.last())
    }
}

/// The slug of an already lower-cased text: its scan without a final `-`.
pub open spec fn slug_text(t: Seq<char>) -> Seq<char> {
    let r = scan(t).0;
    if r.len() > 0 && r.last() == TRIMMER {
        r.drop_last()
    } else {
        r
    }
}

proof fn lemma_tables()
    ensures
        SUBS_I@.len() == 75,
        SUBS_O@.len() == 75,
        forall|i: int| 0 <= i < 75 ==> 'a' <= #[trigger] SUBS_O@[i] && SUBS_O@[i] <= 'z',
        forall|i: int| 0 <= i < 75 ==> (#[trigger] SUBS_I@[i] as u32) > 127,
{
    reveal_strlit("àáâäæãåāăąçćčđďèéêëēėęěğǵḧîïíīįìıİłḿñńǹňôöòóœøōõőṕŕřßśšşșťțûüùúūǘůűųẃẍÿýžźż");
    reveal_strlit("aaaaaaaaaacccddeeeeeeeegghiiiiiiiilmnnnnoooooooooprrsssssttuuuuuuuuuwxyyzzz");
}

/// Whether `r` has the shape of a slug: only ASCII letters, digits and `-`,
/// and never two `-` in a row.
pub open spec fn slug_chars(r: Seq<char>) -> bool {
    &&& forall|i: int| 0 <= i < r.len() ==> is_ascii_alnum(#[trigger] r[i]) || r[i] == TRIMMER
    &&& forall|i: int| 0 <= i < r.len() - 1 ==> !(#[trigger] r[i] == TRIMMER && r[i + 1] == TRIMMER)
}

proof fn lemma_scan_shape(t: Seq<char>)
    ensures
        slug_chars(scan(t).0),
        scan(t).1 <==> (scan(t).0.len() == 0 || scan(t).0.last() != TRIMMER),
    decreases t.len(),
{
    if t.len() > 0 {
        lemma_scan_shape(t.drop_last());
        lemma_tables();
        let prev = scan(t.drop_last());
        let c = t.last();
        let r = scan(t).0;
        if !is_ascii_alnum(c) && is_accented(c) {
            let i = first_index_of(SUBS_I@, c)->Some_0;
            assert(0 <= i < SUBS_I@.len() && SUBS_I@[i] == c);
            assert('a' <= SUBS_O@[i] && SUBS_O@[i] <= 'z');
        }
        assert forall|i: int| 0 <= i < r.len() implies is_ascii_alnum(#[trigger] r[i]) || r[i] == TRIMMER by {
            if i < prev.0.len() {
                assert(r[i] == prev.0[i]);
            }
        }
        assert forall|i: int| 0 <= i < r.len() - 1 implies !(#[trigger] r[i] == TRIMMER && r[i + 1] == TRIMMER) by {
            if i + 1 < prev.0.len() {
                assert(r[i] == prev.0[i] && r[i + 1] == prev.0[i + 1]);
            } else if i + 1 == prev.0.len() {
                assert(r[i] == prev.0.last());
            }
        }
    }
}

/// Every slug is made of ASCII letters, digits and `-`, never holds two `-`
/// in a row, and does not end in `-`.
pub proof fn lemma_slug_shape(t: Seq<char>)
    ensures
        slug_chars(slug_text(t)),
        slug_text(t).len() > 0 ==> slug_text(t).last() != TRIMMER,
{
    lemma_scan_shape(t);
    let r = scan(t).0;
    if r.len() > 0 && r.last() == TRIMMER {
        let s = r.drop_last();
        assert forall|i: int| 0 <= i < s.len() implies is_ascii_alnum(#[trigger] s[i]) || s[i] == TRIMMER by {
            assert(s[i] == r[i]);
        }
        assert forall|i: int| 0 <= i < s.len() - 1 implies !(#[trigger] s[i] == TRIMMER && s[i + 1] == TRIMMER) by {
            assert(s[i] == r[i] && s[i + 1] == r[i + 1]);
        }
        if s.len() > 0 {
            assert(s.last() == r[r.len() - 2]);
        }
    }
}

proof fn lemma_scan_of_slug(u: Seq<char>)
    requires
        slug_chars(u),
    ensures
        scan(u) == (u, u.len() == 0 || u.last() != TRIMMER),
    decreases u.len(),
{
    if u.len() > 0 {
        let p = u.drop_last();
        assert forall|i: int| 0 <= i < p.len() implies is_ascii_alnum(#[trigger] p[i]) || p[i] == TRIMMER by {
            assert(p[i] == u[i]);
        }
        assert forall|i: int| 0 <= i < p.len() - 1 implies !(#[trigger] p[i] == TRIMMER && p[i + 1] == TRIMMER) by {
            assert(p[i] == u[i] && p[i + 1] == u[i + 1]);
        }
        lemma_scan_of_slug(p);
        lemma_tables();
        let c = u.last();
        assert(is_ascii_alnum(u[u.len() - 1]) || u[u.len() - 1] == TRIMMER);
        if !is_ascii_alnum(c) {
            assert(c == TRIMMER);
            lemma_first_index(SUBS_I@, c, SUBS_I@.len() as int);
            if p.len() > 0 {
                assert(p.last() == u[u.len() - 2]);
            }
        }
        assert(p.push(c) =~= u);
    }
}

proof fn lemma_scan_lower(t: Seq<char>)
    requires
        no_ascii_upper(t),
    ensures
        no_ascii_upper(scan(t).0),
    decreases t.len(),
{
    if t.len() > 0 {
        let p = t.drop_last();
        assert forall|i: int| 0 <= i < p.len() implies !('A' <= #[trigger] p[i] && p[i] <= 'Z') by {
            assert(p[i] == t[i]);
        }
        lemma_scan_lower(p);
        lemma_tables();
        let prev = scan(p).0;
        let r = scan(t).0;
        let c = t.last();
        assert(!('A' <= t[t.len() - 1] && t[t.len() - 1] <= 'Z'));
        if !is_ascii_alnum(c) && is_accented(c) {
            let i = first_index_of(SUBS_I@, c)->Some_0;
            assert(0 <= i < SUBS_I@.len() && SUBS_I@[i] == c);
            assert('a' <= SUBS_O@[i] && SUBS_O@[i] <= 'z');
        }
        assert forall|i: int| 0 <= i < r.len() implies !('A' <= #[trigger] r[i] && r[i] <= 'Z') by {
            if i < prev.len() {
                assert(r[i] == prev[i]);
            }
        }
    }
}

/// The slug of a text without ASCII upper-case letters has none either.
pub proof fn lemma_slug_lower(t: Seq<char>)
    requires
        no_ascii_upper(t),
    ensures
        no_ascii_upper(slug_text(t)),
{
    lemma_scan_lower(t);
    let r = scan(t).0;
    if r.len() > 0 && r.last() == TRIMMER {
        let s = r.drop_last();
        assert forall|i: int| 0 <= i < s.len() implies !('A' <= #[trigger] s[i] && s[i] <= 'Z') by {
            assert(s[i] == r[i]);
        }
    }
}

/// The accented letters are all different.
proof fn lemma_accents_distinct()
    ensures
        forall|i: int, j: int| 0 <= i < j < SUBS_I@.len() ==> SUBS_I@[i] != SUBS_I@[j],
{
    reveal_strlit("àáâäæãåāăąçćčđďèéêëēėęěğǵḧîïíīįìıİłḿñńǹňôöòóœøōõőṕŕřßśšşșťțûüùúūǘůűųẃẍÿýžźż");
}

/// Each accented letter loses its accent in place: the letter at position
/// `i` of `SUBS_I` becomes the letter at position `i` of `SUBS_O`, and a
/// text of that one letter has that one letter as its slug.
pub proof fn lemma_accents_map_in_place(i: int)
    requires
        0 <= i < SUBS_I@.len(),
    ensures
        is_accented(SUBS_I@[i]),
        unaccented(SUBS_I@[i]) == SUBS_O@[i],
        slug_text(seq![SUBS_I@[i]]) == seq![SUBS_O@[i]],
{
    lemma_tables();
    lemma_accents_distinct();
    let c = SUBS_I@[i];
    assert forall|j: int| 0 <= j < i implies SUBS_I@[j] != c by {}
    lemma_first_index(SUBS_I@, c, i);
    assert(!is_ascii_alnum(c)) by {
        assert((SUBS_I@[i] as u32) > 127);
    }
    let t = seq![c];
    assert(t.drop_last() =~= Seq::<char>::empty());
    assert(scan(Seq::<char>::empty()) == (Seq::<char>::empty(), true));
    assert(t.last() == c);
    assert(scan(t) == (seq![SUBS_O@[i]], true)) by {
        assert(Seq::<char>::empty().push(SUBS_O@[i]) =~= seq![SUBS_O@[i]]);
    }
    assert('a' <= SUBS_O@[i] && SUBS_O@[i] <= 'z');
}

/// Letters and digits stay as they are: a text that already has the shape
/// of a slug (ASCII letters, digits and single `-`, not ending in `-`) is
/// its own slug.
pub proof fn lemma_slugs_are_fixed(u: Seq<char>)
    requires
        slug_chars(u),
        u.len() > 0 ==> u.last() != TRIMMER,
    ensures
        slug_text(u) == u,
{
    lemma_scan_of_slug(u);
}

/// A slug is its own slug: scanning it again changes nothing.
pub proof fn lemma_slug_idempotent(t: Seq<char>)
    ensures
        slug_text(slug_text(t)) == slug_text(t),
{
    lemma_slug_shape(t);
    lemma_scan_of_slug(slug_text(t));
}

/// The position of `c` in `SUBS_I`, if it is there.
fn find_custom(c: char) -> (r: Option<i32>)
    ensures
        match r {
            Some(i) => first_index_of(SUBS_I@, c) == Some(i as int),
            None => first_index_of(SUBS_I@, c) is None,
        },
{
    proof {
        lemma_tables();
    }
    let n = SUBS_I.unicode_len();
    let mut counter: usize = 0;
    while counter < n
        invariant
            n == SUBS_I@.len(),
            n == 75,
            counter <= n,
            forall|j: int| 0 <= j < counter ==> SUBS_I@[j] != c,
        decreases n - counter,
    {
        if SUBS_I.get_char(counter) == c {
            proof {
                lemma_first_index(SUBS_I@, c, counter as int);
            }
            return Some(counter as i32);
        }
        counter = counter + 1;
    }
    proof {
        lemma_first_index(SUBS_I@, c, n as int);
    }
    None
}

/// The unaccented form of the accented letter `c`.
fn conv(c: char) -> (r: char)
    requires
        is_accented(c),
    ensures
        r == unaccented(c),
{
    proof {
        lemma_tables();
    }
    let index = find_custom(c).unwrap() as usize;
    SUBS_O.get_char(index)
}

/// Whether `c` is an ASCII letter or digit.
fn ascii_alnum(c: char) -> (r: bool)
    ensures
        r == is_ascii_alnum(c),
{
    ('a' <= c && c <= 'z') || ('A' <= c && c <= 'Z') || ('0' <= c && c <= '9')
}

/// The slug of a text that is already in lower case: see `slug_text`.
pub fn slug_of_lowered(lowered: &str) -> (r: String)
    ensures
        r@ == slug_text(lowered@),
{
    let chars = chars_of(lowered);
    let mut result: Vec<char> = Vec::with_capacity(chars.len());
    let mut trimmer = true;
    let mut i: usize = 0;
    while i < chars.len()
        invariant
            chars@ == lowered@,
            i <= chars@.len(),
            (result@, trimmer) == scan(chars@.subrange(0, i as int)),
        decreases chars@.len() - i,
    {
        let c = chars[i];
        let ghost before = chars@.subrange(0, i as int);
        assert(chars@.subrange(0, i + 1).drop_last() =~= before);
        if ascii_alnum(c) {
            trimmer = true;
            result.push(c);
        } else if find_custom(c).is_some() {
            trimmer = true;
            result.push(conv(c));
        } else if trimmer {
            trimmer = false;
            result.push(TRIMMER);
        }
        i = i + 1;
    }
    assert(chars@.subrange(0, chars@.len() as int) =~= chars@);
    match result.pop() {
        Some(end_test) => {
            if end_test != TRIMMER {
                result.push(end_test);
            }
        },
        None => {},
    }
    proof {
        let full = scan(lowered@).0;
        if full.len() > 0 {
            assert(full.drop_last().push(full.last()) =~= full);
        }
    }
    string_from_chars(&result)
}

/// The slug of `s`: lower-cased, then as `slug_text` says. The empty text
/// gives the empty slug.
pub fn slugify(s: &str) -> (r: String)
    ensures
        s@.len() == 0 ==> r@ == Seq::<char>::empty(),
        s@.len() > 0 ==> r@ == slug_text(lowercase(s@)),
        slug_chars(r@),
        no_ascii_upper(r@),
        r@.len() > 0 ==> r@.last() != TRIMMER,
{
    if s.is_empty() {
        return String::new();
    }
    let lowered = to_lowercase(s);
    proof {
        lemma_slug_shape(lowered@);
        lemma_slug_lower(lowered@);
    }
    slug_of_lowered(lowered.as_str())
}

} // verus!
