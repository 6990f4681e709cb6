//! Character-sequence models and verified text helpers shared by the
//! converter and the markdown writer: anchor slugification, line splitting,
//! whitespace trimming, escape expansion and substring search.

use vstd::prelude::*;

verus! {

// ---------------------------------------------------------------------------
// Substring search and the copyright marker
// ---------------------------------------------------------------------------

/// `p` occurs in `s` starting at index `i`.
pub open spec fn seq_contains_at(s: Seq<char>, p: Seq<char>, i: int) -> bool {
    0 <= i && i + p.len() <= s.len() && s.subrange(i, i + p.len()) == p
}

/// `p` occurs somewhere in `s` as a contiguous substring.
pub open spec fn seq_contains(s: Seq<char>, p: Seq<char>) -> bool {
    exists|i: int| seq_contains_at(s, p, i)
}

/// The literal text whose presence marks a copyright line.
pub open spec fn copyright_marker() -> Seq<char> {
    "Copyright (c)"@
}

/// Relies on regex::Regex::new and regex::Regex::is_match: the pattern
/// `Copyright \(c\)` holds only escaped literal characters, so compiling it
/// never fails and `is_match` reports exactly whether the haystack holds the
/// literal text `Copyright (c)` as a substring.
#[verifier::external_body]
pub(crate) fn line_has_copyright_marker(line: &str) -> (r: bool)
    ensures
        r == seq_contains(line@, copyright_marker()),
{
    let re = regex::Regex::new(r"Copyright \(c\)").unwrap();
    re.is_match(line)
}

// ---------------------------------------------------------------------------
// Trusted std items
// ---------------------------------------------------------------------------

/// Relies on std's String::push: appends the given character to the end of
/// the string.
pub assume_specification[ String::push ](s: &mut String, c: char)
    ensures
        final(s)@ == old(s)@.push(c),
;

/// What std's char::is_whitespace returns: whether the character has the
/// Unicode `White_Space` property, a function of the character alone.
pub uninterp spec fn is_whitespace_char(c: char) -> bool;

/// Relies on std's char::is_whitespace: true exactly for characters with the
/// Unicode `White_Space` property.
pub assume_specification[ char::is_whitespace ](c: char) -> (r: bool)
    ensures
        r == is_whitespace_char(c),
;

// ---------------------------------------------------------------------------
// String equality
// ---------------------------------------------------------------------------

/// Character-for-character string equality.
pub fn str_eq(a: &str, b: &str) -> (r: bool)
    ensures
        r == (a@ == b@),
{
    let n = a.unicode_len();
    let m = b.unicode_len();
    if n != m {
        return false;
    }
    let mut i: usize = 0;
    while i < n
        invariant
            i <= n,
            n == a@.len(),
            n == b@.len(),
            forall|k: int| 0 <= k < i ==> a@[k] == b@[k],
        decreases n - i,
    {
        let ca = a.get_char(i);
        let cb = b.get_char(i);
        if ca != cb {
            return false;
        }
        i = i + 1;
    }
    proof {
        assert(a@ =~= b@);
    }
    true
}

// ---------------------------------------------------------------------------
// Anchor slugification
// ---------------------------------------------------------------------------

/// What one character of an anchor label contributes to the anchor fragment:
/// a space becomes a hyphen; parentheses and dots are deleted; every other
/// character is kept.
pub open spec fn slug_char(c: char) -> Seq<char> {
    if c == ' ' {
        seq!['-']
    } else if c == '(' || c == ')' || c == '.' {
        Seq::empty()
    } else {
        seq![c]
    }
}

/// The anchor fragment an anchor label maps to.
pub open spec fn slug_of(s: Seq<char>) -> Seq<char>
    decreases s.len(),
{
    if s.len() == 0 {
        Seq::empty()
    } else {
        slug_char(s[0]) + slug_of(s.drop_first())
    }
}

/// Derive the anchor fragment of an anchor label: spaces become hyphens,
/// parentheses and dots are deleted, everything else is kept.
pub fn slugify(s: &str) -> (r: String)
    ensures
        r@ == slug_of(s@),
{
    let n = s.unicode_len();
    let mut out = String::new();
    let mut i: usize = 0;
    proof {
        assert(s@.skip(0) =~= s@);
        assert(out@ + slug_of(s@) =~= slug_of(s@));
    }
    while i < n
        invariant
            i <= n,
            n == s@.len(),
            out@ + slug_of(s@.skip(i as int)) == slug_of(s@),
        decreases n - i,
    {
        let c = s.get_char(i);
        let ghost out0 = out@;
        let ghost suf = s@.skip(i as int);
        proof {
            assert(suf[0] == s@[i as int]);
            assert(suf.drop_first() =~= s@.skip(i + 1));
        }
        if c == ' ' {
            out.push('-');
            proof {
                assert(out@ + slug_of(s@.skip(i + 1)) =~= out0 + (slug_char(c) + slug_of(
                    s@.skip(i + 1),
                )));
            }
        } else if c == '(' || c == ')' || c == '.' {
            proof {
                assert(out@ + slug_of(s@.skip(i + 1)) =~= out0 + (slug_char(c) + slug_of(
                    s@.skip(i + 1),
                )));
            }
        } else {
            out.push(c);
            proof {
                assert(out@ + slug_of(s@.skip(i + 1)) =~= out0 + (slug_char(c) + slug_of(
                    s@.skip(i + 1),
                )));
            }
        }
        i = i + 1;
    }
    proof {
        assert(s@.skip(n as int) =~= Seq::<char>::empty());
        assert(out@ + slug_of(s@.skip(n as int)) =~= out@);
    }
    out
}

/// Slugification distributes over concatenation.
pub proof fn lemma_slug_of_concat(a: Seq<char>, b: Seq<char>)
    ensures
        slug_of(a + b) == slug_of(a) + slug_of(b),
    decreases a.len(),
{
    if a.len() == 0 {
        assert(a + b =~= b);
        assert(slug_of(a) + slug_of(b) =~= slug_of(b));
    } else {
        lemma_slug_of_concat(a.drop_first(), b);
        assert((a + b).drop_first() =~= a.drop_first() + b);
        assert((a + b)[0] == a[0]);
        assert(slug_char(a[0]) + (slug_of(a.drop_first()) + slug_of(b)) =~= (slug_char(a[0])
            + slug_of(a.drop_first())) + slug_of(b));
    }
}

/// What one character contributes to a fragment is itself already slugified.
proof fn lemma_slug_char_fixed(c: char)
    ensures
        slug_of(slug_char(c)) == slug_char(c),
{
    assert(slug_of(Seq::<char>::empty()) == Seq::<char>::empty());
    if c == ' ' {
        let d = seq!['-'];
        assert(d.drop_first() =~= Seq::<char>::empty());
        assert(d[0] == '-');
        assert(slug_of(d) == slug_char('-') + slug_of(Seq::<char>::empty()));
        assert(slug_char('-') + slug_of(Seq::<char>::empty()) =~= d);
        assert(slug_char(c) == d);
    } else if c == '(' || c == ')' || c == '.' {
    } else {
        let d = seq![c];
        assert(d.drop_first() =~= Seq::<char>::empty());
        assert(d[0] == c);
        assert(slug_of(d) == slug_char(c) + slug_of(Seq::<char>::empty()));
        assert(slug_char(c) + slug_of(Seq::<char>::empty()) =~= d);
    }
}

/// Anchor fragment derivation is idempotent: slugifying an already slugified
/// label changes nothing.
pub proof fn lemma_slug_idempotent(s: Seq<char>)
    ensures
        slug_of(slug_of(s)) == slug_of(s),
    decreases s.len(),
{
    if s.len() == 0 {
    } else {
        lemma_slug_idempotent(s.drop_first());
        lemma_slug_of_concat(slug_char(s[0]), slug_of(s.drop_first()));
        lemma_slug_char_fixed(s[0]);
    }
}

// ---------------------------------------------------------------------------
// Line splitting
// ---------------------------------------------------------------------------

/// The lines of a text, split on the newline character: one more line than
/// there are newlines, empty pieces kept.
pub open spec fn lines_of(s: Seq<char>) -> Seq<Seq<char>>
    decreases s.len(),
{
    if s.len() == 0 {
        seq![Seq::<char>::empty()]
    } else if s[0] == '\n' {
        seq![Seq::<char>::empty()] + lines_of(s.drop_first())
    } else {
        let rest = lines_of(s.drop_first());
        seq![seq![s[0]] + rest[0]] + rest.drop_first()
    }
}

/// A text always has at least one line.
pub proof fn lemma_lines_of_nonempty(s: Seq<char>)
    ensures
        lines_of(s).len() >= 1,
    decreases s.len(),
{
    if s.len() == 0 {
    } else {
        lemma_lines_of_nonempty(s.drop_first());
    }
}

/// The views of a sequence of owned lines.
pub open spec fn line_views(ls: Seq<String>) -> Seq<Seq<char>> {
    ls.map_values(|l: String| l@)
}

/// Pushing a line commutes with taking views.
proof fn lemma_line_views_push(s: Seq<String>, x: String)
    ensures
        line_views(s.push(x)) == line_views(s).push(x@),
{
    assert forall|k: int| 0 <= k < s.push(x).len() implies #[trigger] line_views(s.push(x))[k]
        == line_views(s).push(x@)[k] by {
        if k < s.len() {
            assert(line_views(s)[k] == s[k]@);
        }
    }
    assert(line_views(s.push(x)) =~= line_views(s).push(x@));
}

/// The first line of `ls` extended in front by `p`, with the later lines
/// unchanged.
spec fn prepend_first(p: Seq<char>, ls: Seq<Seq<char>>) -> Seq<Seq<char>>
    recommends
        ls.len() >= 1,
{
    seq![p + ls[0]] + ls.drop_first()
}

/// Split a text into its lines at each newline character.
pub fn split_lines(s: &str) -> (r: Vec<String>)
    ensures
        line_views(r@) == lines_of(s@),
{
    let n = s.unicode_len();
    let mut acc: Vec<String> = Vec::new();
    let mut cur = String::new();
    let mut i: usize = 0;
    proof {
        lemma_lines_of_nonempty(s@);
        assert(s@.skip(0) =~= s@);
        assert(line_views(acc@) =~= Seq::<Seq<char>>::empty());
        assert(prepend_first(cur@, lines_of(s@)) =~= lines_of(s@));
        assert(line_views(acc@) + prepend_first(cur@, lines_of(s@)) =~= lines_of(s@));
    }
    while i < n
        invariant
            i <= n,
            n == s@.len(),
            line_views(acc@) + prepend_first(cur@, lines_of(s@.skip(i as int))) == lines_of(s@),
        decreases n - i,
    {
        let c = s.get_char(i);
        let ghost suf = s@.skip(i as int);
        let ghost cur0 = cur@;
        let ghost accv0 = line_views(acc@);
        proof {
            lemma_lines_of_nonempty(s@.skip(i + 1));
            assert(suf[0] == s@[i as int]);
            assert(suf.drop_first() =~= s@.skip(i + 1));
        }
        if c == '\n' {
            let ghost rest = lines_of(s@.skip(i + 1));
            acc.push(cur);
            cur = String::new();
            proof {
                lemma_line_views_push(acc@.drop_last(), acc@.last());
                assert(acc@.drop_last().push(acc@.last()) =~= acc@);
                assert(lines_of(suf) == seq![Seq::<char>::empty()] + rest);
                assert(prepend_first(cur0, lines_of(suf)) =~= seq![cur0] + rest);
                assert(prepend_first(cur@, rest) =~= rest);
                assert(accv0 + (seq![cur0] + rest) =~= (accv0.push(cur0)) + rest);
                assert(line_views(acc@) + prepend_first(cur@, lines_of(s@.skip(i + 1)))
                    == lines_of(s@));
            }
        } else {
            cur.push(c);
            proof {
                let rest = lines_of(s@.skip(i + 1));
                assert(lines_of(suf) == seq![seq![suf[0]] + rest[0]] + rest.drop_first());
                assert(cur0 + (seq![c] + rest[0]) =~= cur@ + rest[0]);
                assert(prepend_first(cur0, lines_of(suf)) =~= prepend_first(cur@, rest));
                assert(line_views(acc@) + prepend_first(cur@, lines_of(s@.skip(i + 1)))
                    == lines_of(s@));
            }
        }
        i = i + 1;
    }
    let ghost accv0 = line_views(acc@);
    let ghost curv = cur@;
    acc.push(cur);
    proof {
        assert(s@.skip(n as int) =~= Seq::<char>::empty());
        assert(prepend_first(curv, lines_of(s@.skip(n as int))) =~= seq![curv]);
        lemma_line_views_push(acc@.drop_last(), acc@.last());
        assert(acc@.drop_last().push(acc@.last()) =~= acc@);
        assert(accv0 + seq![curv] =~= accv0.push(curv));
        assert(line_views(acc@) == lines_of(s@));
    }
    acc
}

// ---------------------------------------------------------------------------
// Whitespace trimming
// ---------------------------------------------------------------------------

/// A text with its leading whitespace removed.
pub open spec fn trim_start_of(s: Seq<char>) -> Seq<char>
    decreases s.len(),
{
    if s.len() > 0 && is_whitespace_char(s[0]) {
        trim_start_of(s.drop_first())
    } else {
        s
    }
}

/// A text with its trailing whitespace removed.
pub open spec fn trim_end_of(s: Seq<char>) -> Seq<char>
    decreases s.len(),
{
    if s.len() > 0 && is_whitespace_char(s.last()) {
        trim_end_of(s.drop_last())
    } else {
        s
    }
}

/// A text with both leading and trailing whitespace removed.
pub open spec fn trim_of(s: Seq<char>) -> Seq<char> {
    trim_end_of(trim_start_of(s))
}

/// Removing leading whitespace keeps exactly the suffix after the first
/// non-whitespace character.
proof fn lemma_trim_start_skip(s: Seq<char>, a: int)
    requires
        0 <= a <= s.len(),
        forall|k: int| 0 <= k < a ==> is_whitespace_char(s[k]),
        a < s.len() ==> !is_whitespace_char(s[a]),
    ensures
        trim_start_of(s) == s.skip(a),
    decreases a,
{
    if a == 0 {
        assert(s.skip(0) =~= s);
    } else {
        lemma_trim_start_skip(s.drop_first(), a - 1);
        assert(s.drop_first().skip(a - 1) =~= s.skip(a));
    }
}

/// Removing trailing whitespace keeps exactly the prefix up to the last
/// non-whitespace character.
proof fn lemma_trim_end_take(s: Seq<char>, b: int)
    requires
        0 <= b <= s.len(),
        forall|k: int| b <= k < s.len() ==> is_whitespace_char(s[k]),
        b > 0 ==> !is_whitespace_char(s[b - 1]),
    ensures
        trim_end_of(s) == s.take(b),
    decreases s.len() - b,
{
    if b == s.len() {
        assert(s.take(b) =~= s);
    } else {
        lemma_trim_end_take(s.drop_last(), b);
        assert(s.drop_last().take(b) =~= s.take(b));
    }
}

/// Remove leading and trailing whitespace from a line.
pub fn trim(s: &str) -> (r: String)
    ensures
        r@ == trim_of(s@),
{
    let n = s.unicode_len();
    let mut a: usize = 0;
    while a < n && s.get_char(a).is_whitespace()
        invariant
            a <= n,
            n == s@.len(),
            forall|k: int| 0 <= k < a ==> is_whitespace_char(s@[k]),
        decreases n - a,
    {
        a = a + 1;
    }
    let mut b: usize = n;
    while b > a && s.get_char(b - 1).is_whitespace()
        invariant
            a <= b <= n,
            n == s@.len(),
            forall|k: int| b <= k < n ==> is_whitespace_char(s@[k]),
        decreases b,
    {
        b = b - 1;
    }
    proof {
        lemma_trim_start_skip(s@, a as int);
        lemma_trim_end_take(s@.skip(a as int), b - a);
        assert(s@.skip(a as int).take(b - a) =~= s@.subrange(a as int, b as int));
    }
    let piece = s.substring_char(a, b);
    piece.to_owned()
}

// ---------------------------------------------------------------------------
// Escape expansion
// ---------------------------------------------------------------------------

/// A text with each literal backslash-n escape sequence expanded to a real
/// newline, scanning left to right without overlap.
pub open spec fn expand_of(s: Seq<char>) -> Seq<char>
    decreases s.len(),
{
    if s.len() >= 2 && s[0] == '\\' && s[1] == 'n' {
        seq!['\n'] + expand_of(s.skip(2))
    } else if s.len() == 0 {
        Seq::empty()
    } else {
        seq![s[0]] + expand_of(s.drop_first())
    }
}

/// Expand each literal backslash-n sequence in a stored license text to a
/// real newline.
pub fn expand_escapes(s: &str) -> (r: String)
    ensures
        r@ == expand_of(s@),
{
    let n = s.unicode_len();
    let mut out = String::new();
    let mut i: usize = 0;
    proof {
        assert(s@.skip(0) =~= s@);
        assert(out@ + expand_of(s@) =~= expand_of(s@));
    }
    while i < n
        invariant
            i <= n,
            n == s@.len(),
            out@ + expand_of(s@.skip(i as int)) == expand_of(s@),
        decreases n - i,
    {
        let c = s.get_char(i);
        let ghost out0 = out@;
        let ghost suf = s@.skip(i as int);
        proof {
            assert(suf[0] == s@[i as int]);
            if i + 1 < n {
                assert(suf[1] == s@[i + 1]);
                assert(suf.skip(2) =~= s@.skip(i + 2));
            }
            assert(suf.drop_first() =~= s@.skip(i + 1));
        }
        if c == '\\' && i + 1 < n && s.get_char(i + 1) == 'n' {
            out.push('\n');
            proof {
                assert(expand_of(suf) == seq!['\n'] + expand_of(s@.skip(i + 2)));
                assert(out@ + expand_of(s@.skip(i + 2)) =~= out0 + (seq!['\n'] + expand_of(
                    s@.skip(i + 2),
                )));
            }
            i = i + 2;
        } else {
            out.push(c);
            proof {
                assert(expand_of(suf) == seq![c] + expand_of(s@.skip(i + 1)));
                assert(out@ + expand_of(s@.skip(i + 1)) =~= out0 + (seq![c] + expand_of(
                    s@.skip(i + 1),
                )));
            }
            i = i + 1;
        }
    }
    proof {
        assert(s@.skip(n as int) =~= Seq::<char>::empty());
        assert(out@ + expand_of(s@.skip(n as int)) =~= out@);
    }
    out
}

/// Expansion changes nothing in a text that holds no backslash.
pub proof fn lemma_expand_no_backslash(s: Seq<char>)
    requires
        forall|k: int| 0 <= k < s.len() ==> s[k] != '\\',
    ensures
        expand_of(s) == s,
    decreases s.len(),
{
    if s.len() == 0 {
    } else {
        lemma_expand_no_backslash(s.drop_first());
        assert(seq![s[0]] + s.drop_first() =~= s);
    }
}

} // verus!
