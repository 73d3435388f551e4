use vstd::prelude::*;

use crate::text::string_from_chars;
use crate::UriKind;

verus! {

/// A character that separates path segments in some spelling.
pub open spec fn is_sep(c: char) -> bool {
    c == '/' || c == '\\'
}

/// One step of the normalization scan: separators collapse into a single
/// `/`, `?` characters are dropped, everything else is kept.
pub open spec fn scan_step(acc: Seq<char>, c: char) -> Seq<char> {
    if is_sep(c) {
        if acc.len() > 0 && acc.last() == '/' {
            acc
        } else {
            acc.push('/')
        }
    } else if c == '?' {
        acc
    } else {
        acc.push(c)
    }
}

/// The normalization scan over a whole string, left to right.
pub open spec fn scan(s: Seq<char>, acc: Seq<char>) -> Seq<char>
    decreases s.len(),
{
    if s.len() == 0 {
        acc
    } else {
        scan(s.drop_first(), scan_step(acc, s[0]))
    }
}

/// The canonical spelling of a path string: separators collapsed to `/`,
/// `?` dropped, and a trailing `/` removed unless it is the whole path.
pub open spec fn corrected(s: Seq<char>) -> Seq<char> {
    let b = scan(s, Seq::empty());
    if b.len() > 1 && b.last() == '/' {
        b.drop_last()
    } else {
        b
    }
}

/// A path that names an absolute location.
pub open spec fn is_absolute(s: Seq<char>) -> bool {
    s.len() > 0 && s[0] == '/'
}

/// No backslash and no `?` anywhere.
pub open spec fn is_clean(s: Seq<char>) -> bool {
    forall|i: int| 0 <= i < s.len() ==> s[i] != '\\' && s[i] != '?'
}

/// No two adjacent `/` characters.
pub open spec fn no_dup_sep(s: Seq<char>) -> bool {
    forall|i: int| 0 <= i < s.len() - 1 ==> !(#[trigger] s[i] == '/' && s[i + 1] == '/')
}

/// The invariant of a fully normalized absolute path.
pub open spec fn is_canon(s: Seq<char>) -> bool {
    &&& is_absolute(s)
    &&& is_clean(s)
    &&& no_dup_sep(s)
    &&& (s.len() > 1 ==> s.last() != '/')
}

/// A relative path resolved against a working directory, in canonical form.
pub open spec fn normalized(p: Seq<char>, cwd: Seq<char>) -> Seq<char> {
    if is_absolute(corrected(p)) {
        corrected(p)
    } else {
        corrected(cwd + seq!['/'] + p)
    }
}

/// The scan never disturbs what is already in the accumulator, keeps it
/// clean, and only appends.
proof fn lemma_scan_extends(s: Seq<char>, acc: Seq<char>)
    requires
        is_clean(acc),
        no_dup_sep(acc),
    ensures
        is_clean(scan(s, acc)),
        no_dup_sep(scan(s, acc)),
        scan(s, acc).len() >= acc.len(),
        forall|i: int| 0 <= i < acc.len() ==> scan(s, acc)[i] == acc[i],
    decreases s.len(),
{
    if s.len() > 0 {
        let acc2 = scan_step(acc, s[0]);
        assert(is_clean(acc2) && no_dup_sep(acc2)) by {
            if is_sep(s[0]) {
                if !(acc.len() > 0 && acc.last() == '/') {
                    assert(forall|i: int|
                        0 <= i < acc2.len() - 1 ==> !(#[trigger] acc2[i] == '/' && acc2[i + 1]
                            == '/'));
                }
            }
        }
        lemma_scan_extends(s.drop_first(), acc2);
        assert(scan(s, acc) == scan(s.drop_first(), acc2));
        assert(forall|i: int| 0 <= i < acc.len() ==> acc2[i] == acc[i]);
    }
}

/// On a string that is already collapsed and clean, the scan is a plain
/// copy.
proof fn lemma_scan_fixed(s: Seq<char>, acc: Seq<char>)
    requires
        is_clean(s),
        no_dup_sep(s),
        acc.len() > 0 && acc.last() == '/' && s.len() > 0 ==> s[0] != '/',
    ensures
        scan(s, acc) == acc + s,
    decreases s.len(),
{
    if s.len() == 0 {
        assert(scan(s, acc) =~= acc + s);
    } else {
        let c = s[0];
        let acc2 = scan_step(acc, c);
        assert(acc2 =~= acc.push(c));
        lemma_scan_fixed(s.drop_first(), acc2);
        assert(acc.push(c) + s.drop_first() =~= acc + s);
    }
}

/// A canonical path is a fixed point of normalization.
pub proof fn lemma_corrected_canon_fixed(s: Seq<char>)
    requires
        is_canon(s),
    ensures
        corrected(s) == s,
{
    lemma_scan_fixed(s, Seq::empty());
    assert(Seq::empty() + s =~= s);
}

/// Normalization always yields a clean, collapsed string with no trailing
/// separator (unless the result is a bare `/` or empty).
pub proof fn lemma_corrected_shape(s: Seq<char>)
    ensures
        is_clean(corrected(s)),
        no_dup_sep(corrected(s)),
        corrected(s).len() > 1 ==> corrected(s).last() != '/',
{
    lemma_scan_extends(s, Seq::empty());
    let b = scan(s, Seq::empty());
    if b.len() > 1 && b.last() == '/' {
        let r = b.drop_last();
        assert(forall|i: int| 0 <= i < r.len() ==> r[i] == b[i]);
        if r.len() > 1 && r.last() == '/' {
            assert(b[r.len() - 1] == '/' && b[r.len() as int] == '/');
            assert(false);
        }
    }
}

/// Resolving against a canonical working directory yields a canonical
/// absolute path.
pub proof fn lemma_normalized_canon(p: Seq<char>, cwd: Seq<char>)
    requires
        is_canon(cwd),
    ensures
        is_canon(normalized(p, cwd)),
{
    lemma_corrected_shape(p);
    if is_absolute(corrected(p)) {
        // clean, collapsed, no trailing slash, and starts with `/`
    } else {
        let joined = cwd + seq!['/'] + p;
        lemma_corrected_shape(joined);
        // the first character of the scan is `/`, kept by the trailing trim
        assert(joined.len() > 0 && joined[0] == '/');
        let first = scan_step(Seq::empty(), joined[0]);
        assert(first =~= seq!['/']);
        lemma_scan_extends(joined.drop_first(), first);
        let b = scan(joined, Seq::empty());
        assert(b == scan(joined.drop_first(), first));
        assert(first[0] == '/');
        assert(scan(joined.drop_first(), first)[0] == first[0]);
        assert(b.len() >= 1 && b[0] == '/');
        if b.len() > 1 && b.last() == '/' {
            assert(corrected(joined) == b.drop_last());
            assert(corrected(joined).len() >= 1);
            assert(corrected(joined)[0] == '/');
        }
    }
}

/// Normalization is idempotent: a second pass changes nothing.
pub proof fn lemma_normalized_idempotent(p: Seq<char>, cwd: Seq<char>)
    requires
        is_canon(cwd),
    ensures
        normalized(normalized(p, cwd), cwd) == normalized(p, cwd),
{
    lemma_normalized_canon(p, cwd);
    lemma_corrected_canon_fixed(normalized(p, cwd));
}

/// The scan splits over concatenation: the first part runs first and
/// hands its accumulator to the second.
proof fn lemma_scan_append(a: Seq<char>, b: Seq<char>, acc: Seq<char>)
    ensures
        scan(a + b, acc) == scan(b, scan(a, acc)),
    decreases a.len(),
{
    if a.len() == 0 {
        assert(a + b =~= b);
    } else {
        assert((a + b)[0] == a[0]);
        assert((a + b).drop_first() =~= a.drop_first() + b);
        lemma_scan_append(a.drop_first(), b, scan_step(acc, a[0]));
    }
}

/// The scan only appends to its accumulator.
proof fn lemma_scan_prefix(s: Seq<char>, acc: Seq<char>)
    ensures
        scan(s, acc).len() >= acc.len(),
        forall|i: int| 0 <= i < acc.len() ==> scan(s, acc)[i] == acc[i],
    decreases s.len(),
{
    if s.len() > 0 {
        let acc2 = scan_step(acc, s[0]);
        lemma_scan_prefix(s.drop_first(), acc2);
        assert(scan(s, acc) == scan(s.drop_first(), acc2));
        assert(forall|i: int| 0 <= i < acc.len() ==> acc2[i] == acc[i]);
    }
}

/// What the scan emits depends only on whether the accumulator already
/// ends in a separator, not on the accumulator itself.
proof fn lemma_scan_emit(s: Seq<char>, acc1: Seq<char>, acc2: Seq<char>)
    requires
        (acc1.len() > 0 && acc1.last() == '/') == (acc2.len() > 0 && acc2.last() == '/'),
    ensures
        scan(s, acc1).skip(acc1.len() as int) == scan(s, acc2).skip(acc2.len() as int),
    decreases s.len(),
{
    if s.len() == 0 {
        assert(scan(s, acc1).skip(acc1.len() as int) =~= Seq::<char>::empty());
        assert(scan(s, acc2).skip(acc2.len() as int) =~= Seq::<char>::empty());
    } else {
        let c = s[0];
        let n1 = scan_step(acc1, c);
        let n2 = scan_step(acc2, c);
        lemma_scan_prefix(s.drop_first(), n1);
        lemma_scan_prefix(s.drop_first(), n2);
        if n1.len() == acc1.len() {
            // nothing was emitted on either side
            lemma_scan_emit(s.drop_first(), n1, n2);
            assert(scan(s, acc1).skip(acc1.len() as int) =~= scan(s.drop_first(), n1).skip(
                n1.len() as int,
            ));
            assert(scan(s, acc2).skip(acc2.len() as int) =~= scan(s.drop_first(), n2).skip(
                n2.len() as int,
            ));
        } else {
            // the same character was emitted on both sides
            lemma_scan_emit(s.drop_first(), n1, n2);
            assert(n1.last() == n2.last());
            assert(scan(s, acc1)[acc1.len() as int] == n1[acc1.len() as int]);
            assert(scan(s, acc2)[acc2.len() as int] == n2[acc2.len() as int]);
            assert(scan(s, acc1).skip(acc1.len() as int) =~= seq![n1.last()] + scan(
                s.drop_first(),
                n1,
            ).skip(n1.len() as int));
            assert(scan(s, acc2).skip(acc2.len() as int) =~= seq![n2.last()] + scan(
                s.drop_first(),
                n2,
            ).skip(n2.len() as int));
        }
    }
}

/// Resolving a relative path against a working directory below the root
/// concatenates: the result is the directory followed by the canonical
/// spelling of `/` plus the path.  (At the root itself the two leading
/// separators would collapse, and a path that normalizes to nothing
/// resolves to the working directory alone; both lie outside this law.)
pub proof fn lemma_relative_resolution(p: Seq<char>, cwd: Seq<char>)
    requires
        is_canon(cwd),
        cwd.len() > 1,
        !is_absolute(corrected(p)),
        corrected(seq!['/'] + p).len() > 1,
    ensures
        normalized(p, cwd) == cwd + corrected(seq!['/'] + p),
{
    let b = seq!['/'] + p;
    let joined = cwd + seq!['/'] + p;
    assert(joined =~= cwd + b);
    lemma_scan_append(cwd, b, Seq::empty());
    lemma_scan_fixed(cwd, Seq::empty());
    assert(scan(cwd, Seq::empty()) =~= cwd);
    assert(scan(joined, Seq::empty()) == scan(b, cwd));
    lemma_scan_emit(b, cwd, Seq::empty());
    lemma_scan_prefix(b, cwd);
    let s_emit = scan(b, Seq::empty());
    assert(scan(b, Seq::empty()).skip(0) =~= s_emit);
    assert(scan(b, cwd) =~= cwd + s_emit) by {
        assert(scan(b, cwd).skip(cwd.len() as int) == s_emit);
        assert(forall|i: int| 0 <= i < cwd.len() ==> scan(b, cwd)[i] == cwd[i]);
        assert(scan(b, cwd).len() == cwd.len() + s_emit.len());
    }
    // the emitted part starts with the separator, so it is nonempty
    assert(s_emit.len() >= 1) by {
        assert(b[0] == '/');
        let first = scan_step(Seq::empty(), b[0]);
        assert(first =~= seq!['/']);
        assert(scan(b, Seq::empty()) == scan(b.drop_first(), first));
        lemma_scan_prefix(b.drop_first(), first);
    }
    let full = cwd + s_emit;
    assert(full.last() == s_emit.last());
    if s_emit.len() > 1 && s_emit.last() == '/' {
        assert(corrected(b) == s_emit.drop_last());
        assert(corrected(joined) == full.drop_last());
        assert(full.drop_last() =~= cwd + s_emit.drop_last());
    } else {
        assert(corrected(b) == s_emit);
        assert(s_emit.len() > 1);
        assert(full.len() > 1 && full.last() != '/');
        assert(corrected(joined) == full);
    }
}

/// The canonical spelling of any path string.
pub fn correct_str(s: &str) -> (r: String)
    ensures
        r@ == corrected(s@),
{
    let n = s.unicode_len();
    let mut buf: Vec<char> = Vec::new();
    let mut i: usize = 0;
    proof {
        assert(s@.skip(0) =~= s@);
    }
    while i < n
        invariant
            i <= n,
            n == s@.len(),
            scan(s@, Seq::empty()) == scan(s@.skip(i as int), buf@),
        decreases n - i,
    {
        let c = s.get_char(i);
        let ghost buf0 = buf@;
        proof {
            assert(s@.skip(i as int).len() > 0);
            assert(s@.skip(i as int)[0] == c);
            assert(s@.skip(i as int).drop_first() =~= s@.skip(i as int + 1));
        }
        if c == '/' || c == '\\' {
            let ends_sep = buf.len() > 0 && buf[buf.len() - 1] == '/';
            if !ends_sep {
                buf.push('/');
            }
        } else if c != '?' {
            buf.push(c);
        }
        proof {
            assert(buf@ == scan_step(buf0, c));
            assert(scan(s@.skip(i as int), buf0) == scan(
                s@.skip(i as int + 1),
                scan_step(buf0, c),
            ));
        }
        i = i + 1;
    }
    proof {
        assert(s@.skip(n as int) =~= Seq::<char>::empty());
    }
    if buf.len() > 1 && buf[buf.len() - 1] == '/' {
        buf.pop();
        proof {
            assert(buf@ =~= scan(s@, Seq::empty()).drop_last());
        }
    }
    string_from_chars(&buf)
}

/// Whether a raw path string spells an absolute or a relative location.
pub fn uri_kind_str(s: &str) -> (r: UriKind)
    ensures
        r is Absolute <==> is_absolute(s@),
{
    if s.unicode_len() > 0 && s.get_char(0) == '/' {
        UriKind::Absolute
    } else {
        UriKind::Relative
    }
}

/// A path joined onto a working directory and normalized.
pub fn relate_to_absolute_str(s: &str, cwd: &str) -> (r: String)
    ensures
        r@ == corrected(cwd@ + seq!['/'] + s@),
{
    let mut joined: Vec<char> = crate::text::chars_of(cwd);
    joined.push('/');
    let mut tail = crate::text::chars_of(s);
    joined.append(&mut tail);
    proof {
        assert(joined@ =~= cwd@ + seq!['/'] + s@);
    }
    let j = string_from_chars(&joined);
    correct_str(j.as_str())
}

/// Whether the path names the filesystem root.
pub fn is_root_str(s: &str) -> (r: bool)
    ensures
        r <==> corrected(s@) =~= seq!['/'],
{
    let c = correct_str(s);
    let r = c.unicode_len() == 1 && c.as_str().get_char(0) == '/';
    proof {
        if r {
            assert(c@ =~= seq!['/']);
        }
    }
    r
}

/// The full normalization: canonical spelling, resolved against `cwd` when
/// relative.
pub fn normalize_str(s: &str, cwd: &str) -> (r: String)
    ensures
        r@ == normalized(s@, cwd@),
{
    let c = correct_str(s);
    match uri_kind_str(c.as_str()) {
        UriKind::Absolute => c,
        UriKind::Relative => relate_to_absolute_str(s, cwd),
    }
}

/// The largest index at which `c` occurs in `s`, or `-1` if it does not.
pub open spec fn last_index(s: Seq<char>, c: char) -> int
    decreases s.len(),
{
    if s.len() == 0 {
        -1
    } else if s.last() == c {
        s.len() - 1
    } else {
        last_index(s.drop_last(), c)
    }
}

pub proof fn lemma_last_index(s: Seq<char>, c: char)
    ensures
        -1 <= last_index(s, c) < s.len(),
        last_index(s, c) >= 0 ==> s[last_index(s, c)] == c,
        forall|j: int| last_index(s, c) < j < s.len() ==> s[j] != c,
    decreases s.len(),
{
    if s.len() > 0 && s.last() != c {
        lemma_last_index(s.drop_last(), c);
        assert forall|j: int| last_index(s, c) < j < s.len() implies s[j] != c by {
            if j < s.len() - 1 {
                assert(s[j] == s.drop_last()[j]);
            }
        }
    }
}

/// A path that is exactly the root `/`.
pub open spec fn is_root_path(s: Seq<char>) -> bool {
    s.len() == 1 && s[0] == '/'
}

/// The trailing segment of a path: everything after the last `/`, empty
/// when there is no `/` at all.
pub open spec fn name_of(s: Seq<char>) -> Seq<char> {
    let k = last_index(s, '/');
    if k == -1 {
        Seq::empty()
    } else {
        s.skip(k + 1)
    }
}

/// Where the extension of a bare name starts: the last `.`, except that a
/// dot in first position marks a hidden name, not an extension.
pub open spec fn ext_start(nm: Seq<char>) -> int {
    last_index(nm, '.')
}

/// The trailing segment with its extension stripped.  A name whose only
/// dot is the leading one is returned whole.
pub open spec fn ext_name_of(s: Seq<char>) -> Seq<char> {
    let nm = name_of(s);
    let k = ext_start(nm);
    if k >= 1 {
        nm.take(k)
    } else {
        nm
    }
}

/// The extension of the trailing segment, including its dot; empty when
/// the name has no dot past the first position.
pub open spec fn extension_of(s: Seq<char>) -> Seq<char> {
    let nm = name_of(s);
    let k = ext_start(nm);
    if k >= 1 {
        nm.skip(k)
    } else {
        Seq::empty()
    }
}

/// Everything before the last `/`, or the root marker for the root itself.
pub open spec fn parent_of(s: Seq<char>) -> Seq<char> {
    if is_root_path(s) {
        "%Root%"@
    } else {
        s.take(last_index(s, '/'))
    }
}

/// The directory that holds a canonical path: like `parent_of`, but a
/// top-level entry is held by the root `/` itself.
pub open spec fn dir_of(s: Seq<char>) -> Seq<char> {
    if last_index(s, '/') == 0 {
        seq!['/']
    } else {
        s.take(last_index(s, '/'))
    }
}

/// The largest index at which `c` occurs in `s`, found by scanning from
/// the end.
pub fn last_pos_char(s: &str, c: char) -> (r: Option<usize>)
    ensures
        match r {
            Some(k) => k == last_index(s@, c),
            None => last_index(s@, c) == -1,
        },
{
    let n = s.unicode_len();
    let mut i: usize = n;
    while i > 0
        invariant
            i <= n,
            n == s@.len(),
            forall|j: int| i <= j < s@.len() ==> s@[j] != c,
        decreases i,
    {
        i = i - 1;
        if s.get_char(i) == c {
            proof {
                lemma_last_index(s@, c);
                assert(s@[i as int] == c);
                assert(last_index(s@, c) == i as int) by {
                    if last_index(s@, c) > i as int {
                        assert(s@[last_index(s@, c)] != c);
                    }
                    if last_index(s@, c) < i as int {
                        assert(s@[i as int] != c);
                    }
                }
            }
            return Some(i);
        }
    }
    proof {
        lemma_last_index(s@, c);
        if last_index(s@, c) >= 0 {
            assert(s@[last_index(s@, c)] == c);
        }
    }
    None
}

/// Whether `p` lies strictly below the directory `d`.
pub fn is_under_str(p: &str, d: &str) -> (r: bool)
    ensures
        r == crate::model::in_dir_tree(p@, d@),
{
    let dl = d.unicode_len();
    if dl == 1 && d.get_char(0) == '/' {
        proof {
            assert(d@ =~= seq!['/']);
        }
        p.unicode_len() > 1 && p.get_char(0) == '/'
    } else {
        proof {
            if d@ == seq!['/'] {
                assert(d@.len() == 1 && d@[0] == '/');
            }
        }
        let pl = p.unicode_len();
        if pl <= dl {
            return false;
        }
        let mut t: usize = 0;
        while t < dl
            invariant
                t <= dl,
                dl == d@.len(),
                pl == p@.len(),
                pl > dl,
                forall|m: int| 0 <= m < t ==> p@[m] == d@[m],
            decreases dl - t,
        {
            if p.get_char(t) != d.get_char(t) {
                proof {
                    assert(p@.take(dl as int)[t as int] != d@[t as int]);
                }
                return false;
            }
            t = t + 1;
        }
        proof {
            assert(p@.take(dl as int) =~= d@);
        }
        p.get_char(dl) == '/'
    }
}

/// A usable entry name piece: nonempty, with no separator and none of
/// the characters that normalization rewrites.
pub open spec fn is_segment(s: Seq<char>) -> bool {
    s.len() > 0 && forall|i: int|
        0 <= i < s.len() ==> #[trigger] s[i] != '/' && s[i] != '\\' && s[i] != '?'
}

/// The extension of a canonical path holds no separator and none of
/// the characters that normalization rewrites, and it is shorter than
/// the part after the last separator.
pub proof fn lemma_extension_clean(s: Seq<char>)
    requires
        is_canon(s),
    ensures
        forall|t: int|
            0 <= t < extension_of(s).len() ==> #[trigger] extension_of(s)[t] != '/'
                && extension_of(s)[t] != '\\' && extension_of(s)[t] != '?',
        extension_of(s).len() == 0 || extension_of(s).len() < s.len() - last_index(s, '/') - 1,
{
    lemma_last_index(s, '/');
    let li = last_index(s, '/');
    assert(li >= 0) by {
        if li == -1 {
            assert(s[0] != '/');
        }
    }
    let nm = name_of(s);
    lemma_last_index(nm, '.');
    let j = ext_start(nm);
    assert(forall|t: int| 0 <= t < nm.len() ==> #[trigger] nm[t] == s[t + li + 1]);
    if j >= 1 {
        assert(forall|t: int|
            0 <= t < extension_of(s).len() ==> #[trigger] extension_of(s)[t] == nm[t + j]);
    }
}

/// The trailing segment of a path, as an owned string.
pub fn name_of_str(s: &str) -> (r: String)
    ensures
        r@ == name_of(s@),
{
    match last_pos_char(s, '/') {
        Some(k) => {
            proof {
                lemma_last_index(s@, '/');
            }
            let n = s.unicode_len();
            let r = s.substring_char(k + 1, n).to_owned();
            proof {
                assert(r@ =~= name_of(s@));
            }
            r
        },
        None => {
            let r = String::new();
            proof {
                assert(r@ =~= name_of(s@));
            }
            r
        },
    }
}

/// The directory that holds a canonical path, as a string.
pub fn dir_of_str(s: &str) -> (r: String)
    requires
        is_canon(s@),
    ensures
        r@ == dir_of(s@),
{
    proof {
        lemma_last_index(s@, '/');
        if last_index(s@, '/') == -1 {
            assert(s@[0] != '/');
        }
    }
    match last_pos_char(s, '/') {
        Some(k) if k > 0 => {
            let r = s.substring_char(0, k).to_owned();
            proof {
                assert(r@ =~= dir_of(s@));
            }
            r
        },
        _ => {
            let r = String::from_str("/");
            proof {
                reveal_strlit("/");
                assert(r@ =~= seq!['/']);
            }
            r
        },
    }
}

/// String-level path handling: canonical spelling, kind, root test, and
/// resolution against a working directory.
pub trait PathStr {
    spec fn path_chars(&self) -> Seq<char>;

    /// Whether this string spells an absolute or a relative path.
    fn uri_kind(&self) -> (r: UriKind)
        ensures
            r is Absolute <==> is_absolute(self.path_chars()),
    ;

    /// The canonical spelling of this path string.
    fn correct(&self) -> (r: String)
        ensures
            r@ == corrected(self.path_chars()),
    ;

    /// This path joined onto the given working directory, normalized.
    fn relate_to_absolute(&self, cwd: &str) -> (r: String)
        ensures
            r@ == corrected(cwd@ + seq!['/'] + self.path_chars()),
    ;

    /// Whether this path names the filesystem root.
    fn is_root(&self) -> (r: bool)
        ensures
            r <==> corrected(self.path_chars()) =~= seq!['/'],
    ;
}

impl PathStr for String {
    open spec fn path_chars(&self) -> Seq<char> {
        self@
    }

    fn uri_kind(&self) -> (r: UriKind) {
        uri_kind_str(self.as_str())
    }

    fn correct(&self) -> (r: String) {
        correct_str(self.as_str())
    }

    fn relate_to_absolute(&self, cwd: &str) -> (r: String) {
        relate_to_absolute_str(self.as_str(), cwd)
    }

    fn is_root(&self) -> (r: bool) {
        is_root_str(self.as_str())
    }
}

impl PathStr for str {
    open spec fn path_chars(&self) -> Seq<char> {
        self@
    }

    fn uri_kind(&self) -> (r: UriKind) {
        uri_kind_str(self)
    }

    fn correct(&self) -> (r: String) {
        correct_str(self)
    }

    fn relate_to_absolute(&self, cwd: &str) -> (r: String) {
        relate_to_absolute_str(self, cwd)
    }

    fn is_root(&self) -> (r: bool) {
        is_root_str(self)
    }
}

} // verus!
