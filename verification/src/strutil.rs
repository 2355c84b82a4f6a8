//! Verified helpers over strings and path-like strings. Paths are plain
//! strings here; a separator is a forward or backward slash and an
//! extension is whatever follows the last dot of the last component.

use vstd::prelude::*;
use vstd::string::StrSliceExecFns;
use vstd::string::StringExecFns;

verus! {

/// Character-wise equality of two strings.
pub fn str_eq(a: &str, b: &str) -> (r: bool)
    ensures
        r == (a@ == b@),
{
    let na = a.unicode_len();
    let nb = b.unicode_len();
    if na != nb {
        proof {
            assert(a@ != b@);
        }
        return false;
    }
    let mut k: usize = 0;
    while k < na
        invariant
            na == a@.len() && na == b@.len(),
            k <= na,
            forall|j: int| 0 <= j < k ==> a@[j] == b@[j],
        decreases na - k,
    {
        if a.get_char(k) != b.get_char(k) {
            return false;
        }
        k = k + 1;
    }
    proof {
        assert(a@ =~= b@);
    }
    true
}

/// Lowering one character: ASCII capitals gain 32, all else stays.
pub open spec fn lower_char(c: char) -> char {
    if 65 <= c as u32 <= 90 {
        ((c as u32) + 32) as char
    } else {
        c
    }
}

/// Character-wise ASCII lowering of a string.
pub open spec fn lower_chars(s: Seq<char>) -> Seq<char> {
    Seq::new(s.len(), |i: int| lower_char(s[i]))
}

/// Does `a`, lowered, equal `b` (given as it stands)?
pub fn eq_lowered(a: &str, b: &str) -> (r: bool)
    ensures
        r == (lower_chars(a@) == b@),
{
    let na = a.unicode_len();
    let nb = b.unicode_len();
    if na != nb {
        proof {
            assert(lower_chars(a@).len() == a@.len());
            assert(lower_chars(a@) != b@);
        }
        return false;
    }
    let mut k: usize = 0;
    while k < na
        invariant
            na == a@.len() && na == b@.len(),
            k <= na,
            forall|j: int| 0 <= j < k ==> lower_char(a@[j]) == b@[j],
        decreases na - k,
    {
        let ca = a.get_char(k) as u32;
        let cb = b.get_char(k) as u32;
        let la = if 65 <= ca && ca <= 90 {
            ca + 32
        } else {
            ca
        };
        if la != cb {
            proof {
                vstd::utf8::char_u32_cast(a@[k as int], ca);
                vstd::utf8::char_u32_cast(b@[k as int], cb);
                assert(lower_char(a@[k as int]) as u32 == la);
                assert(lower_char(a@[k as int]) != b@[k as int]);
                assert(lower_chars(a@)[k as int] != b@[k as int]);
            }
            return false;
        }
        proof {
            vstd::utf8::char_u32_cast(a@[k as int], ca);
            vstd::utf8::char_u32_cast(b@[k as int], cb);
            if 65 <= ca && ca <= 90 {
                assert(lower_char(a@[k as int]) as u32 == cb);
                vstd::utf8::char_u32_cast(b@[k as int], cb);
                assert(lower_char(a@[k as int]) == (cb as char));
                assert(lower_char(a@[k as int]) == b@[k as int]);
            } else {
                assert(lower_char(a@[k as int]) == a@[k as int]);
                assert(a@[k as int] == b@[k as int]) by {
                    vstd::utf8::char_u32_cast(a@[k as int], cb);
                }
            }
        }
        k = k + 1;
    }
    proof {
        assert(lower_chars(a@) =~= b@);
    }
    true
}

/// Index just after the last separator, or 0 when there is none: where
/// the final path component begins.
pub open spec fn comp_start(p: Seq<char>) -> int {
    last_sep_before(p, p.len() as int)
}

/// One past the last separator strictly before `end`, or 0.
pub open spec fn last_sep_before(p: Seq<char>, end: int) -> int
    decreases end,
{
    if end <= 0 {
        0
    } else if p[end - 1] == '/' || p[end - 1] == '\\' {
        end
    } else {
        last_sep_before(p, end - 1)
    }
}

/// Position of the dot that starts the extension: the last dot at or
/// after the final component's start, or -1 when there is none.
pub open spec fn ext_dot(p: Seq<char>) -> int {
    last_dot_before(p, p.len() as int)
}

pub open spec fn last_dot_before(p: Seq<char>, end: int) -> int
    decreases end,
{
    if end <= 0 || end <= comp_start(p) {
        -1
    } else if p[end - 1] == '.' {
        end - 1
    } else {
        last_dot_before(p, end - 1)
    }
}

/// The extension of a path: what follows the dot, when a dot exists in
/// the last component.
pub open spec fn ext_of(p: Seq<char>) -> Option<Seq<char>> {
    if ext_dot(p) >= 0 {
        Some(p.subrange(ext_dot(p) + 1, p.len() as int))
    } else {
        None
    }
}

/// The path with its extension replaced (or appended): everything up to
/// the extension dot, a dot, and the new extension.
pub open spec fn with_ext(p: Seq<char>, ext: Seq<char>) -> Seq<char> {
    if ext_dot(p) >= 0 {
        p.subrange(0, ext_dot(p)) + seq!['.'] + ext
    } else {
        p + seq!['.'] + ext
    }
}

proof fn lemma_last_sep_before_bounds(p: Seq<char>, end: int)
    requires
        0 <= end <= p.len(),
    ensures
        0 <= last_sep_before(p, end) <= end,
    decreases end,
{
    if end > 0 && !(p[end - 1] == '/' || p[end - 1] == '\\') {
        lemma_last_sep_before_bounds(p, end - 1);
    }
}

proof fn lemma_last_dot_before_bounds(p: Seq<char>, end: int)
    requires
        0 <= end <= p.len(),
        comp_start(p) >= 0,
    ensures
        last_dot_before(p, end) == -1 || comp_start(p) <= last_dot_before(p, end) < end,
    decreases end,
{
    if end > comp_start(p) && p[end - 1] != '.' {
        lemma_last_dot_before_bounds(p, end - 1);
    }
}

/// Bounds of the extension dot.
pub proof fn lemma_ext_dot_bounds(p: Seq<char>)
    ensures
        ext_dot(p) == -1 || 0 <= ext_dot(p) < p.len(),
{
    lemma_last_sep_before_bounds(p, p.len() as int);
    lemma_last_dot_before_bounds(p, p.len() as int);
}

/// Finds one past the last separator of a string.
fn find_comp_start(p: &str) -> (r: usize)
    ensures
        r as int == comp_start(p@),
        r <= p@.len(),
{
    let n = p.unicode_len();
    let mut end = n;
    while end > 0 && p.get_char(end - 1) != '/' && p.get_char(end - 1) != '\\'
        invariant
            end <= n,
            n == p@.len(),
            last_sep_before(p@, n as int) == last_sep_before(p@, end as int),
        decreases end,
    {
        end = end - 1;
    }
    end
}

/// Finds the extension dot of a string, or its length when there is none.
fn find_ext_dot(p: &str) -> (r: Option<usize>)
    ensures
        match r {
            Some(d) => ext_dot(p@) == d as int && d < p@.len(),
            None => ext_dot(p@) == -1,
        },
{
    let n = p.unicode_len();
    let cs = find_comp_start(p);
    let mut end = n;
    while end > cs && p.get_char(end - 1) != '.'
        invariant
            end <= n,
            n == p@.len(),
            cs as int == comp_start(p@),
            last_dot_before(p@, n as int) == last_dot_before(p@, end as int),
        decreases end,
    {
        end = end - 1;
    }
    if end > cs {
        proof {
            assert(last_dot_before(p@, end as int) == end - 1);
        }
        Some(end - 1)
    } else {
        proof {
            assert(last_dot_before(p@, end as int) == -1);
        }
        None
    }
}

/// The extension of a path string, if any.
pub fn path_extension(p: &str) -> (r: Option<String>)
    ensures
        match r {
            Some(e) => ext_of(p@) == Some(e@),
            None => ext_of(p@) is None,
        },
{
    match find_ext_dot(p) {
        Some(d) => {
            let n = p.unicode_len();
            let e = p.substring_char(d + 1, n);
            Some(e.to_owned())
        }
        None => None,
    }
}

/// The path with its extension replaced by `ext`.
pub fn path_with_extension(p: &str, ext: &str) -> (r: String)
    ensures
        r@ == with_ext(p@, ext@),
{
    let mut out: String;
    match find_ext_dot(p) {
        Some(d) => {
            let stem = p.substring_char(0, d);
            out = stem.to_owned();
        }
        None => {
            out = p.to_owned();
        }
    }
    out.append(".");
    out.append(ext);
    proof {
        reveal_strlit(".");
        assert("."@ =~= seq!['.']);
        assert(out@ =~= with_ext(p@, ext@));
    }
    out
}

proof fn lemma_last_sep_skip(q: Seq<char>, stop: int, end: int)
    requires
        0 <= stop <= end <= q.len(),
        forall|i: int| stop <= i < end ==> #[trigger] q[i] != '/' && q[i] != '\\',
    ensures
        last_sep_before(q, end) == last_sep_before(q, stop),
    decreases end - stop,
{
    if stop < end {
        lemma_last_sep_skip(q, stop, end - 1);
    }
}

proof fn lemma_last_dot_skip(q: Seq<char>, stop: int, end: int)
    requires
        0 <= stop <= end <= q.len(),
        comp_start(q) <= stop,
        forall|i: int| stop <= i < end ==> #[trigger] q[i] != '.',
    ensures
        last_dot_before(q, end) == last_dot_before(q, stop),
    decreases end - stop,
{
    if stop < end {
        lemma_last_dot_skip(q, stop, end - 1);
    }
}

/// Replacing a path's extension with one that holds no dot and no
/// separator yields a path whose extension is exactly that one.
pub proof fn lemma_with_ext_ext(p: Seq<char>, ext: Seq<char>)
    requires
        forall|i: int| 0 <= i < ext.len() ==> #[trigger] ext[i] != '.' && ext[i] != '/'
            && ext[i] != '\\',
    ensures
        ext_of(with_ext(p, ext)) == Some(ext),
{
    lemma_ext_dot_bounds(p);
    let pre = if ext_dot(p) >= 0 {
        p.subrange(0, ext_dot(p))
    } else {
        p
    };
    let q = with_ext(p, ext);
    assert(q =~= pre + seq!['.'] + ext);
    let dotpos = pre.len() as int;
    assert(q[dotpos] == '.');
    assert forall|i: int| dotpos <= i < q.len() implies #[trigger] q[i] != '/' && q[i]
        != '\\' by {
        if i > dotpos {
            assert(q[i] == ext[i - dotpos - 1]);
        }
    }
    lemma_last_sep_skip(q, dotpos, q.len() as int);
    lemma_last_sep_before_bounds(q, dotpos);
    assert(comp_start(q) <= dotpos);
    assert forall|i: int| dotpos + 1 <= i < q.len() implies #[trigger] q[i] != '.' by {
        assert(q[i] == ext[i - dotpos - 1]);
    }
    lemma_last_dot_skip(q, dotpos + 1, q.len() as int);
    assert(last_dot_before(q, dotpos + 1) == dotpos);
    assert(ext_dot(q) == dotpos);
    assert(q.subrange(dotpos + 1, q.len() as int) =~= ext);
}

/// The token after the last underscore of the last component's stem:
/// the candidate image name a sidecar's file name points at.
pub open spec fn stem_end(p: Seq<char>) -> int {
    if ext_dot(p) >= 0 {
        ext_dot(p)
    } else {
        p.len() as int
    }
}

pub open spec fn last_underscore_before(p: Seq<char>, end: int) -> int
    decreases end,
{
    if end <= 0 || end <= comp_start(p) {
        comp_start(p)
    } else if p[end - 1] == '_' {
        end
    } else {
        last_underscore_before(p, end - 1)
    }
}

/// The stem token: from just after the last underscore of the stem (or
/// the component start) up to the extension dot.
pub open spec fn stem_token(p: Seq<char>) -> Seq<char> {
    p.subrange(last_underscore_before(p, stem_end(p)), stem_end(p))
}

proof fn lemma_last_underscore_bounds(p: Seq<char>, end: int)
    requires
        comp_start(p) <= end <= p.len(),
        0 <= comp_start(p),
    ensures
        comp_start(p) <= last_underscore_before(p, end) <= end,
    decreases end,
{
    if end > comp_start(p) && p[end - 1] != '_' {
        lemma_last_underscore_bounds(p, end - 1);
    }
}

/// The token a sidecar file name designates.
pub fn path_stem_token(p: &str) -> (r: String)
    ensures
        r@ == stem_token(p@),
{
    let n = p.unicode_len();
    let cs = find_comp_start(p);
    let se: usize = match find_ext_dot(p) {
        Some(d) => d,
        None => n,
    };
    proof {
        lemma_ext_dot_bounds(p@);
        lemma_last_sep_before_bounds(p@, p@.len() as int);
        lemma_last_dot_before_bounds(p@, p@.len() as int);
        assert(cs <= se);
    }
    let mut end = se;
    while end > cs && p.get_char(end - 1) != '_'
        invariant
            cs <= end <= se,
            se <= n,
            n == p@.len(),
            cs as int == comp_start(p@),
            se as int == stem_end(p@),
            last_underscore_before(p@, se as int) == last_underscore_before(p@, end as int),
        decreases end,
    {
        end = end - 1;
    }
    let start: usize = end;
    proof {
        assert(last_underscore_before(p@, end as int) == start);
    }
    let tok = p.substring_char(start, se);
    tok.to_owned()
}

/// Joins a directory and a file name with a forward slash.
pub fn path_join(dir: &str, name: &str) -> (r: String)
    ensures
        r@ == dir@ + seq!['/'] + name@,
{
    let mut out = dir.to_owned();
    out.append("/");
    out.append(name);
    proof {
        reveal_strlit("/");
        assert("/"@ =~= seq!['/']);
        assert(out@ =~= dir@ + seq!['/'] + name@);
    }
    out
}

} // verus!
