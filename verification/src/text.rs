use vstd::prelude::*;

verus! {

/// Lexicographic order on character sequences by code point, the order the
/// store sorts its text columns in (binary collation).
pub open spec fn chars_le(a: Seq<char>, b: Seq<char>) -> bool
    decreases a.len(),
{
    if a.len() == 0 {
        true
    } else if b.len() == 0 {
        false
    } else if (a[0] as u32) < (b[0] as u32) {
        true
    } else if (a[0] as u32) > (b[0] as u32) {
        false
    } else {
        chars_le(a.skip(1), b.skip(1))
    }
}

/// Any two character sequences are ordered one way or the other.
pub proof fn lemma_chars_le_total(a: Seq<char>, b: Seq<char>)
    ensures
        chars_le(a, b) || chars_le(b, a),
    decreases a.len(),
{
    if a.len() == 0 || b.len() == 0 {
    } else if (a[0] as u32) == (b[0] as u32) {
        lemma_chars_le_total(a.skip(1), b.skip(1));
    }
}

/// The order on character sequences is transitive.
pub proof fn lemma_chars_le_trans(a: Seq<char>, b: Seq<char>, c: Seq<char>)
    requires
        chars_le(a, b),
        chars_le(b, c),
    ensures
        chars_le(a, c),
    decreases a.len(),
{
    if a.len() == 0 {
    } else if b.len() == 0 {
    } else if c.len() == 0 {
    } else {
        if (a[0] as u32) == (b[0] as u32) && (b[0] as u32) == (c[0] as u32) {
            lemma_chars_le_trans(a.skip(1), b.skip(1), c.skip(1));
        }
    }
}

/// Compare two strings in code point order: true when `a` sorts no later
/// than `b`.
pub fn str_le(a: &str, b: &str) -> (r: bool)
    ensures
        r == chars_le(a@, b@),
{
    let na = a.unicode_len();
    let nb = b.unicode_len();
    let mut i: usize = 0;
    proof {
        assert(a@.skip(0) =~= a@);
        assert(b@.skip(0) =~= b@);
    }
    while i < na && i < nb
        invariant
            na == a@.len(),
            nb == b@.len(),
            i <= na,
            i <= nb,
            chars_le(a@, b@) == chars_le(a@.skip(i as int), b@.skip(i as int)),
        decreases na - i,
    {
        let ca = a.get_char(i) as u32;
        let cb = b.get_char(i) as u32;
        proof {
            assert(a@.skip(i as int)[0] == a@[i as int]);
            assert(b@.skip(i as int)[0] == b@[i as int]);
        }
        if ca < cb {
            return true;
        }
        if ca > cb {
            return false;
        }
        proof {
            assert(a@.skip(i as int).skip(1) =~= a@.skip(i + 1));
            assert(b@.skip(i as int).skip(1) =~= b@.skip(i + 1));
        }
        i += 1;
    }
    proof {
        if na <= nb {
            assert(a@.skip(i as int).len() == 0);
        } else {
            assert(b@.skip(i as int).len() == 0);
            assert(a@.skip(i as int).len() > 0);
        }
    }
    na <= nb
}

/// The code point of a character with the ASCII capitals folded to their
/// lower-case counterparts; other characters are untouched.
pub open spec fn lower_code(c: char) -> int {
    if 65 <= c as u32 <= 90 {
        c as u32 + 32
    } else {
        c as u32 as int
    }
}

/// `needle` occurs in `hay` at position `i`, compared without regard to
/// ASCII case.
pub open spec fn ci_match_at(hay: Seq<char>, needle: Seq<char>, i: int) -> bool {
    &&& 0 <= i
    &&& i + needle.len() <= hay.len()
    &&& forall|j: int|
        0 <= j < needle.len() ==> lower_code(hay[i + j]) == lower_code(#[trigger] needle[j])
}

/// `needle` occurs somewhere in `hay`, compared without regard to ASCII
/// case. This is the store's filename search predicate.
pub open spec fn contains_ci(hay: Seq<char>, needle: Seq<char>) -> bool {
    exists|i: int| ci_match_at(hay, needle, i)
}

/// The code points of a string with ASCII capitals folded to lower case.
fn lowered_codes(s: &str) -> (v: Vec<u32>)
    ensures
        v@.len() == s@.len(),
        forall|k: int| 0 <= k < s@.len() ==> v@[k] == lower_code(s@[k]),
{
    let n = s.unicode_len();
    let mut v: Vec<u32> = Vec::new();
    let mut i: usize = 0;
    while i < n
        invariant
            n == s@.len(),
            i <= n,
            v@.len() == i,
            forall|k: int| 0 <= k < i ==> v@[k] == lower_code(s@[k]),
        decreases n - i,
    {
        let c = s.get_char(i) as u32;
        let folded = if 65 <= c && c <= 90 {
            c + 32
        } else {
            c
        };
        v.push(folded);
        i += 1;
    }
    v
}

/// Does `needle` occur in `hay`, compared without regard to ASCII case?
pub fn str_contains_ci(hay: &str, needle: &str) -> (r: bool)
    ensures
        r == contains_ci(hay@, needle@),
{
    let h = lowered_codes(hay);
    let m = lowered_codes(needle);
    let nh = h.len();
    let nm = m.len();
    if nm > nh {
        proof {
            assert(!contains_ci(hay@, needle@));
        }
        return false;
    }
    let mut i: usize = 0;
    while i <= nh - nm
        invariant
            nh == hay@.len(),
            nm == needle@.len(),
            nm <= nh,
            i <= nh - nm + 1,
            h@.len() == nh,
            m@.len() == nm,
            forall|k: int| 0 <= k < nh ==> h@[k] == lower_code(hay@[k]),
            forall|k: int| 0 <= k < nm ==> m@[k] == lower_code(needle@[k]),
            forall|p: int| 0 <= p < i ==> !ci_match_at(hay@, needle@, p),
        decreases nh + 1 - nm - i,
    {
        let mut j: usize = 0;
        let mut hit = true;
        while j < nm
            invariant
                nh == hay@.len(),
                nm == needle@.len(),
                i + nm <= nh,
                j <= nm,
                h@.len() == nh,
                m@.len() == nm,
                forall|k: int| 0 <= k < nh ==> h@[k] == lower_code(hay@[k]),
                forall|k: int| 0 <= k < nm ==> m@[k] == lower_code(needle@[k]),
                hit ==> forall|k: int|
                    0 <= k < j ==> lower_code(hay@[i + k]) == lower_code(#[trigger] needle@[k]),
                !hit ==> !ci_match_at(hay@, needle@, i as int),
            ensures
                hit ==> forall|k: int|
                    0 <= k < nm ==> lower_code(hay@[i + k]) == lower_code(#[trigger] needle@[k]),
                !hit ==> !ci_match_at(hay@, needle@, i as int),
            decreases nm - j,
        {
            if h[i + j] != m[j] {
                proof {
                    assert(lower_code(hay@[i + j]) != lower_code(needle@[j as int]));
                }
                hit = false;
                break ;
            }
            j += 1;
        }
        if hit {
            proof {
                assert(ci_match_at(hay@, needle@, i as int));
            }
            return true;
        }
        i += 1;
    }
    proof {
        assert forall|p: int| true implies !ci_match_at(hay@, needle@, p) by {
            if 0 <= p && p + needle@.len() <= hay@.len() {
                assert(p < i);
            }
        }
    }
    false
}

/// The characters after the last slash of a path; empty when the path ends
/// in a slash.
pub open spec fn after_last_slash(s: Seq<char>) -> Seq<char>
    decreases s.len(),
{
    if s.len() == 0 {
        s
    } else if s.last() == '/' {
        Seq::empty()
    } else {
        after_last_slash(s.drop_last()).push(s.last())
    }
}

/// The file name of a path: the component after the last slash, or the
/// whole path when it has no slash or ends in one.
pub open spec fn filename_view(s: Seq<char>) -> Seq<char> {
    if after_last_slash(s).len() == 0 {
        s
    } else {
        after_last_slash(s)
    }
}

proof fn lemma_after_last_slash_at(s: Seq<char>, j: int)
    requires
        0 <= j < s.len(),
        s[j] == '/',
        forall|k: int| j < k < s.len() ==> s[k] != '/',
    ensures
        after_last_slash(s) == s.subrange(j + 1, s.len() as int),
    decreases s.len(),
{
    if j == s.len() - 1 {
        assert(after_last_slash(s) =~= s.subrange(j + 1, s.len() as int));
    } else {
        assert(s.last() != '/');
        lemma_after_last_slash_at(s.drop_last(), j);
        assert(after_last_slash(s) == after_last_slash(s.drop_last()).push(s.last()));
        assert(after_last_slash(s) =~= s.subrange(j + 1, s.len() as int));
    }
}

proof fn lemma_after_last_slash_none(s: Seq<char>)
    requires
        forall|k: int| 0 <= k < s.len() ==> s[k] != '/',
    ensures
        after_last_slash(s) == s,
    decreases s.len(),
{
    if s.len() == 0 {
    } else {
        lemma_after_last_slash_none(s.drop_last());
        assert(after_last_slash(s) =~= s);
    }
}

/// The file name component of a path: everything after the last slash, or
/// the path itself when it has no slash or nothing follows the last one.
pub fn filename_of_path(path: &str) -> (r: String)
    ensures
        r@ == filename_view(path@),
{
    let n = path.unicode_len();
    let mut i: usize = n;
    while i > 0
        invariant
            n == path@.len(),
            i <= n,
            forall|k: int| i <= k < n ==> path@[k] != '/',
        decreases i,
    {
        if path.get_char(i - 1) == '/' {
            proof {
                lemma_after_last_slash_at(path@, i - 1);
            }
            let tail = path.substring_char(i, n);
            if tail.unicode_len() == 0 {
                return path.to_owned();
            }
            return tail.to_owned();
        }
        i -= 1;
    }
    proof {
        lemma_after_last_slash_none(path@);
    }
    path.to_owned()
}

/// The characters after the last dot of a file name; empty when the name
/// ends in a dot.
pub open spec fn after_last_dot(s: Seq<char>) -> Seq<char>
    decreases s.len(),
{
    if s.len() == 0 {
        s
    } else if s.last() == '.' {
        Seq::empty()
    } else {
        after_last_dot(s.drop_last()).push(s.last())
    }
}

/// The file name carries an extension: a dot stands somewhere past its
/// first character. A lone leading dot marks a hidden file, not an
/// extension.
pub open spec fn has_extension(name: Seq<char>) -> bool {
    exists|i: int| 1 <= i < name.len() && name[i] == '.'
}

/// The character `c` with an ASCII capital folded to its lower-case
/// counterpart; every other character is untouched.
pub open spec fn lower_char(c: char) -> char {
    if 65 <= c as u32 <= 90 {
        (((c as u32) + 32) as u32) as char
    } else {
        c
    }
}

/// The characters of `s` with the ASCII capitals folded to lower case.
pub open spec fn lower_chars(s: Seq<char>) -> Seq<char> {
    s.map_values(|c: char| lower_char(c))
}

/// The format token of a path: the extension of its file name component
/// (what follows the last dot, when one stands past the name's first
/// character), folded to ASCII lower case; "unknown" for a name without
/// an extension.
pub open spec fn format_token(path: Seq<char>) -> Seq<char> {
    let name = filename_view(path);
    if has_extension(name) {
        lower_chars(after_last_dot(name))
    } else {
        "unknown"@
    }
}

/// Relies on str::to_ascii_lowercase: maps each ASCII capital to its
/// lower-case counterpart and leaves every other character unchanged.
#[verifier::external_body]
fn ascii_lowercase(s: &str) -> (r: String)
    ensures
        r@ == lower_chars(s@),
{
    s.to_ascii_lowercase()
}

proof fn lemma_after_last_dot_at(s: Seq<char>, j: int)
    requires
        0 <= j < s.len(),
        s[j] == '.',
        forall|k: int| j < k < s.len() ==> s[k] != '.',
    ensures
        after_last_dot(s) == s.subrange(j + 1, s.len() as int),
    decreases s.len(),
{
    if j == s.len() - 1 {
        assert(after_last_dot(s) =~= s.subrange(j + 1, s.len() as int));
    } else {
        assert(s.last() != '.');
        lemma_after_last_dot_at(s.drop_last(), j);
        assert(after_last_dot(s) == after_last_dot(s.drop_last()).push(s.last()));
        assert(after_last_dot(s) =~= s.subrange(j + 1, s.len() as int));
    }
}

/// The format token of a path, the value the registration stores in the
/// record's `format` column.
pub fn format_token_of_path(path: &str) -> (r: String)
    ensures
        r@ == format_token(path@),
{
    let name = filename_of_path(path);
    let n = name.as_str().unicode_len();
    let mut i: usize = n;
    while i > 0
        invariant
            n == name@.len(),
            i <= n,
            forall|k: int| i <= k < n ==> name@[k] != '.',
            name@ == filename_view(path@),
        decreases i,
    {
        if name.as_str().get_char(i - 1) == '.' {
            if i - 1 == 0 {
                proof {
                    assert(!has_extension(name@));
                }
                return "unknown".to_owned();
            }
            proof {
                assert(1 <= i - 1 < name@.len() && name@[i - 1] == '.');
                assert(has_extension(name@));
                lemma_after_last_dot_at(name@, i - 1);
            }
            let ext = name.as_str().substring_char(i, n);
            return ascii_lowercase(ext);
        }
        i -= 1;
    }
    proof {
        assert(!has_extension(name@));
    }
    "unknown".to_owned()
}

} // verus!
