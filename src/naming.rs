//! File names supplied by clients, and the storage paths derived from them.

use vstd::prelude::*;
use vstd::string::*;

verus! {

/// A path separator, on any platform the store serves.
pub open spec fn is_separator(c: char) -> bool {
    c == '/' || c == '\\'
}

/// The characters of `s` that are not path separators, in order.
pub open spec fn strip_separators(s: Seq<char>) -> Seq<char>
    decreases s.len(),
{
    if s.len() == 0 {
        Seq::empty()
    } else if is_separator(s.last()) {
        strip_separators(s.drop_last())
    } else {
        strip_separators(s.drop_last()).push(s.last())
    }
}

/// `s` with every `..` removed, the pairs matched left to right without overlap.
pub open spec fn strip_dot_pairs(s: Seq<char>) -> Seq<char>
    decreases s.len(),
{
    if s.len() < 2 {
        s
    } else if s[0] == '.' && s[1] == '.' {
        strip_dot_pairs(s.subrange(2, s.len() as int))
    } else {
        seq![s[0]] + strip_dot_pairs(s.subrange(1, s.len() as int))
    }
}

/// The storage key of a client-supplied name: its separators removed, then its `..` pairs.
pub open spec fn sanitized(name: Seq<char>) -> Seq<char> {
    strip_dot_pairs(strip_separators(name))
}

spec fn chars_at(s: Seq<char>, pos: Seq<usize>) -> Seq<char> {
    pos.map_values(|p: usize| s[p as int])
}

/// Removes every path separator (`/`, `\`) from `name`, then every `..`, so
/// that the result can stand as one path component under the upload root.
pub fn sanitize_file_name(name: &str) -> (r: String)
    ensures
        r@ == sanitized(name@),
{
    let n = name.unicode_len();
    let mut kept: Vec<usize> = Vec::new();
    let mut i: usize = 0;
    while i < n
        invariant
            n == name@.len(),
            i <= n,
            forall|k: int| 0 <= k < kept@.len() ==> kept@[k] < n,
            chars_at(name@, kept@) == strip_separators(name@.subrange(0, i as int)),
        decreases n - i,
    {
        let c = name.get_char(i);
        let ghost before = kept@;
        assert(name@.subrange(0, i + 1).drop_last() == name@.subrange(0, i as int));
        if c != '/' && c != '\\' {
            kept.push(i);
            assert(chars_at(name@, kept@) =~= chars_at(name@, before).push(c));
        }
        i += 1;
    }
    assert(name@.subrange(0, n as int) == name@);
    let ghost f = chars_at(name@, kept@);
    let mut out = String::new();
    let mut j: usize = 0;
    assert(f.subrange(0, f.len() as int) =~= f);
    assert(out@ + strip_dot_pairs(f) =~= strip_dot_pairs(f));
    while j < kept.len()
        invariant
            n == name@.len(),
            forall|k: int| 0 <= k < kept@.len() ==> kept@[k] < n,
            f == chars_at(name@, kept@),
            j <= kept@.len(),
            sanitized(name@) == out@ + strip_dot_pairs(f.subrange(j as int, f.len() as int)),
        decreases kept@.len() - j,
    {
        let ghost rest = f.subrange(j as int, f.len() as int);
        let p = kept[j];
        if j + 1 < kept.len() && name.get_char(p) == '.' && name.get_char(kept[j + 1]) == '.' {
            assert(rest.subrange(2, rest.len() as int) =~= f.subrange(j + 2, f.len() as int));
            j += 2;
        } else {
            let piece = name.substring_char(p, p + 1);
            let ghost old_out = out@;
            out.append(piece);
            assert(piece@ =~= seq![rest[0]]);
            assert(rest.subrange(1, rest.len() as int) =~= f.subrange(j + 1, f.len() as int));
            proof {
                if rest.len() == 1 {
                    assert(rest.subrange(1, 1) =~= Seq::<char>::empty());
                    assert(rest =~= seq![rest[0]] + Seq::<char>::empty());
                }
            }
            assert(old_out + (seq![rest[0]] + strip_dot_pairs(f.subrange(j + 1, f.len() as int)))
                =~= out@ + strip_dot_pairs(f.subrange(j + 1, f.len() as int)));
            j += 1;
        }
    }
    assert(f.subrange(j as int, f.len() as int) =~= Seq::<char>::empty());
    assert(out@ + Seq::<char>::empty() =~= out@);
    out
}

/// The root under which assembled files are stored.
pub const UPLOAD_ROOT: &'static str = "uploads/";

/// The directory that takes single-file attachments.
pub const ATTACHMENT_ROOT: &'static str = "./public/uploads/";

/// The path of the assembled file for `file_name`: the upload root, then the
/// name's key.
pub fn stored_path(file_name: &str) -> (r: String)
    ensures
        r@ == UPLOAD_ROOT@ + sanitized(file_name@),
{
    let key = sanitize_file_name(file_name);
    let mut path = UPLOAD_ROOT.to_owned();
    path.append(key.as_str());
    path
}

/// The path of a single-file attachment: the attachment directory, then the
/// time stamp, `_`, and the key of the client's name.
pub fn attachment_path(stamp: &str, file_name: &str) -> (r: String)
    ensures
        r@ == ATTACHMENT_ROOT@ + stamp@ + "_"@ + sanitized(file_name@),
{
    let key = sanitize_file_name(file_name);
    let mut path = ATTACHMENT_ROOT.to_owned();
    path.append(stamp);
    path.append("_");
    path.append(key.as_str());
    path
}

/// No character of `s` is a path separator.
pub open spec fn no_separator(s: Seq<char>) -> bool {
    forall|i: int| 0 <= i < s.len() ==> !is_separator(#[trigger] s[i])
}

/// No two adjacent characters of `s` are both `.`.
pub open spec fn no_dot_pair(s: Seq<char>) -> bool {
    forall|i: int| 0 <= i < s.len() - 1 ==> !(#[trigger] s[i] == '.' && s[i + 1] == '.')
}

proof fn lemma_strip_separators_clean(s: Seq<char>)
    ensures
        no_separator(strip_separators(s)),
    decreases s.len(),
{
    if s.len() > 0 {
        lemma_strip_separators_clean(s.drop_last());
    }
}

proof fn lemma_strip_dot_pairs_clean(s: Seq<char>)
    requires
        no_separator(s),
    ensures
        no_separator(strip_dot_pairs(s)),
        no_dot_pair(strip_dot_pairs(s)),
    decreases s.len(),
{
    if s.len() >= 2 {
        let r2 = s.subrange(2, s.len() as int);
        let r1 = s.subrange(1, s.len() as int);
        if s[0] == '.' && s[1] == '.' {
            assert(no_separator(r2)) by {
                assert forall|i: int| 0 <= i < r2.len() implies !is_separator(#[trigger] r2[i]) by {
                    assert(r2[i] == s[i + 2]);
                }
            }
            lemma_strip_dot_pairs_clean(r2);
        } else {
            assert(no_separator(r1)) by {
                assert forall|i: int| 0 <= i < r1.len() implies !is_separator(#[trigger] r1[i]) by {
                    assert(r1[i] == s[i + 1]);
                }
            }
            lemma_strip_dot_pairs_clean(r1);
            let t = strip_dot_pairs(r1);
            let out = seq![s[0]] + t;
            assert(out == strip_dot_pairs(s));
            if r1.len() >= 2 {
                assert(r1[0] == s[1]);
            }
            assert(s[0] == '.' ==> t.len() > 0 && t[0] == s[1]);
            assert forall|i: int| 0 <= i < out.len() implies !is_separator(#[trigger] out[i]) by {
                if i > 0 {
                    assert(out[i] == t[i - 1]);
                }
            }
            assert forall|i: int| 0 <= i < out.len() - 1 implies !(#[trigger] out[i] == '.' && out[i + 1] == '.') by {
                if i > 0 {
                    assert(out[i] == t[i - 1]);
                    assert(out[i + 1] == t[i]);
                }
            }
        }
    }
}

/// Sanitisation confines a name to one path component: the key it gives
/// holds no path separator and no `..`, so a path built as root, `/`, key
/// never leaves the root.
pub proof fn lemma_sanitized_stays_in_root(name: Seq<char>)
    ensures
        no_separator(sanitized(name)),
        no_dot_pair(sanitized(name)),
{
    lemma_strip_separators_clean(name);
    lemma_strip_dot_pairs_clean(strip_separators(name));
}

} // verus!
