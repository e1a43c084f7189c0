//! Paths as strings whose components are separated by `/`.
use crate::text::{
    drop_first_ascii, lemma_ascii_scalar, lemma_no_byte_no_char, lemma_utf8_concat,
    lemma_utf8_injective, split_at_ascii, str_eq,
};
use vstd::prelude::*;
use vstd::utf8::{encode_scalar, encode_utf8};

verus! {

/// The byte of the component separator, `/`.
pub const SEPARATOR_BYTE: u8 = 47;

/// The byte of the dot, `.`.
pub const DOT_BYTE: u8 = 46;

/// Index of the last `c` in `s`, or -1 where `s` has none.
pub open spec fn last_index_of(s: Seq<char>, c: char) -> int
    decreases s.len(),
{
    if s.len() == 0 {
        -1
    } else if s.last() == c {
        s.len() - 1
    } else {
        last_index_of(s.drop_last(), c)
    }
}

/// Where `last_index_of` points: at a `c` with none after it, or nowhere
/// when there is no `c`.
pub proof fn lemma_last_index_of(s: Seq<char>, c: char)
    ensures
        -1 <= last_index_of(s, c) < s.len(),
        last_index_of(s, c) >= 0 ==> s[last_index_of(s, c)] == c,
        forall|j: int| last_index_of(s, c) < j < s.len() ==> s[j] != c,
    decreases s.len(),
{
    if s.len() == 0 || s.last() == c {
    } else {
        let t = s.drop_last();
        lemma_last_index_of(t, c);
        assert forall|j: int| last_index_of(s, c) < j < s.len() implies s[j] != c by {
            if j < t.len() {
                assert(s[j] == t[j]);
            }
        }
    }
}

/// The part of a path after its last separator: the whole path where it has
/// none.
pub open spec fn file_name(path: Seq<char>) -> Seq<char> {
    path.subrange(last_index_of(path, '/') + 1, path.len() as int)
}

/// The extension of a path: what follows the last dot of its file name.
/// There is none where the name has no dot, where its only dot stands first,
/// and for the name `..`.
pub open spec fn file_extension(path: Seq<char>) -> Option<Seq<char>> {
    let name = file_name(path);
    let dot = last_index_of(name, '.');
    if dot <= 0 || name == seq!['.', '.'] {
        None
    } else {
        Some(name.subrange(dot + 1, name.len() as int))
    }
}

/// Splits a string at the last occurrence of the ASCII character with code
/// `c`: what stands before it and what stands after it.
pub(crate) fn rsplit_ascii<'a>(s: &'a str, c: u8) -> (r: Option<(&'a str, &'a str)>)
    requires
        c < 0x80,
    ensures
        r is None <==> last_index_of(s@, c as char) < 0,
        r matches Some(parts) ==> {
            &&& parts.0@ == s@.subrange(0, last_index_of(s@, c as char))
            &&& parts.1@ == s@.subrange(last_index_of(s@, c as char) + 1, s@.len() as int)
        },
{
    let bytes = s.as_bytes();
    let mut p: usize = bytes.len();
    while p > 0 && bytes[p - 1] != c
        invariant
            p <= bytes@.len(),
            forall|j: int| p <= j < bytes@.len() ==> bytes@[j] != c,
        decreases p,
    {
        p -= 1;
    }
    proof {
        lemma_last_index_of(s@, c as char);
    }
    if p == 0 {
        proof {
            lemma_no_byte_no_char(s@, c);
        }
        None
    } else {
        let (before, tail) = split_at_ascii(s, p - 1);
        let after = drop_first_ascii(tail);
        proof {
            let b = encode_utf8(s@);
            lemma_ascii_scalar(c);
            let tb = encode_utf8(tail@);
            assert(tb == encode_scalar(tail@[0] as u32) + encode_utf8(after@));
            assert(encode_scalar(tail@[0] as u32) == seq![c]);
            assert(encode_utf8(after@) =~= tb.subrange(1, tb.len() as int));
            assert(encode_utf8(after@) =~= b.subrange(p as int, b.len() as int));
            lemma_no_byte_no_char(after@, c);
            let k = before@.len() as int;
            assert(s@ =~= before@ + seq![c as char] + after@);
            assert(s@[k] == c as char);
            assert forall|j: int| k < j < s@.len() implies s@[j] != c as char by {
                assert(s@[j] == after@[j - k - 1]);
            }
            assert(before@ =~= s@.subrange(0, k));
            assert(after@ =~= s@.subrange(k + 1, s@.len() as int));
        }
        Some((before, after))
    }
}

/// The extension of a path, by `file_extension`.
pub fn extension_of<'a>(path: &'a str) -> (r: Option<&'a str>)
    ensures
        r is Some == file_extension(path@) is Some,
        r matches Some(ext) ==> Some(ext@) == file_extension(path@),
{
    let name = match rsplit_ascii(path, SEPARATOR_BYTE) {
        Some((_, name)) => name,
        None => path,
    };
    proof {
        lemma_last_index_of(path@, '/');
        assert(SEPARATOR_BYTE as char == '/');
        assert(DOT_BYTE as char == '.');
        assert(path@.subrange(0, path@.len() as int) =~= path@);
        assert(name@ == file_name(path@));
        lemma_last_index_of(name@, '.');
        reveal_strlit("..");
        assert(".."@ =~= seq!['.', '.']);
    }
    if str_eq(name, "..") {
        return None;
    }
    match rsplit_ascii(name, DOT_BYTE) {
        None => None,
        Some((stem, ext)) => {
            if stem.is_empty() {
                None
            } else {
                Some(ext)
            }
        },
    }
}

/// A path below `base`: the two joined by one separator, which is left out
/// where `base` is empty or ends in one.
pub open spec fn joined(base: Seq<char>, name: Seq<char>) -> Seq<char> {
    if base.len() == 0 || base.last() == '/' {
        base + name
    } else {
        base + seq!['/'] + name
    }
}

/// The path of `name` below `base`.
pub fn join_path(base: &str, name: &str) -> (r: String)
    ensures
        r@ == joined(base@, name@),
{
    let mut path = base.to_owned();
    let bare = match rsplit_ascii(base, SEPARATOR_BYTE) {
        Some((_, after)) => after.is_empty(),
        None => base.is_empty(),
    };
    proof {
        lemma_last_index_of(base@, '/');
        assert(SEPARATOR_BYTE as char == '/');
        reveal_strlit("/");
        assert("/"@ =~= seq!['/']);
    }
    if !bare {
        path.append("/");
    }
    path.append(name);
    path
}

/// A directory path without the separator at its end, if it has one.
pub open spec fn trimmed(dir: Seq<char>) -> Seq<char> {
    if dir.len() > 0 && dir.last() == '/' {
        dir.drop_last()
    } else {
        dir
    }
}

/// What is left of a path below `base` when `base` and the separator after
/// it are taken off; nothing where the path is not below `base`.
pub open spec fn below(path: Seq<char>, base: Seq<char>) -> Option<Seq<char>> {
    if path.len() > base.len() && path.subrange(0, base.len() as int) == base && path[base.len() as int]
        == '/' {
        Some(path.subrange(base.len() as int + 1, path.len() as int))
    } else {
        None
    }
}

/// Whether `path` is `dir` or lies below it.
pub open spec fn is_under(path: Seq<char>, dir: Seq<char>) -> bool {
    path == dir || path == trimmed(dir) || below(path, trimmed(dir)) is Some
}

/// The path as seen from `root`: what is left when the root is taken off,
/// and the whole path where it does not lie below the root.
pub open spec fn relative_to(path: Seq<char>, root: Seq<char>) -> Seq<char> {
    match below(path, trimmed(root)) {
        Some(rest) => rest,
        None => if path == root || path == trimmed(root) {
            Seq::empty()
        } else {
            path
        },
    }
}

/// A directory path without the separator at its end, if it has one.
pub fn trim_separator<'a>(dir: &'a str) -> (r: &'a str)
    ensures
        r@ == trimmed(dir@),
{
    proof {
        lemma_last_index_of(dir@, '/');
        assert(SEPARATOR_BYTE as char == '/');
    }
    match rsplit_ascii(dir, SEPARATOR_BYTE) {
        Some((before, after)) => {
            if after.is_empty() {
                assert(before@ =~= dir@.drop_last());
                before
            } else {
                dir
            }
        },
        None => dir,
    }
}

/// What is left of a path below `base`, by `below`.
pub fn strip_base<'a>(path: &'a str, base: &str) -> (r: Option<&'a str>)
    ensures
        r is Some == below(path@, base@) is Some,
        r matches Some(rest) ==> Some(rest@) == below(path@, base@),
{
    let bytes = path.as_bytes();
    let at = base.as_bytes().len();
    let ghost pb = encode_utf8(path@);
    let ghost bb = encode_utf8(base@);
    proof {
        assert(SEPARATOR_BYTE as char == '/');
        if below(path@, base@) is Some {
            let rest = path@.subrange(base@.len() as int, path@.len() as int);
            assert(path@ =~= base@ + rest);
            lemma_utf8_concat(base@, rest);
            assert(rest =~= seq!['/'] + rest.drop_first());
            lemma_utf8_concat(seq!['/'], rest.drop_first());
            lemma_ascii_scalar(SEPARATOR_BYTE);
            assert(seq!['/'].drop_first() =~= Seq::<char>::empty());
            assert(encode_utf8(seq!['/']) =~= seq![SEPARATOR_BYTE]);
            assert(pb[bb.len() as int] == SEPARATOR_BYTE);
        }
    }
    if bytes.len() > at && bytes[at] == SEPARATOR_BYTE {
        let (head, tail) = split_at_ascii(path, at);
        let same = str_eq(head, base);
        proof {
            if below(path@, base@) is Some {
                let rest = path@.subrange(base@.len() as int, path@.len() as int);
                assert(path@ =~= base@ + rest);
                lemma_utf8_concat(base@, rest);
                assert(encode_utf8(head@) =~= bb);
                lemma_utf8_injective(head@, base@);
            }
            if same {
                assert(path@.subrange(0, base@.len() as int) =~= base@);
                assert(path@[base@.len() as int] == tail@[0]);
            }
        }
        if same {
            let rest = drop_first_ascii(tail);
            assert(rest@ =~= path@.subrange(base@.len() as int + 1, path@.len() as int));
            Some(rest)
        } else {
            None
        }
    } else {
        None
    }
}

/// Whether `path` is `dir` or lies below it.
pub fn lies_under(path: &str, dir: &str) -> (r: bool)
    ensures
        r == is_under(path@, dir@),
{
    let base = trim_separator(dir);
    str_eq(path, dir) || str_eq(path, base) || strip_base(path, base).is_some()
}

/// The path as seen from `root`.
pub fn relative_path(path: &str, root: &str) -> (r: String)
    ensures
        r@ == relative_to(path@, root@),
{
    let base = trim_separator(root);
    match strip_base(path, base) {
        Some(rest) => rest.to_owned(),
        None => {
            if str_eq(path, root) || str_eq(path, base) {
                String::new()
            } else {
                path.to_owned()
            }
        },
    }
}

} // verus!
