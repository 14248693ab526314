//! Path text manipulation: joining a relative reference onto a base
//! directory, deriving the adjacent temporary file name used for atomic
//! writes, and recognising record file names.
use vstd::prelude::*;
use vstd::string::StrSliceExecFns;
use vstd::string::StringExecFns;

use crate::text::{chars_of, find_char_from, find_char};

verus! {

/// Joining `rel` onto `base` as `Path::join` does on Unix-style paths: an
/// absolute `rel` replaces `base`; otherwise a single separator stands
/// between them.
pub open spec fn path_join_spec(base: Seq<char>, rel: Seq<char>) -> Seq<char> {
    if rel.len() > 0 && rel[0] == '/' {
        rel
    } else if base.len() == 0 {
        rel
    } else if base.last() == '/' {
        base + rel
    } else {
        base + seq!['/'] + rel
    }
}

pub fn path_join(base: &str, rel: &str) -> (r: String)
    ensures
        r@ == path_join_spec(base@, rel@),
{
    let bn = base.unicode_len();
    let rn = rel.unicode_len();
    if rn > 0 && rel.get_char(0) == '/' {
        return rel.to_owned();
    }
    if bn == 0 {
        return rel.to_owned();
    }
    let mut s = base.to_owned();
    if base.get_char(bn - 1) != '/' {
        s.append("/");
        proof {
            reveal_strlit("/");
            assert("/"@ =~= seq!['/']);
        }
    }
    s.append(rel);
    proof {
        assert(s@ =~= path_join_spec(base@, rel@));
    }
    s
}

/// Index of the last occurrence of `c` in `s`.
pub open spec fn rfind_char(s: Seq<char>, c: char) -> Option<int>
    decreases s.len(),
{
    if s.len() == 0 {
        None
    } else if s.last() == c {
        Some(s.len() - 1)
    } else {
        rfind_char(s.drop_last(), c)
    }
}

pub proof fn lemma_rfind_char_props(s: Seq<char>, c: char)
    ensures
        match rfind_char(s, c) {
            Some(i) => 0 <= i < s.len() && s[i] == c && forall|j: int|
                i < j < s.len() ==> s[j] != c,
            None => forall|j: int| 0 <= j < s.len() ==> s[j] != c,
        },
    decreases s.len(),
{
    if s.len() > 0 && s.last() != c {
        lemma_rfind_char_props(s.drop_last(), c);
        let t = s.drop_last();
        assert(forall|j: int| 0 <= j < t.len() ==> #[trigger] t[j] == s[j]);
        match rfind_char(t, c) {
            Some(i) => {
                assert forall|j: int| i < j < s.len() implies s[j] != c by {
                    if j < t.len() {
                        assert(t[j] != c);
                    } else {
                        assert(s[j] == s.last());
                    }
                }
            },
            None => {
                assert forall|j: int| 0 <= j < s.len() implies s[j] != c by {
                    if j < t.len() {
                        assert(t[j] != c);
                    } else {
                        assert(s[j] == s.last());
                    }
                }
            },
        }
    }
}

/// Index of the last occurrence of `c` in `v`, scanning from the end.
pub fn rfind(v: &Vec<char>, c: char) -> (r: Option<usize>)
    ensures
        r matches Some(i) ==> i < v@.len() && rfind_char(v@, c) == Some(i as int),
        r is None ==> rfind_char(v@, c) is None,
{
    let n = v.len();
    let mut i: usize = n;
    proof {
        assert(v@.subrange(0, n as int) =~= v@);
    }
    while i > 0
        invariant
            i <= n,
            n == v@.len(),
            rfind_char(v@, c) == rfind_char(v@.subrange(0, i as int), c),
        decreases i,
    {
        if v[i - 1] == c {
            proof {
                assert(v@.subrange(0, i as int).last() == v@[i - 1]);
            }
            return Some(i - 1);
        }
        proof {
            assert(v@.subrange(0, i as int).drop_last() =~= v@.subrange(0, i as int - 1));
        }
        i = i - 1;
    }
    None
}

/// Index of the first character of the file name in `p`: right after the
/// last separator, or the start when there is none.
pub open spec fn file_name_start(p: Seq<char>) -> int {
    match rfind_char(p, '/') {
        Some(i) => i + 1,
        None => 0,
    }
}

/// Whether `p` names a record file: its file name carries the record
/// extension after a non-empty stem, as `Path::extension` reads it.
pub open spec fn is_record_path(p: Seq<char>) -> bool {
    let ns = file_name_start(p);
    &&& p.len() - ns >= 4
    &&& p[p.len() - 3] == '.'
    &&& p[p.len() - 2] == 'm'
    &&& p[p.len() - 1] == 'd'
}

pub fn is_record_file(p: &str) -> (r: bool)
    ensures
        r == is_record_path(p@),
{
    let v = chars_of(p);
    let n = v.len();
    let ns: usize = match rfind(&v, '/') {
        Some(i) => i + 1,
        None => 0,
    };
    proof {
        lemma_rfind_char_props(p@, '/');
    }
    n - ns >= 4 && v[n - 3] == '.' && v[n - 2] == 'm' && v[n - 1] == 'd'
}

/// The name of the temporary side file for `p`, as `Path::with_extension`
/// derives it: the file name's extension, if any, is cut off, and the
/// temporary extension is attached.
pub open spec fn temp_path_spec(p: Seq<char>) -> Seq<char> {
    let ns = file_name_start(p);
    let cut = match rfind_char(p, '.') {
        Some(d) => if d > ns {
            d
        } else {
            p.len() as int
        },
        None => p.len() as int,
    };
    p.subrange(0, cut) + ".md.tmp"@
}

pub fn temp_path(p: &str) -> (r: String)
    ensures
        r@ == temp_path_spec(p@),
{
    let v = chars_of(p);
    let n = v.len();
    let ns: usize = match rfind(&v, '/') {
        Some(i) => i + 1,
        None => 0,
    };
    proof {
        lemma_rfind_char_props(p@, '/');
        lemma_rfind_char_props(p@, '.');
    }
    let cut: usize = match rfind(&v, '.') {
        Some(d) => if d > ns {
            d
        } else {
            n
        },
        None => n,
    };
    let mut s = p.substring_char(0, cut).to_owned();
    s.append(".md.tmp");
    proof {
        assert(p@.subrange(0, n as int) =~= p@);
    }
    s
}


/// The side file of an atomic write is never itself a record file and
/// never the record's own path, so a listing taken while a write is in
/// flight can see the old record or the new one, never the half-written
/// side file.
pub proof fn lemma_temp_path_not_record(p: Seq<char>)
    requires
        is_record_path(p),
    ensures
        temp_path_spec(p) != p,
        !is_record_path(temp_path_spec(p)),
{
    reveal_strlit(".md.tmp");
    let t = temp_path_spec(p);
    assert(".md.tmp"@.len() == 7);
    assert(t.len() >= 7);
    assert(t[t.len() - 1] == ".md.tmp"@[6]);
    assert(t[t.len() - 1] == 'p');
    assert(p[p.len() - 1] == 'd');
    if t == p {
        assert(t[t.len() - 1] == p[p.len() - 1]);
    }
}

/// The first line of `s`, as `str::lines` yields it: the text before the
/// first line feed, with one carriage return stripped from its end.
pub open spec fn first_line_spec(s: Seq<char>) -> Seq<char> {
    match find_char_from(s, 0, '\n') {
        None => s,
        Some(i) => {
            let l = s.subrange(0, i);
            if l.len() > 0 && l.last() == '\r' {
                l.drop_last()
            } else {
                l
            }
        },
    }
}

pub fn first_line<'a>(s: &'a str) -> (r: &'a str)
    ensures
        r@ == first_line_spec(s@),
{
    let v = chars_of(s);
    match find_char(&v, 0, '\n') {
        None => {
            proof {
                assert(s@.subrange(0, s@.len() as int) =~= s@);
            }
            s
        },
        Some(i) => {
            proof {
                crate::text::lemma_find_char_props(s@, 0, '\n');
            }
            let end: usize = if i > 0 && v[i - 1] == '\r' {
                proof {
                    assert(s@.subrange(0, i as int).last() == s@[i as int - 1]);
                    assert(s@.subrange(0, i as int).drop_last() =~= s@.subrange(0, i as int - 1));
                }
                i - 1
            } else {
                i
            };
            s.substring_char(0, end)
        },
    }
}

} // verus!
