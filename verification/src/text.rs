//! Character-level text utilities: whitespace trimming, substring search,
//! line splitting and lexicographic comparison, all specified over `Seq<char>`.
use vstd::prelude::*;
use vstd::string::StrSliceExecFns;

verus! {

/// A character with the Unicode `White_Space` property, the set that
/// `str::trim` removes.
pub open spec fn is_ws(c: char) -> bool {
    let u = c as u32;
    ||| u == 0x20
    ||| (0x09 <= u && u <= 0x0d)
    ||| u == 0x85
    ||| u == 0xa0
    ||| u == 0x1680
    ||| (0x2000 <= u && u <= 0x200a)
    ||| u == 0x2028
    ||| u == 0x2029
    ||| u == 0x202f
    ||| u == 0x205f
    ||| u == 0x3000
}

pub fn is_ws_char(c: char) -> (b: bool)
    ensures
        b == is_ws(c),
{
    let u = c as u32;
    u == 0x20 || (0x09 <= u && u <= 0x0d) || u == 0x85 || u == 0xa0 || u == 0x1680 || (0x2000 <= u
        && u <= 0x200a) || u == 0x2028 || u == 0x2029 || u == 0x202f || u == 0x205f || u == 0x3000
}

/// The sequence with its leading whitespace removed.
pub open spec fn trim_start_spec(s: Seq<char>) -> Seq<char>
    decreases s.len(),
{
    if s.len() > 0 && is_ws(s[0]) {
        trim_start_spec(s.drop_first())
    } else {
        s
    }
}

/// The sequence with its trailing whitespace removed.
pub open spec fn trim_end_spec(s: Seq<char>) -> Seq<char>
    decreases s.len(),
{
    if s.len() > 0 && is_ws(s.last()) {
        trim_end_spec(s.drop_last())
    } else {
        s
    }
}

/// The sequence with surrounding whitespace removed, as `str::trim` leaves it.
pub open spec fn trim_spec(s: Seq<char>) -> Seq<char> {
    trim_end_spec(trim_start_spec(s))
}

proof fn lemma_trim_start_skip(s: Seq<char>, k: int)
    requires
        0 <= k <= s.len(),
        forall|i: int| 0 <= i < k ==> is_ws(s[i]),
    ensures
        trim_start_spec(s) == trim_start_spec(s.subrange(k, s.len() as int)),
    decreases k,
{
    if k == 0 {
        assert(s.subrange(0, s.len() as int) =~= s);
    } else {
        assert(is_ws(s[0]));
        lemma_trim_start_skip(s.drop_first(), k - 1);
        assert(s.drop_first().subrange(k - 1, s.drop_first().len() as int) =~= s.subrange(
            k,
            s.len() as int,
        ));
    }
}

proof fn lemma_trim_end_skip(s: Seq<char>, k: int)
    requires
        0 <= k <= s.len(),
        forall|i: int| s.len() - k <= i < s.len() ==> is_ws(s[i]),
    ensures
        trim_end_spec(s) == trim_end_spec(s.subrange(0, s.len() - k)),
    decreases k,
{
    if k == 0 {
        assert(s.subrange(0, s.len() as int) =~= s);
    } else {
        assert(is_ws(s.last()));
        lemma_trim_end_skip(s.drop_last(), k - 1);
        assert(s.drop_last().subrange(0, s.drop_last().len() - (k - 1)) =~= s.subrange(
            0,
            s.len() - k,
        ));
    }
}

/// `trim_start_spec` only removes characters, so its result is a suffix; this
/// names the exact cut point found by a scan for the first non-whitespace
/// character.
proof fn lemma_trim_start_at(s: Seq<char>, a: int)
    requires
        0 <= a <= s.len(),
        forall|i: int| 0 <= i < a ==> is_ws(s[i]),
        a < s.len() ==> !is_ws(s[a]),
    ensures
        trim_start_spec(s) == s.subrange(a, s.len() as int),
{
    lemma_trim_start_skip(s, a);
    let t = s.subrange(a, s.len() as int);
    if t.len() > 0 {
        assert(t[0] == s[a]);
    }
}

proof fn lemma_trim_end_at(s: Seq<char>, b: int)
    requires
        0 <= b <= s.len(),
        forall|i: int| b <= i < s.len() ==> is_ws(s[i]),
        b > 0 ==> !is_ws(s[b - 1]),
    ensures
        trim_end_spec(s) == s.subrange(0, b),
{
    lemma_trim_end_skip(s, s.len() - b);
    let t = s.subrange(0, b);
    if t.len() > 0 {
        assert(t.last() == s[b - 1]);
    }
}

/// A trimmed sequence starts and ends with non-whitespace.
pub proof fn lemma_trim_spec_ends(s: Seq<char>)
    ensures
        trim_spec(s).len() > 0 ==> !is_ws(trim_spec(s)[0]),
        trim_spec(s).len() > 0 ==> !is_ws(trim_spec(s).last()),
    decreases s.len(),
{
    lemma_trim_start_head(s);
    lemma_trim_end_keep_head(trim_start_spec(s));
}

proof fn lemma_trim_start_head(s: Seq<char>)
    ensures
        trim_start_spec(s).len() > 0 ==> !is_ws(trim_start_spec(s)[0]),
    decreases s.len(),
{
    if s.len() > 0 && is_ws(s[0]) {
        lemma_trim_start_head(s.drop_first());
    }
}

proof fn lemma_trim_end_keep_head(s: Seq<char>)
    ensures
        trim_end_spec(s).len() > 0 ==> !is_ws(trim_end_spec(s).last()),
        trim_end_spec(s).len() > 0 ==> trim_end_spec(s)[0] == s[0],
    decreases s.len(),
{
    if s.len() > 0 && is_ws(s.last()) {
        lemma_trim_end_keep_head(s.drop_last());
        if trim_end_spec(s).len() > 0 {
            assert(s.drop_last()[0] == s[0]);
        }
    }
}

/// Trimming a sequence that is a trimmed core surrounded by whitespace
/// recovers exactly the core.
pub proof fn lemma_trim_wrap(f: Seq<char>, t: Seq<char>, g: Seq<char>)
    requires
        forall|i: int| 0 <= i < f.len() ==> is_ws(f[i]),
        forall|i: int| 0 <= i < g.len() ==> is_ws(g[i]),
        t.len() > 0 ==> !is_ws(t[0]),
        t.len() > 0 ==> !is_ws(t.last()),
    ensures
        trim_spec(f + t + g) == t,
{
    let s = f + t + g;
    if t.len() == 0 {
        assert(forall|i: int| 0 <= i < s.len() ==> is_ws(s[i]));
        lemma_trim_start_at(s, s.len() as int);
        assert(trim_start_spec(s) =~= Seq::<char>::empty());
        assert(trim_spec(s) =~= t);
    } else {
        assert(s[f.len() as int] == t[0]);
        lemma_trim_start_at(s, f.len() as int);
        let u = s.subrange(f.len() as int, s.len() as int);
        assert(u =~= t + g);
        assert(forall|i: int| t.len() <= i < u.len() ==> is_ws(u[i]));
        assert(u[t.len() - 1] == t.last());
        lemma_trim_end_at(u, t.len() as int);
        assert(u.subrange(0, t.len() as int) =~= t);
    }
}


/// Trimming is idempotent: a trimmed sequence trims to itself.
pub proof fn lemma_trim_idempotent(s: Seq<char>)
    ensures
        trim_spec(trim_spec(s)) == trim_spec(s),
{
    lemma_trim_spec_ends(s);
    let t = trim_spec(s);
    lemma_trim_wrap(Seq::empty(), t, Seq::empty());
    assert(Seq::<char>::empty() + t + Seq::<char>::empty() =~= t);
}

/// First occurrence of `c` in `s` at or after `from`.
pub open spec fn find_char_from(s: Seq<char>, from: int, c: char) -> Option<int>
    decreases s.len() - from,
{
    if from < 0 || from >= s.len() {
        None
    } else if s[from] == c {
        Some(from)
    } else {
        find_char_from(s, from + 1, c)
    }
}

pub proof fn lemma_find_char_props(s: Seq<char>, from: int, c: char)
    requires
        0 <= from,
    ensures
        match find_char_from(s, from, c) {
            Some(i) => from <= i < s.len() && s[i] == c && forall|j: int|
                from <= j < i ==> s[j] != c,
            None => forall|j: int| from <= j < s.len() ==> s[j] != c,
        },
    decreases s.len() - from,
{
    if from < s.len() && s[from] != c {
        lemma_find_char_props(s, from + 1, c);
    }
}

/// The header delimiter occurs at position `i` of `s`.
pub open spec fn is_delim_at(s: Seq<char>, i: int) -> bool {
    &&& 0 <= i
    &&& i + 3 <= s.len()
    &&& s[i] == '-'
    &&& s[i + 1] == '-'
    &&& s[i + 2] == '-'
}

/// No occurrence of the header delimiter anywhere in `s`.
pub open spec fn no_delim(s: Seq<char>) -> bool {
    forall|i: int| !is_delim_at(s, i)
}

/// First occurrence of the header delimiter at or after `from`.
pub open spec fn find_delim_from(s: Seq<char>, from: int) -> Option<int>
    decreases s.len() - from,
{
    if from < 0 || from + 3 > s.len() {
        None
    } else if is_delim_at(s, from) {
        Some(from)
    } else {
        find_delim_from(s, from + 1)
    }
}

pub proof fn lemma_find_delim_props(s: Seq<char>, from: int)
    requires
        0 <= from,
    ensures
        match find_delim_from(s, from) {
            Some(i) => from <= i && is_delim_at(s, i) && forall|j: int|
                from <= j < i ==> !is_delim_at(s, j),
            None => forall|j: int| from <= j ==> !is_delim_at(s, j),
        },
    decreases s.len() - from,
{
    if from + 3 <= s.len() && !is_delim_at(s, from) {
        lemma_find_delim_props(s, from + 1);
    }
}

/// If a delimiter stands at `i` and none before it (from `from` on), the
/// search finds exactly `i`.
pub proof fn lemma_find_delim_exact(s: Seq<char>, from: int, i: int)
    requires
        0 <= from <= i,
        is_delim_at(s, i),
        forall|j: int| from <= j < i ==> !is_delim_at(s, j),
    ensures
        find_delim_from(s, from) == Some(i),
{
    lemma_find_delim_props(s, from);
    match find_delim_from(s, from) {
        Some(k) => {
            if k < i {
                assert(!is_delim_at(s, k));
            }
            if k > i {
                assert(!is_delim_at(s, i));
            }
        },
        None => {
            assert(!is_delim_at(s, i));
        },
    }
}

/// The characters of `s` as a vector, for constant-time indexed scanning.
pub fn chars_of(s: &str) -> (v: Vec<char>)
    ensures
        v@ == s@,
{
    let n = s.unicode_len();
    let mut v: Vec<char> = Vec::new();
    let mut i: usize = 0;
    while i < n
        invariant
            n == s@.len(),
            i <= n,
            v@ == s@.subrange(0, i as int),
        decreases n - i,
    {
        v.push(s.get_char(i));
        i = i + 1;
        assert(v@ =~= s@.subrange(0, i as int));
    }
    assert(v@ =~= s@);
    v
}

/// The slice of `s` with surrounding whitespace removed, as `str::trim`
/// returns it.
pub fn trim_str<'a>(s: &'a str) -> (r: &'a str)
    ensures
        r@ == trim_spec(s@),
{
    let n = s.unicode_len();
    let mut a: usize = 0;
    while a < n && is_ws_char(s.get_char(a))
        invariant
            n == s@.len(),
            a <= n,
            forall|i: int| 0 <= i < a ==> is_ws(s@[i]),
        decreases n - a,
    {
        a = a + 1;
    }
    let mut b: usize = n;
    while b > a && is_ws_char(s.get_char(b - 1))
        invariant
            n == s@.len(),
            a <= b <= n,
            forall|i: int| b <= i < n ==> is_ws(s@[i]),
        decreases b,
    {
        b = b - 1;
    }
    let r = s.substring_char(a, b);
    proof {
        if a == b {
            lemma_trim_start_at(s@, n as int);
            assert(forall|i: int| 0 <= i < s@.len() ==> is_ws(s@[i]));
            assert(trim_start_spec(s@) =~= Seq::<char>::empty());
            assert(r@ =~= Seq::<char>::empty());
        } else {
            lemma_trim_start_at(s@, a as int);
            let u = s@.subrange(a as int, n as int);
            assert(forall|i: int| b - a <= i < u.len() ==> is_ws(u[i]));
            assert(u[b - a - 1] == s@[b - 1]);
            lemma_trim_end_at(u, b - a);
            assert(u.subrange(0, b - a) =~= s@.subrange(a as int, b as int));
        }
    }
    r
}

/// First index at or after `from` where `c` occurs in `v`.
pub fn find_char(v: &Vec<char>, from: usize, c: char) -> (r: Option<usize>)
    ensures
        r matches Some(i) ==> from <= i && i < v@.len() && v@[i as int] == c && find_char_from(
            v@,
            from as int,
            c,
        ) == Some(i as int),
        r is None ==> find_char_from(v@, from as int, c) is None,
{
    let n = v.len();
    let mut i: usize = from;
    while i < n
        invariant
            n == v@.len(),
            from <= i,
            find_char_from(v@, from as int, c) == find_char_from(v@, i as int, c),
        decreases n - i,
    {
        if v[i] == c {
            return Some(i);
        }
        i = i + 1;
    }
    None
}

/// First index at or after `from` where the header delimiter occurs in `v`.
pub fn find_delim(v: &Vec<char>, from: usize) -> (r: Option<usize>)
    ensures
        r matches Some(i) ==> from <= i && is_delim_at(v@, i as int) && find_delim_from(
            v@,
            from as int,
        ) == Some(i as int),
        r is None ==> find_delim_from(v@, from as int) is None,
{
    let n = v.len();
    let mut i: usize = from;
    while n >= 3 && i <= n - 3
        invariant
            n == v@.len(),
            from <= i,
            find_delim_from(v@, from as int) == find_delim_from(v@, i as int),
        decreases n - i,
    {
        if v[i] == '-' && v[i + 1] == '-' && v[i + 2] == '-' {
            return Some(i);
        }
        i = i + 1;
    }
    None
}

/// Whether two string slices hold the same characters.
pub fn str_eq(a: &str, b: &str) -> (r: bool)
    ensures
        r == (a@ == b@),
{
    let na = a.unicode_len();
    let nb = b.unicode_len();
    if na != nb {
        return false;
    }
    let mut i: usize = 0;
    while i < na
        invariant
            na == a@.len(),
            na == b@.len(),
            i <= na,
            forall|j: int| 0 <= j < i ==> a@[j] == b@[j],
        decreases na - i,
    {
        if a.get_char(i) != b.get_char(i) {
            return false;
        }
        i = i + 1;
    }
    proof {
        assert(a@ =~= b@);
    }
    true
}

/// Strict lexicographic order on character sequences by code point, the order
/// in which `str` comparison ranks strings.
pub open spec fn lex_lt(a: Seq<char>, b: Seq<char>) -> bool
    decreases a.len(),
{
    if b.len() == 0 {
        false
    } else if a.len() == 0 {
        true
    } else if a[0] != b[0] {
        (a[0] as u32) < (b[0] as u32)
    } else {
        lex_lt(a.drop_first(), b.drop_first())
    }
}

pub open spec fn lex_le(a: Seq<char>, b: Seq<char>) -> bool {
    lex_lt(a, b) || a == b
}

/// The order is total: two sequences are always comparable.
pub proof fn lemma_lex_total(a: Seq<char>, b: Seq<char>)
    ensures
        lex_le(a, b) || lex_le(b, a),
    decreases a.len(),
{
    if b.len() == 0 || a.len() == 0 {
        if a.len() == 0 && b.len() == 0 {
            assert(a =~= b);
        }
    } else if a[0] != b[0] {
        vstd::utf8::char_u32_cast(a[0], a[0] as u32);
        vstd::utf8::char_u32_cast(b[0], b[0] as u32);
        assert((a[0] as u32) != (b[0] as u32));
        if (a[0] as u32) < (b[0] as u32) {
            assert(lex_lt(a, b));
        } else {
            assert(lex_lt(b, a));
        }
    } else {
        lemma_lex_total(a.drop_first(), b.drop_first());
        if a.drop_first() == b.drop_first() {
            assert(a.drop_first().len() == a.len() - 1);
            assert(b.drop_first().len() == b.len() - 1);
            assert forall|i: int| 0 <= i < a.len() implies a[i] == b[i] by {
                if i > 0 {
                    assert(a[i] == a.drop_first()[i - 1]);
                    assert(b[i] == b.drop_first()[i - 1]);
                }
            }
            assert(a =~= b);
        }
    }
}

pub proof fn lemma_lex_trans(a: Seq<char>, b: Seq<char>, c: Seq<char>)
    requires
        lex_le(a, b),
        lex_le(b, c),
    ensures
        lex_le(a, c),
    decreases a.len() + b.len() + c.len(),
{
    if a == b || b == c {
    } else {
        if c.len() == 0 {
            assert(!lex_lt(b, c));
        } else if a.len() == 0 {
        } else if b.len() == 0 {
            assert(!lex_lt(a, b));
        } else {
            if a[0] == b[0] && b[0] == c[0] {
                lemma_lex_trans(a.drop_first(), b.drop_first(), c.drop_first());
                if a.drop_first() == c.drop_first() && a != c {
                    assert forall|i: int| 0 <= i < a.len() implies a[i] == c[i] by {
                        if i > 0 {
                            assert(a[i] == a.drop_first()[i - 1]);
                            assert(c[i] == c.drop_first()[i - 1]);
                        }
                    }
                    assert(a =~= c);
                }
            } else {
                vstd::utf8::char_u32_cast(a[0], a[0] as u32);
                vstd::utf8::char_u32_cast(b[0], b[0] as u32);
                vstd::utf8::char_u32_cast(c[0], c[0] as u32);
            }
        }
    }
}

/// Whether `a` ranks strictly before `b` in code-point order.
pub fn str_lt(a: &str, b: &str) -> (r: bool)
    ensures
        r == lex_lt(a@, b@),
{
    let na = a.unicode_len();
    let nb = b.unicode_len();
    let mut i: usize = 0;
    proof {
        assert(a@.skip(0) =~= a@);
        assert(b@.skip(0) =~= b@);
    }
    loop
        invariant
            na == a@.len(),
            nb == b@.len(),
            i <= na,
            i <= nb,
            lex_lt(a@, b@) == lex_lt(a@.skip(i as int), b@.skip(i as int)),
        decreases na - i,
    {
        if i >= nb {
            assert(b@.skip(i as int).len() == 0);
            return false;
        }
        if i >= na {
            assert(a@.skip(i as int).len() == 0);
            return true;
        }
        let ca = a.get_char(i);
        let cb = b.get_char(i);
        if ca != cb {
            assert(a@.skip(i as int)[0] == ca);
            assert(b@.skip(i as int)[0] == cb);
            return (ca as u32) < (cb as u32);
        }
        proof {
            assert(a@.skip(i as int).drop_first() =~= a@.skip(i as int + 1));
            assert(b@.skip(i as int).drop_first() =~= b@.skip(i as int + 1));
        }
        i = i + 1;
    }
}


/// If `c` stands at `i` and nowhere earlier (from `from` on), the search
/// finds exactly `i`.
pub proof fn lemma_find_char_exact(s: Seq<char>, from: int, i: int, c: char)
    requires
        0 <= from <= i < s.len(),
        s[i] == c,
        forall|j: int| from <= j < i ==> s[j] != c,
    ensures
        find_char_from(s, from, c) == Some(i),
{
    lemma_find_char_props(s, from, c);
    match find_char_from(s, from, c) {
        Some(k) => {
            if k < i {
                assert(s[k] != c);
            }
            if k > i {
                assert(s[i] != c);
            }
        },
        None => {
            assert(s[i] != c);
        },
    }
}

/// Searching from `from` is searching the suffix from its start.
pub proof fn lemma_find_char_shift(s: Seq<char>, from: int, c: char)
    requires
        0 <= from <= s.len(),
    ensures
        find_char_from(s, from, c) == match find_char_from(
            s.subrange(from, s.len() as int),
            0,
            c,
        ) {
            None => None::<int>,
            Some(i) => Some(i + from),
        },
    decreases s.len() - from,
{
    let u = s.subrange(from, s.len() as int);
    if from == s.len() {
        assert(u.len() == 0);
    } else if s[from] == c {
        assert(u[0] == c);
    } else {
        assert(u[0] != c);
        lemma_find_char_shift(s, from + 1, c);
        let u2 = s.subrange(from + 1, s.len() as int);
        assert(u.subrange(1, u.len() as int) =~= u2);
        lemma_find_char_props(u, 1, c);
        lemma_find_char_props(u2, 0, c);
        match find_char_from(u2, 0, c) {
            None => {
                assert forall|j: int| 1 <= j < u.len() implies u[j] != c by {
                    assert(u[j] == u2[j - 1]);
                    assert(u2[j - 1] != c);
                }
                lemma_find_char_props(u, 0, c);
                if find_char_from(u, 0, c) is Some {
                    let k = find_char_from(u, 0, c)->0;
                    assert(u[k] == c);
                    assert(u[0] != c);
                }
            },
            Some(i) => {
                assert(u2[i] == c);
                assert(u[i + 1] == c);
                assert(forall|j: int| 0 <= j < i ==> u2[j] != c);
                assert forall|j: int| 1 <= j < i + 1 implies u[j] != c by {
                    assert(u[j] == u2[j - 1]);
                    assert(u2[j - 1] != c);
                }
                lemma_find_char_exact(u, 0, i + 1, c);
            },
        }
    }
}

/// Concatenation introduces no delimiter when neither part holds one and the
/// first ends with a line feed.
pub proof fn lemma_no_delim_concat(a: Seq<char>, b: Seq<char>)
    requires
        no_delim(a),
        no_delim(b),
        a.len() > 0 ==> a.last() == '\n',
    ensures
        no_delim(a + b),
{
    let s = a + b;
    assert forall|i: int| !is_delim_at(s, i) by {
        if 0 <= i && i + 3 <= s.len() {
            if i + 3 <= a.len() {
                assert(!is_delim_at(a, i));
                assert(s[i] == a[i] && s[i + 1] == a[i + 1] && s[i + 2] == a[i + 2]);
            } else if i >= a.len() {
                assert(!is_delim_at(b, i - a.len()));
                assert(s[i] == b[i - a.len()] && s[i + 1] == b[i + 1 - a.len()] && s[i + 2] == b[i
                    + 2 - a.len()]);
            } else {
                assert(s[a.len() - 1] == a.last());
                assert(i <= a.len() - 1 <= i + 2);
            }
        }
    }
}

} // verus!
