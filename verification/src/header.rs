//! The record header: its fields, its key/value text form, and the status
//! transition applied to it.
use vstd::prelude::*;
use vstd::string::StrSliceExecFns;
use vstd::string::StringExecFns;

use crate::text::{
    find_char_from, trim_spec, no_delim, is_delim_at, chars_of, find_char, str_eq,
};

verus! {

/// The structured header of one record file.
#[derive(Debug)]
pub struct TodoFrontmatter {
    pub id: String,
    pub linked_note: String,
    pub created: Option<String>,
    pub updated: Option<String>,
    pub status: String,
    pub completed: Option<String>,
    pub due: Option<String>,
    pub priority: Option<String>,
    pub tags: Option<Vec<String>>,
}

/// Mathematical image of a header.
#[verifier::ext_equal]
pub struct HeaderV {
    pub id: Seq<char>,
    pub linked_note: Seq<char>,
    pub created: Option<Seq<char>>,
    pub updated: Option<Seq<char>>,
    pub status: Seq<char>,
    pub completed: Option<Seq<char>>,
    pub due: Option<Seq<char>>,
    pub priority: Option<Seq<char>>,
    pub tags: Option<Seq<Seq<char>>>,
}

pub open spec fn opt_str_view(o: Option<String>) -> Option<Seq<char>> {
    match o {
        Some(s) => Some(s@),
        None => None,
    }
}

impl View for TodoFrontmatter {
    type V = HeaderV;

    open spec fn view(&self) -> HeaderV {
        HeaderV {
            id: self.id@,
            linked_note: self.linked_note@,
            created: opt_str_view(self.created),
            updated: opt_str_view(self.updated),
            status: self.status@,
            completed: opt_str_view(self.completed),
            due: opt_str_view(self.due),
            priority: opt_str_view(self.priority),
            tags: match self.tags {
                Some(v) => Some(v.deep_view()),
                None => None,
            },
        }
    }
}

// ---------------------------------------------------------------------------
// Text form
// ---------------------------------------------------------------------------
/// One scalar header line: `key: value` and a line feed.
pub open spec fn kv_line(key: Seq<char>, v: Seq<char>) -> Seq<char> {
    key + seq![':', ' '] + v + seq!['\n']
}

pub open spec fn opt_line(key: Seq<char>, o: Option<Seq<char>>) -> Seq<char> {
    match o {
        Some(v) => kv_line(key, v),
        None => Seq::empty(),
    }
}

/// One list item line under the `tags` key.
pub open spec fn tag_item_line(item: Seq<char>) -> Seq<char> {
    seq!['-', ' '] + item + seq!['\n']
}

pub open spec fn tag_lines(ts: Seq<Seq<char>>) -> Seq<char>
    decreases ts.len(),
{
    if ts.len() == 0 {
        Seq::empty()
    } else {
        tag_item_line(ts[0]) + tag_lines(ts.drop_first())
    }
}

/// The `tags` block: a bare `tags:` line followed by one item line each.
pub open spec fn tags_block(o: Option<Seq<Seq<char>>>) -> Seq<char> {
    match o {
        None => Seq::empty(),
        Some(ts) => "tags"@ + seq![':', '\n'] + tag_lines(ts),
    }
}

/// The serialized header block: required and present optional fields in
/// declaration order, then the tags block.
pub open spec fn serialize_header_spec(h: HeaderV) -> Seq<char> {
    kv_line("id"@, h.id) + kv_line("linked_note"@, h.linked_note) + opt_line("created"@, h.created)
        + opt_line("updated"@, h.updated) + kv_line("status"@, h.status) + opt_line(
        "completed"@,
        h.completed,
    ) + opt_line("due"@, h.due) + opt_line("priority"@, h.priority) + tags_block(h.tags)
}

/// A value that serializes onto a single header line and cannot be mistaken
/// for a delimiter: no line breaks and no embedded delimiter text.
pub open spec fn value_wf(v: Seq<char>) -> bool {
    &&& forall|i: int| 0 <= i < v.len() ==> v[i] != '\n' && v[i] != '\r'
    &&& no_delim(v)
}

pub open spec fn opt_value_wf(o: Option<Seq<char>>) -> bool {
    match o {
        Some(v) => value_wf(v),
        None => true,
    }
}

/// A header whose every field value is line-safe; such a header survives the
/// round trip through its text form unchanged.
pub open spec fn header_wf(h: HeaderV) -> bool {
    &&& value_wf(h.id)
    &&& value_wf(h.linked_note)
    &&& value_wf(h.status)
    &&& opt_value_wf(h.created)
    &&& opt_value_wf(h.updated)
    &&& opt_value_wf(h.completed)
    &&& opt_value_wf(h.due)
    &&& opt_value_wf(h.priority)
    &&& match h.tags {
        Some(ts) => forall|i: int| 0 <= i < ts.len() ==> value_wf(#[trigger] ts[i]),
        None => true,
    }
}

// ---------------------------------------------------------------------------
// Serialization
// ---------------------------------------------------------------------------
fn append_kv(s: &mut String, key: &str, v: &str)
    ensures
        final(s)@ == old(s)@ + kv_line(key@, v@),
{
    s.append(key);
    s.append(": ");
    s.append(v);
    s.append("\n");
    proof {
        reveal_strlit(": ");
        reveal_strlit("\n");
        assert(": "@ =~= seq![':', ' ']);
        assert("\n"@ =~= seq!['\n']);
        assert(s@ =~= old(s)@ + kv_line(key@, v@));
    }
}

fn append_opt_kv(s: &mut String, key: &str, o: &Option<String>)
    ensures
        final(s)@ == old(s)@ + opt_line(key@, opt_str_view(*o)),
{
    match o {
        Some(v) => append_kv(s, key, v.as_str()),
        None => {
            proof {
                assert(s@ =~= old(s)@ + opt_line(key@, opt_str_view(*o)));
            }
        },
    }
}

proof fn lemma_tag_lines_take(ts: Seq<Seq<char>>, i: int)
    requires
        0 <= i < ts.len(),
    ensures
        tag_lines(ts.take(i + 1)) == tag_lines(ts.take(i)) + tag_item_line(ts[i]),
    decreases i,
{
    if i == 0 {
        assert(ts.take(1) =~= seq![ts[0]]);
        assert(ts.take(1).drop_first() =~= Seq::<Seq<char>>::empty());
        assert(ts.take(0) =~= Seq::<Seq<char>>::empty());
        assert(tag_lines(ts.take(1)) =~= tag_item_line(ts[0]) + tag_lines(Seq::empty()));
        assert(tag_item_line(ts[0]) + Seq::<char>::empty() =~= tag_item_line(ts[0]));
        assert(Seq::<char>::empty() + tag_item_line(ts[0]) =~= tag_item_line(ts[0]));
    } else {
        lemma_tag_lines_take(ts.drop_first(), i - 1);
        assert(ts.take(i + 1).drop_first() =~= ts.drop_first().take(i));
        assert(ts.take(i).drop_first() =~= ts.drop_first().take(i - 1));
        assert(ts.take(i + 1)[0] == ts[0]);
        assert(ts.take(i)[0] == ts[0]);
        assert(ts.drop_first()[i - 1] == ts[i]);
        assert(tag_lines(ts.take(i + 1)) == tag_item_line(ts[0]) + tag_lines(ts.drop_first().take(i)));
        assert(tag_lines(ts.take(i)) == tag_item_line(ts[0]) + tag_lines(ts.drop_first().take(i - 1)));
        assert(tag_item_line(ts[0]) + (tag_lines(ts.drop_first().take(i - 1)) + tag_item_line(
            ts[i],
        )) =~= (tag_item_line(ts[0]) + tag_lines(ts.drop_first().take(i - 1))) + tag_item_line(
            ts[i],
        ));
    }
}

fn append_tags(s: &mut String, o: &Option<Vec<String>>)
    ensures
        final(s)@ == old(s)@ + tags_block(
            match *o {
                Some(v) => Some(v.deep_view()),
                None => None,
            },
        ),
{
    match o {
        Some(ts) => {
            s.append("tags");
            s.append(":\n");
            proof {
                reveal_strlit(":\n");
                assert(":\n"@ =~= seq![':', '\n']);
            }
            let ghost base = s@;
            let n = ts.len();
            let mut i: usize = 0;
            proof {
                assert(ts.deep_view().take(0) =~= Seq::<Seq<char>>::empty());
                assert(s@ =~= base + tag_lines(ts.deep_view().take(0)));
            }
            while i < n
                invariant
                    n == ts.len(),
                    ts.deep_view().len() == n,
                    i <= n,
                    s@ == base + tag_lines(ts.deep_view().take(i as int)),
                decreases n - i,
            {
                s.append("- ");
                s.append(ts[i].as_str());
                s.append("\n");
                proof {
                    reveal_strlit("- ");
                    reveal_strlit("\n");
                    assert("- "@ =~= seq!['-', ' ']);
                    assert("\n"@ =~= seq!['\n']);
                    assert(ts.deep_view()[i as int] == ts[i as int]@);
                    lemma_tag_lines_take(ts.deep_view(), i as int);
                    assert(s@ =~= base + tag_lines(ts.deep_view().take(i as int + 1)));
                }
                i = i + 1;
            }
            proof {
                assert(ts.deep_view().take(n as int) =~= ts.deep_view());
                assert(s@ =~= old(s)@ + tags_block(Some(ts.deep_view())));
            }
        },
        None => {
            proof {
                assert(s@ =~= old(s)@ + Seq::<char>::empty());
            }
        },
    }
}

/// The header's text form.
pub fn serialize_header(h: &TodoFrontmatter) -> (r: String)
    ensures
        r@ == serialize_header_spec(h@),
{
    let mut s = String::new();
    append_kv(&mut s, "id", h.id.as_str());
    append_kv(&mut s, "linked_note", h.linked_note.as_str());
    append_opt_kv(&mut s, "created", &h.created);
    append_opt_kv(&mut s, "updated", &h.updated);
    append_kv(&mut s, "status", h.status.as_str());
    append_opt_kv(&mut s, "completed", &h.completed);
    append_opt_kv(&mut s, "due", &h.due);
    append_opt_kv(&mut s, "priority", &h.priority);
    append_tags(&mut s, &h.tags);
    proof {
        assert(s@ =~= serialize_header_spec(h@));
    }
    s
}

// ---------------------------------------------------------------------------
// Parsing
// ---------------------------------------------------------------------------
/// Partial header state while the lines of a header block are read.
#[verifier::ext_equal]
pub struct HState {
    pub id: Option<Seq<char>>,
    pub linked_note: Option<Seq<char>>,
    pub created: Option<Seq<char>>,
    pub updated: Option<Seq<char>>,
    pub status: Option<Seq<char>>,
    pub completed: Option<Seq<char>>,
    pub due: Option<Seq<char>>,
    pub priority: Option<Seq<char>>,
    pub tags: Option<Seq<Seq<char>>>,
    pub in_tags: bool,
}

pub open spec fn hstate_init() -> HState {
    HState {
        id: None,
        linked_note: None,
        created: None,
        updated: None,
        status: None,
        completed: None,
        due: None,
        priority: None,
        tags: None,
        in_tags: false,
    }
}

/// One carriage return stripped from the end of a line, as text with
/// Windows line endings carries it.
pub open spec fn strip_cr(l: Seq<char>) -> Seq<char> {
    if l.len() > 0 && l.last() == '\r' {
        l.drop_last()
    } else {
        l
    }
}

/// The value part of a scalar line: the text after the colon, with one
/// leading space removed.
pub open spec fn line_value(rest: Seq<char>) -> Seq<char> {
    if rest.len() > 0 && rest[0] == ' ' {
        rest.drop_first()
    } else {
        rest
    }
}

pub open spec fn push_tag(o: Option<Seq<Seq<char>>>, item: Seq<char>) -> Option<Seq<Seq<char>>> {
    match o {
        Some(ts) => Some(ts.push(item)),
        None => Some(seq![item]),
    }
}

/// The effect of one header line on the partial state: blank lines are
/// skipped; under an open `tags` key an item line appends a tag; a
/// `key: value` line sets the named field, unknown keys being ignored;
/// anything else is a header error.
pub open spec fn line_step(st: HState, line: Seq<char>) -> Option<HState> {
    let l = strip_cr(line);
    if l.len() == 0 {
        Some(st)
    } else if st.in_tags && l.len() >= 2 && l[0] == '-' && l[1] == ' ' {
        Some(HState { tags: push_tag(st.tags, l.subrange(2, l.len() as int)), ..st })
    } else {
        match find_char_from(l, 0, ':') {
            None => if trim_spec(l).len() == 0 {
                Some(st)
            } else {
                None
            },
            Some(ci) => {
                let key = l.subrange(0, ci);
                let v = line_value(l.subrange(ci + 1, l.len() as int));
                if key == "tags"@ {
                    if v.len() == 0 {
                        Some(HState { tags: Some(Seq::empty()), in_tags: true, ..st })
                    } else {
                        None
                    }
                } else if key == "id"@ {
                    Some(HState { id: Some(v), in_tags: false, ..st })
                } else if key == "linked_note"@ {
                    Some(HState { linked_note: Some(v), in_tags: false, ..st })
                } else if key == "created"@ {
                    Some(HState { created: Some(v), in_tags: false, ..st })
                } else if key == "updated"@ {
                    Some(HState { updated: Some(v), in_tags: false, ..st })
                } else if key == "status"@ {
                    Some(HState { status: Some(v), in_tags: false, ..st })
                } else if key == "completed"@ {
                    Some(HState { completed: Some(v), in_tags: false, ..st })
                } else if key == "due"@ {
                    Some(HState { due: Some(v), in_tags: false, ..st })
                } else if key == "priority"@ {
                    Some(HState { priority: Some(v), in_tags: false, ..st })
                } else {
                    Some(HState { in_tags: false, ..st })
                }
            },
        }
    }
}

/// The lines of `s` from position `from` on, split at line feeds.
pub open spec fn split_lines_from(s: Seq<char>, from: int) -> Seq<Seq<char>>
    decreases s.len() - from,
{
    if from < 0 || from > s.len() {
        Seq::empty()
    } else {
        match find_char_from(s, from, '\n') {
            None => seq![s.subrange(from, s.len() as int)],
            Some(i) => if from <= i < s.len() {
                seq![s.subrange(from, i)] + split_lines_from(s, i + 1)
            } else {
                Seq::empty()
            },
        }
    }
}

/// The lines folded through `line_step`.
pub open spec fn parse_lines(ls: Seq<Seq<char>>, st: HState) -> Option<HState>
    decreases ls.len(),
{
    if ls.len() == 0 {
        Some(st)
    } else {
        match line_step(st, ls[0]) {
            None => None,
            Some(st2) => parse_lines(ls.drop_first(), st2),
        }
    }
}

/// The finished header, provided the three required fields were seen.
pub open spec fn finalize_spec(st: HState) -> Option<HeaderV> {
    if st.id is Some && st.linked_note is Some && st.status is Some {
        Some(
            HeaderV {
                id: st.id->0,
                linked_note: st.linked_note->0,
                created: st.created,
                updated: st.updated,
                status: st.status->0,
                completed: st.completed,
                due: st.due,
                priority: st.priority,
                tags: st.tags,
            },
        )
    } else {
        None
    }
}

/// What parsing a header block yields: the lines folded through
/// `line_step`, then checked for the required fields.
pub open spec fn parse_header_spec(s: Seq<char>) -> Option<HeaderV> {
    match parse_lines(split_lines_from(s, 0), hstate_init()) {
        None => None,
        Some(st) => finalize_spec(st),
    }
}

/// Partial header being built while parsing.
struct PartialHeader {
    id: Option<String>,
    linked_note: Option<String>,
    created: Option<String>,
    updated: Option<String>,
    status: Option<String>,
    completed: Option<String>,
    due: Option<String>,
    priority: Option<String>,
    tags: Option<Vec<String>>,
    in_tags: bool,
}

impl View for PartialHeader {
    type V = HState;

    closed spec fn view(&self) -> HState {
        HState {
            id: opt_str_view(self.id),
            linked_note: opt_str_view(self.linked_note),
            created: opt_str_view(self.created),
            updated: opt_str_view(self.updated),
            status: opt_str_view(self.status),
            completed: opt_str_view(self.completed),
            due: opt_str_view(self.due),
            priority: opt_str_view(self.priority),
            tags: match self.tags {
                Some(v) => Some(v.deep_view()),
                None => None,
            },
            in_tags: self.in_tags,
        }
    }
}

/// Applies one line to the partial state; a `false` result is a header
/// error.
fn step_line(st: &mut PartialHeader, line: &str) -> (ok: bool)
    ensures
        match line_step(old(st)@, line@) {
            Some(st2) => ok && final(st)@ == st2,
            None => !ok,
        },
{
    let n0 = line.unicode_len();
    let end: usize = if n0 > 0 && line.get_char(n0 - 1) == '\r' {
        n0 - 1
    } else {
        n0
    };
    let lstr = line.substring_char(0, end);
    proof {
        if n0 > 0 && line@.last() == '\r' {
            assert(lstr@ =~= strip_cr(line@));
        } else {
            assert(lstr@ =~= line@);
        }
    }
    let ghost l = strip_cr(line@);
    if end == 0 {
        proof {
            assert(st@ =~= old(st)@);
        }
        return true;
    }
    let v = chars_of(lstr);
    if st.in_tags && v[0] == '-' && end >= 2 && v[1] == ' ' {
        let item = lstr.substring_char(2, end);
        match &mut st.tags {
            Some(ts) => {
                ts.push(item.to_owned());
                proof {
                    assert(st.tags->0.deep_view() =~= old(st)@.tags->0.push(item@));
                    assert(st@ =~= HState { tags: push_tag(old(st)@.tags, l.subrange(2, l.len() as int)), ..old(st)@ });
                }
            },
            None => {
                let mut ts: Vec<String> = Vec::new();
                ts.push(item.to_owned());
                st.tags = Some(ts);
                proof {
                    assert(st.tags->0.deep_view() =~= seq![item@]);
                    assert(st@ =~= HState { tags: push_tag(old(st)@.tags, l.subrange(2, l.len() as int)), ..old(st)@ });
                }
            },
        }
        return true;
    }
    match find_char(&v, 0, ':') {
        None => {
            let t = crate::text::trim_str(lstr);
            if t.unicode_len() == 0 {
                proof {
                    assert(st@ =~= old(st)@);
                }
                true
            } else {
                false
            }
        },
        Some(ci) => {
            let key = lstr.substring_char(0, ci);
            let vstart: usize = if ci + 1 < end && v[ci + 1] == ' ' {
                ci + 2
            } else {
                ci + 1
            };
            let value = lstr.substring_char(vstart, end);
            proof {
                assert(key@ =~= l.subrange(0, ci as int));
                if ci + 1 < end && l[ci as int + 1] == ' ' {
                    assert(l.subrange(ci as int + 1, l.len() as int).drop_first() =~= l.subrange(
                        ci as int + 2,
                        l.len() as int,
                    ));
                    assert(value@ =~= line_value(l.subrange(ci as int + 1, l.len() as int)));
                } else {
                    assert(value@ =~= line_value(l.subrange(ci as int + 1, l.len() as int)));
                }
            }
            if str_eq(key, "tags") {
                if value.unicode_len() == 0 {
                    st.tags = Some(Vec::new());
                    st.in_tags = true;
                    proof {
                        assert(st.tags->0.deep_view() =~= Seq::<Seq<char>>::empty());
                        assert(st@ =~= HState { tags: Some(Seq::empty()), in_tags: true, ..old(st)@ });
                    }
                    true
                } else {
                    false
                }
            } else if str_eq(key, "id") {
                st.id = Some(value.to_owned());
                st.in_tags = false;
                proof {
                    assert(st@ =~= HState { id: Some(value@), in_tags: false, ..old(st)@ });
                }
                true
            } else if str_eq(key, "linked_note") {
                st.linked_note = Some(value.to_owned());
                st.in_tags = false;
                proof {
                    assert(st@ =~= HState { linked_note: Some(value@), in_tags: false, ..old(st)@ });
                }
                true
            } else if str_eq(key, "created") {
                st.created = Some(value.to_owned());
                st.in_tags = false;
                proof {
                    assert(st@ =~= HState { created: Some(value@), in_tags: false, ..old(st)@ });
                }
                true
            } else if str_eq(key, "updated") {
                st.updated = Some(value.to_owned());
                st.in_tags = false;
                proof {
                    assert(st@ =~= HState { updated: Some(value@), in_tags: false, ..old(st)@ });
                }
                true
            } else if str_eq(key, "status") {
                st.status = Some(value.to_owned());
                st.in_tags = false;
                proof {
                    assert(st@ =~= HState { status: Some(value@), in_tags: false, ..old(st)@ });
                }
                true
            } else if str_eq(key, "completed") {
                st.completed = Some(value.to_owned());
                st.in_tags = false;
                proof {
                    assert(st@ =~= HState { completed: Some(value@), in_tags: false, ..old(st)@ });
                }
                true
            } else if str_eq(key, "due") {
                st.due = Some(value.to_owned());
                st.in_tags = false;
                proof {
                    assert(st@ =~= HState { due: Some(value@), in_tags: false, ..old(st)@ });
                }
                true
            } else if str_eq(key, "priority") {
                st.priority = Some(value.to_owned());
                st.in_tags = false;
                proof {
                    assert(st@ =~= HState { priority: Some(value@), in_tags: false, ..old(st)@ });
                }
                true
            } else {
                st.in_tags = false;
                proof {
                    assert(st@ =~= HState { in_tags: false, ..old(st)@ });
                }
                true
            }
        },
    }
}

/// Parses a header block into a header, or nothing where the block is not a
/// valid key/value document with the required fields.
pub fn parse_header(s: &str) -> (r: Option<TodoFrontmatter>)
    ensures
        match parse_header_spec(s@) {
            Some(h) => r matches Some(ph) && ph@ == h,
            None => r is None,
        },
{
    let v = chars_of(s);
    let n = v.len();
    let mut st = PartialHeader {
        id: None,
        linked_note: None,
        created: None,
        updated: None,
        status: None,
        completed: None,
        due: None,
        priority: None,
        tags: None,
        in_tags: false,
    };
    proof {
        assert(st@ =~= hstate_init());
    }
    let mut pos: usize = 0;
    loop
        invariant
            n == s@.len(),
            v@ == s@,
            pos <= n,
            parse_lines(split_lines_from(s@, 0), hstate_init()) == parse_lines(
                split_lines_from(s@, pos as int),
                st@,
            ),
        decreases n - pos,
    {
        match find_char(&v, pos, '\n') {
            Some(nl) => {
                let linestr = s.substring_char(pos, nl);
                proof {
                    crate::text::lemma_find_char_props(s@, pos as int, '\n');
                    assert(split_lines_from(s@, pos as int) == seq![s@.subrange(pos as int, nl as int)]
                        + split_lines_from(s@, nl as int + 1));
                    assert(split_lines_from(s@, pos as int)[0] == linestr@);
                    assert(split_lines_from(s@, pos as int).drop_first() =~= split_lines_from(
                        s@,
                        nl as int + 1,
                    ));
                }
                let ok = step_line(&mut st, linestr);
                if !ok {
                    return None;
                }
                pos = nl + 1;
            },
            None => {
                let linestr = s.substring_char(pos, n);
                proof {
                    assert(split_lines_from(s@, pos as int) == seq![s@.subrange(pos as int, n as int)]);
                    assert(split_lines_from(s@, pos as int)[0] == linestr@);
                    assert(split_lines_from(s@, pos as int).drop_first()
                        =~= Seq::<Seq<char>>::empty());
                }
                let ghost old_st = st@;
                let ok = step_line(&mut st, linestr);
                proof {
                    let ls = split_lines_from(s@, pos as int);
                    match line_step(old_st, linestr@) {
                        None => {
                            assert(parse_lines(ls, old_st) is None);
                        },
                        Some(st2) => {
                            assert(parse_lines(ls.drop_first(), st2) == Some(st2));
                            assert(parse_lines(ls, old_st) == Some(st2));
                        },
                    }
                }
                if !ok {
                    return None;
                }
                let ghost stv = st@;
                proof {
                    assert(parse_lines(split_lines_from(s@, 0), hstate_init()) == Some(stv));
                }
                let PartialHeader { id, linked_note, created, updated, status, completed, due, priority, tags, in_tags: _ } = st;
                match (id, linked_note, status) {
                    (Some(id), Some(linked_note), Some(status)) => {
                        let h = TodoFrontmatter {
                            id,
                            linked_note,
                            created,
                            updated,
                            status,
                            completed,
                            due,
                            priority,
                            tags,
                        };
                        proof {
                            assert(h@ =~= finalize_spec(stv)->0);
                        }
                        return Some(h);
                    },
                    _ => {
                        proof {
                            assert(finalize_spec(stv) is None);
                        }
                        return None;
                    },
                }
            },
        }
    }
}

// ---------------------------------------------------------------------------
// The serialized header as a block of lines
// ---------------------------------------------------------------------------
/// A block of full lines: free of delimiter occurrences and ending with a
/// line feed when non-empty.
pub open spec fn nl_block(s: Seq<char>) -> bool {
    &&& no_delim(s)
    &&& s.len() > 0 ==> s.last() == '\n'
}

pub proof fn lemma_nl_block_concat(a: Seq<char>, b: Seq<char>)
    requires
        nl_block(a),
        nl_block(b),
    ensures
        nl_block(a + b),
{
    crate::text::lemma_no_delim_concat(a, b);
    if b.len() == 0 {
        assert(a + b =~= a);
    } else {
        assert((a + b).last() == b.last());
    }
}

proof fn lemma_kv_line_nl_block(key: Seq<char>, v: Seq<char>)
    requires
        forall|i: int| 0 <= i < key.len() ==> key[i] != '-',
        value_wf(v),
    ensures
        nl_block(kv_line(key, v)),
        kv_line(key, v).len() > 0,
{
    let l = kv_line(key, v);
    let k = key.len() as int;
    assert(l.len() == k + 3 + v.len());
    assert(l.last() == '\n');
    assert forall|i: int| !is_delim_at(l, i) by {
        if 0 <= i && i + 3 <= l.len() && l[i] == '-' && l[i + 1] == '-' && l[i + 2] == '-' {
            assert forall|p: int| 0 <= p < l.len() && l[p] == '-' implies k + 2 <= p < k + 2
                + v.len() by {
                if p < k {
                    assert(l[p] == key[p]);
                } else if p == k {
                    assert(l[p] == ':');
                } else if p == k + 1 {
                    assert(l[p] == ' ');
                } else if p >= k + 2 + v.len() {
                    assert(l[p] == '\n');
                }
            }
            assert(l[i] == v[i - k - 2]);
            assert(l[i + 1] == v[i - k - 1]);
            assert(l[i + 2] == v[i - k]);
            assert(is_delim_at(v, i - k - 2));
            assert(false);
        }
    }
}

proof fn lemma_opt_line_nl_block(key: Seq<char>, o: Option<Seq<char>>)
    requires
        forall|i: int| 0 <= i < key.len() ==> key[i] != '-',
        opt_value_wf(o),
    ensures
        nl_block(opt_line(key, o)),
{
    match o {
        Some(v) => {
            lemma_kv_line_nl_block(key, v);
        },
        None => {
        },
    }
}

proof fn lemma_tag_item_line_nl_block(item: Seq<char>)
    requires
        value_wf(item),
    ensures
        nl_block(tag_item_line(item)),
{
    let l = tag_item_line(item);
    assert(l.len() == 3 + item.len());
    assert(l.last() == '\n');
    assert forall|i: int| !is_delim_at(l, i) by {
        if 0 <= i && i + 3 <= l.len() && l[i] == '-' && l[i + 1] == '-' && l[i + 2] == '-' {
            assert forall|p: int| 0 <= p < l.len() && l[p] == '-' && p != 0 implies 2 <= p < 2
                + item.len() by {
                if p == 1 {
                    assert(l[p] == ' ');
                } else if p >= 2 + item.len() {
                    assert(l[p] == '\n');
                }
            }
            assert(l[1] == ' ');
            assert(i != 0 ==> i >= 2 && is_delim_at(item, i - 2) && item[i - 2] == l[i]);
            assert(i == 0 ==> l[1] == '-');
            assert(false);
        }
    }
}

proof fn lemma_tag_lines_nl_block(ts: Seq<Seq<char>>)
    requires
        forall|i: int| 0 <= i < ts.len() ==> value_wf(#[trigger] ts[i]),
    ensures
        nl_block(tag_lines(ts)),
    decreases ts.len(),
{
    if ts.len() > 0 {
        lemma_tag_item_line_nl_block(ts[0]);
        lemma_tag_lines_nl_block(ts.drop_first());
        lemma_nl_block_concat(tag_item_line(ts[0]), tag_lines(ts.drop_first()));
    }
}

proof fn lemma_tags_block_nl_block(o: Option<Seq<Seq<char>>>)
    requires
        match o {
            Some(ts) => forall|i: int| 0 <= i < ts.len() ==> value_wf(#[trigger] ts[i]),
            None => true,
        },
    ensures
        nl_block(tags_block(o)),
{
    match o {
        Some(ts) => {
            reveal_strlit("tags");
            let a = "tags"@ + seq![':', '\n'];
            assert(a.len() == 6);
            assert(a.last() == '\n');
            assert forall|i: int| !is_delim_at(a, i) by {
                if 0 <= i && i + 3 <= a.len() {
                    assert(a[1] == 'a');
                    assert(a[2] == 'g');
                    assert(a[3] == 's');
                    assert(a[4] == ':');
                }
            }
            lemma_tag_lines_nl_block(ts);
            lemma_nl_block_concat(a, tag_lines(ts));
        },
        None => {
        },
    }
}

/// The serialized header is a non-empty block of full lines holding no
/// delimiter occurrence.
pub proof fn lemma_serialize_nl_block(h: HeaderV)
    requires
        header_wf(h),
    ensures
        nl_block(serialize_header_spec(h)),
        serialize_header_spec(h).len() > 0,
{
    reveal_strlit("id");
    reveal_strlit("linked_note");
    reveal_strlit("created");
    reveal_strlit("updated");
    reveal_strlit("status");
    reveal_strlit("completed");
    reveal_strlit("due");
    reveal_strlit("priority");
    assert(forall|i: int| 0 <= i < "id"@.len() ==> "id"@[i] != '-');
    assert(forall|i: int| 0 <= i < "linked_note"@.len() ==> "linked_note"@[i] != '-');
    assert(forall|i: int| 0 <= i < "created"@.len() ==> "created"@[i] != '-');
    assert(forall|i: int| 0 <= i < "updated"@.len() ==> "updated"@[i] != '-');
    assert(forall|i: int| 0 <= i < "status"@.len() ==> "status"@[i] != '-');
    assert(forall|i: int| 0 <= i < "completed"@.len() ==> "completed"@[i] != '-');
    assert(forall|i: int| 0 <= i < "due"@.len() ==> "due"@[i] != '-');
    assert(forall|i: int| 0 <= i < "priority"@.len() ==> "priority"@[i] != '-');
    lemma_kv_line_nl_block("id"@, h.id);
    lemma_kv_line_nl_block("linked_note"@, h.linked_note);
    lemma_opt_line_nl_block("created"@, h.created);
    lemma_opt_line_nl_block("updated"@, h.updated);
    lemma_kv_line_nl_block("status"@, h.status);
    lemma_opt_line_nl_block("completed"@, h.completed);
    lemma_opt_line_nl_block("due"@, h.due);
    lemma_opt_line_nl_block("priority"@, h.priority);
    lemma_tags_block_nl_block(h.tags);
    let a1 = kv_line("id"@, h.id);
    let a2 = a1 + kv_line("linked_note"@, h.linked_note);
    lemma_nl_block_concat(a1, kv_line("linked_note"@, h.linked_note));
    let a3 = a2 + opt_line("created"@, h.created);
    lemma_nl_block_concat(a2, opt_line("created"@, h.created));
    let a4 = a3 + opt_line("updated"@, h.updated);
    lemma_nl_block_concat(a3, opt_line("updated"@, h.updated));
    let a5 = a4 + kv_line("status"@, h.status);
    lemma_nl_block_concat(a4, kv_line("status"@, h.status));
    let a6 = a5 + opt_line("completed"@, h.completed);
    lemma_nl_block_concat(a5, opt_line("completed"@, h.completed));
    let a7 = a6 + opt_line("due"@, h.due);
    lemma_nl_block_concat(a6, opt_line("due"@, h.due));
    let a8 = a7 + opt_line("priority"@, h.priority);
    lemma_nl_block_concat(a7, opt_line("priority"@, h.priority));
    lemma_nl_block_concat(a8, tags_block(h.tags));
}

// ---------------------------------------------------------------------------
// Parsing the serialized header back
// ---------------------------------------------------------------------------
/// Splitting from `from` is splitting the suffix from its start.
pub proof fn lemma_split_lines_shift(s: Seq<char>, from: int)
    requires
        0 <= from <= s.len(),
    ensures
        split_lines_from(s, from) == split_lines_from(s.subrange(from, s.len() as int), 0),
    decreases s.len() - from,
{
    let u = s.subrange(from, s.len() as int);
    crate::text::lemma_find_char_shift(s, from, '\n');
    crate::text::lemma_find_char_props(u, 0, '\n');
    match find_char_from(u, 0, '\n') {
        None => {
            assert(u.subrange(0, u.len() as int) =~= u);
        },
        Some(i) => {
            assert(s.subrange(from, from + i) =~= u.subrange(0, i));
            lemma_split_lines_shift(s, from + i + 1);
            lemma_split_lines_shift(u, i + 1);
            assert(s.subrange(from + i + 1, s.len() as int) =~= u.subrange(i + 1, u.len() as int));
        },
    }
}

/// Peeling the first full line off a block of lines.
pub proof fn lemma_split_lines_prepend(l: Seq<char>, rest: Seq<char>)
    requires
        forall|i: int| 0 <= i < l.len() ==> l[i] != '\n',
    ensures
        split_lines_from(l + seq!['\n'] + rest, 0) == seq![l] + split_lines_from(rest, 0),
{
    let s = l + seq!['\n'] + rest;
    assert(s[l.len() as int] == '\n');
    assert forall|j: int| 0 <= j < l.len() implies s[j] != '\n' by {
        assert(s[j] == l[j]);
    }
    crate::text::lemma_find_char_exact(s, 0, l.len() as int, '\n');
    assert(s.subrange(0, l.len() as int) =~= l);
    lemma_split_lines_shift(s, l.len() as int + 1);
    assert(s.subrange(l.len() as int + 1, s.len() as int) =~= rest);
}

/// The pieces of a serialized scalar line as `line_step` reads them.
proof fn lemma_kv_step_facts(key: Seq<char>, v: Seq<char>, rest: Seq<char>)
    requires
        key.len() > 0,
        forall|i: int|
            0 <= i < key.len() ==> key[i] != '\n' && key[i] != ':' && key[i] != '-' && key[i]
                != '\r',
        value_wf(v),
    ensures
        split_lines_from(kv_line(key, v) + rest, 0) == seq![key + seq![':', ' '] + v]
            + split_lines_from(rest, 0),
        ({
            let l = key + seq![':', ' '] + v;
            &&& strip_cr(l) == l
            &&& l.len() > 0
            &&& l[0] == key[0]
            &&& find_char_from(l, 0, ':') == Some(key.len() as int)
            &&& l.subrange(0, key.len() as int) == key
            &&& line_value(l.subrange(key.len() as int + 1, l.len() as int)) == v
        }),
{
    let l = key + seq![':', ' '] + v;
    let k = key.len() as int;
    assert forall|i: int| 0 <= i < l.len() implies l[i] != '\n' by {
        if i < k {
            assert(l[i] == key[i]);
        } else if i == k {
            assert(l[i] == ':');
        } else if i == k + 1 {
            assert(l[i] == ' ');
        } else {
            assert(l[i] == v[i - k - 2]);
        }
    }
    assert(kv_line(key, v) + rest =~= l + seq!['\n'] + rest);
    lemma_split_lines_prepend(l, rest);
    if v.len() > 0 {
        assert(l.last() == v.last());
    } else {
        assert(l.last() == ' ');
    }
    assert(l[k] == ':');
    assert forall|j: int| 0 <= j < k implies l[j] != ':' by {
        assert(l[j] == key[j]);
    }
    crate::text::lemma_find_char_exact(l, 0, k, ':');
    assert(l.subrange(0, k) =~= key);
    let r = l.subrange(k + 1, l.len() as int);
    assert(r[0] == ' ');
    assert(r.drop_first() =~= v);
}

/// Folding the item lines of the tags block extends the open tag list by
/// exactly those items.
proof fn lemma_parse_tag_block(ts: Seq<Seq<char>>, st: HState)
    requires
        st.in_tags,
        st.tags is Some,
        forall|i: int| 0 <= i < ts.len() ==> value_wf(#[trigger] ts[i]),
    ensures
        parse_lines(split_lines_from(tag_lines(ts), 0), st) == Some(
            HState { tags: Some(st.tags->0 + ts), ..st },
        ),
    decreases ts.len(),
{
    if ts.len() == 0 {
        assert(tag_lines(ts) =~= Seq::<char>::empty());
        let ls = split_lines_from(Seq::<char>::empty(), 0);
        assert(ls == seq![Seq::<char>::empty().subrange(0, 0)]);
        assert(Seq::<char>::empty().subrange(0, 0) =~= Seq::<char>::empty());
        assert(strip_cr(Seq::<char>::empty()).len() == 0);
        assert(line_step(st, Seq::<char>::empty()) == Some(st));
        assert(ls.drop_first() =~= Seq::<Seq<char>>::empty());
        assert(parse_lines(ls.drop_first(), st) == Some(st));
        assert(st.tags->0 + ts =~= st.tags->0);
        assert(HState { tags: Some(st.tags->0 + ts), ..st } =~= st);
    } else {
        let item = ts[0];
        let l = seq!['-', ' '] + item;
        assert(tag_lines(ts) =~= l + seq!['\n'] + tag_lines(ts.drop_first()));
        assert forall|i: int| 0 <= i < l.len() implies l[i] != '\n' by {
            if i >= 2 {
                assert(l[i] == item[i - 2]);
            }
        }
        lemma_split_lines_prepend(l, tag_lines(ts.drop_first()));
        if item.len() > 0 {
            assert(l.last() == item.last());
        } else {
            assert(l.last() == ' ');
        }
        assert(strip_cr(l) == l);
        assert(l[0] == '-');
        assert(l[1] == ' ');
        assert(l.subrange(2, l.len() as int) =~= item);
        let st2 = HState { tags: Some(st.tags->0.push(item)), ..st };
        assert(line_step(st, l) == Some(st2));
        lemma_parse_tag_block(ts.drop_first(), st2);
        let ls = split_lines_from(tag_lines(ts), 0);
        assert(ls[0] == l);
        assert(ls.drop_first() =~= split_lines_from(tag_lines(ts.drop_first()), 0));
        assert(st.tags->0.push(item) + ts.drop_first() =~= st.tags->0 + ts);
        assert(HState { tags: Some(st2.tags->0 + ts.drop_first()), ..st2 } =~= HState {
            tags: Some(st.tags->0 + ts),
            ..st
        });
    }
}

/// Peeling a leading blank line leaves the fold unchanged.
proof fn lemma_parse_leading_blank(rest: Seq<char>, st: HState)
    ensures
        parse_lines(split_lines_from(seq!['\n'] + rest, 0), st) == parse_lines(
            split_lines_from(rest, 0),
            st,
        ),
{
    assert(seq!['\n'] + rest =~= Seq::<char>::empty() + seq!['\n'] + rest);
    lemma_split_lines_prepend(Seq::<char>::empty(), rest);
    assert(strip_cr(Seq::<char>::empty()).len() == 0);
    assert(line_step(st, Seq::<char>::empty()) == Some(st));
    assert((seq![Seq::<char>::empty()] + split_lines_from(rest, 0))[0]
        == Seq::<char>::empty());
    assert((seq![Seq::<char>::empty()] + split_lines_from(rest, 0)).drop_first()
        =~= split_lines_from(rest, 0));
}

/// Folding an empty remainder closes the parse.
proof fn lemma_parse_final_blank(st: HState)
    ensures
        parse_lines(split_lines_from(Seq::<char>::empty(), 0), st) == Some(st),
{
    let ls = split_lines_from(Seq::<char>::empty(), 0);
    assert(ls == seq![Seq::<char>::empty().subrange(0, 0)]);
    assert(Seq::<char>::empty().subrange(0, 0) =~= Seq::<char>::empty());
    assert(strip_cr(Seq::<char>::empty()).len() == 0);
    assert(line_step(st, Seq::<char>::empty()) == Some(st));
    assert(ls.drop_first() =~= Seq::<Seq<char>>::empty());
    assert(parse_lines(ls.drop_first(), st) == Some(st));
}

proof fn lemma_parse_step_id(v: Seq<char>, rest: Seq<char>, st: HState)
    requires
        value_wf(v),
    ensures
        parse_lines(split_lines_from(kv_line("id"@, v) + rest, 0), st) == parse_lines(
            split_lines_from(rest, 0),
            HState { id: Some(v), in_tags: false, ..st },
        ),
{
    reveal_strlit("id");
    reveal_strlit("linked_note");
    reveal_strlit("created");
    reveal_strlit("updated");
    reveal_strlit("status");
    reveal_strlit("completed");
    reveal_strlit("due");
    reveal_strlit("priority");
    reveal_strlit("tags");
    assert(forall|i: int|
        0 <= i < "id"@.len() ==> "id"@[i] != '\n' && "id"@[i] != ':' && "id"@[i] != '-' && "id"@[i]
            != '\r');
    lemma_kv_step_facts("id"@, v, rest);
    let l = "id"@ + seq![':', ' '] + v;
    assert(line_step(st, l) == Some(HState { id: Some(v), in_tags: false, ..st }));
    assert((seq![l] + split_lines_from(rest, 0))[0] == l);
    assert((seq![l] + split_lines_from(rest, 0)).drop_first() =~= split_lines_from(rest, 0));
}

proof fn lemma_parse_step_linked_note(v: Seq<char>, rest: Seq<char>, st: HState)
    requires
        value_wf(v),
    ensures
        parse_lines(split_lines_from(kv_line("linked_note"@, v) + rest, 0), st) == parse_lines(
            split_lines_from(rest, 0),
            HState { linked_note: Some(v), in_tags: false, ..st },
        ),
{
    reveal_strlit("id");
    reveal_strlit("linked_note");
    reveal_strlit("created");
    reveal_strlit("updated");
    reveal_strlit("status");
    reveal_strlit("completed");
    reveal_strlit("due");
    reveal_strlit("priority");
    reveal_strlit("tags");
    assert(forall|i: int|
        0 <= i < "linked_note"@.len() ==> "linked_note"@[i] != '\n' && "linked_note"@[i] != ':' && "linked_note"@[i] != '-' && "linked_note"@[i]
            != '\r');
    lemma_kv_step_facts("linked_note"@, v, rest);
    let l = "linked_note"@ + seq![':', ' '] + v;
    assert(line_step(st, l) == Some(HState { linked_note: Some(v), in_tags: false, ..st }));
    assert((seq![l] + split_lines_from(rest, 0))[0] == l);
    assert((seq![l] + split_lines_from(rest, 0)).drop_first() =~= split_lines_from(rest, 0));
}

proof fn lemma_parse_step_created(o: Option<Seq<char>>, rest: Seq<char>, st: HState)
    requires
        opt_value_wf(o),
        !st.in_tags,
    ensures
        parse_lines(split_lines_from(opt_line("created"@, o) + rest, 0), st) == parse_lines(
            split_lines_from(rest, 0),
            HState {
                created: if o is Some {
                    o
                } else {
                    st.created
                },
                in_tags: false,
                ..st
            },
        ),
{
    match o {
        None => {
            assert(opt_line("created"@, o) + rest =~= rest);
            assert(HState { created: st.created, in_tags: false, ..st } =~= st);
        },
        Some(v) => {
    reveal_strlit("id");
    reveal_strlit("linked_note");
    reveal_strlit("created");
    reveal_strlit("updated");
    reveal_strlit("status");
    reveal_strlit("completed");
    reveal_strlit("due");
    reveal_strlit("priority");
    reveal_strlit("tags");
    assert(forall|i: int|
        0 <= i < "created"@.len() ==> "created"@[i] != '\n' && "created"@[i] != ':' && "created"@[i] != '-' && "created"@[i]
            != '\r');
            lemma_kv_step_facts("created"@, v, rest);
            let l = "created"@ + seq![':', ' '] + v;
            assert(line_step(st, l) == Some(HState { created: Some(v), in_tags: false, ..st }));
            assert((seq![l] + split_lines_from(rest, 0))[0] == l);
            assert((seq![l] + split_lines_from(rest, 0)).drop_first() =~= split_lines_from(
                rest,
                0,
            ));
        },
    }
}

proof fn lemma_parse_step_updated(o: Option<Seq<char>>, rest: Seq<char>, st: HState)
    requires
        opt_value_wf(o),
        !st.in_tags,
    ensures
        parse_lines(split_lines_from(opt_line("updated"@, o) + rest, 0), st) == parse_lines(
            split_lines_from(rest, 0),
            HState {
                updated: if o is Some {
                    o
                } else {
                    st.updated
                },
                in_tags: false,
                ..st
            },
        ),
{
    match o {
        None => {
            assert(opt_line("updated"@, o) + rest =~= rest);
            assert(HState { updated: st.updated, in_tags: false, ..st } =~= st);
        },
        Some(v) => {
    reveal_strlit("id");
    reveal_strlit("linked_note");
    reveal_strlit("created");
    reveal_strlit("updated");
    reveal_strlit("status");
    reveal_strlit("completed");
    reveal_strlit("due");
    reveal_strlit("priority");
    reveal_strlit("tags");
    assert(forall|i: int|
        0 <= i < "updated"@.len() ==> "updated"@[i] != '\n' && "updated"@[i] != ':' && "updated"@[i] != '-' && "updated"@[i]
            != '\r');
            lemma_kv_step_facts("updated"@, v, rest);
            let l = "updated"@ + seq![':', ' '] + v;
            assert(line_step(st, l) == Some(HState { updated: Some(v), in_tags: false, ..st }));
            assert((seq![l] + split_lines_from(rest, 0))[0] == l);
            assert((seq![l] + split_lines_from(rest, 0)).drop_first() =~= split_lines_from(
                rest,
                0,
            ));
        },
    }
}

proof fn lemma_parse_step_status(v: Seq<char>, rest: Seq<char>, st: HState)
    requires
        value_wf(v),
    ensures
        parse_lines(split_lines_from(kv_line("status"@, v) + rest, 0), st) == parse_lines(
            split_lines_from(rest, 0),
            HState { status: Some(v), in_tags: false, ..st },
        ),
{
    reveal_strlit("id");
    reveal_strlit("linked_note");
    reveal_strlit("created");
    reveal_strlit("updated");
    reveal_strlit("status");
    reveal_strlit("completed");
    reveal_strlit("due");
    reveal_strlit("priority");
    reveal_strlit("tags");
    assert(forall|i: int|
        0 <= i < "status"@.len() ==> "status"@[i] != '\n' && "status"@[i] != ':' && "status"@[i] != '-' && "status"@[i]
            != '\r');
    lemma_kv_step_facts("status"@, v, rest);
    let l = "status"@ + seq![':', ' '] + v;
    assert(line_step(st, l) == Some(HState { status: Some(v), in_tags: false, ..st }));
    assert((seq![l] + split_lines_from(rest, 0))[0] == l);
    assert((seq![l] + split_lines_from(rest, 0)).drop_first() =~= split_lines_from(rest, 0));
}

proof fn lemma_parse_step_completed(o: Option<Seq<char>>, rest: Seq<char>, st: HState)
    requires
        opt_value_wf(o),
        !st.in_tags,
    ensures
        parse_lines(split_lines_from(opt_line("completed"@, o) + rest, 0), st) == parse_lines(
            split_lines_from(rest, 0),
            HState {
                completed: if o is Some {
                    o
                } else {
                    st.completed
                },
                in_tags: false,
                ..st
            },
        ),
{
    match o {
        None => {
            assert(opt_line("completed"@, o) + rest =~= rest);
            assert(HState { completed: st.completed, in_tags: false, ..st } =~= st);
        },
        Some(v) => {
    reveal_strlit("id");
    reveal_strlit("linked_note");
    reveal_strlit("created");
    reveal_strlit("updated");
    reveal_strlit("status");
    reveal_strlit("completed");
    reveal_strlit("due");
    reveal_strlit("priority");
    reveal_strlit("tags");
    assert(forall|i: int|
        0 <= i < "completed"@.len() ==> "completed"@[i] != '\n' && "completed"@[i] != ':' && "completed"@[i] != '-' && "completed"@[i]
            != '\r');
            lemma_kv_step_facts("completed"@, v, rest);
            let l = "completed"@ + seq![':', ' '] + v;
            assert(line_step(st, l) == Some(HState { completed: Some(v), in_tags: false, ..st }));
            assert((seq![l] + split_lines_from(rest, 0))[0] == l);
            assert((seq![l] + split_lines_from(rest, 0)).drop_first() =~= split_lines_from(
                rest,
                0,
            ));
        },
    }
}

proof fn lemma_parse_step_due(o: Option<Seq<char>>, rest: Seq<char>, st: HState)
    requires
        opt_value_wf(o),
        !st.in_tags,
    ensures
        parse_lines(split_lines_from(opt_line("due"@, o) + rest, 0), st) == parse_lines(
            split_lines_from(rest, 0),
            HState {
                due: if o is Some {
                    o
                } else {
                    st.due
                },
                in_tags: false,
                ..st
            },
        ),
{
    match o {
        None => {
            assert(opt_line("due"@, o) + rest =~= rest);
            assert(HState { due: st.due, in_tags: false, ..st } =~= st);
        },
        Some(v) => {
    reveal_strlit("id");
    reveal_strlit("linked_note");
    reveal_strlit("created");
    reveal_strlit("updated");
    reveal_strlit("status");
    reveal_strlit("completed");
    reveal_strlit("due");
    reveal_strlit("priority");
    reveal_strlit("tags");
    assert(forall|i: int|
        0 <= i < "due"@.len() ==> "due"@[i] != '\n' && "due"@[i] != ':' && "due"@[i] != '-' && "due"@[i]
            != '\r');
            lemma_kv_step_facts("due"@, v, rest);
            let l = "due"@ + seq![':', ' '] + v;
            assert(line_step(st, l) == Some(HState { due: Some(v), in_tags: false, ..st }));
            assert((seq![l] + split_lines_from(rest, 0))[0] == l);
            assert((seq![l] + split_lines_from(rest, 0)).drop_first() =~= split_lines_from(
                rest,
                0,
            ));
        },
    }
}

proof fn lemma_parse_step_priority(o: Option<Seq<char>>, rest: Seq<char>, st: HState)
    requires
        opt_value_wf(o),
        !st.in_tags,
    ensures
        parse_lines(split_lines_from(opt_line("priority"@, o) + rest, 0), st) == parse_lines(
            split_lines_from(rest, 0),
            HState {
                priority: if o is Some {
                    o
                } else {
                    st.priority
                },
                in_tags: false,
                ..st
            },
        ),
{
    match o {
        None => {
            assert(opt_line("priority"@, o) + rest =~= rest);
            assert(HState { priority: st.priority, in_tags: false, ..st } =~= st);
        },
        Some(v) => {
    reveal_strlit("id");
    reveal_strlit("linked_note");
    reveal_strlit("created");
    reveal_strlit("updated");
    reveal_strlit("status");
    reveal_strlit("completed");
    reveal_strlit("due");
    reveal_strlit("priority");
    reveal_strlit("tags");
    assert(forall|i: int|
        0 <= i < "priority"@.len() ==> "priority"@[i] != '\n' && "priority"@[i] != ':' && "priority"@[i] != '-' && "priority"@[i]
            != '\r');
            lemma_kv_step_facts("priority"@, v, rest);
            let l = "priority"@ + seq![':', ' '] + v;
            assert(line_step(st, l) == Some(HState { priority: Some(v), in_tags: false, ..st }));
            assert((seq![l] + split_lines_from(rest, 0))[0] == l);
            assert((seq![l] + split_lines_from(rest, 0)).drop_first() =~= split_lines_from(
                rest,
                0,
            ));
        },
    }
}

/// Folding the whole tags block records exactly its items.
proof fn lemma_parse_step_tags(o: Option<Seq<Seq<char>>>, st: HState)
    requires
        match o {
            Some(ts) => forall|i: int| 0 <= i < ts.len() ==> value_wf(#[trigger] ts[i]),
            None => true,
        },
        !st.in_tags,
    ensures
        parse_lines(split_lines_from(tags_block(o), 0), st) == Some(
            HState {
                tags: if o is Some {
                    o
                } else {
                    st.tags
                },
                in_tags: o is Some,
                ..st
            },
        ),
{
    match o {
        None => {
            assert(tags_block(o) =~= Seq::<char>::empty());
            lemma_parse_final_blank(st);
            assert(HState { tags: st.tags, in_tags: false, ..st } =~= st);
        },
        Some(ts) => {
            reveal_strlit("tags");
            let l_tags = "tags"@ + seq![':'];
            assert(tags_block(o) =~= l_tags + seq!['\n'] + tag_lines(ts));
            assert forall|i: int| 0 <= i < l_tags.len() implies l_tags[i] != '\n' by {
                if i < 4 {
                    assert(l_tags[i] == "tags"@[i]);
                } else {
                    assert(l_tags[i] == ':');
                }
            }
            lemma_split_lines_prepend(l_tags, tag_lines(ts));
            assert(l_tags.last() == ':');
            assert(strip_cr(l_tags) == l_tags);
            assert(l_tags[0] == 't');
            assert(l_tags[4] == ':');
            assert forall|j: int| 0 <= j < 4 implies l_tags[j] != ':' by {
                assert(l_tags[j] == "tags"@[j]);
            }
            crate::text::lemma_find_char_exact(l_tags, 0, 4, ':');
            assert(l_tags.subrange(0, 4) =~= "tags"@);
            let r = l_tags.subrange(5, 5);
            assert(r =~= Seq::<char>::empty());
            assert(line_value(r).len() == 0);
            let s9 = HState { tags: Some(Seq::<Seq<char>>::empty()), in_tags: true, ..st };
            assert(line_step(st, l_tags) == Some(s9));
            lemma_parse_tag_block(ts, s9);
            assert(Seq::<Seq<char>>::empty() + ts =~= ts);
            assert((seq![l_tags] + split_lines_from(tag_lines(ts), 0))[0] == l_tags);
            assert((seq![l_tags] + split_lines_from(tag_lines(ts), 0)).drop_first()
                =~= split_lines_from(tag_lines(ts), 0));
            assert(HState { tags: Some(Seq::<Seq<char>>::empty() + ts), ..s9 } =~= HState {
                tags: o,
                in_tags: true,
                ..st
            });
        },
    }
}

/// The serialized header regrouped with each line segment leading.
proof fn lemma_serialize_reassoc(h: HeaderV)
    ensures
        serialize_header_spec(h) == kv_line("id"@, h.id) + (kv_line("linked_note"@, h.linked_note)
            + (opt_line("created"@, h.created) + (opt_line("updated"@, h.updated) + (kv_line(
            "status"@,
            h.status,
        ) + (opt_line("completed"@, h.completed) + (opt_line("due"@, h.due) + (opt_line(
            "priority"@,
            h.priority,
        ) + tags_block(h.tags)))))))),
{
    let a = kv_line("id"@, h.id);
    let b = kv_line("linked_note"@, h.linked_note);
    let c = opt_line("created"@, h.created);
    let d = opt_line("updated"@, h.updated);
    let e = kv_line("status"@, h.status);
    let f = opt_line("completed"@, h.completed);
    let g = opt_line("due"@, h.due);
    let i = opt_line("priority"@, h.priority);
    let j = tags_block(h.tags);
    assert((a + b + c + d + e + f + g + i) + j =~= (a + b + c + d + e + f + g) + (i + j));
    assert((a + b + c + d + e + f + g) + (i + j) =~= (a + b + c + d + e + f) + (g + (i + j)));
    assert((a + b + c + d + e + f) + (g + (i + j)) =~= (a + b + c + d + e) + (f + (g + (i + j))));
    assert((a + b + c + d + e) + (f + (g + (i + j))) =~= (a + b + c + d) + (e + (f + (g + (i
        + j)))));
    assert((a + b + c + d) + (e + (f + (g + (i + j)))) =~= (a + b + c) + (d + (e + (f + (g + (i
        + j))))));
    assert((a + b + c) + (d + (e + (f + (g + (i + j))))) =~= (a + b) + (c + (d + (e + (f + (g + (i
        + j)))))));
    assert((a + b) + (c + (d + (e + (f + (g + (i + j)))))) =~= a + (b + (c + (d + (e + (f + (g + (i
        + j))))))));
}

/// Parsing the serialized text of a line-safe header yields that header
/// back.
#[verifier::rlimit(100)]
#[verifier::spinoff_prover]
pub proof fn lemma_parse_serialized(h: HeaderV)
    requires
        header_wf(h),
    ensures
        parse_header_spec(seq!['\n'] + serialize_header_spec(h)) == Some(h),
{
    let hh = serialize_header_spec(h);
    let t8 = tags_block(h.tags);
    let t7 = opt_line("priority"@, h.priority) + t8;
    let t6 = opt_line("due"@, h.due) + t7;
    let t5 = opt_line("completed"@, h.completed) + t6;
    let t4 = kv_line("status"@, h.status) + t5;
    let t3 = opt_line("updated"@, h.updated) + t4;
    let t2 = opt_line("created"@, h.created) + t3;
    let t1 = kv_line("linked_note"@, h.linked_note) + t2;
    let t0 = kv_line("id"@, h.id) + t1;
    lemma_serialize_reassoc(h);
    assert(hh == t0);
    let s0 = hstate_init();
    let s1 = HState { id: Some(h.id), in_tags: false, ..s0 };
    let s2 = HState { linked_note: Some(h.linked_note), in_tags: false, ..s1 };
    let s3 = HState { created: h.created, in_tags: false, ..s2 };
    let s4 = HState { updated: h.updated, in_tags: false, ..s3 };
    let s5 = HState { status: Some(h.status), in_tags: false, ..s4 };
    let s6 = HState { completed: h.completed, in_tags: false, ..s5 };
    let s7 = HState { due: h.due, in_tags: false, ..s6 };
    let s8 = HState { priority: h.priority, in_tags: false, ..s7 };
    let s_fin = HState { tags: h.tags, in_tags: h.tags is Some, ..s8 };
    lemma_parse_step_id(h.id, t1, s0);
    assert(parse_lines(split_lines_from(t0, 0), s0) == parse_lines(split_lines_from(t1, 0), s1));
    lemma_parse_step_linked_note(h.linked_note, t2, s1);
    assert(parse_lines(split_lines_from(t1, 0), s1) == parse_lines(split_lines_from(t2, 0), s2));
    lemma_parse_step_created(h.created, t3, s2);
    assert(HState {
        created: if h.created is Some {
            h.created
        } else {
            s2.created
        },
        in_tags: false,
        ..s2
    } =~= s3);
    assert(parse_lines(split_lines_from(t2, 0), s2) == parse_lines(split_lines_from(t3, 0), s3));
    lemma_parse_step_updated(h.updated, t4, s3);
    assert(HState {
        updated: if h.updated is Some {
            h.updated
        } else {
            s3.updated
        },
        in_tags: false,
        ..s3
    } =~= s4);
    assert(parse_lines(split_lines_from(t3, 0), s3) == parse_lines(split_lines_from(t4, 0), s4));
    lemma_parse_step_status(h.status, t5, s4);
    assert(parse_lines(split_lines_from(t4, 0), s4) == parse_lines(split_lines_from(t5, 0), s5));
    lemma_parse_step_completed(h.completed, t6, s5);
    assert(HState {
        completed: if h.completed is Some {
            h.completed
        } else {
            s5.completed
        },
        in_tags: false,
        ..s5
    } =~= s6);
    assert(parse_lines(split_lines_from(t5, 0), s5) == parse_lines(split_lines_from(t6, 0), s6));
    lemma_parse_step_due(h.due, t7, s6);
    assert(HState {
        due: if h.due is Some {
            h.due
        } else {
            s6.due
        },
        in_tags: false,
        ..s6
    } =~= s7);
    assert(parse_lines(split_lines_from(t6, 0), s6) == parse_lines(split_lines_from(t7, 0), s7));
    lemma_parse_step_priority(h.priority, t8, s7);
    assert(HState {
        priority: if h.priority is Some {
            h.priority
        } else {
            s7.priority
        },
        in_tags: false,
        ..s7
    } =~= s8);
    assert(parse_lines(split_lines_from(t7, 0), s7) == parse_lines(split_lines_from(t8, 0), s8));
    lemma_parse_step_tags(h.tags, s8);
    assert(HState {
        tags: if h.tags is Some {
            h.tags
        } else {
            s8.tags
        },
        in_tags: h.tags is Some,
        ..s8
    } =~= s_fin);
    assert(parse_lines(split_lines_from(t8, 0), s8) == Some(s_fin));
    assert(parse_lines(split_lines_from(t0, 0), s0) == Some(s_fin));
    lemma_parse_leading_blank(t0, s0);
    assert(parse_lines(split_lines_from(seq!['\n'] + hh, 0), s0) == Some(s_fin));
    assert(finalize_spec(s_fin)->0 =~= h);
}

// ---------------------------------------------------------------------------
// The status transition
// ---------------------------------------------------------------------------
/// The effect of a status change on a header: the status is replaced, the
/// update stamp is always refreshed, and the completion stamp is set exactly
/// when the new status is the terminal `done`; otherwise it stays untouched.
pub open spec fn apply_status_spec(h: HeaderV, status: Seq<char>, now: Seq<char>) -> HeaderV {
    HeaderV {
        status: status,
        updated: Some(now),
        completed: if status == "done"@ {
            Some(now)
        } else {
            h.completed
        },
        ..h
    }
}

pub fn apply_status(h: TodoFrontmatter, status: &str, now: &str) -> (r: TodoFrontmatter)
    ensures
        r@ == apply_status_spec(h@, status@, now@),
{
    let mut r = h;
    r.status = status.to_owned();
    r.updated = Some(now.to_owned());
    if str_eq(status, "done") {
        r.completed = Some(now.to_owned());
    }
    proof {
        assert(r@ =~= apply_status_spec(h@, status@, now@));
    }
    r
}


/// Status transition law: entering `done` stamps both `updated` and
/// `completed` with the non-empty stamp; a later transition to another
/// status refreshes `updated` but leaves the earlier completion stamp
/// untouched.
pub proof fn lemma_status_transition(h: HeaderV, t1: Seq<char>, t2: Seq<char>)
    requires
        t1.len() > 0,
        t2.len() > 0,
    ensures
        ({
            let h1 = apply_status_spec(h, "done"@, t1);
            let h2 = apply_status_spec(h1, "pending"@, t2);
            &&& h1.updated == Some(t1) && h1.updated->0.len() > 0
            &&& h1.completed == Some(t1) && h1.completed->0.len() > 0
            &&& h2.updated == Some(t2) && h2.updated->0.len() > 0
            &&& h2.completed == h1.completed
        }),
{
    reveal_strlit("done");
    reveal_strlit("pending");
    assert("done"@.len() == 4);
    assert("pending"@.len() == 7);
}

} // verus!
