//! The task store's record-level operations: listing pending tasks from the
//! store directory's files and applying status transitions to one record.
use vstd::prelude::*;
use vstd::multiset::Multiset;
use vstd::seq_lib::group_to_multiset_ensures;
use vstd::string::StrSliceExecFns;
use vstd::string::StringExecFns;

use crate::DecodeError;
use crate::codec::{decode, decode_spec, encode, encode_spec, lemma_round_trip};
use crate::header::{
    HeaderV, apply_status, apply_status_spec, header_wf, value_wf,
};
use crate::paths::{first_line, first_line_spec, is_record_path, is_record_file};
use crate::text::{
    is_delim_at, lex_le, lex_lt, lemma_lex_total, lemma_lex_trans, lemma_trim_idempotent, str_eq,
    str_lt, trim_spec,
};

verus! {

/// One file of the store directory: its path and its raw text.
pub struct RecordFile {
    pub path: String,
    pub content: String,
}

/// Mathematical image of a store file.
#[verifier::ext_equal]
pub struct RecordFileV {
    pub path: Seq<char>,
    pub content: Seq<char>,
}

impl View for RecordFile {
    type V = RecordFileV;

    open spec fn view(&self) -> RecordFileV {
        RecordFileV { path: self.path@, content: self.content@ }
    }
}

impl DeepView for RecordFile {
    type V = RecordFileV;

    open spec fn deep_view(&self) -> RecordFileV {
        self.view()
    }
}

/// The read-only summary of one task record, as the listing returns it.
#[derive(Debug)]
pub struct TodoItem {
    pub path: String,
    pub id: String,
    pub text: String,
    pub linked_note: String,
    pub status: String,
    pub priority: Option<String>,
    pub due: Option<String>,
    pub created: Option<String>,
}

/// Mathematical image of a task summary.
#[verifier::ext_equal]
pub struct TodoItemV {
    pub path: Seq<char>,
    pub id: Seq<char>,
    pub text: Seq<char>,
    pub linked_note: Seq<char>,
    pub status: Seq<char>,
    pub priority: Option<Seq<char>>,
    pub due: Option<Seq<char>>,
    pub created: Option<Seq<char>>,
}

impl View for TodoItem {
    type V = TodoItemV;

    open spec fn view(&self) -> TodoItemV {
        TodoItemV {
            path: self.path@,
            id: self.id@,
            text: self.text@,
            linked_note: self.linked_note@,
            status: self.status@,
            priority: crate::header::opt_str_view(self.priority),
            due: crate::header::opt_str_view(self.due),
            created: crate::header::opt_str_view(self.created),
        }
    }
}

/// The summary derived from one decoded record.
pub open spec fn summary_of(path: Seq<char>, h: HeaderV, body: Seq<char>) -> TodoItemV {
    TodoItemV {
        path: path,
        id: h.id,
        text: first_line_spec(body),
        linked_note: h.linked_note,
        status: h.status,
        priority: h.priority,
        due: h.due,
        created: h.created,
    }
}

pub open spec fn is_pending(h: HeaderV) -> bool {
    h.status == "pending"@
}

/// The pending summaries of the record files from index `i` on, in file
/// order; the first record file that fails to decode fails the whole
/// listing. Files without the record extension are passed over.
pub open spec fn listing_from(files: Seq<RecordFileV>, i: int) -> Result<
    Seq<TodoItemV>,
    DecodeError,
>
    decreases files.len() - i,
{
    if i < 0 || i >= files.len() {
        Ok(Seq::empty())
    } else {
        let f = files[i];
        if !is_record_path(f.path) {
            listing_from(files, i + 1)
        } else {
            match decode_spec(f.content) {
                Err(e) => Err(e),
                Ok(p) => match listing_from(files, i + 1) {
                    Err(e) => Err(e),
                    Ok(rest) => if is_pending(p.0) {
                        Ok(seq![summary_of(f.path, p.0, p.1)] + rest)
                    } else {
                        Ok(rest)
                    },
                },
            }
        }
    }
}

/// The listing of a whole directory snapshot.
pub open spec fn listing_spec(files: Seq<RecordFileV>) -> Result<Seq<TodoItemV>, DecodeError> {
    listing_from(files, 0)
}

pub open spec fn items_view(s: Seq<TodoItem>) -> Seq<TodoItemV> {
    s.map_values(|t: TodoItem| t@)
}

/// Ordered by path descending: later entries never rank above earlier ones.
pub open spec fn sorted_desc(s: Seq<TodoItemV>) -> bool {
    forall|i: int, j: int| 0 <= i < j < s.len() ==> lex_le(#[trigger] s[j].path, #[trigger] s[i].path)
}

/// Inserting anywhere adds exactly one occurrence to the multiset.
proof fn lemma_insert_to_multiset<A>(s: Seq<A>, i: int, x: A)
    requires
        0 <= i <= s.len(),
    ensures
        s.insert(i, x).to_multiset() == s.to_multiset().insert(x),
{
    broadcast use group_to_multiset_ensures;

    let t = s.insert(i, x);
    assert(t[i] == x);
    assert(t.remove(i) =~= s);
    assert(s.to_multiset() == t.to_multiset().remove(x));
    assert(t.contains(x));
    assert(t.to_multiset().count(x) > 0);
    assert(t.to_multiset() =~= s.to_multiset().insert(x));
}

/// Inserts `x` into a run sorted by path descending, keeping it sorted.
fn insert_sorted(out: &mut Vec<TodoItem>, x: TodoItem)
    requires
        sorted_desc(items_view(old(out)@)),
    ensures
        sorted_desc(items_view(final(out)@)),
        items_view(final(out)@).to_multiset() == items_view(old(out)@).to_multiset().insert(x@),
{
    let n = out.len();
    let mut p: usize = 0;
    while p < n && !str_lt(out[p].path.as_str(), x.path.as_str())
        invariant
            n == out@.len(),
            p <= n,
            forall|k: int| 0 <= k < p ==> !lex_lt(#[trigger] items_view(out@)[k].path, x@.path),
        decreases n - p,
    {
        p = p + 1;
    }
    let ghost pre = items_view(out@);
    out.insert(p, x);
    proof {
        let post = items_view(out@);
        assert(post =~= pre.insert(p as int, x@));
        lemma_insert_to_multiset(pre, p as int, x@);
        assert forall|i: int, j: int| 0 <= i < j < post.len() implies lex_le(
            post[j].path,
            post[i].path,
        ) by {
            let pi = if i < p {
                pre[i]
            } else if i == p {
                x@
            } else {
                pre[i - 1]
            };
            let pj = if j < p {
                pre[j]
            } else if j == p {
                x@
            } else {
                pre[j - 1]
            };
            assert(post[i] == pi);
            assert(post[j] == pj);
            if j == p {
                lemma_lex_total(pre[i].path, x@.path);
            } else if i == p {
                assert(lex_lt(pre[p as int].path, x@.path));
                assert(lex_le(pre[j - 1].path, pre[p as int].path) || j - 1 == p);
                lemma_lex_trans(pre[j - 1].path, pre[p as int].path, x@.path);
            } else if i < p && j > p {
                assert(lex_le(pre[j - 1].path, pre[i].path) || j - 1 == i);
            }
        }
    }
}

/// Sorts the summaries by path descending, keeping exactly the same
/// summaries.
fn sort_items(v: Vec<TodoItem>) -> (r: Vec<TodoItem>)
    ensures
        sorted_desc(items_view(r@)),
        items_view(r@).to_multiset() == items_view(v@).to_multiset(),
{
    broadcast use group_to_multiset_ensures;

    let mut v = v;
    let ghost all = items_view(v@);
    let mut out: Vec<TodoItem> = Vec::new();
    proof {
        assert(items_view(out@) =~= Seq::<TodoItemV>::empty());
        assert(items_view(out@).to_multiset().add(items_view(v@).to_multiset()) =~= all.to_multiset());
    }
    while v.len() > 0
        invariant
            sorted_desc(items_view(out@)),
            items_view(out@).to_multiset().add(items_view(v@).to_multiset()) == all.to_multiset(),
        decreases v@.len(),
    {
        let ghost pre_v = items_view(v@);
        let x = v.pop().unwrap();
        proof {
            assert(pre_v =~= items_view(v@).push(x@));
            vstd::seq_lib::to_multiset_build::<TodoItemV>(items_view(v@), x@);
            assert(pre_v.to_multiset() == items_view(v@).to_multiset().insert(x@));
        }
        let ghost pre_out = items_view(out@);
        insert_sorted(&mut out, x);
        proof {
            assert(items_view(out@).to_multiset().add(items_view(v@).to_multiset())
                =~= pre_out.to_multiset().add(pre_v.to_multiset()));
        }
    }
    proof {
        assert(items_view(v@) =~= Seq::<TodoItemV>::empty());
        assert(items_view(out@).to_multiset().add(Seq::<TodoItemV>::empty().to_multiset())
            =~= items_view(out@).to_multiset());
    }
    out
}

/// Lists the pending tasks of a directory snapshot, newest path first.
///
/// `dir` is the store directory's files, or nothing where the directory
/// does not exist: an absent directory is an empty listing, not an error.
/// One record file that fails to decode fails the whole call.
pub fn list_pending(dir: Option<Vec<RecordFile>>) -> (r: Result<Vec<TodoItem>, DecodeError>)
    ensures
        dir is None ==> (r matches Ok(v) && v@.len() == 0),
        dir matches Some(files) ==> match listing_spec(files.deep_view()) {
            Err(e) => r matches Err(e2) && e2 == e,
            Ok(items) => r matches Ok(v) && items_view(v@).to_multiset() == items.to_multiset()
                && sorted_desc(items_view(v@)) && forall|k: int|
                0 <= k < v@.len() ==> (#[trigger] v@[k])@.status == "pending"@,
        },
{
    broadcast use group_to_multiset_ensures;

    let files = match dir {
        None => {
            return Ok(Vec::new());
        },
        Some(files) => files,
    };
    proof {
        assert(dir matches Some(fs) && fs.deep_view() == files.deep_view());
    }
    let ghost fv = files.deep_view();
    let n = files.len();
    let mut out: Vec<TodoItem> = Vec::new();
    let mut i: usize = 0;
    proof {
        assert(fv.len() == n);
        assert(items_view(out@) =~= Seq::<TodoItemV>::empty());
    }
    while i < n
        invariant
            n == files@.len(),
            fv == files.deep_view(),
            dir matches Some(fs) && fs.deep_view() == fv,
            fv.len() == n,
            i <= n,
            listing_from(fv, 0) == match listing_from(fv, i as int) {
                Err(e) => Err(e),
                Ok(rest) => Ok(items_view(out@) + rest),
            },
            forall|k: int| 0 <= k < out@.len() ==> (#[trigger] out@[k])@.status == "pending"@,
        decreases n - i,
    {
        let f = &files[i];
        proof {
            assert(fv[i as int] == f@);
        }
        if is_record_file(f.path.as_str()) {
            match decode(f.content.as_str()) {
                Err(e) => {
                    proof {
                        assert(listing_from(fv, i as int) == Err::<Seq<TodoItemV>, DecodeError>(e));
                        assert(listing_from(fv, 0) == Err::<Seq<TodoItemV>, DecodeError>(e));
                        assert(listing_spec(fv) == Err::<Seq<TodoItemV>, DecodeError>(e));
                        assert(dir is Some);
                        assert(dir->Some_0.deep_view() == fv);
                    }
                    return Err(e);
                },
                Ok((fm, body)) => {
                    let ghost p = decode_spec(f@.content)->Ok_0;
                    if str_eq(fm.status.as_str(), "pending") {
                        let item = TodoItem {
                            path: f.path.clone(),
                            id: fm.id,
                            text: first_line(body.as_str()).to_owned(),
                            linked_note: fm.linked_note,
                            status: fm.status,
                            priority: fm.priority,
                            due: fm.due,
                            created: fm.created,
                        };
                        proof {
                            assert(item@ =~= summary_of(f@.path, p.0, p.1));
                        }
                        let ghost pre_out = items_view(out@);
                        out.push(item);
                        proof {
                            assert(items_view(out@) =~= pre_out + seq![
                                summary_of(f@.path, p.0, p.1),
                            ]);
                            match listing_from(fv, i + 1) {
                                Err(e) => {},
                                Ok(rest) => {
                                    assert(pre_out + (seq![summary_of(f@.path, p.0, p.1)] + rest)
                                        =~= items_view(out@) + rest);
                                },
                            }
                        }
                    } else {
                        proof {
                            assert(!is_pending(p.0));
                        }
                    }
                },
            }
        }
        i = i + 1;
    }
    proof {
        assert(listing_from(fv, n as int) == Ok::<Seq<TodoItemV>, DecodeError>(Seq::empty()));
        match listing_from(fv, 0) {
            Err(e) => {
                assert(false);
            },
            Ok(items) => {
                assert(items_view(out@) + Seq::<TodoItemV>::empty() =~= items_view(out@));
            },
        }
    }
    let ghost unsorted = items_view(out@);
    let sorted = sort_items(out);
    proof {
        assert forall|k: int| 0 <= k < sorted@.len() implies (#[trigger] sorted@[k])@.status
            == "pending"@ by {
            let x = items_view(sorted@)[k];
            assert(items_view(sorted@).contains(x));
            assert(items_view(sorted@).to_multiset().count(x) > 0);
            assert(unsorted.to_multiset().count(x) > 0);
            assert(unsorted.contains(x));
            let j = choose|j: int| 0 <= j < unsorted.len() && unsorted[j] == x;
            assert(x.status == "pending"@);
        }
    }
    Ok(sorted)
}


/// What one file contributes to the pending listing: its summary where it
/// is a pending record, nothing otherwise.
pub open spec fn file_contrib(f: RecordFileV) -> Multiset<TodoItemV> {
    if is_record_path(f.path) {
        match decode_spec(f.content) {
            Ok(p) => if is_pending(p.0) {
                Multiset::empty().insert(summary_of(f.path, p.0, p.1))
            } else {
                Multiset::empty()
            },
            Err(_) => Multiset::empty(),
        }
    } else {
        Multiset::empty()
    }
}

/// The pending summaries of a snapshot as a multiset.
pub open spec fn pending_mset(fs: Seq<RecordFileV>) -> Multiset<TodoItemV>
    decreases fs.len(),
{
    if fs.len() == 0 {
        Multiset::empty()
    } else {
        file_contrib(fs[0]).add(pending_mset(fs.drop_first()))
    }
}

/// A successful listing holds exactly the snapshot's pending summaries.
proof fn lemma_listing_mset(fs: Seq<RecordFileV>, i: int)
    requires
        0 <= i <= fs.len(),
    ensures
        listing_from(fs, i) matches Ok(s) ==> s.to_multiset() == pending_mset(
            fs.skip(i),
        ),
    decreases fs.len() - i,
{
    broadcast use group_to_multiset_ensures;

    let u = fs.skip(i);
    if i == fs.len() {
        assert(u =~= Seq::<RecordFileV>::empty());
        assert(Seq::<TodoItemV>::empty().to_multiset() =~= Multiset::<TodoItemV>::empty());
    } else {
        lemma_listing_mset(fs, i + 1);
        assert(u[0] == fs[i]);
        assert(u.drop_first() =~= fs.skip(i + 1));
        if !is_record_path(fs[i].path) {
            match listing_from(fs, i + 1) {
                Ok(s) => {
                    assert(pending_mset(u) =~= s.to_multiset());
                },
                Err(_) => {},
            }
        } else {
            match decode_spec(fs[i].content) {
                Err(_) => {},
                Ok(p) => {
                    match listing_from(fs, i + 1) {
                        Err(_) => {},
                        Ok(rest) => {
                            if is_pending(p.0) {
                                let x = summary_of(fs[i].path, p.0, p.1);
                                assert(seq![x] + rest =~= rest.insert(0, x));
                                lemma_insert_to_multiset(rest, 0, x);
                                assert((seq![x] + rest).to_multiset() =~= file_contrib(
                                    fs[i],
                                ).add(pending_mset(fs.skip(i + 1))));
                            } else {
                                assert(pending_mset(u) =~= rest.to_multiset());
                            }
                        },
                    }
                },
            }
        }
    }
}

/// A file's contribution can be pulled out from any position.
proof fn lemma_pending_mset_extract(fs: Seq<RecordFileV>, j: int)
    requires
        0 <= j < fs.len(),
    ensures
        pending_mset(fs) == file_contrib(fs[j]).add(pending_mset(fs.remove(j))),
    decreases j,
{
    if j == 0 {
        assert(fs.remove(0) =~= fs.drop_first());
    } else {
        let d = fs.drop_first();
        lemma_pending_mset_extract(d, j - 1);
        assert(d[j - 1] == fs[j]);
        assert(fs.remove(j).drop_first() =~= d.remove(j - 1));
        assert(fs.remove(j)[0] == fs[0]);
        let p = pending_mset(d.remove(j - 1));
        assert(pending_mset(fs) == file_contrib(fs[0]).add(file_contrib(fs[j]).add(p)));
        assert(pending_mset(fs.remove(j)) == file_contrib(fs[0]).add(p));
        assert(file_contrib(fs[0]).add(file_contrib(fs[j]).add(p)) =~= file_contrib(
            fs[j],
        ).add(file_contrib(fs[0]).add(p)));
    }
}

/// Snapshots holding the same files carry the same pending summaries.
proof fn lemma_pending_mset_permutation(fs1: Seq<RecordFileV>, fs2: Seq<RecordFileV>)
    requires
        fs1.to_multiset() == fs2.to_multiset(),
    ensures
        pending_mset(fs1) == pending_mset(fs2),
    decreases fs1.len(),
{
    broadcast use group_to_multiset_ensures;

    if fs1.len() == 0 {
        assert(fs1.to_multiset().len() == fs1.len());
        assert(fs2.to_multiset().len() == fs2.len());
        assert(fs2.len() == 0);
    } else {
        let x = fs1[0];
        assert(fs1.contains(x));
        assert(fs2.to_multiset().count(x) > 0);
        assert(fs2.contains(x));
        let j = choose|j: int| 0 <= j < fs2.len() && fs2[j] == x;
        lemma_pending_mset_extract(fs2, j);
        assert(fs1.drop_first() =~= fs1.remove(0));
        assert(fs1.remove(0).to_multiset() == fs1.to_multiset().remove(x));
        assert(fs2.remove(j).to_multiset() == fs2.to_multiset().remove(x));
        lemma_pending_mset_permutation(fs1.drop_first(), fs2.remove(j));
    }
}

/// Filtering is independent of enumeration order: two snapshots holding the
/// same record files, however the directory happened to order them, list
/// the same pending summaries.
pub proof fn lemma_listing_order_independent(fs1: Seq<RecordFileV>, fs2: Seq<RecordFileV>)
    requires
        fs1.to_multiset() == fs2.to_multiset(),
        listing_spec(fs1) is Ok,
        listing_spec(fs2) is Ok,
    ensures
        listing_spec(fs1)->Ok_0.to_multiset() == listing_spec(fs2)->Ok_0.to_multiset(),
{
    lemma_listing_mset(fs1, 0);
    lemma_listing_mset(fs2, 0);
    assert(fs1.skip(0) =~= fs1);
    assert(fs2.skip(0) =~= fs2);
    lemma_pending_mset_permutation(fs1, fs2);
}

/// Relies on chrono's `From<SystemTime>` for `DateTime<Utc>` and
/// `DateTime::to_rfc3339_opts`: the stamp is an RFC 3339 UTC date-time at
/// second precision, such as `2026-01-05T12:30:00Z` — at least the
/// twenty characters of a date, `T`, a time and the closing `Z`, on one
/// line, without whitespace, carriage returns or consecutive hyphens —
/// whatever instant the clock reports. The conversion handles clocks set
/// before the Unix epoch; only a clock beyond chrono's quarter-million-year
/// date range would abort it.
#[verifier::external_body]
fn now_timestamp() -> (r: String)
    ensures
        r@.len() >= 20,
        r@.last() == 'Z',
        value_wf(r@),
{
    let now: chrono::DateTime<chrono::Utc> = chrono::DateTime::from(std::time::SystemTime::now());
    now.to_rfc3339_opts(chrono::SecondsFormat::Secs, true)
}

/// Rewrites a raw record with the given status, stamping `updated` with
/// `now` and, exactly on entering `done`, stamping `completed` too; the
/// record's body is kept. Decode failures are handed back unchanged.
pub fn set_status_at(raw: &str, new_status: &str, now: &str) -> (r: Result<String, DecodeError>)
    ensures
        match decode_spec(raw@) {
            Err(e) => r matches Err(e2) && e2 == e,
            Ok(p) => r matches Ok(s) && s@ == encode_spec(
                apply_status_spec(p.0, new_status@, now@),
                p.1,
            ),
        },
{
    match decode(raw) {
        Err(e) => Err(e),
        Ok((fm, body)) => {
            let fm2 = apply_status(fm, new_status, now);
            Ok(encode(&fm2, body.as_str()))
        },
    }
}

/// Rewrites a raw record with the given status, stamped with the current
/// clock reading: some non-empty line-safe stamp, whatever instant the
/// clock reports.
pub fn set_status(raw: &str, new_status: &str) -> (r: Result<String, DecodeError>)
    ensures
        match decode_spec(raw@) {
            Err(e) => r matches Err(e2) && e2 == e,
            Ok(p) => r matches Ok(s) && exists|t: Seq<char>|
                t.len() >= 20 && t.last() == 'Z' && value_wf(t) && s@ == #[trigger] encode_spec(
                    apply_status_spec(p.0, new_status@, t),
                    p.1,
                ),
        },
{
    let now = now_timestamp();
    let r = set_status_at(raw, new_status, now.as_str());
    proof {
        match decode_spec(raw@) {
            Err(e) => {},
            Ok(p) => {
                assert(now@.len() >= 20 && now@.last() == 'Z' && value_wf(now@) && r->Ok_0@
                    == encode_spec(
                    apply_status_spec(p.0, new_status@, now@),
                    p.1,
                ));
            },
        }
    }
    r
}


/// A word of plain letters is line-safe.
proof fn lemma_letters_value_wf(w: Seq<char>)
    requires
        forall|i: int| 0 <= i < w.len() ==> #[trigger] w[i] != '\n' && w[i] != '\r' && w[i] != '-',
    ensures
        value_wf(w),
{
    assert forall|i: int| !is_delim_at(w, i) by {
        if 0 <= i && i + 3 <= w.len() {
            assert(w[i] != '-');
        }
    }
}

/// The status transition keeps a header line-safe: only the status and the
/// two stamps change, and all three are line-safe.
proof fn lemma_apply_status_wf(h: HeaderV, status: Seq<char>, now: Seq<char>)
    requires
        header_wf(h),
        value_wf(status),
        value_wf(now),
    ensures
        header_wf(apply_status_spec(h, status, now)),
{
}

/// Status transition at the record level, the shape in which the store
/// rewrites files: for a record whose decoded header is line-safe and any
/// non-empty line-safe stamps, the record rewritten to `done` decodes back
/// with that status and both stamps set, and rewriting that record to
/// `pending` decodes back with the update stamp refreshed, the earlier
/// completion stamp untouched, and the body unchanged throughout. The
/// line-safe premise is the round-trip caveat: values holding line breaks
/// or delimiter text do not survive the text form.
pub proof fn lemma_set_status_records(raw: Seq<char>, t1: Seq<char>, t2: Seq<char>)
    requires
        decode_spec(raw) is Ok,
        header_wf(decode_spec(raw)->Ok_0.0),
        t1.len() > 0,
        value_wf(t1),
        t2.len() > 0,
        value_wf(t2),
    ensures
        ({
            let p = decode_spec(raw)->Ok_0;
            let h1 = apply_status_spec(p.0, "done"@, t1);
            let h2 = apply_status_spec(h1, "pending"@, t2);
            &&& decode_spec(encode_spec(h1, p.1)) == Ok::<(HeaderV, Seq<char>), DecodeError>(
                (h1, p.1),
            )
            &&& h1.status == "done"@
            &&& h1.updated == Some(t1)
            &&& h1.completed == Some(t1)
            &&& decode_spec(encode_spec(h2, p.1)) == Ok::<(HeaderV, Seq<char>), DecodeError>(
                (h2, p.1),
            )
            &&& h2.status == "pending"@
            &&& h2.updated == Some(t2)
            &&& h2.completed == Some(t1)
        }),
{
    reveal_strlit("done");
    reveal_strlit("pending");
    let p = decode_spec(raw)->Ok_0;
    // the decoded body is already trimmed, so re-encoding keeps it
    match decoded_body_region(raw) {
        Some(body_raw) => {
            assert(p.1 == trim_spec(body_raw));
            lemma_trim_idempotent(body_raw);
            assert(trim_spec(p.1) == p.1);
        },
        None => {
            assert(false);
        },
    }
    assert(forall|i: int|
        0 <= i < "done"@.len() ==> #[trigger] "done"@[i] != '\n' && "done"@[i] != '\r' && "done"@[i]
            != '-');
    assert(forall|i: int|
        0 <= i < "pending"@.len() ==> #[trigger] "pending"@[i] != '\n' && "pending"@[i] != '\r'
            && "pending"@[i] != '-');
    lemma_letters_value_wf("done"@);
    lemma_letters_value_wf("pending"@);
    let h1 = apply_status_spec(p.0, "done"@, t1);
    lemma_apply_status_wf(p.0, "done"@, t1);
    lemma_round_trip(h1, p.1);
    let h2 = apply_status_spec(h1, "pending"@, t2);
    lemma_apply_status_wf(h1, "pending"@, t2);
    lemma_round_trip(h2, p.1);
    assert("done"@.len() == 4);
    assert("pending"@.len() == 7);
}

/// The raw body region of a record that decodes, for the proof above.
spec fn decoded_body_region(raw: Seq<char>) -> Option<Seq<char>> {
    match crate::text::find_delim_from(raw, 0) {
        None => None,
        Some(d1) => match crate::text::find_delim_from(raw, d1 + 3) {
            None => None,
            Some(d2) => Some(raw.subrange(d2 + 3, raw.len() as int)),
        },
    }
}

} // verus!
