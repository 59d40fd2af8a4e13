//! Reading the game's data from compressed bytes: the gzip-compressed
//! campaign, and the gzip-compressed tar archives of entry states and
//! overworld checkpoints. The bytes themselves are read from disk outside.

use vstd::prelude::*;

use crate::sausage::campaign::{campaign_file, Campaign, CampaignView};
use crate::sausage::entries::{entries_built, ordinals_ascend, state_file_name, state_file_spec, CampaignEntries, NumberedState};
use crate::sausage::model::{state_of, state_ok, GameState};
use crate::sausage::oracle::{campaign_built, opt_view, segment_check, segment_read, OracleCampaign, OracleSegment, SegmentSources};
use crate::text::{nat_text, utf8_decoding, utf8_text};

verus! {

/// What `flate2`'s gzip decoder reads from the bytes: the decompressed
/// bytes of the stream, or the message of the error it stops with.
pub uninterp spec fn gunzip(data: Seq<u8>) -> Result<Seq<u8>, Seq<char>>;

/// `flate2::read::GzDecoder` read to its end (`Read::read_to_end`): the
/// decompressed bytes, or the error's message; a function of the bytes alone,
/// which [`gunzip`] names.
#[verifier::external_body]
pub(crate) fn gunzip_bytes(data: &[u8]) -> (r: Result<Vec<u8>, String>)
    ensures
        match gunzip(data@) {
            Ok(b) => r is Ok && r->Ok_0@ == b,
            Err(e) => r is Err && r->Err_0@ == e,
        },
{
    let mut out = Vec::new();
    match std::io::Read::read_to_end(&mut flate2::read::GzDecoder::new(data), &mut out) {
        Ok(_) => Ok(out),
        Err(error) => Err(error.to_string()),
    }
}

/// One item of a tar archive: its path's bytes, whether it is a regular
/// file, and its contents.
pub struct TarItem {
    pub path: Vec<u8>,
    pub is_file: bool,
    pub data: Vec<u8>,
}

/// An item as plain values.
pub open spec fn tar_item_view(t: TarItem) -> (Seq<u8>, bool, Seq<u8>) {
    (t.path@, t.is_file, t.data@)
}

/// What `tar` reads of an archive: its items in order, or an error with
/// whether it came from opening the list of items (`true`) or from reading
/// one item (`false`).
pub uninterp spec fn tar_items(data: Seq<u8>) -> Result<Seq<(Seq<u8>, bool, Seq<u8>)>, (bool, Seq<char>)>;

/// `tar::Archive::entries` walked to its end: each item's path bytes
/// (`Entry::path_bytes`), whether its header marks a regular file, and its
/// contents read to the end; a function of the bytes alone, which
/// [`tar_items`] names.
#[verifier::external_body]
pub(crate) fn tar_items_of(data: &[u8]) -> (r: Result<Vec<TarItem>, (bool, String)>)
    ensures
        match tar_items(data@) {
            Ok(items) => r is Ok && r->Ok_0@.map_values(|t: TarItem| tar_item_view(t)) == items,
            Err((at_start, e)) => r is Err && r->Err_0.0 == at_start && r->Err_0.1@ == e,
        },
{
    let mut archive = tar::Archive::new(data);
    let entries = archive.entries().map_err(|error| (true, error.to_string()))?;
    let mut out = Vec::new();
    for item in entries {
        let mut item = item.map_err(|error| (false, error.to_string()))?;
        let (path, is_file) = (item.path_bytes().into_owned(), item.header().entry_type().is_file());
        let mut data = Vec::new();
        std::io::Read::read_to_end(&mut item, &mut data).map_err(|error| (false, error.to_string()))?;
        out.push(TarItem { path, is_file, data });
    }
    Ok(out)
}

impl Campaign {
    /// The campaign stored gzip-compressed in `data`: the decoder's error, or
    /// the campaign file read from the decompressed bytes (see
    /// [`Campaign::read`]).
    pub fn load_gzip(data: &[u8]) -> (r: Result<Campaign, String>)
        ensures
            match gunzip(data@) {
                Err(e) => r is Err && r->Err_0@ == e,
                Ok(b) => match r {
                    Ok(c) => campaign_file(b) == Ok::<CampaignView, Seq<char>>(c.view()),
                    Err(message) => campaign_file(b) == Err::<CampaignView, Seq<char>>(message@),
                },
            },
    {
        let bytes = gunzip_bytes(data)?;
        Campaign::read(bytes.as_slice())
    }
}

/// The index of the last `/` in a path.
pub open spec fn last_slash(p: Seq<u8>) -> Option<int>
    decreases p.len(),
{
    if p.len() == 0 {
        None
    } else if p.last() == 47u8 {
        Some(p.len() - 1)
    } else {
        last_slash(p.drop_last())
    }
}

/// A path component that names no file: empty, `.` or `..`.
pub open spec fn dot_or_empty(c: Seq<u8>) -> bool {
    c.len() == 0 || c == seq![46u8] || c == seq![46u8, 46u8]
}

/// The last component of a path, as `Path::file_name` gives it: empty and
/// `.` components are passed over, and a path that ends in `..` (or has no
/// component left) names no file.
pub open spec fn file_name_of(p: Seq<u8>) -> Option<Seq<u8>>
    decreases p.len(),
{
    match last_slash(p) {
        None => if dot_or_empty(p) {
            None
        } else {
            Some(p)
        },
        Some(s) => if 0 <= s < p.len() {
            let comp = p.skip(s + 1);
            if comp.len() == 0 || comp == seq![46u8] {
                file_name_of(p.take(s))
            } else if comp == seq![46u8, 46u8] {
                None
            } else {
                Some(comp)
            }
        } else {
            None
        },
    }
}

proof fn lemma_last_slash(p: Seq<u8>)
    ensures
        match last_slash(p) {
            Some(s) => 0 <= s < p.len() && p[s] == 47u8 && forall|j: int| s < j < p.len() ==> p[j] != 47u8,
            None => forall|j: int| 0 <= j < p.len() ==> p[j] != 47u8,
        },
    decreases p.len(),
{
    if p.len() > 0 {
        let d = p.drop_last();
        lemma_last_slash(d);
        assert forall|j: int| 0 <= j < d.len() implies d[j] == p[j] by {}
    }
}

fn is_dot(c: &Vec<u8>) -> (r: bool)
    ensures
        r == (c@ == seq![46u8]),
{
    let r = c.len() == 1 && c[0] == 46u8;
    proof {
        if c@.len() == 1 && c@[0] == 46u8 {
            assert(c@ =~= seq![46u8]);
        }
    }
    r
}

fn is_dot_dot(c: &Vec<u8>) -> (r: bool)
    ensures
        r == (c@ == seq![46u8, 46u8]),
{
    let r = c.len() == 2 && c[0] == 46u8 && c[1] == 46u8;
    proof {
        if c@.len() == 2 && c@[0] == 46u8 && c@[1] == 46u8 {
            assert(c@ =~= seq![46u8, 46u8]);
        }
    }
    r
}

/// See [`file_name_of`].
pub fn file_name_bytes(path: &Vec<u8>) -> (r: Option<Vec<u8>>)
    ensures
        match file_name_of(path@) {
            Some(n) => r is Some && r->Some_0@ == n,
            None => r is None,
        },
{
    let mut end: usize = path.len();
    assert(path@.take(end as int) =~= path@);
    loop
        invariant
            end <= path@.len(),
            file_name_of(path@) == file_name_of(path@.take(end as int)),
        decreases end,
    {
        let ghost p = path@.take(end as int);
        let mut s: usize = end;
        while s > 0 && path[s - 1] != 47u8
            invariant
                s <= end <= path@.len(),
                forall|j: int| s <= j < end ==> path@[j] != 47u8,
            decreases s,
        {
            s -= 1;
        }
        let mut comp: Vec<u8> = Vec::new();
        let mut k: usize = s;
        while k < end
            invariant
                s <= k <= end <= path@.len(),
                comp@ == path@.subrange(s as int, k as int),
            decreases end - k,
        {
            comp.push(path[k]);
            assert(path@.subrange(s as int, k as int).push(path@[k as int]) =~= path@.subrange(s as int, k + 1));
            k += 1;
        }
        proof {
            lemma_last_slash(p);
            if s == 0 {
                assert forall|j: int| 0 <= j < p.len() implies p[j] != 47u8 by {}
                match last_slash(p) {
                    Some(t) => {
                        assert(p[t] == 47u8);
                    },
                    None => {},
                }
                assert(comp@ =~= p);
            } else {
                match last_slash(p) {
                    Some(t) => {
                        assert(p[s - 1] == 47u8);
                        assert(t == s - 1);
                    },
                    None => {
                        assert(p[s - 1] == 47u8);
                    },
                }
                assert(comp@ =~= p.skip(s as int));
                assert(p.take(s - 1) =~= path@.take(s - 1));
            }
        }
        if s == 0 {
            if comp.len() == 0 || is_dot(&comp) || is_dot_dot(&comp) {
                return None;
            }
            return Some(comp);
        }
        if comp.len() == 0 || is_dot(&comp) {
            end = s - 1;
        } else if is_dot_dot(&comp) {
            return None;
        } else {
            return Some(comp);
        }
    }
}

/// How gathering the states of an archive ends: with the states found (ordinal, id
/// and text, in archive order), with an error, or with a state that does
/// not parse (the message then begins with the text given).
pub enum Gathered {
    Done(Seq<(usize, Seq<char>, Seq<char>)>),
    Failed(Seq<char>),
    ParseFailed(Seq<char>),
}

/// Whether a state with this ordinal was found already.
pub open spec fn has_ordinal(found: Seq<(usize, Seq<char>, Seq<char>)>, n: usize) -> bool {
    exists|j: int| 0 <= j < found.len() && found[j].0 == n
}

/// The message for a state file whose text is not UTF-8.
pub open spec fn not_utf8_text(name: Seq<char>) -> Seq<char> {
    name + " is not UTF-8: stream did not contain valid UTF-8"@
}

/// Gathering the states of the first `k` archive items, in order: items
/// that are not regular files are passed over; a file name must be UTF-8;
/// files that [`state_file_spec`] passes over are passed over, and its errors
/// stop the gathering; the text must be UTF-8 and a state; two states may
/// not share an ordinal.
pub open spec fn gather_states(label: Seq<char>, items: Seq<(Seq<u8>, bool, Seq<u8>)>, k: int) -> Gathered
    decreases k,
{
    if k <= 0 {
        Gathered::Done(Seq::empty())
    } else {
        match gather_states(label, items, k - 1) {
            Gathered::Done(done) => gather_step(label, done, items[k - 1]),
            other => other,
        }
    }
}

/// One item of [`gather_states`], after the states `done`.
pub open spec fn gather_step(label: Seq<char>, done: Seq<(usize, Seq<char>, Seq<char>)>, item: (Seq<u8>, bool, Seq<u8>)) -> Gathered {
    let (path, is_file, bytes) = item;
    if !is_file {
        Gathered::Done(done)
    } else {
        match file_name_of(path) {
            None => Gathered::Failed(label + " filename is not UTF-8"@),
            Some(nb) => match utf8_decoding(nb) {
                Err(_) => Gathered::Failed(label + " filename is not UTF-8"@),
                Ok(name) => match state_file_spec(label, name) {
                    Err(m) => Gathered::Failed(m),
                    Ok(None) => Gathered::Done(done),
                    Ok(Some((n, id))) => match utf8_decoding(bytes) {
                        Err(_) => Gathered::Failed(not_utf8_text(name)),
                        Ok(text) => if !state_ok(text) {
                            Gathered::ParseFailed("invalid "@ + label + " "@ + name + ": "@)
                        } else if has_ordinal(done, n) {
                            Gathered::Failed("duplicate "@ + label + " ordinal "@ + nat_text(n as nat))
                        } else {
                            Gathered::Done(done.push((n, id, text)))
                        },
                    },
                },
            },
        }
    }
}

/// A found state matched by a kept one.
pub open spec fn matched(r: Seq<NumberedState>, f: (usize, Seq<char>, Seq<char>)) -> bool {
    exists|k: int| 0 <= k < r.len() && r[k].0 == f.0 && r[k].1@ == f.1 && state_of(f.2, r[k].2)
}

/// A kept state matching a found one.
pub open spec fn matching(found: Seq<(usize, Seq<char>, Seq<char>)>, s: NumberedState) -> bool {
    exists|j: int| 0 <= j < found.len() && s.0 == found[j].0 && s.1@ == found[j].1 && state_of(found[j].2, s.2)
}

/// The states kept are those found, each the state its text describes, in
/// ascending order of ordinal.
pub open spec fn states_match(r: Seq<NumberedState>, found: Seq<(usize, Seq<char>, Seq<char>)>) -> bool {
    &&& r.len() == found.len()
    &&& ordinals_ascend(r)
    &&& forall|j: int| 0 <= j < found.len() ==> matched(r, #[trigger] found[j])
    &&& forall|k: int| 0 <= k < r.len() ==> matching(found, #[trigger] r[k])
}

/// What reading the states of a gzip-compressed tar archive gives; see
/// [`gather_states`]. `label` names the archive in messages.
pub open spec fn archive_states_ok(label: Seq<char>, data: Seq<u8>, r: Result<Vec<NumberedState>, String>) -> bool {
    match gunzip(data) {
        Err(e) => r is Err && r->Err_0@ == "invalid "@ + label + " archive: "@ + e,
        Ok(b) => match tar_items(b) {
            Err((at_start, e)) => r is Err && r->Err_0@ == if at_start {
                "invalid "@ + label + " archive: "@ + e
            } else {
                "invalid "@ + label + " archive item: "@ + e
            },
            Ok(items) => match gather_states(label, items, items.len() as int) {
                Gathered::Failed(m) => r is Err && r->Err_0@ == m,
                Gathered::ParseFailed(prefix) => r is Err && prefix.len() <= r->Err_0@.len() && r->Err_0@.take(
                    prefix.len() as int,
                ) == prefix,
                Gathered::Done(found) => r is Ok && states_match(r->Ok_0@, found),
            },
        },
    }
}

fn ordinal_found(v: &Vec<NumberedState>, n: usize) -> (r: bool)
    ensures
        r == exists|k: int| 0 <= k < v@.len() && v@[k].0 == n,
{
    let mut k: usize = 0;
    while k < v.len()
        invariant
            k <= v@.len(),
            forall|j: int| 0 <= j < k ==> v@[j].0 != n,
        decreases v@.len() - k,
    {
        if v[k].0 == n {
            return true;
        }
        k += 1;
    }
    false
}

/// Puts a state among states in ascending order of ordinal, before the
/// first with a larger ordinal.
fn insert_state(v: &mut Vec<NumberedState>, s: NumberedState)
    requires
        ordinals_ascend(old(v)@),
        forall|k: int| 0 <= k < old(v)@.len() ==> old(v)@[k].0 != s.0,
    ensures
        ordinals_ascend(final(v)@),
        exists|p: int| 0 <= p <= old(v)@.len() && final(v)@ == old(v)@.insert(p, s),
{
    let mut p: usize = 0;
    while p < v.len() && v[p].0 < s.0
        invariant
            p <= v@.len(),
            forall|j: int| 0 <= j < p ==> v@[j].0 < s.0,
        decreases v@.len() - p,
    {
        p += 1;
    }
    let ghost before = v@;
    v.insert(p, s);
    proof {
        assert(v@ == before.insert(p as int, s));
        assert forall|i: int, j: int| 0 <= i < j < v@.len() implies v@[i].0 < v@[j].0 by {
            if p < before.len() {
                assert(before[p as int].0 > s.0);
            }
            if i < p && j == p {
            } else if i == p && j > p {
                assert(v@[j] == before[j - 1]);
                assert(before[j - 1].0 >= before[p as int].0);
            } else if i < p && j > p {
                assert(v@[j] == before[j - 1]);
            } else if i > p {
                assert(v@[i] == before[i - 1]);
                assert(v@[j] == before[j - 1]);
            }
        }
    }
}

/// Reads the states of a gzip-compressed tar archive of state files,
/// ordered by ordinal; see [`archive_states_ok`].
pub fn states_from_archive(data: &[u8], label: &str) -> (r: Result<Vec<NumberedState>, String>)
    ensures
        archive_states_ok(label@, data@, r),
{
    let bytes = match gunzip_bytes(data) {
        Ok(b) => b,
        Err(e) => {
            let mut message = String::from_str("invalid ");
            message.append(label);
            message.append(" archive: ");
            message.append(e.as_str());
            return Err(message);
        },
    };
    let items = match tar_items_of(bytes.as_slice()) {
        Ok(items) => items,
        Err((at_start, e)) => {
            let mut message = String::from_str("invalid ");
            message.append(label);
            if at_start {
                message.append(" archive: ");
            } else {
                message.append(" archive item: ");
            }
            message.append(e.as_str());
            return Err(message);
        },
    };
    let ghost views = items@.map_values(|t: TarItem| tar_item_view(t));
    let mut out: Vec<NumberedState> = Vec::new();
    let ghost mut found: Seq<(usize, Seq<char>, Seq<char>)> = Seq::empty();
    let mut k: usize = 0;
    while k < items.len()
        invariant
            k <= items@.len(),
            views == items@.map_values(|t: TarItem| tar_item_view(t)),
            gunzip(data@) == Ok::<Seq<u8>, Seq<char>>(bytes@),
            tar_items(bytes@) == Ok::<Seq<(Seq<u8>, bool, Seq<u8>)>, (bool, Seq<char>)>(views),
            gather_states(label@, views, k as int) == Gathered::Done(found),
            states_match(out@, found),
        decreases items@.len() - k,
    {
        assert(views[k as int] == tar_item_view(items@[k as int]));
        match take_item(label, &items[k], &mut out, Ghost(found)) {
            Ok(next) => {
                proof {
                    found = next@;
                }
            },
            Err(message) => {
                proof {
                    if gather_states(label@, views, k + 1) is Failed {
                        lemma_gather_fails(label@, views, k + 1);
                    } else {
                        lemma_gather_parse_fails(label@, views, k + 1);
                    }
                }
                return Err(message);
            },
        }
        k += 1;
    }
    Ok(out)
}

/// Takes one archive item into the states kept; see [`gather_step`].
fn take_item(label: &str, item: &TarItem, out: &mut Vec<NumberedState>, Ghost(found): Ghost<Seq<(usize, Seq<char>, Seq<char>)>>) -> (r: Result<
    Ghost<Seq<(usize, Seq<char>, Seq<char>)>>,
    String,
>)
    requires
        states_match(old(out)@, found),
    ensures
        match gather_step(label@, found, tar_item_view(*item)) {
            Gathered::Done(next) => r is Ok && r->Ok_0@ == next && states_match(final(out)@, next),
            Gathered::Failed(m) => r is Err && r->Err_0@ == m,
            Gathered::ParseFailed(prefix) => r is Err && prefix.len() <= r->Err_0@.len() && r->Err_0@.take(prefix.len() as int)
                == prefix,
        },
{
    if !item.is_file {
        return Ok(Ghost(found));
    }
    let nb = match file_name_bytes(&item.path) {
        Some(nb) => nb,
        None => {
            let mut message = String::from_str(label);
            message.append(" filename is not UTF-8");
            return Err(message);
        },
    };
    let name = match utf8_text(nb.as_slice()) {
        Ok(name) => name,
        Err(_) => {
            let mut message = String::from_str(label);
            message.append(" filename is not UTF-8");
            return Err(message);
        },
    };
    let (n, id) = match state_file_name(label, name.as_str()) {
        Ok(Some(p)) => p,
        Ok(None) => {
            return Ok(Ghost(found));
        },
        Err(m) => {
            return Err(m);
        },
    };
    let text = match utf8_text(item.data.as_slice()) {
        Ok(text) => text,
        Err(_) => {
            let mut message = name.clone();
            message.append(" is not UTF-8: stream did not contain valid UTF-8");
            return Err(message);
        },
    };
    let state = match GameState::parse(text.as_str()) {
        Ok(g) => g,
        Err(e) => {
            let mut message = String::from_str("invalid ");
            message.append(label);
            message.append(" ");
            message.append(name.as_str());
            message.append(": ");
            let ghost prefix = message@;
            message.append(e.as_str());
            assert(message@.take(prefix.len() as int) =~= prefix);
            return Err(message);
        },
    };
    if ordinal_found(out, n) {
        let mut message = String::from_str("duplicate ");
        message.append(label);
        message.append(" ordinal ");
        crate::text::append_count(&mut message, n);
        proof {
            let q = choose|q: int| 0 <= q < out@.len() && out@[q].0 == n;
            assert(matching(found, out@[q]));
            let j = choose|j: int|
                0 <= j < found.len() && out@[q].0 == found[j].0 && out@[q].1@ == found[j].1 && state_of(found[j].2, out@[q].2);
            assert(has_ordinal(found, n));
        }
        return Err(message);
    }
    proof {
        assert(!has_ordinal(found, n)) by {
            if has_ordinal(found, n) {
                let j = choose|j: int| 0 <= j < found.len() && found[j].0 == n;
                assert(matched(out@, found[j]));
                let q = choose|q: int|
                    0 <= q < out@.len() && out@[q].0 == found[j].0 && out@[q].1@ == found[j].1 && state_of(found[j].2, out@[q].2);
                assert(out@[q].0 == n);
            }
        }
    }
    let ghost old_out = out@;
    let ghost entry = (n, id@, text@);
    let ghost kept = (n, id, state);
    insert_state(out, (n, id, state));
    proof {
        lemma_insert_match(old_out, out@, found, entry, kept);
    }
    Ok(Ghost(found.push(entry)))
}

#[verifier::rlimit(30)]
proof fn lemma_insert_match(
    old_out: Seq<NumberedState>,
    new_out: Seq<NumberedState>,
    found: Seq<(usize, Seq<char>, Seq<char>)>,
    entry: (usize, Seq<char>, Seq<char>),
    kept: NumberedState,
)
    requires
        states_match(old_out, found),
        ordinals_ascend(new_out),
        exists|p: int| 0 <= p <= old_out.len() && new_out == old_out.insert(p, kept),
        kept.0 == entry.0,
        kept.1@ == entry.1,
        state_of(entry.2, kept.2),
    ensures
        states_match(new_out, found.push(entry)),
{
    let newf = found.push(entry);
    let p = choose|p: int| 0 <= p <= old_out.len() && new_out == old_out.insert(p, kept);
    assert forall|j: int| 0 <= j < newf.len() implies matched(new_out, #[trigger] newf[j]) by {
        if j == found.len() {
            assert(new_out[p] == kept);
        } else {
            assert(newf[j] == found[j]);
            assert(matched(old_out, found[j]));
            let q = choose|q: int|
                0 <= q < old_out.len() && old_out[q].0 == found[j].0 && old_out[q].1@ == found[j].1 && state_of(found[j].2, old_out[q].2);
            let q2 = if q < p { q } else { q + 1 };
            assert(new_out[q2] == old_out[q]);
        }
    }
    assert forall|q: int| 0 <= q < new_out.len() implies matching(newf, #[trigger] new_out[q]) by {
        if q == p {
            assert(newf[found.len() as int] == entry);
        } else {
            let q0 = if q < p { q } else { q - 1 };
            assert(new_out[q] == old_out[q0]);
            assert(matching(found, old_out[q0]));
            let j = choose|j: int|
                0 <= j < found.len() && old_out[q0].0 == found[j].0 && old_out[q0].1@ == found[j].1 && state_of(found[j].2, old_out[q0].2);
            assert(newf[j] == found[j]);
        }
    }
}

proof fn lemma_gather_fails(label: Seq<char>, items: Seq<(Seq<u8>, bool, Seq<u8>)>, k: int)
    requires
        0 <= k <= items.len(),
        gather_states(label, items, k) is Failed,
    ensures
        gather_states(label, items, items.len() as int) == gather_states(label, items, k),
    decreases items.len() - k,
{
    if k < items.len() {
        lemma_gather_fails(label, items, k + 1);
    }
}

proof fn lemma_gather_parse_fails(label: Seq<char>, items: Seq<(Seq<u8>, bool, Seq<u8>)>, k: int)
    requires
        0 <= k <= items.len(),
        gather_states(label, items, k) is ParseFailed,
    ensures
        gather_states(label, items, items.len() as int) == gather_states(label, items, k),
    decreases items.len() - k,
{
    if k < items.len() {
        lemma_gather_parse_fails(label, items, k + 1);
    }
}

/// What reading the campaign's entries gives from the entry-state archive
/// and the overworld-checkpoint archive: the first archive's error, else the
/// second's, else the pairing of their states (see [`entries_built`]).
pub open spec fn entries_loaded(entries: Seq<u8>, overworld: Seq<u8>, r: Result<CampaignEntries, String>) -> bool {
    exists|es: Result<Vec<NumberedState>, String>|
        #[trigger] archive_states_ok("campaign-entry"@, entries, es) && match es {
            Err(m) => r is Err && r->Err_0@ == m@,
            Ok(ev) => exists|os: Result<Vec<NumberedState>, String>|
                #[trigger] archive_states_ok("overworld-checkpoint"@, overworld, os) && match os {
                    Err(m) => r is Err && r->Err_0@ == m@,
                    Ok(ov) => entries_built(ev@, ov@, r),
                },
        }
}

impl CampaignEntries {
    /// The campaign's entries from the gzip-compressed tar archive of entry
    /// states and that of overworld checkpoints; see [`entries_loaded`].
    pub fn load(entries: &[u8], overworld: &[u8]) -> (r: Result<CampaignEntries, String>)
        ensures
            entries_loaded(entries@, overworld@, r),
    {
        let es = states_from_archive(entries, "campaign-entry");
        let ghost es_copy = es;
        let ev = match es {
            Ok(v) => v,
            Err(m) => {
                let r: Result<CampaignEntries, String> = Err(m);
                assert(archive_states_ok("campaign-entry"@, entries@, es_copy));
                return r;
            },
        };
        let os = states_from_archive(overworld, "overworld-checkpoint");
        let ghost os_copy = os;
        let ov = match os {
            Ok(v) => v,
            Err(m) => {
                let r: Result<CampaignEntries, String> = Err(m);
                assert(archive_states_ok("campaign-entry"@, entries@, es_copy));
                assert(archive_states_ok("overworld-checkpoint"@, overworld@, os_copy));
                return r;
            },
        };
        let r = CampaignEntries::from_states(ev, ov);
        assert(archive_states_ok("campaign-entry"@, entries@, es_copy));
        assert(archive_states_ok("overworld-checkpoint"@, overworld@, os_copy));
        r
    }
}

/// The sources gathered for one walkthrough puzzle: its stem, and the texts
/// of its entry state, replay and checkpoint trace found so far.
pub type SourceGroup = (Seq<char>, Option<Seq<char>>, Option<Seq<char>>, Option<Seq<char>>);

/// The index of the last `.` in a name.
pub open spec fn last_dot(s: Seq<char>) -> Option<int>
    decreases s.len(),
{
    if s.len() == 0 {
        None
    } else if s.last() == '.' {
        Some(s.len() - 1)
    } else {
        last_dot(s.drop_last())
    }
}

/// The kinds of walkthrough files: 0 for `state`, 1 for `dem`, 2 for
/// `trace`.
pub open spec fn source_kind(kind: Seq<char>) -> Option<int> {
    if kind == "state"@ {
        Some(0)
    } else if kind == "dem"@ {
        Some(1)
    } else if kind == "trace"@ {
        Some(2)
    } else {
        None
    }
}

/// The index of the group with this stem.
pub open spec fn group_index(groups: Seq<SourceGroup>, stem: Seq<char>) -> Option<int>
    decreases groups.len(),
{
    if groups.len() == 0 {
        None
    } else {
        match group_index(groups.drop_last(), stem) {
            Some(i) => Some(i),
            None => if groups.last().0 == stem {
                Some(groups.len() - 1)
            } else {
                None
            },
        }
    }
}

/// The slot of a group for a kind of file.
pub open spec fn slot_of(g: SourceGroup, kind: int) -> Option<Seq<char>> {
    if kind == 0 {
        g.1
    } else if kind == 1 {
        g.2
    } else {
        g.3
    }
}

/// A group with the slot for a kind of file filled.
pub open spec fn filled(g: SourceGroup, kind: int, text: Seq<char>) -> SourceGroup {
    if kind == 0 {
        (g.0, Some(text), g.2, g.3)
    } else if kind == 1 {
        (g.0, g.1, Some(text), g.3)
    } else {
        (g.0, g.1, g.2, Some(text))
    }
}

/// One archive item of the walkthrough, after the groups `groups` (in the
/// order their stems first came): regular files named `<stem>.state`,
/// `<stem>.dem` or `<stem>.trace` (the kind after the last dot) fill their
/// stem's slot for that kind; other items, names that are not UTF-8 and
/// names starting with `._` are passed over. A text that is not UTF-8, or a
/// second file of one kind for one stem, is an error.
pub open spec fn source_step(groups: Seq<SourceGroup>, item: (Seq<u8>, bool, Seq<u8>)) -> Result<Seq<SourceGroup>, Seq<char>> {
    let (path, is_file, bytes) = item;
    if !is_file {
        Ok(groups)
    } else {
        match file_name_of(path) {
            None => Ok(groups),
            Some(nb) => match utf8_decoding(nb) {
                Err(_) => Ok(groups),
                Ok(name) => if name.len() >= 2 && name[0] == '.' && name[1] == '_' {
                    Ok(groups)
                } else {
                    match last_dot(name) {
                        None => Ok(groups),
                        Some(d) => {
                            let (stem, kind) = (name.take(d), name.skip(d + 1));
                            match source_kind(kind) {
                                None => Ok(groups),
                                Some(k) => match utf8_decoding(bytes) {
                                    Err(_) => Err(not_utf8_text(name)),
                                    Ok(text) => match group_index(groups, stem) {
                                        None => Ok(groups.push(filled((stem, None, None, None), k, text))),
                                        Some(i) => if slot_of(groups[i], k) is Some {
                                            Err("duplicate "@ + kind + " entry for "@ + stem)
                                        } else {
                                            Ok(groups.update(i, filled(groups[i], k, text)))
                                        },
                                    },
                                },
                            }
                        },
                    }
                }
            },
        }
    }
}

/// The groups of the first `k` items; the first error instead.
pub open spec fn gather_sources(items: Seq<(Seq<u8>, bool, Seq<u8>)>, k: int) -> Result<Seq<SourceGroup>, Seq<char>>
    decreases k,
{
    if k <= 0 {
        Ok(Seq::empty())
    } else {
        match gather_sources(items, k - 1) {
            Ok(groups) => source_step(groups, items[k - 1]),
            Err(m) => Err(m),
        }
    }
}

/// A group of sources as plain values.
pub open spec fn group_view(g: (String, SegmentSources)) -> SourceGroup {
    (g.0@, opt_view(g.1.state), opt_view(g.1.replay), opt_view(g.1.trace))
}

/// The groups as plain values.
pub open spec fn groups_view(v: Seq<(String, SegmentSources)>) -> Seq<SourceGroup> {
    v.map_values(|g: (String, SegmentSources)| group_view(g))
}

proof fn lemma_group_index(groups: Seq<SourceGroup>, stem: Seq<char>)
    ensures
        match group_index(groups, stem) {
            Some(i) => 0 <= i < groups.len() && groups[i].0 == stem && forall|j: int|
                0 <= j < i ==> groups[j].0 != stem,
            None => forall|j: int| 0 <= j < groups.len() ==> groups[j].0 != stem,
        },
    decreases groups.len(),
{
    if groups.len() > 0 {
        lemma_group_index(groups.drop_last(), stem);
        assert forall|j: int| 0 <= j < groups.len() - 1 implies groups.drop_last()[j] == groups[j] by {}
    }
}

proof fn lemma_last_dot(s: Seq<char>)
    ensures
        match last_dot(s) {
            Some(d) => 0 <= d < s.len() && s[d] == '.' && forall|j: int| d < j < s.len() ==> s[j] != '.',
            None => forall|j: int| 0 <= j < s.len() ==> s[j] != '.',
        },
    decreases s.len(),
{
    if s.len() > 0 {
        let d = s.drop_last();
        lemma_last_dot(d);
        assert forall|j: int| 0 <= j < d.len() implies d[j] == s[j] by {}
    }
}

fn kind_of(kind: &Vec<char>) -> (r: Option<u8>)
    ensures
        match source_kind(kind@) {
            Some(k) => r == Some(k as u8),
            None => r is None,
        },
{
    if crate::text::chars_are(kind.as_slice(), "state") {
        Some(0)
    } else if crate::text::chars_are(kind.as_slice(), "dem") {
        Some(1)
    } else if crate::text::chars_are(kind.as_slice(), "trace") {
        Some(2)
    } else {
        None
    }
}

/// Takes one archive item into the walkthrough's groups; see
/// [`source_step`].
fn take_source(groups: &mut Vec<(String, SegmentSources)>, item: &TarItem) -> (r: Result<(), String>)
    ensures
        match source_step(groups_view(old(groups)@), tar_item_view(*item)) {
            Ok(next) => r is Ok && groups_view(final(groups)@) == next,
            Err(m) => r is Err && r->Err_0@ == m,
        },
{
    let ghost g0 = groups_view(groups@);
    if !item.is_file {
        return Ok(());
    }
    let nb = match file_name_bytes(&item.path) {
        Some(nb) => nb,
        None => {
            return Ok(());
        },
    };
    let name = match utf8_text(nb.as_slice()) {
        Ok(name) => name,
        Err(_) => {
            return Ok(());
        },
    };
    let cs = crate::text::to_chars(name.as_str());
    if cs.len() >= 2 && cs[0] == '.' && cs[1] == '_' {
        return Ok(());
    }
    let mut d: usize = cs.len();
    while d > 0 && cs[d - 1] != '.'
        invariant
            d <= cs@.len(),
            forall|j: int| d <= j < cs@.len() ==> cs@[j] != '.',
        decreases d,
    {
        d -= 1;
    }
    proof {
        lemma_last_dot(cs@);
    }
    if d == 0 {
        proof {
            match last_dot(cs@) {
                Some(t) => {
                    assert(cs@[t] == '.');
                },
                None => {},
            }
        }
        return Ok(());
    }
    let dot = d - 1;
    proof {
        match last_dot(cs@) {
            Some(t) => {
                assert(t == dot as int);
            },
            None => {
                assert(cs@[dot as int] == '.');
            },
        }
    }
    let mut stem_chars: Vec<char> = Vec::new();
    let mut kind: Vec<char> = Vec::new();
    let mut i: usize = 0;
    while i < cs.len()
        invariant
            dot < cs@.len(),
            i <= cs@.len(),
            stem_chars@ == cs@.take(if i < dot { i as int } else { dot as int }),
            kind@ == if i <= dot + 1 { Seq::<char>::empty() } else { cs@.subrange(dot + 1, i as int) },
        decreases cs@.len() - i,
    {
        if i < dot {
            stem_chars.push(cs[i]);
            assert(cs@.take(i as int).push(cs@[i as int]) =~= cs@.take(i + 1));
        } else if i > dot {
            kind.push(cs[i]);
            if i == dot + 1 {
                assert(kind@ =~= cs@.subrange(dot + 1, i + 1));
            } else {
                assert(cs@.subrange(dot + 1, i as int).push(cs@[i as int]) =~= cs@.subrange(dot + 1, i + 1));
            }
        }
        i += 1;
    }
    assert(kind@ =~= cs@.skip(dot + 1));
    let k = match kind_of(&kind) {
        Some(k) => k,
        None => {
            return Ok(());
        },
    };
    let text = match utf8_text(item.data.as_slice()) {
        Ok(text) => text,
        Err(_) => {
            let mut message = name.clone();
            message.append(" is not UTF-8: stream did not contain valid UTF-8");
            return Err(message);
        },
    };
    let stem = crate::text::string_from_chars(stem_chars.as_slice());
    proof {
        lemma_group_index(g0, stem@);
    }
    let mut j: usize = 0;
    while j < groups.len()
        invariant
            g0 == groups_view(groups@),
            j <= groups@.len(),
            forall|q: int| 0 <= q < j ==> g0[q].0 != stem@,
        ensures
            j < groups@.len() ==> g0[j as int].0 == stem@,
        decreases groups@.len() - j,
    {
        assert(g0[j as int] == group_view(groups@[j as int]));
        if crate::text::str_eq(groups[j].0.as_str(), stem.as_str()) {
            break;
        }
        j += 1;
    }
    if j == groups.len() {
        let mut sources = SegmentSources { state: None, replay: None, trace: None };
        if k == 0 {
            sources.state = Some(text);
        } else if k == 1 {
            sources.replay = Some(text);
        } else {
            sources.trace = Some(text);
        }
        let ghost before = groups@;
        let ghost entry = (stem, sources);
        assert(group_view(entry) == filled((stem@, None, None, None), k as int, text@));
        groups.push((stem, sources));
        assert(groups_view(groups@) =~= g0.push(group_view(groups@[before.len() as int])));
        return Ok(());
    }
    assert(g0[j as int].0 == stem@);
    let occupied = if k == 0 {
        groups[j].1.state.is_some()
    } else if k == 1 {
        groups[j].1.replay.is_some()
    } else {
        groups[j].1.trace.is_some()
    };
    assert(occupied == (slot_of(g0[j as int], k as int) is Some));
    assert(stem@ == name@.take(dot as int));
    assert(kind@ == name@.skip(dot + 1));
    if occupied {
        let mut message = String::from_str("duplicate ");
        crate::text::append_chars(&mut message, kind.as_slice());
        message.append(" entry for ");
        message.append(stem.as_str());
        return Err(message);
    }
    let ghost before = groups@[j as int];
    let (old_stem, old_sources) = groups.remove(j);
    assert(old_stem@ == g0[j as int].0);
    let mut sources = old_sources;
    if k == 0 {
        sources.state = Some(text);
    } else if k == 1 {
        sources.replay = Some(text);
    } else {
        sources.trace = Some(text);
    }
    assert(group_view((old_stem, sources)) == filled(g0[j as int], k as int, text@));
    groups.insert(j, (old_stem, sources));
    assert(groups_view(groups@) =~= g0.update(j as int, group_view(groups@[j as int])));
    Ok(())
}

/// The order of strings: by code point, a proper prefix first (the order
/// of their UTF-8 bytes).
pub open spec fn stem_less(a: Seq<char>, b: Seq<char>) -> bool
    decreases a.len(),
{
    if a.len() == 0 {
        b.len() > 0
    } else if b.len() == 0 {
        false
    } else if a[0] != b[0] {
        (a[0] as int) < (b[0] as int)
    } else {
        stem_less(a.drop_first(), b.drop_first())
    }
}

proof fn lemma_stem_less_order(a: Seq<char>, b: Seq<char>, c: Seq<char>)
    ensures
        stem_less(a, b) && stem_less(b, c) ==> stem_less(a, c),
        a != b ==> stem_less(a, b) || stem_less(b, a),
        !stem_less(a, a),
    decreases a.len(),
{
    if a.len() > 0 {
        let c2 = if c.len() > 0 { c.drop_first() } else { c };
        let b2 = if b.len() > 0 { b.drop_first() } else { b };
        lemma_stem_less_order(a.drop_first(), b2, c2);
        if b.len() > 0 && a[0] == b[0] && a != b {
            assert(a =~= seq![a[0]] + a.drop_first());
            assert(b =~= seq![b[0]] + b.drop_first());
            assert(a.drop_first() != b.drop_first());
        }
        if b.len() > 0 && a[0] != b[0] {
            assert((a[0] as int) != (b[0] as int));
        }
    } else {
        if a != b {
            assert(b.len() > 0) by {
                if b.len() == 0 {
                    assert(a =~= b);
                }
            }
        }
    }
}

proof fn lemma_stem_less_skip(a: Seq<char>, b: Seq<char>, i: int)
    requires
        0 <= i < a.len(),
        i < b.len(),
        a[i] == b[i],
    ensures
        stem_less(a.skip(i), b.skip(i)) == stem_less(a.skip(i + 1), b.skip(i + 1)),
{
    assert(a.skip(i).drop_first() =~= a.skip(i + 1));
    assert(b.skip(i).drop_first() =~= b.skip(i + 1));
}

/// Whether `a` comes before `b`; see [`stem_less`].
fn chars_less(a: &[char], b: &[char]) -> (r: bool)
    ensures
        r == stem_less(a@, b@),
{
    let mut i: usize = 0;
    assert(a@.skip(0) =~= a@);
    assert(b@.skip(0) =~= b@);
    while i < a.len() && i < b.len()
        invariant
            i <= a@.len(),
            i <= b@.len(),
            stem_less(a@, b@) == stem_less(a@.skip(i as int), b@.skip(i as int)),
        decreases a@.len() - i,
    {
        if a[i] != b[i] {
            return a[i] < b[i];
        }
        proof {
            lemma_stem_less_skip(a@, b@, i as int);
        }
        i += 1;
    }
    i < b.len()
}

/// Whether the stems of the groups are distinct.
pub open spec fn stems_distinct(groups: Seq<SourceGroup>) -> bool {
    forall|i: int, j: int| 0 <= i < groups.len() && 0 <= j < groups.len() && i != j ==> groups[i].0 != groups[j].0
}

proof fn lemma_gather_distinct(items: Seq<(Seq<u8>, bool, Seq<u8>)>, k: int)
    ensures
        gather_sources(items, k) is Ok ==> stems_distinct(gather_sources(items, k)->Ok_0),
    decreases k,
{
    if k > 0 {
        lemma_gather_distinct(items, k - 1);
        match gather_sources(items, k - 1) {
            Ok(groups) => {
                let item = items[k - 1];
                let (path, is_file, bytes) = item;
                if is_file {
                    match file_name_of(path) {
                        Some(nb) => match utf8_decoding(nb) {
                            Ok(name) => match last_dot(name) {
                                Some(d) => {
                                    lemma_group_index(groups, name.take(d));
                                },
                                None => {},
                            },
                            Err(_) => {},
                        },
                        None => {},
                    }
                }
            },
            Err(_) => {},
        }
    }
}

proof fn lemma_gather_sources_err(items: Seq<(Seq<u8>, bool, Seq<u8>)>, k: int, n: int)
    requires
        0 < k <= n,
        gather_sources(items, k) is Err,
    ensures
        gather_sources(items, n) == gather_sources(items, k),
    decreases n - k,
{
    if n > k {
        lemma_gather_sources_err(items, k, n - 1);
    }
}

/// Whether the check of group `i` fails, and its stem comes first among
/// those of the groups whose check fails.
pub open spec fn first_failing(groups: Seq<SourceGroup>, i: int) -> bool {
    &&& 0 <= i < groups.len()
    &&& !(segment_check(groups[i].0, groups[i].1, groups[i].2, groups[i].3) is Parsed)
    &&& forall|j: int|
        0 <= j < groups.len() && j != i && !(#[trigger] segment_check(groups[j].0, groups[j].1, groups[j].2, groups[j].3) is Parsed)
            ==> stem_less(groups[i].0, groups[j].0)
}

/// What loading the walkthrough from its gzip-compressed tar archive gives:
/// the decoder's or the archive's error; the first error gathering the
/// puzzles' sources (see [`source_step`]); the error of the puzzle, by stem
/// in order, that first fails to read (see [`segment_read`]); or the
/// walkthrough built from the puzzles read (see [`campaign_built`]).
pub open spec fn walkthrough_loaded(data: Seq<u8>, r: Result<OracleCampaign, String>) -> bool {
    match gunzip(data) {
        Err(e) => r is Err && r->Err_0@ == "invalid oracle archive: "@ + e,
        Ok(b) => match tar_items(b) {
            Err((at_start, e)) => r is Err && r->Err_0@ == if at_start {
                "invalid oracle archive: "@ + e
            } else {
                "invalid oracle archive entry: "@ + e
            },
            Ok(items) => match gather_sources(items, items.len() as int) {
                Err(m) => r is Err && r->Err_0@ == m,
                Ok(groups) => if exists|i: int| #[trigger] first_failing(groups, i) {
                    exists|i: int|
                        #[trigger] first_failing(groups, i) && r is Err && segment_read(
                            groups[i].0,
                            groups[i].1,
                            groups[i].2,
                            groups[i].3,
                            Err(r->Err_0),
                        )
                } else {
                    exists|segs: Seq<OracleSegment>|
                        #![trigger campaign_built(segs, r)]
                        segs.len() == groups.len() && (forall|i: int|
                            0 <= i < groups.len() ==> #[trigger] segment_read(
                                groups[i].0,
                                groups[i].1,
                                groups[i].2,
                                groups[i].3,
                                Ok(segs[i]),
                            )) && campaign_built(segs, r)
                },
            },
        },
    }
}

impl OracleCampaign {
    /// The walkthrough stored as a gzip-compressed tar archive in `data`;
    /// see [`walkthrough_loaded`].
    pub fn load(data: &[u8]) -> (r: Result<OracleCampaign, String>)
        ensures
            walkthrough_loaded(data@, r),
    {
        let bytes = match gunzip_bytes(data) {
            Ok(b) => b,
            Err(e) => {
                let mut message = String::from_str("invalid oracle archive: ");
                message.append(e.as_str());
                return Err(message);
            },
        };
        let items = match tar_items_of(bytes.as_slice()) {
            Ok(items) => items,
            Err((at_start, e)) => {
                let mut message = if at_start {
                    String::from_str("invalid oracle archive: ")
                } else {
                    String::from_str("invalid oracle archive entry: ")
                };
                message.append(e.as_str());
                return Err(message);
            },
        };
        let ghost views = items@.map_values(|t: TarItem| tar_item_view(t));
        let mut groups: Vec<(String, SegmentSources)> = Vec::new();
        assert(groups_view(groups@) =~= Seq::<SourceGroup>::empty());
        let mut k: usize = 0;
        while k < items.len()
            invariant
                k <= items@.len(),
                views == items@.map_values(|t: TarItem| tar_item_view(t)),
                gunzip(data@) == Ok::<Seq<u8>, Seq<char>>(bytes@),
                tar_items(bytes@) == Ok::<Seq<(Seq<u8>, bool, Seq<u8>)>, (bool, Seq<char>)>(views),
                gather_sources(views, k as int) == Ok::<Seq<SourceGroup>, Seq<char>>(groups_view(groups@)),
            decreases items@.len() - k,
        {
            assert(views[k as int] == tar_item_view(items@[k as int]));
            match take_source(&mut groups, &items[k]) {
                Ok(()) => {},
                Err(message) => {
                    proof {
                        lemma_gather_sources_err(views, k + 1, views.len() as int);
                    }
                    return Err(message);
                },
            }
            k += 1;
        }
        let ghost gv = groups_view(groups@);
        proof {
            lemma_gather_distinct(views, views.len() as int);
        }
        assert(gather_sources(views, views.len() as int) == Ok::<Seq<SourceGroup>, Seq<char>>(gv));
        let n = groups.len();
        let mut rest = groups;
        let mut segs: Vec<OracleSegment> = Vec::new();
        let mut best: Option<(usize, String, String)> = None;
        let mut i: usize = 0;
        while i < n
            invariant
                n == gv.len(),
                i <= n,
                stems_distinct(gv),
                groups_view(rest@) == gv.skip(i as int),
                best is None ==> segs@.len() == i && forall|j: int|
                    0 <= j < i ==> #[trigger] segment_read(gv[j].0, gv[j].1, gv[j].2, gv[j].3, Ok(segs@[j])),
                best is None ==> forall|j: int|
                    0 <= j < i ==> (#[trigger] segment_check(gv[j].0, gv[j].1, gv[j].2, gv[j].3)) is Parsed,
                best matches Some((b, stem, message)) ==> {
                    &&& b < i
                    &&& stem@ == gv[b as int].0
                    &&& !(segment_check(gv[b as int].0, gv[b as int].1, gv[b as int].2, gv[b as int].3) is Parsed)
                    &&& segment_read(gv[b as int].0, gv[b as int].1, gv[b as int].2, gv[b as int].3, Err(message))
                    &&& forall|j: int|
                        0 <= j < i && j != b && !(#[trigger] segment_check(gv[j].0, gv[j].1, gv[j].2, gv[j].3) is Parsed)
                            ==> stem_less(gv[b as int].0, gv[j].0)
                },
            decreases n - i,
        {
            assert(gv.skip(i as int)[0] == gv[i as int]);
            assert(groups_view(rest@).len() == rest@.len());
            let ghost before = rest@;
            let (stem, sources) = rest.remove(0);
            assert(groups_view(rest@) =~= gv.skip(i + 1)) by {
                assert forall|q: int| 0 <= q < rest@.len() implies groups_view(rest@)[q] == gv.skip(i + 1)[q] by {
                    assert(rest@[q] == before[q + 1]);
                    assert(groups_view(before)[q + 1] == group_view(before[q + 1]));
                    assert(gv.skip(i as int)[q + 1] == gv[i + 1 + q]);
                }
            }
            assert(group_view((stem, sources)) == gv[i as int]);
            let stem_chars = crate::text::to_chars(stem.as_str());
            match OracleSegment::parse(stem.as_str(), sources) {
                Ok(seg) => {
                    segs.push(seg);
                },
                Err(message) => {
                    let take = match &best {
                        None => true,
                        Some((_, best_stem, _)) => {
                            let best_chars = crate::text::to_chars(best_stem.as_str());
                            chars_less(stem_chars.as_slice(), best_chars.as_slice())
                        },
                    };
                    proof {
                        if let Some((b, _, _)) = best {
                            lemma_stem_less_order(gv[i as int].0, gv[b as int].0, gv[i as int].0);
                            assert forall|j: int|
                                0 <= j < i && j != b && !(#[trigger] segment_check(gv[j].0, gv[j].1, gv[j].2, gv[j].3) is Parsed)
                                implies (if take { stem_less(gv[i as int].0, gv[j].0) } else { true }) by {
                                lemma_stem_less_order(gv[i as int].0, gv[b as int].0, gv[j].0);
                            }
                            lemma_stem_less_order(gv[b as int].0, gv[i as int].0, gv[b as int].0);
                        }
                    }
                    if take {
                        best = Some((i, stem, message));
                    }
                },
            }
            i += 1;
        }
        match best {
            Some((b, _, message)) => {
                let r: Result<OracleCampaign, String> = Err(message);
                assert(first_failing(gv, b as int));
                assert(segment_read(gv[b as int].0, gv[b as int].1, gv[b as int].2, gv[b as int].3, Err(r->Err_0)));
                r
            },
            None => {
                proof {
                    assert forall|q: int| !first_failing(gv, q) by {
                        if 0 <= q < gv.len() {
                            assert(segment_check(gv[q].0, gv[q].1, gv[q].2, gv[q].3) is Parsed);
                        }
                    }
                }
                let ghost sv = segs@;
                let r = OracleCampaign::from_segments(segs);
                assert(forall|j: int| 0 <= j < gv.len() ==> #[trigger] segment_read(gv[j].0, gv[j].1, gv[j].2, gv[j].3, Ok(sv[j])));
                assert(campaign_built(sv, r));
                r
            },
        }
    }
}

} // verus!
