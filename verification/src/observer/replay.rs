//! How a replay page treats undo, redo and resets. Every frame is kept;
//! the default view leaves out a branch the agent undid, the undo or redo
//! that moved over it, and resets. An undo whose target is not on the page
//! stays visible, so the board steps back instead of jumping. The frames
//! that stay are then gathered into the operations they came from.

use vstd::prelude::*;

use crate::text::{ascii_lower, chars_are, lowercase_chars};

verus! {

/// One frame of a replay page, as the projection reads it: the sequence of
/// the operation it belongs to (`None` where that is not an unsigned
/// integer), the operation's command as written, a fingerprint of the
/// frame's state, and the frame's score delta.
#[derive(Clone, Debug)]
pub struct ReplayFrame {
    pub sequence: Option<u64>,
    pub command: String,
    pub state: Option<Vec<u8>>,
    pub score_delta: i64,
}

/// A fingerprint's bytes.
pub open spec fn opt_bytes(o: Option<Vec<u8>>) -> Option<Seq<u8>> {
    match o {
        Some(v) => Some(v@),
        None => None,
    }
}

/// The fingerprint of a frame's state.
pub open spec fn state_of(f: ReplayFrame) -> Option<Seq<u8>> {
    opt_bytes(f.state)
}

/// What a command does to the history, by its lowercased text.
#[derive(Clone, Copy, Debug, PartialEq, Eq, Structural)]
pub enum HistoryCommand {
    Undo,
    Redo,
    Reset,
    Plain,
}

pub open spec fn command_kind(command: Seq<char>) -> HistoryCommand {
    let c = ascii_lower(command);
    if c == "undo"@ {
        HistoryCommand::Undo
    } else if c == "redo"@ {
        HistoryCommand::Redo
    } else if c == "restart"@ || c == "reset"@ {
        HistoryCommand::Reset
    } else {
        HistoryCommand::Plain
    }
}

fn classify(command: &str) -> (r: HistoryCommand)
    ensures
        r == command_kind(command@),
{
    let c = lowercase_chars(command);
    if chars_are(c.as_slice(), "undo") {
        HistoryCommand::Undo
    } else if chars_are(c.as_slice(), "redo") {
        HistoryCommand::Redo
    } else if chars_are(c.as_slice(), "restart") || chars_are(c.as_slice(), "reset") {
        HistoryCommand::Reset
    } else {
        HistoryCommand::Plain
    }
}

/// The history the projection keeps while it walks the page: the frames
/// on the agent's current path, the branches an undo removed (newest
/// last), and which frames the view leaves out.
pub struct History {
    pub output: Seq<int>,
    pub redo: Seq<Seq<int>>,
    pub undone: Seq<bool>,
}

/// The end of the operation that starts at frame `i`: the first frame from
/// `j` on whose sequence differs, or the page's end.
pub open spec fn group_end(fs: Seq<ReplayFrame>, i: int, j: int) -> int
    decreases fs.len() - j,
{
    if j >= fs.len() || fs[j].sequence != fs[i].sequence {
        j
    } else {
        group_end(fs, i, j + 1)
    }
}

/// The last position in `out.take(k)` whose frame has the state `t`.
pub open spec fn last_match(fs: Seq<ReplayFrame>, out: Seq<int>, t: Option<Seq<u8>>, k: int) -> Option<int>
    decreases k,
{
    if k <= 0 {
        None
    } else if t is Some && state_of(fs[out[k - 1]]) == t {
        Some(k - 1)
    } else {
        last_match(fs, out, t, k - 1)
    }
}

/// The first position from `k` on in `rs` whose frame has the state `t`.
pub open spec fn first_match(fs: Seq<ReplayFrame>, rs: Seq<int>, t: Option<Seq<u8>>, k: int) -> Option<int>
    decreases rs.len() - k,
{
    if k >= rs.len() || k < 0 {
        None
    } else if t is Some && state_of(fs[rs[k]]) == t {
        Some(k)
    } else {
        first_match(fs, rs, t, k + 1)
    }
}

/// The frames `lo` to `hi`, `hi` excluded.
pub open spec fn span(lo: int, hi: int) -> Seq<int> {
    Seq::new((hi - lo) as nat, |k: int| lo + k)
}

/// `u` with the flags from `lo` to `hi` set to `v`.
pub open spec fn fill(u: Seq<bool>, lo: int, hi: int, v: bool) -> Seq<bool> {
    Seq::new(u.len(), |k: int| if lo <= k < hi { v } else { u[k] })
}

/// `u` with the flags of the listed frames set to `v`.
pub open spec fn mark(u: Seq<bool>, idxs: Seq<int>, v: bool) -> Seq<bool> {
    Seq::new(u.len(), |k: int| if idxs.contains(k) { v } else { u[k] })
}

/// How many of a redone branch come back: up to the first frame with the
/// redo's target state, or the whole branch.
pub open spec fn restored_count(fs: Seq<ReplayFrame>, rs: Seq<int>, t: Option<Seq<u8>>) -> int {
    let p = match first_match(fs, rs, t, 0) {
        Some(p) => p,
        None => if rs.len() > 0 {
            rs.len() - 1
        } else {
            0
        },
    };
    if p + 1 <= rs.len() {
        p + 1
    } else {
        rs.len() as int
    }
}

/// What the operation from frame `i` to frame `b` does to the history. Its
/// target is the state of its last frame. An undo that finds the target on
/// the current path cuts the path after it, keeps the cut branch for a
/// redo and hides the branch and itself; one that does not find it is an
/// ordinary step. A redo brings back the newest cut branch up to the
/// target and hides itself. A reset hides itself and forgets the cut
/// branches; an ordinary step forgets them and joins the path.
pub open spec fn step(fs: Seq<ReplayFrame>, h: History, i: int, b: int) -> History {
    let t = state_of(fs[b - 1]);
    match command_kind(fs[i].command@) {
        HistoryCommand::Undo => match last_match(fs, h.output, t, h.output.len() as int) {
            Some(m) => {
                let removed = h.output.skip(m + 1);
                History {
                    output: h.output.take(m + 1),
                    redo: if removed.len() > 0 {
                        h.redo.push(removed)
                    } else {
                        h.redo
                    },
                    undone: fill(mark(h.undone, removed, true), i, b, true),
                }
            },
            None => History { output: h.output + span(i, b), redo: h.redo, undone: h.undone },
        },
        HistoryCommand::Redo => if h.redo.len() > 0 {
            let rs = h.redo.last();
            let back = rs.take(restored_count(fs, rs, t));
            History {
                output: h.output + back,
                redo: h.redo.drop_last(),
                undone: fill(mark(h.undone, back, false), i, b, true),
            }
        } else {
            History { output: h.output + span(i, b), redo: h.redo, undone: h.undone }
        },
        HistoryCommand::Reset => History { output: h.output, redo: Seq::empty(), undone: fill(h.undone, i, b, true) },
        HistoryCommand::Plain => History { output: h.output + span(i, b), redo: Seq::empty(), undone: h.undone },
    }
}

/// The history after the operations from frame `i` to the page's end.
pub open spec fn project_from(fs: Seq<ReplayFrame>, h: History, i: int) -> History
    decreases fs.len() - i,
{
    if i < 0 || i >= fs.len() {
        h
    } else {
        let b = group_end(fs, i, i + 1);
        if b <= i || b > fs.len() {
            h
        } else {
            project_from(fs, step(fs, h, i, b), b)
        }
    }
}

/// Nothing hidden, no path, no cut branch.
pub open spec fn fresh(n: nat) -> History {
    History { output: Seq::empty(), redo: Seq::empty(), undone: Seq::new(n, |k: int| false) }
}

/// Which frames of the page the default view leaves out.
pub open spec fn undone_spec(fs: Seq<ReplayFrame>) -> Seq<bool> {
    project_from(fs, fresh(fs.len()), 0).undone
}

/// Indices as integers.
pub open spec fn idx(v: Seq<usize>) -> Seq<int> {
    v.map_values(|p: usize| p as int)
}

/// The cut branches as integers.
pub open spec fn branches(r: Seq<Vec<usize>>) -> Seq<Seq<int>> {
    r.map_values(|v: Vec<usize>| idx(v@))
}

/// The history that the projection's vectors hold.
pub open spec fn held(output: Seq<usize>, redo: Seq<Vec<usize>>, undone: Seq<bool>) -> History {
    History { output: idx(output), redo: branches(redo), undone }
}

/// Every index the vectors hold names a frame of the page.
pub open spec fn in_page(output: Seq<usize>, redo: Seq<Vec<usize>>, undone: Seq<bool>, n: int) -> bool {
    &&& undone.len() == n
    &&& forall|k: int| 0 <= k < output.len() ==> #[trigger] output[k] < n
    &&& forall|j: int, k: int| 0 <= j < redo.len() && 0 <= k < redo[j]@.len() ==> #[trigger] redo[j]@[k] < n
}

fn same_sequence(a: Option<u64>, b: Option<u64>) -> (r: bool)
    ensures
        r == (a == b),
{
    match (a, b) {
        (Some(x), Some(y)) => x == y,
        (None, None) => true,
        _ => false,
    }
}

fn bytes_eq(a: &Vec<u8>, b: &Vec<u8>) -> (r: bool)
    ensures
        r == (a@ == b@),
{
    if a.len() != b.len() {
        return false;
    }
    let mut i: usize = 0;
    while i < a.len()
        invariant
            a@.len() == b@.len(),
            i <= a@.len(),
            forall|j: int| 0 <= j < i ==> a@[j] == b@[j],
        decreases a@.len() - i,
    {
        if a[i] != b[i] {
            return false;
        }
        i += 1;
    }
    assert(a@ =~= b@);
    true
}

/// Whether a frame has the target state.
fn has_state(frame: &ReplayFrame, target: &Option<Vec<u8>>) -> (r: bool)
    ensures
        r == (opt_bytes(*target) is Some && state_of(*frame) == opt_bytes(*target)),
{
    match (target, &frame.state) {
        (Some(t), Some(s)) => bytes_eq(s, t),
        _ => false,
    }
}

proof fn lemma_group_end(fs: Seq<ReplayFrame>, i: int, j: int)
    requires
        0 <= i < j <= fs.len(),
    ensures
        j <= group_end(fs, i, j) <= fs.len(),
    decreases fs.len() - j,
{
    if j < fs.len() && fs[j].sequence == fs[i].sequence {
        lemma_group_end(fs, i, j + 1);
    }
}

/// The end of the operation that starts at frame `i`; see [`group_end`].
fn operation_end(frames: &Vec<ReplayFrame>, i: usize) -> (b: usize)
    requires
        i < frames@.len(),
    ensures
        b == group_end(frames@, i as int, i + 1),
        i < b <= frames@.len(),
{
    proof {
        lemma_group_end(frames@, i as int, i + 1);
    }
    let n = frames.len();
    let mut b: usize = i + 1;
    while b < n && same_sequence(frames[b].sequence, frames[i].sequence)
        invariant
            i < b <= frames@.len(),
            n == frames@.len(),
            group_end(frames@, i as int, i + 1) == group_end(frames@, i as int, b as int),
        decreases frames@.len() - b,
    {
        b += 1;
    }
    b
}

fn fill_range(undone: &mut Vec<bool>, lo: usize, hi: usize, v: bool)
    requires
        lo <= hi <= old(undone)@.len(),
    ensures
        final(undone)@ == fill(old(undone)@, lo as int, hi as int, v),
{
    let ghost u0 = undone@;
    let mut k: usize = lo;
    while k < hi
        invariant
            lo <= k <= hi,
            hi <= u0.len(),
            undone@ == fill(u0, lo as int, k as int, v),
        decreases hi - k,
    {
        undone.set(k, v);
        assert(undone@ =~= fill(u0, lo as int, k + 1, v));
        k += 1;
    }
}

fn mark_listed(undone: &mut Vec<bool>, idxs: &Vec<usize>, count: usize, v: bool)
    requires
        count <= idxs@.len(),
        forall|k: int| 0 <= k < idxs@.len() ==> #[trigger] idxs@[k] < old(undone)@.len(),
    ensures
        final(undone)@ == mark(old(undone)@, idx(idxs@).take(count as int), v),
{
    let ghost u0 = undone@;
    let mut j: usize = 0;
    assert(mark(u0, idx(idxs@).take(0), v) =~= u0);
    while j < count
        invariant
            j <= count <= idxs@.len(),
            forall|k: int| 0 <= k < idxs@.len() ==> #[trigger] idxs@[k] < u0.len(),
            undone@ == mark(u0, idx(idxs@).take(j as int), v),
        decreases count - j,
    {
        let x = idxs[j];
        undone.set(x, v);
        let ghost s = idx(idxs@).take(j as int);
        assert(idx(idxs@).take(j + 1) =~= s.push(x as int));
        assert forall|k: int| 0 <= k < u0.len() implies #[trigger] s.push(x as int).contains(k) == (s.contains(k) || k == x) by {
            if s.push(x as int).contains(k) && k != x {
                let w = choose|w: int| 0 <= w < s.len() + 1 && s.push(x as int)[w] == k;
                assert(s[w] == k);
            }
            if s.contains(k) {
                let w = choose|w: int| 0 <= w < s.len() && s[w] == k;
                assert(s.push(x as int)[w] == k);
            }
            if k == x {
                assert(s.push(x as int)[s.len() as int] == k);
            }
        }
        assert(undone@ =~= mark(u0, idx(idxs@).take(j + 1), v));
        j += 1;
    }
}

fn push_span(output: &mut Vec<usize>, lo: usize, hi: usize)
    requires
        lo <= hi,
    ensures
        idx(final(output)@) == idx(old(output)@) + span(lo as int, hi as int),
        final(output)@.len() == old(output)@.len() + (hi - lo),
        forall|k: int| 0 <= k < old(output)@.len() ==> final(output)@[k] == old(output)@[k],
        forall|k: int| old(output)@.len() <= k < final(output)@.len() ==> lo <= #[trigger] final(output)@[k] < hi,
{
    let ghost o0 = output@;
    let mut k: usize = lo;
    while k < hi
        invariant
            lo <= k <= hi,
            output@.len() == o0.len() + (k - lo),
            idx(output@) == idx(o0) + span(lo as int, k as int),
            forall|j: int| 0 <= j < o0.len() ==> output@[j] == o0[j],
            forall|j: int| o0.len() <= j < output@.len() ==> lo <= #[trigger] output@[j] < hi,
        decreases hi - k,
    {
        let ghost before = output@;
        output.push(k);
        assert(idx(output@) =~= idx(before).push(k as int));
        assert(span(lo as int, k + 1) =~= span(lo as int, k as int).push(k as int));
        assert((idx(o0) + span(lo as int, k as int)).push(k as int) =~= idx(o0) + span(lo as int, k + 1));
        k += 1;
    }
}

fn extend_from(output: &mut Vec<usize>, src: &Vec<usize>, count: usize)
    requires
        count <= src@.len(),
    ensures
        idx(final(output)@) == idx(old(output)@) + idx(src@).take(count as int),
        final(output)@ == old(output)@ + src@.take(count as int),
{
    let ghost o0 = output@;
    let mut j: usize = 0;
    while j < count
        invariant
            j <= count <= src@.len(),
            output@ == o0 + src@.take(j as int),
        decreases count - j,
    {
        output.push(src[j]);
        assert(o0 + src@.take(j + 1) =~= (o0 + src@.take(j as int)).push(src@[j as int]));
        j += 1;
    }
    assert(idx(output@) =~= idx(o0) + idx(src@).take(count as int));
}

/// The last place on the path whose frame has the target state.
fn last_on_path(frames: &Vec<ReplayFrame>, output: &Vec<usize>, target: &Option<Vec<u8>>) -> (r: Option<usize>)
    requires
        forall|k: int| 0 <= k < output@.len() ==> #[trigger] output@[k] < frames@.len(),
    ensures
        match last_match(frames@, idx(output@), opt_bytes(*target), output@.len() as int) {
            Some(m) => r == Some(m as usize) && 0 <= m < output@.len(),
            None => r is None,
        },
{
    let ghost o = idx(output@);
    let ghost t = opt_bytes(*target);
    let mut k: usize = output.len();
    while k > 0
        invariant
            k <= output@.len(),
            o == idx(output@),
            t == opt_bytes(*target),
            forall|j: int| 0 <= j < output@.len() ==> #[trigger] output@[j] < frames@.len(),
            last_match(frames@, o, t, output@.len() as int) == last_match(frames@, o, t, k as int),
        decreases k,
    {
        if has_state(&frames[output[k - 1]], target) {
            return Some(k - 1);
        }
        k -= 1;
    }
    None
}

/// The first place on a branch whose frame has the target state.
fn first_on_branch(frames: &Vec<ReplayFrame>, rs: &Vec<usize>, target: &Option<Vec<u8>>) -> (r: Option<usize>)
    requires
        forall|k: int| 0 <= k < rs@.len() ==> #[trigger] rs@[k] < frames@.len(),
    ensures
        match first_match(frames@, idx(rs@), opt_bytes(*target), 0) {
            Some(p) => r == Some(p as usize) && 0 <= p < rs@.len(),
            None => r is None,
        },
{
    let ghost o = idx(rs@);
    let ghost t = opt_bytes(*target);
    let mut k: usize = 0;
    while k < rs.len()
        invariant
            k <= rs@.len(),
            o == idx(rs@),
            t == opt_bytes(*target),
            forall|j: int| 0 <= j < rs@.len() ==> #[trigger] rs@[j] < frames@.len(),
            first_match(frames@, o, t, 0) == first_match(frames@, o, t, k as int),
        decreases rs@.len() - k,
    {
        if has_state(&frames[rs[k]], target) {
            return Some(k);
        }
        k += 1;
    }
    None
}

/// Applies the operation from frame `i` to frame `b`; see [`step`].
fn apply_operation(
    frames: &Vec<ReplayFrame>,
    output: &mut Vec<usize>,
    redo: &mut Vec<Vec<usize>>,
    undone: &mut Vec<bool>,
    i: usize,
    b: usize,
)
    requires
        i < b <= frames@.len(),
        in_page(old(output)@, old(redo)@, old(undone)@, frames@.len() as int),
    ensures
        held(final(output)@, final(redo)@, final(undone)@) == step(
            frames@,
            held(old(output)@, old(redo)@, old(undone)@),
            i as int,
            b as int,
        ),
        in_page(final(output)@, final(redo)@, final(undone)@, frames@.len() as int),
{
    let ghost fs = frames@;
    let ghost n = frames@.len() as int;
    let ghost h = held(output@, redo@, undone@);
    let kind = classify(frames[i].command.as_str());
    let target = &frames[b - 1].state;
    let olen = output.len();
    let ghost after = step(fs, h, i as int, b as int);
    match kind {
        HistoryCommand::Undo => {
            match last_on_path(frames, output, target) {
                Some(m) => {
                    let ghost o0 = output@;
                    let removed = output.split_off(m + 1);
                    assert(idx(removed@) =~= h.output.skip(m + 1));
                    assert(idx(output@) =~= h.output.take(m + 1));
                    assert(idx(removed@).take(removed@.len() as int) =~= idx(removed@));
                    assert forall|k: int| 0 <= k < removed@.len() implies #[trigger] removed@[k] < undone@.len() by {
                        assert(removed@[k] == o0[m + 1 + k]);
                    }
                    mark_listed(undone, &removed, removed.len(), true);
                    fill_range(undone, i, b, true);
                    if removed.len() > 0 {
                        let ghost r0 = redo@;
                        let ghost rv = removed@;
                        redo.push(removed);
                        assert(branches(redo@) =~= branches(r0).push(idx(rv)));
                    }
                    assert(idx(output@) == after.output);
                    assert(branches(redo@) == after.redo);
                    assert(undone@ == after.undone);
                },
                None => {
                    push_span(output, i, b);
                    assert(idx(output@) == after.output);
                    assert(branches(redo@) == after.redo);
                    assert(undone@ == after.undone);
                },
            }
        },
        HistoryCommand::Redo => {
            let ghost r0 = redo@;
            match redo.pop() {
                Some(rs) => {
                    assert(branches(redo@) =~= branches(r0).drop_last());
                    assert(idx(rs@) == branches(r0).last());
                    let found = first_on_branch(frames, &rs, target);
                    let p: usize = match found {
                        Some(p) => p,
                        None => if rs.len() > 0 {
                            rs.len() - 1
                        } else {
                            0
                        },
                    };
                    let count: usize = if p < rs.len() {
                        p + 1
                    } else {
                        rs.len()
                    };
                    assert(count == restored_count(fs, idx(rs@), opt_bytes(*target)));
                    assert forall|k: int| 0 <= k < rs@.len() implies #[trigger] rs@[k] < undone@.len() by {
                        assert(r0[r0.len() - 1]@[k] == rs@[k]);
                    }
                    mark_listed(undone, &rs, count, false);
                    let ghost o0 = output@;
                    extend_from(output, &rs, count);
                    fill_range(undone, i, b, true);
                    assert forall|k: int| 0 <= k < output@.len() implies #[trigger] output@[k] < n by {
                        if k >= o0.len() {
                            assert(output@[k] == rs@[k - o0.len()]);
                        }
                    }
                },
                None => {
                    push_span(output, i, b);
                },
            }
        },
        HistoryCommand::Reset => {
            redo.clear();
            assert(branches(redo@) =~= Seq::<Seq<int>>::empty());
            fill_range(undone, i, b, true);
        },
        HistoryCommand::Plain => {
            redo.clear();
            assert(branches(redo@) =~= Seq::<Seq<int>>::empty());
            push_span(output, i, b);
        },
    }
}

/// Which frames of a replay page the default view leaves out; see
/// [`step`].
pub fn undone_frames(frames: &Vec<ReplayFrame>) -> (r: Vec<bool>)
    ensures
        r@ == undone_spec(frames@),
        r@.len() == frames@.len(),
{
    let n = frames.len();
    let mut undone: Vec<bool> = Vec::new();
    let mut k: usize = 0;
    while k < n
        invariant
            k <= n,
            undone@ == Seq::new(k as nat, |j: int| false),
        decreases n - k,
    {
        undone.push(false);
        assert(undone@ =~= Seq::new((k + 1) as nat, |j: int| false));
        k += 1;
    }
    let mut output: Vec<usize> = Vec::new();
    let mut redo: Vec<Vec<usize>> = Vec::new();
    assert(idx(output@) =~= Seq::<int>::empty());
    assert(branches(redo@) =~= Seq::<Seq<int>>::empty());
    assert(held(output@, redo@, undone@) == fresh(n as nat));
    let mut index: usize = 0;
    while index < n
        invariant
            index <= n,
            n == frames@.len(),
            in_page(output@, redo@, undone@, n as int),
            project_from(frames@, held(output@, redo@, undone@), index as int) == project_from(
                frames@,
                fresh(n as nat),
                0,
            ),
        decreases n - index,
    {
        let b = operation_end(frames, index);
        apply_operation(frames, &mut output, &mut redo, &mut undone, index, b);
        index = b;
    }
    undone
}

/// The frames of one operation that the view shows, gathered: its
/// sequence, its first and last shown frames, how many it shows and the
/// sum of their score deltas.
#[derive(Clone, Copy, Debug, PartialEq, Eq)]
pub struct ReplayOperation {
    pub sequence: Option<u64>,
    pub first_frame: usize,
    pub last_frame: usize,
    pub frame_count: usize,
    pub score_delta: i128,
}

/// A frame the view shows among the operations: not undone, and not the
/// page's initial frame.
pub open spec fn gathered(fs: Seq<ReplayFrame>, undone: Seq<bool>, k: int) -> bool {
    !undone[k] && fs[k].command@ != "initial"@
}

/// The operations of the first `k` frames: each shown frame joins the last
/// operation when it has that operation's sequence, and starts a new one
/// otherwise.
pub open spec fn gather(fs: Seq<ReplayFrame>, undone: Seq<bool>, k: int) -> Seq<ReplayOperation>
    decreases k,
{
    if k <= 0 {
        Seq::empty()
    } else {
        let ops = gather(fs, undone, k - 1);
        let f = fs[k - 1];
        if !gathered(fs, undone, k - 1) {
            ops
        } else if ops.len() > 0 && ops.last().sequence == f.sequence {
            let last = ops.last();
            ops.update(
                ops.len() - 1,
                ReplayOperation {
                    sequence: last.sequence,
                    first_frame: last.first_frame,
                    last_frame: (k - 1) as usize,
                    frame_count: (last.frame_count + 1) as usize,
                    score_delta: (last.score_delta + f.score_delta) as i128,
                },
            )
        } else {
            ops.push(
                ReplayOperation {
                    sequence: f.sequence,
                    first_frame: (k - 1) as usize,
                    last_frame: (k - 1) as usize,
                    frame_count: 1,
                    score_delta: f.score_delta as i128,
                },
            )
        }
    }
}

/// How many flags are set.
pub open spec fn count_true(s: Seq<bool>) -> nat
    decreases s.len(),
{
    if s.len() == 0 {
        0
    } else {
        count_true(s.drop_last()) + if s.last() {
            1nat
        } else {
            0nat
        }
    }
}

/// The view of a replay page: which frames it leaves out, how many, and
/// the operations of the frames it shows.
#[derive(Clone, Debug)]
pub struct ReplayProjection {
    pub undone: Vec<bool>,
    pub eliminated: usize,
    pub operations: Vec<ReplayOperation>,
}

/// See [`undone_spec`], [`count_true`] and [`gather`].
pub fn project_replay(frames: &Vec<ReplayFrame>) -> (r: ReplayProjection)
    ensures
        r.undone@ == undone_spec(frames@),
        r.eliminated == count_true(undone_spec(frames@)),
        r.operations@ == gather(frames@, undone_spec(frames@), frames@.len() as int),
{
    let undone = undone_frames(frames);
    let ghost u = undone@;
    let mut eliminated: usize = 0;
    let mut ops: Vec<ReplayOperation> = Vec::new();
    let mut k: usize = 0;
    while k < frames.len()
        invariant
            u == undone@,
            undone@.len() == frames@.len(),
            k <= frames@.len(),
            eliminated == count_true(u.take(k as int)),
            eliminated <= k,
            ops@ == gather(frames@, u, k as int),
            forall|j: int| 0 <= j < ops@.len() ==> {
                let o = #[trigger] ops@[j];
                &&& o.frame_count <= k
                &&& -(o.frame_count * 0x8000_0000_0000_0000) <= o.score_delta <= o.frame_count * 0x8000_0000_0000_0000
            },
        decreases frames@.len() - k,
    {
        assert(u.take(k + 1).drop_last() =~= u.take(k as int));
        if undone[k] {
            eliminated += 1;
        }
        let f = &frames[k];
        if !undone[k] && !chars_are(crate::text::to_chars(f.command.as_str()).as_slice(), "initial") {
            let n = ops.len();
            if n > 0 && same_sequence(ops[n - 1].sequence, f.sequence) {
                let last = ops[n - 1];
                let next = ReplayOperation {
                    sequence: last.sequence,
                    first_frame: last.first_frame,
                    last_frame: k,
                    frame_count: last.frame_count + 1,
                    score_delta: last.score_delta + f.score_delta as i128,
                };
                ops.set(n - 1, next);
            } else {
                ops.push(
                    ReplayOperation {
                        sequence: f.sequence,
                        first_frame: k,
                        last_frame: k,
                        frame_count: 1,
                        score_delta: f.score_delta as i128,
                    },
                );
            }
        }
        k += 1;
    }
    assert(u.take(frames@.len() as int) =~= u);
    ReplayProjection { undone, eliminated, operations: ops }
}

/// The history before frame `i` of a page of `n` frames is consistent: the
/// path holds each frame once, the cut branches hold hidden frames only,
/// each once and none in two branches, and a frame before `i` is hidden
/// exactly when it is not on the path.
pub open spec fn path_ok(h: History, i: int, n: int) -> bool {
    &&& h.undone.len() == n
    &&& 0 <= i <= n
    &&& h.output.no_duplicates()
    &&& forall|k: int| 0 <= k < h.output.len() ==> 0 <= #[trigger] h.output[k] < i
    &&& forall|k: int| 0 <= k < i ==> (#[trigger] h.undone[k] <==> !h.output.contains(k))
    &&& forall|k: int| i <= k < n ==> !#[trigger] h.undone[k]
    &&& forall|j: int| 0 <= j < h.redo.len() ==> (#[trigger] h.redo[j]).no_duplicates()
    &&& forall|j: int, k: int|
        0 <= j < h.redo.len() && 0 <= k < h.redo[j].len() ==> 0 <= #[trigger] h.redo[j][k] < i && h.undone[h.redo[j][k]]
    &&& forall|j1: int, j2: int, k1: int, k2: int|
        0 <= j1 < j2 < h.redo.len() && 0 <= k1 < h.redo[j1].len() && 0 <= k2 < h.redo[j2].len() ==> #[trigger] h.redo[j1][k1]
            != #[trigger] h.redo[j2][k2]
}

proof fn lemma_span_joins(out: Seq<int>, i: int, b: int)
    requires
        0 <= i < b,
        out.no_duplicates(),
        forall|k: int| 0 <= k < out.len() ==> 0 <= #[trigger] out[k] < i,
    ensures
        (out + span(i, b)).no_duplicates(),
        forall|k: int| 0 <= k < (out + span(i, b)).len() ==> 0 <= #[trigger] (out + span(i, b))[k] < b,
        forall|x: int| #[trigger] (out + span(i, b)).contains(x) <==> (out.contains(x) || i <= x < b),
{
    let o = out + span(i, b);
    assert forall|p: int, q: int| 0 <= p < o.len() && 0 <= q < o.len() && p != q implies o[p] != o[q] by {
        if p < out.len() && q < out.len() {
        } else if p >= out.len() && q >= out.len() {
        } else {
        }
    }
    assert forall|x: int| #[trigger] o.contains(x) <==> (out.contains(x) || i <= x < b) by {
        if o.contains(x) {
            let w = choose|w: int| 0 <= w < o.len() && o[w] == x;
            if w < out.len() {
                assert(out[w] == x);
            }
        }
        if out.contains(x) {
            let w = choose|w: int| 0 <= w < out.len() && out[w] == x;
            assert(o[w] == x);
        }
        if i <= x < b {
            assert(o[out.len() + (x - i)] == x);
        }
    }
}

proof fn lemma_step_keeps_path(fs: Seq<ReplayFrame>, h: History, i: int, b: int)
    requires
        path_ok(h, i, fs.len() as int),
        i < b <= fs.len(),
    ensures
        path_ok(step(fs, h, i, b), b, fs.len() as int),
{
    let n = fs.len() as int;
    let t = state_of(fs[b - 1]);
    let h2 = step(fs, h, i, b);
    match command_kind(fs[i].command@) {
        HistoryCommand::Undo => {
            match last_match(fs, h.output, t, h.output.len() as int) {
                Some(m) => {
                    lemma_last_match_range(fs, h.output, t, h.output.len() as int);
                    let removed = h.output.skip(m + 1);
                    let kept = h.output.take(m + 1);
                    assert forall|x: int| #[trigger] h.output.contains(x) <==> (kept.contains(x) || removed.contains(x)) by {
                        if h.output.contains(x) {
                            let w = choose|w: int| 0 <= w < h.output.len() && h.output[w] == x;
                            if w <= m {
                                assert(kept[w] == x);
                            } else {
                                assert(removed[w - m - 1] == x);
                            }
                        }
                        if kept.contains(x) {
                            let w = choose|w: int| 0 <= w < kept.len() && kept[w] == x;
                            assert(h.output[w] == x);
                        }
                        if removed.contains(x) {
                            let w = choose|w: int| 0 <= w < removed.len() && removed[w] == x;
                            assert(h.output[w + m + 1] == x);
                        }
                    }
                    assert forall|x: int| removed.contains(x) implies !#[trigger] kept.contains(x) by {
                        let w = choose|w: int| 0 <= w < removed.len() && removed[w] == x;
                        if kept.contains(x) {
                            let v = choose|v: int| 0 <= v < kept.len() && kept[v] == x;
                            assert(h.output[v] == h.output[w + m + 1]);
                        }
                    }
                    assert(kept.no_duplicates()) by {
                        assert forall|p: int, q: int| 0 <= p < kept.len() && 0 <= q < kept.len() && p != q implies kept[p] != kept[q] by {
                            assert(kept[p] == h.output[p] && kept[q] == h.output[q]);
                        }
                    }
                    assert(removed.no_duplicates()) by {
                        assert forall|p: int, q: int| 0 <= p < removed.len() && 0 <= q < removed.len() && p != q implies removed[p] != removed[q] by {
                            assert(removed[p] == h.output[p + m + 1] && removed[q] == h.output[q + m + 1]);
                        }
                    }
                    assert forall|k: int| 0 <= k < h2.output.len() implies 0 <= #[trigger] h2.output[k] < b by {
                        assert(h2.output[k] == h.output[k]);
                    }
                    assert forall|k: int| 0 <= k < b implies (#[trigger] h2.undone[k] <==> !h2.output.contains(k)) by {
                        if k >= i {
                            if h2.output.contains(k) {
                                let w = choose|w: int| 0 <= w < h2.output.len() && h2.output[w] == k;
                                assert(h.output[w] == k);
                            }
                        } else {
                            if removed.contains(k) {
                            } else {
                                assert(h2.undone[k] == h.undone[k]);
                            }
                        }
                    }
                    assert forall|k: int| b <= k < n implies !#[trigger] h2.undone[k] by {
                        if removed.contains(k) {
                            let w = choose|w: int| 0 <= w < removed.len() && removed[w] == k;
                            assert(h.output[w + m + 1] == k);
                        }
                    }
                    if removed.len() > 0 {
                        assert(h2.redo == h.redo.push(removed));
                        assert forall|j: int, k: int|
                            0 <= j < h2.redo.len() && 0 <= k < h2.redo[j].len() implies 0 <= #[trigger] h2.redo[j][k] < b
                            && h2.undone[h2.redo[j][k]] by {
                            if j == h.redo.len() {
                                assert(h2.redo[j][k] == h.output[k + m + 1]);
                                assert(removed.contains(removed[k]));
                            } else {
                                assert(h2.redo[j] == h.redo[j]);
                                assert(h.undone[h.redo[j][k]]);
                            }
                        }
                        assert forall|j1: int, j2: int, k1: int, k2: int|
                            0 <= j1 < j2 < h2.redo.len() && 0 <= k1 < h2.redo[j1].len() && 0 <= k2 < h2.redo[j2].len()
                            implies #[trigger] h2.redo[j1][k1] != #[trigger] h2.redo[j2][k2] by {
                            if j2 == h.redo.len() {
                                let x = h.redo[j1][k1];
                                assert(h.undone[x]);
                                assert(h2.redo[j2][k2] == removed[k2]);
                                assert(h.output.contains(removed[k2])) by {
                                    assert(h.output[k2 + m + 1] == removed[k2]);
                                }
                            } else {
                                assert(h2.redo[j1] == h.redo[j1] && h2.redo[j2] == h.redo[j2]);
                            }
                        }
                        assert forall|j: int| 0 <= j < h2.redo.len() implies (#[trigger] h2.redo[j]).no_duplicates() by {
                            if j < h.redo.len() {
                                assert(h2.redo[j] == h.redo[j]);
                            }
                        }
                    } else {
                        assert forall|j: int, k: int|
                            0 <= j < h2.redo.len() && 0 <= k < h2.redo[j].len() implies 0 <= #[trigger] h2.redo[j][k] < b
                            && h2.undone[h2.redo[j][k]] by {
                            assert(h.undone[h.redo[j][k]]);
                        }
                    }
                },
                None => {
                    lemma_span_joins(h.output, i, b);
                    assert forall|j: int, k: int|
                        0 <= j < h2.redo.len() && 0 <= k < h2.redo[j].len() implies 0 <= #[trigger] h2.redo[j][k] < b
                        && h2.undone[h2.redo[j][k]] by {
                        assert(h.undone[h.redo[j][k]]);
                    }
                },
            }
        },
        HistoryCommand::Redo => {
            if h.redo.len() > 0 {
                let j0 = h.redo.len() - 1;
                let rs = h.redo.last();
                let c = restored_count(fs, rs, t);
                lemma_first_match_range(fs, rs, t, 0);
                assert(0 <= c <= rs.len());
                let back = rs.take(c);
                assert forall|x: int| #[trigger] back.contains(x) implies rs.contains(x) && !h.output.contains(x) && 0 <= x < i by {
                    let w = choose|w: int| 0 <= w < back.len() && back[w] == x;
                    assert(rs[w] == x);
                    assert(h.redo[j0][w] == x);
                    assert(h.undone[x]);
                }
                assert(back.no_duplicates()) by {
                    assert forall|p: int, q: int| 0 <= p < back.len() && 0 <= q < back.len() && p != q implies back[p] != back[q] by {
                        assert(back[p] == rs[p] && back[q] == rs[q]);
                        assert(h.redo[j0].no_duplicates());
                    }
                }
                let o = h.output + back;
                assert forall|x: int| #[trigger] o.contains(x) <==> (h.output.contains(x) || back.contains(x)) by {
                    if o.contains(x) {
                        let w = choose|w: int| 0 <= w < o.len() && o[w] == x;
                        if w < h.output.len() {
                            assert(h.output[w] == x);
                        } else {
                            assert(back[w - h.output.len()] == x);
                        }
                    }
                    if h.output.contains(x) {
                        let w = choose|w: int| 0 <= w < h.output.len() && h.output[w] == x;
                        assert(o[w] == x);
                    }
                    if back.contains(x) {
                        let w = choose|w: int| 0 <= w < back.len() && back[w] == x;
                        assert(o[w + h.output.len()] == x);
                    }
                }
                assert(o.no_duplicates()) by {
                    assert forall|p: int, q: int| 0 <= p < o.len() && 0 <= q < o.len() && p != q implies o[p] != o[q] by {
                        if p < h.output.len() && q >= h.output.len() {
                            assert(back.contains(o[q]));
                            assert(h.output.contains(o[p]));
                        } else if q < h.output.len() && p >= h.output.len() {
                            assert(back.contains(o[p]));
                            assert(h.output.contains(o[q]));
                        }
                    }
                }
                assert forall|k: int| 0 <= k < o.len() implies 0 <= #[trigger] o[k] < b by {
                    if k >= h.output.len() {
                        assert(back.contains(o[k]));
                    }
                }
                assert forall|k: int| 0 <= k < b implies (#[trigger] h2.undone[k] <==> !h2.output.contains(k)) by {
                    if k >= i {
                        if o.contains(k) {
                            if back.contains(k) {
                            }
                        }
                    }
                }
                assert forall|j: int, k: int|
                    0 <= j < h2.redo.len() && 0 <= k < h2.redo[j].len() implies 0 <= #[trigger] h2.redo[j][k] < b
                    && h2.undone[h2.redo[j][k]] by {
                    assert(h2.redo[j] == h.redo[j]);
                    let x = h.redo[j][k];
                    assert(h.undone[x]);
                    if back.contains(x) {
                        let w = choose|w: int| 0 <= w < back.len() && back[w] == x;
                        assert(h.redo[j0][w] == x);
                    }
                }
                assert forall|j: int| 0 <= j < h2.redo.len() implies (#[trigger] h2.redo[j]).no_duplicates() by {
                    assert(h2.redo[j] == h.redo[j]);
                }
                assert forall|j1: int, j2: int, k1: int, k2: int|
                    0 <= j1 < j2 < h2.redo.len() && 0 <= k1 < h2.redo[j1].len() && 0 <= k2 < h2.redo[j2].len()
                    implies #[trigger] h2.redo[j1][k1] != #[trigger] h2.redo[j2][k2] by {
                    assert(h2.redo[j1] == h.redo[j1] && h2.redo[j2] == h.redo[j2]);
                }
            } else {
                lemma_span_joins(h.output, i, b);
            }
        },
        HistoryCommand::Reset => {},
        HistoryCommand::Plain => {
            lemma_span_joins(h.output, i, b);
        },
    }
}

proof fn lemma_first_match_range(fs: Seq<ReplayFrame>, rs: Seq<int>, t: Option<Seq<u8>>, k: int)
    requires
        0 <= k,
    ensures
        first_match(fs, rs, t, k) matches Some(p) ==> k <= p < rs.len(),
    decreases rs.len() - k,
{
    if k < rs.len() {
        lemma_first_match_range(fs, rs, t, k + 1);
    }
}

proof fn lemma_last_match_range(fs: Seq<ReplayFrame>, out: Seq<int>, t: Option<Seq<u8>>, k: int)
    requires
        0 <= k <= out.len(),
    ensures
        last_match(fs, out, t, k) matches Some(m) ==> 0 <= m < k,
    decreases k,
{
    if k > 0 {
        lemma_last_match_range(fs, out, t, k - 1);
    }
}

proof fn lemma_project_keeps_path(fs: Seq<ReplayFrame>, h: History, i: int)
    requires
        path_ok(h, i, fs.len() as int),
    ensures
        path_ok(project_from(fs, h, i), fs.len() as int, fs.len() as int),
    decreases fs.len() - i,
{
    if i < fs.len() {
        let b = group_end(fs, i, i + 1);
        lemma_group_end(fs, i, i + 1);
        lemma_step_keeps_path(fs, h, i, b);
        lemma_project_keeps_path(fs, step(fs, h, i, b), b);
    }
}

/// The view shows exactly the agent's surviving path: a frame of the page is
/// left out if and only if it is not on the path the projection ends with,
/// and that path holds each frame once.
pub proof fn law_view_shows_the_path(fs: Seq<ReplayFrame>)
    ensures
        project_from(fs, fresh(fs.len()), 0).output.no_duplicates(),
        forall|k: int|
            0 <= k < fs.len() ==> (#[trigger] undone_spec(fs)[k] <==> !project_from(fs, fresh(fs.len()), 0).output.contains(k)),
{
    lemma_project_keeps_path(fs, fresh(fs.len()), 0);
}

} // verus!
