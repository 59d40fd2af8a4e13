//! Frozen puzzle-entry states and the overworld checkpoints that follow
//! each puzzle, checked against the campaign they belong to.

use vstd::prelude::*;

use crate::sausage::campaign::{puzzle_ids_spec, Campaign};
use crate::sausage::model::GameState;
use crate::text::{
    append_count, append_debug, debug_str, nat_text, parse_u64_limited, parse_u64_spec, push_char, str_eq, to_chars,
};
use vstd::pervasive::VecAdditionalExecFns;

verus! {

/// One puzzle of the campaign: its place, its id, the state it starts
/// from and the overworld checkpoint after it.
#[derive(Clone, Debug, PartialEq, Eq)]
pub struct CampaignEntry {
    pub ordinal: usize,
    pub id: String,
    pub state: GameState,
    pub overworld: GameState,
}

/// The campaign's puzzles in order.
#[derive(Clone, Debug, PartialEq, Eq)]
pub struct CampaignEntries {
    pub levels: Vec<CampaignEntry>,
}

/// The part of a puzzle id before its first `__`; the whole id when it
/// has none.
pub open spec fn puzzle_root_spec(id: Seq<char>) -> Seq<char>
    decreases id.len(),
{
    if id.len() < 2 {
        id
    } else if id[0] == '_' && id[1] == '_' {
        Seq::empty()
    } else {
        seq![id[0]] + puzzle_root_spec(id.drop_first())
    }
}

/// The roots of the entries' ids, in entry order.
pub open spec fn level_roots(levels: Seq<CampaignEntry>) -> Seq<Seq<char>> {
    levels.map_values(|l: CampaignEntry| puzzle_root_spec(l.id@))
}

/// Every item of `a` occurs in `b`.
pub open spec fn all_in(a: Seq<Seq<char>>, b: Seq<Seq<char>>) -> bool {
    forall|i: int| 0 <= i < a.len() ==> b.contains(#[trigger] a[i])
}

/// The number of puzzles of the complete campaign.
pub open spec fn campaign_size() -> nat {
    86
}

/// The entry an ordinal or id names: a number from one to the count
/// picks by place, anything else the first entry with that id.
pub open spec fn find_index(levels: Seq<CampaignEntry>, reference: Seq<char>) -> Option<int> {
    match parse_u64_spec(reference) {
        Some(n) if 1 <= n <= levels.len() => Some(n - 1),
        _ => first_with_id(levels, reference),
    }
}

/// The index of the first entry with this id.
pub open spec fn first_with_id(levels: Seq<CampaignEntry>, id: Seq<char>) -> Option<int>
    decreases levels.len(),
{
    if levels.len() == 0 {
        None
    } else {
        match first_with_id(levels.drop_last(), id) {
            Some(i) => Some(i),
            None => if levels.last().id@ == id {
                Some(levels.len() - 1)
            } else {
                None
            },
        }
    }
}

proof fn lemma_root_step(s: Seq<char>, i: int)
    requires
        0 <= i,
        i + 1 < s.len(),
        !(s[i] == '_' && s[i + 1] == '_'),
    ensures
        puzzle_root_spec(s.skip(i)) == seq![s[i]] + puzzle_root_spec(s.skip(i + 1)),
{
    assert(s.skip(i).drop_first() =~= s.skip(i + 1));
}

/// The root of a puzzle id; see [`puzzle_root_spec`].
pub fn puzzle_root(id: &str) -> (r: &str)
    ensures
        r@ == puzzle_root_spec(id@),
{
    let chars = to_chars(id);
    let ghost s = id@;
    let mut i: usize = 0;
    assert(s.skip(0) =~= s);
    assert(s.take(0) + s.skip(0) =~= s);
    while chars.len() - i >= 2
        invariant
            s == id@,
            chars@ == s,
            i <= s.len(),
            puzzle_root_spec(s) == s.take(i as int) + puzzle_root_spec(s.skip(i as int)),
        decreases s.len() - i,
    {
        if chars[i] == '_' && chars[i + 1] == '_' {
            assert(s.skip(i as int)[0] == '_' && s.skip(i as int)[1] == '_');
            assert(puzzle_root_spec(s.skip(i as int)) == Seq::<char>::empty());
            assert(s.take(i as int) + Seq::<char>::empty() =~= s.take(i as int));
            return id.substring_char(0, i);
        }
        proof {
            lemma_root_step(s, i as int);
            assert(s.take(i as int) + seq![s[i as int]] =~= s.take(i + 1));
            assert(s.take(i as int) + (seq![s[i as int]] + puzzle_root_spec(s.skip(i + 1))) =~= s.take(i + 1)
                + puzzle_root_spec(s.skip(i + 1)));
        }
        i += 1;
    }
    assert(s.take(i as int) + s.skip(i as int) =~= s);
    id
}

pub(crate) fn contains_text(items: &Vec<&str>, item: &str) -> (r: bool)
    ensures
        r == items@.map_values(|x: &str| x@).contains(item@),
{
    let ghost views = items@.map_values(|x: &str| x@);
    let mut i: usize = 0;
    while i < items.len()
        invariant
            i <= items@.len(),
            views == items@.map_values(|x: &str| x@),
            forall|j: int| 0 <= j < i ==> views[j] != item@,
        decreases items@.len() - i,
    {
        if str_eq(items[i], item) {
            assert(views[i as int] == item@);
            return true;
        }
        i += 1;
    }
    false
}

/// The items as `Debug` writes them in a list: each quoted (see
/// [`debug_str`]), separated by a comma and a space.
pub open spec fn debug_items(items: Seq<Seq<char>>) -> Seq<char>
    decreases items.len(),
{
    if items.len() == 0 {
        Seq::empty()
    } else if items.len() == 1 {
        debug_str(items[0])
    } else {
        debug_items(items.drop_last()) + seq![',', ' '] + debug_str(items.last())
    }
}

/// A list of strings as `Debug` writes it: its items in brackets.
pub open spec fn debug_list(items: Seq<Seq<char>>) -> Seq<char> {
    seq!['['] + debug_items(items) + seq![']']
}

/// Appends the items as `Debug` writes a list of strings; see
/// [`debug_list`].
pub(crate) fn append_list(out: &mut String, items: &Vec<&str>)
    ensures
        final(out)@ == old(out)@ + debug_list(items@.map_values(|x: &str| x@)),
{
    let ghost start = out@;
    let ghost views = items@.map_values(|x: &str| x@);
    push_char(out, '[');
    let mut i: usize = 0;
    while i < items.len()
        invariant
            i <= items@.len(),
            views == items@.map_values(|x: &str| x@),
            out@ == start + seq!['['] + debug_items(views.take(i as int)),
        decreases items@.len() - i,
    {
        let ghost before = out@;
        if i > 0 {
            push_char(out, ',');
            push_char(out, ' ');
        }
        append_debug(out, to_chars(items[i]).as_slice());
        proof {
            let t = views.take(i + 1);
            assert(t.drop_last() =~= views.take(i as int));
            assert(t.last() == views[i as int]);
            if i == 0 {
                assert(views.take(0) =~= Seq::<Seq<char>>::empty());
                assert(out@ =~= start + seq!['['] + debug_items(t));
            } else {
                assert(out@ =~= start + seq!['['] + debug_items(t));
            }
        }
        i += 1;
    }
    assert(views.take(i as int) =~= views);
    push_char(out, ']');
    assert(out@ =~= start + debug_list(views));
}

/// The items of `a` that `b` lacks, each once, in the order of `a`.
pub(crate) fn missing_from<'b>(a: &Vec<&'b str>, b: &Vec<&str>) -> (r: Vec<&'b str>)
    ensures
        b@.map_values(|x: &str| x@).to_set() == a@.map_values(|x: &str| x@).to_set().union(b@.map_values(|x: &str| x@).to_set())
            <==> r@.len() == 0,
{
    let ghost av = a@.map_values(|x: &str| x@);
    let ghost bv = b@.map_values(|x: &str| x@);
    let mut out: Vec<&'b str> = Vec::new();
    let mut i: usize = 0;
    while i < a.len()
        invariant
            i <= a@.len(),
            av == a@.map_values(|x: &str| x@),
            bv == b@.map_values(|x: &str| x@),
            out@.len() == 0 <==> all_in(av.take(i as int), bv),
        decreases a@.len() - i,
    {
        let present = contains_text(b, a[i]);
        proof {
            let t = av.take(i + 1);
            assert(t[i as int] == av[i as int]);
            assert forall|j: int| 0 <= j < i implies t[j] == av.take(i as int)[j] by {}
        }
        if !present && !contains_text(&out, a[i]) {
            out.push(a[i]);
        }
        i += 1;
    }
    proof {
        assert(av.take(i as int) =~= av);
        if out@.len() == 0 {
            assert(bv.to_set() =~= av.to_set().union(bv.to_set())) by {
                assert forall|x: Seq<char>| av.to_set().contains(x) implies bv.to_set().contains(x) by {
                    let j = choose|j: int| 0 <= j < av.len() && av[j] == x;
                    assert(bv.contains(av[j]));
                }
            }
        } else {
            let j = choose|j: int| 0 <= j < av.len() && !bv.contains(#[trigger] av[j]);
            assert(av.to_set().union(bv.to_set()).contains(av[j]));
            assert(!bv.to_set().contains(av[j]));
        }
    }
    out
}

proof fn lemma_first_with_id(levels: Seq<CampaignEntry>, id: Seq<char>, k: int)
    requires
        0 <= k <= levels.len(),
        forall|j: int| 0 <= j < k ==> levels[j].id@ != id,
    ensures
        first_with_id(levels.take(k), id) is None,
    decreases k,
{
    if k > 0 {
        assert(levels.take(k).drop_last() =~= levels.take(k - 1));
        lemma_first_with_id(levels, id, k - 1);
    }
}

proof fn lemma_first_with_id_extends(levels: Seq<CampaignEntry>, id: Seq<char>, k: int)
    requires
        0 <= k <= levels.len(),
        first_with_id(levels.take(k), id) is Some,
    ensures
        first_with_id(levels, id) == first_with_id(levels.take(k), id),
    decreases levels.len() - k,
{
    if k < levels.len() {
        assert(levels.take(k + 1).drop_last() =~= levels.take(k));
        lemma_first_with_id_extends(levels, id, k + 1);
    } else {
        assert(levels.take(k) =~= levels);
    }
}

impl CampaignEntries {
    /// The entry a reference names; see [`find_index`].
    pub fn find(&self, reference: &str) -> (r: Option<&CampaignEntry>)
        ensures
            match r {
                Some(e) => find_index(self.levels@, reference@) matches Some(i) && 0 <= i < self.levels@.len()
                    && *e == self.levels@[i],
                None => find_index(self.levels@, reference@) is None,
            },
    {
        let cs = to_chars(reference);
        match parse_u64_limited(cs.as_slice(), self.levels.len() as u64) {
            Some(n) => {
                if 1 <= n {
                    return Some(&self.levels[(n - 1) as usize]);
                }
            },
            None => {},
        }
        let mut i: usize = 0;
        while i < self.levels.len()
            invariant
                i <= self.levels@.len(),
                find_index(self.levels@, reference@) == first_with_id(self.levels@, reference@),
                forall|j: int| 0 <= j < i ==> self.levels@[j].id@ != reference@,
            decreases self.levels@.len() - i,
        {
            if str_eq(self.levels[i].id.as_str(), reference) {
                proof {
                    lemma_first_with_id(self.levels@, reference@, i as int);
                    assert(self.levels@.take(i + 1).drop_last() =~= self.levels@.take(i as int));
                    lemma_first_with_id_extends(self.levels@, reference@, i + 1);
                }
                return Some(&self.levels[i]);
            }
            i += 1;
        }
        proof {
            lemma_first_with_id(self.levels@, reference@, i as int);
            assert(self.levels@.take(i as int) =~= self.levels@);
        }
        None
    }

    /// Checks that the entries cover the complete campaign: one entry per
    /// puzzle, and the roots of their ids are exactly the campaign's
    /// puzzle ids.
    pub fn validate_against(&self, campaign: &Campaign) -> (r: Result<(), String>)
        ensures
            self.levels@.len() != campaign_size() ==> r is Err && r->Err_0@
                == "complete campaign requires 86 entry states, found "@ + nat_text(self.levels@.len()),
            self.levels@.len() == campaign_size() ==> (r is Ok <==> level_roots(self.levels@).to_set()
                == puzzle_ids_spec(campaign.view().temples).to_set()),
            self.levels@.len() == campaign_size() && r is Err ==> r->Err_0@.take(33)
                == "campaign entry mismatch; missing="@,
    {
        if self.levels.len() != 86 {
            let mut message = String::from_str("complete campaign requires 86 entry states, found ");
            append_count(&mut message, self.levels.len());
            return Err(message);
        }
        let expected = campaign.puzzle_ids();
        let mut actual: Vec<&str> = Vec::new();
        let mut i: usize = 0;
        while i < self.levels.len()
            invariant
                i <= self.levels@.len(),
                actual@.map_values(|x: &str| x@) == level_roots(self.levels@).take(i as int),
            decreases self.levels@.len() - i,
        {
            let root = puzzle_root(self.levels[i].id.as_str());
            let ghost before = actual@;
            actual.push(root);
            assert(actual@ == before.push(root));
            assert(actual@.map_values(|x: &str| x@) =~= before.map_values(|x: &str| x@).push(root@));
            assert(level_roots(self.levels@).take(i + 1) =~= level_roots(self.levels@).take(i as int).push(
                puzzle_root_spec(self.levels@[i as int].id@),
            ));
            i += 1;
        }
        assert(level_roots(self.levels@).take(i as int) =~= level_roots(self.levels@));
        let missing = missing_from(&expected, &actual);
        let extra = missing_from(&actual, &expected);
        let ghost ev = expected@.map_values(|x: &str| x@).to_set();
        let ghost av = actual@.map_values(|x: &str| x@).to_set();
        if missing.len() == 0 && extra.len() == 0 {
            assert(av =~= ev) by {
                assert forall|x: Seq<char>| av.contains(x) <==> ev.contains(x) by {
                    assert(av.contains(x) ==> av.union(ev).contains(x));
                    assert(ev.contains(x) ==> ev.union(av).contains(x));
                }
            }
            return Ok(());
        }
        proof {
            if av == ev {
                assert(av =~= ev.union(av));
                assert(ev =~= av.union(ev));
            }
        }
        let mut message = String::from_str("campaign entry mismatch; missing=");
        proof {
            reveal_strlit("campaign entry mismatch; missing=");
        }
        let ghost head = message@;
        append_list(&mut message, &missing);
        let ghost m1 = message@;
        message.append(", extra=");
        let ghost m2 = message@;
        append_list(&mut message, &extra);
        proof {
            assert(m1.take(33) =~= head);
            assert(m2.take(33) =~= m1.take(33));
            assert(message@.take(33) =~= m2.take(m2.len() as int).take(33));
        }
        Err(message)
    }
}

/// What the name of a state file says: nothing for the metadata files
/// other archivers add (`._` first); else `<ordinal>-<id>.state`, or why
/// the name is refused.
pub open spec fn state_file_spec(label: Seq<char>, name: Seq<char>) -> Result<Option<(usize, Seq<char>)>, Seq<char>> {
    if name.len() >= 2 && name[0] == '.' && name[1] == '_' {
        Ok(None)
    } else if name.len() < 6 || name.skip(name.len() - 6) != ".state"@ {
        Err("unexpected "@ + label + " file "@ + crate::text::debug_str(name))
    } else {
        let stem = name.take(name.len() - 6);
        match crate::text::split_once_spec(stem, '-') {
            None => Err(label + " filename has no ordinal: "@ + crate::text::debug_str(name)),
            Some((ordinal, id)) => match crate::sausage::oracle::usize_of(ordinal) {
                None => Err(
                    "invalid "@ + label + " ordinal in "@ + crate::text::debug_str(name) + ": "@
                        + crate::text::int_error_spec(ordinal, false, 0, usize::MAX as int),
                ),
                Some(n) => Ok(Some((n, id))),
            },
        }
    }
}

/// See [`state_file_spec`].
pub fn state_file_name(label: &str, file_name: &str) -> (r: Result<Option<(usize, String)>, String>)
    ensures
        match state_file_spec(label@, file_name@) {
            Ok(None) => r == Ok::<Option<(usize, String)>, String>(None),
            Ok(Some((n, id))) => r is Ok && (r->Ok_0 matches Some(p) && p.0 == n && p.1@ == id),
            Err(m) => r is Err && r->Err_0@ == m,
        },
{
    let name = to_chars(file_name);
    if name.len() >= 2 && name[0] == '.' && name[1] == '_' {
        return Ok(None);
    }
    let suffix = to_chars(".state");
    proof {
        reveal_strlit(".state");
    }
    let mut suffixed = name.len() >= 6;
    if suffixed {
        let start = name.len() - 6;
        let mut k: usize = 0;
        while k < 6
            invariant
                suffix@ == ".state"@,
                suffix@.len() == 6,
                name@ == file_name@,
                start == name.len() - 6,
                name.len() == name@.len(),
                name@.len() >= 6,
                k <= 6,
                suffixed == forall|j: int| 0 <= j < k ==> name@[start + j] == suffix@[j],
            decreases 6 - k,
        {
            if name[start + k] != suffix[k] {
                suffixed = false;
            }
            k += 1;
        }
        proof {
            if suffixed {
                assert(name@.skip(start as int) =~= ".state"@);
            } else {
                let j = choose|j: int| 0 <= j < 6 && name@[start + j] != suffix@[j];
                assert(name@.skip(start as int)[j] != ".state"@[j]);
            }
        }
    }
    if !suffixed {
        let mut message = String::from_str("unexpected ");
        message.append(label);
        message.append(" file ");
        crate::text::append_debug(&mut message, name.as_slice());
        return Err(message);
    }
    let mut stem: Vec<char> = Vec::new();
    let mut i: usize = 0;
    while i < name.len() - 6
        invariant
            name@.len() >= 6,
            i <= name@.len() - 6,
            stem@ == name@.take(i as int),
        decreases name@.len() - 6 - i,
    {
        stem.push(name[i]);
        assert(stem@ =~= name@.take(i + 1));
        i += 1;
    }
    let (ordinal, id) = match crate::text::split_once_chars(stem.as_slice(), '-') {
        Some(parts) => parts,
        None => {
            let mut message = String::from_str(label);
            message.append(" filename has no ordinal: ");
            crate::text::append_debug(&mut message, name.as_slice());
            return Err(message);
        },
    };
    match parse_u64_limited(ordinal.as_slice(), usize::MAX as u64) {
        Some(n) => Ok(Some((n as usize, crate::text::string_from_chars(id.as_slice())))),
        None => {
            let mut message = String::from_str("invalid ");
            message.append(label);
            message.append(" ordinal in ");
            crate::text::append_debug(&mut message, name.as_slice());
            message.append(": ");
            message.append(crate::text::int_error_text(ordinal.as_slice(), false, 0, usize::MAX as u64));
            Err(message)
        },
    }
}

/// A state read from an archive: its ordinal, its puzzle id and the state.
pub type NumberedState = (usize, String, GameState);

/// The ordinals ascend strictly, as a map keyed by ordinal lists them.
pub open spec fn ordinals_ascend(v: Seq<NumberedState>) -> bool {
    forall|i: int, j: int| 0 <= i < j < v.len() ==> v[i].0 < v[j].0
}

/// The index of the state with this ordinal.
pub open spec fn ordinal_index(v: Seq<NumberedState>, n: usize) -> Option<int>
    decreases v.len(),
{
    if v.len() == 0 {
        None
    } else {
        match ordinal_index(v.drop_last(), n) {
            Some(i) => Some(i),
            None => if v.last().0 == n {
                Some(v.len() - 1)
            } else {
                None
            },
        }
    }
}

/// What is wrong with entry `k`: it targets another puzzle or the
/// overworld, its overworld checkpoint is missing, or the checkpoint is no
/// overworld state of the same puzzle.
pub open spec fn entry_problem(es: Seq<NumberedState>, os: Seq<NumberedState>, k: int) -> Option<Seq<char>> {
    let (n, id, state) = es[k];
    if state.overworld || state.push_target_level@ != id@ {
        Some(
            "campaign entry "@ + nat_text(n as nat) + " targets "@ + crate::text::debug_str(state.push_target_level@)
                + " instead of "@ + crate::text::debug_str(id@),
        )
    } else {
        match ordinal_index(os, n) {
            None => Some("overworld checkpoint is missing ordinal "@ + nat_text(n as nat) + " "@ + crate::text::debug_str(id@)),
            Some(j) => if !os[j].2.overworld || os[j].1@ != id@ {
                Some(
                    "overworld checkpoint "@ + nat_text(n as nat) + " "@ + crate::text::debug_str(os[j].1@)
                        + " does not match "@ + crate::text::debug_str(id@),
                )
            } else {
                None
            },
        }
    }
}

/// The first problem among the first `k` entries.
pub open spec fn first_problem(es: Seq<NumberedState>, os: Seq<NumberedState>, k: int) -> Option<Seq<char>>
    decreases k,
{
    if k <= 0 {
        None
    } else {
        match first_problem(es, os, k - 1) {
            Some(m) => Some(m),
            None => entry_problem(es, os, k - 1),
        }
    }
}

/// The index of the first entry whose ordinal is not its place.
pub open spec fn first_misplaced(es: Seq<NumberedState>, k: int) -> Option<int>
    decreases k,
{
    if k <= 0 {
        None
    } else {
        match first_misplaced(es, k - 1) {
            Some(i) => Some(i),
            None => if es[k - 1].0 != k {
                Some(k - 1)
            } else {
                None
            },
        }
    }
}

/// Some overworld checkpoint belongs to no entry.
pub open spec fn has_extra(es: Seq<NumberedState>, os: Seq<NumberedState>) -> bool {
    exists|j: int| 0 <= j < os.len() && ordinal_index(es, (#[trigger] os[j]).0) is None
}

proof fn lemma_ordinal_index(v: Seq<NumberedState>, n: usize, k: int)
    requires
        0 <= k <= v.len(),
        forall|j: int| 0 <= j < k ==> v[j].0 != n,
    ensures
        ordinal_index(v.take(k), n) is None,
    decreases k,
{
    if k > 0 {
        assert(v.take(k).drop_last() =~= v.take(k - 1));
        lemma_ordinal_index(v, n, k - 1);
    }
}

proof fn lemma_ordinal_index_found(v: Seq<NumberedState>, n: usize, j: int)
    requires
        0 <= j < v.len(),
        v[j].0 == n,
        forall|i: int| 0 <= i < j ==> v[i].0 != n,
    ensures
        ordinal_index(v, n) == Some(j),
    decreases v.len(),
{
    if j < v.len() - 1 {
        lemma_ordinal_index_found(v.drop_last(), n, j);
    } else {
        lemma_ordinal_index(v, n, j);
        assert(v.take(j) =~= v.drop_last());
    }
}

proof fn lemma_ordinal_index_spec(v: Seq<NumberedState>, n: usize)
    ensures
        match ordinal_index(v, n) {
            Some(j) => 0 <= j < v.len() && v[j].0 == n,
            None => forall|j: int| 0 <= j < v.len() ==> v[j].0 != n,
        },
    decreases v.len(),
{
    if v.len() > 0 {
        let d = v.drop_last();
        lemma_ordinal_index_spec(d, n);
        match ordinal_index(d, n) {
            Some(i) => {
                assert(d[i] == v[i]);
            },
            None => {
                assert forall|j: int| 0 <= j < v.len() - 1 implies v[j].0 != n by {
                    assert(d[j] == v[j]);
                }
            },
        }
    }
}

proof fn lemma_problem_persists(es: Seq<NumberedState>, os: Seq<NumberedState>, k: int, n: int)
    requires
        0 <= k <= n,
        first_problem(es, os, k) is Some,
    ensures
        first_problem(es, os, n) == first_problem(es, os, k),
    decreases n - k,
{
    if k < n {
        lemma_problem_persists(es, os, k, n - 1);
    }
}

proof fn lemma_misplaced_persists(es: Seq<NumberedState>, k: int, n: int)
    requires
        0 <= k <= n,
        first_misplaced(es, k) is Some,
    ensures
        first_misplaced(es, n) == first_misplaced(es, k),
    decreases n - k,
{
    if k < n {
        lemma_misplaced_persists(es, k, n - 1);
    }
}

/// An empty puzzle state: no entities, no progress, nothing named.
fn placeholder_state() -> (r: GameState)
    ensures
        !r.overworld,
        r.push_target_level@.len() == 0,
        r.entities@.len() == 0,
        r.level_completed@.len() == 0,
        r.world_sausages_issued@.len() == 0,
        r.tile_set == 0,
        r.display_name@.len() == 0,
        r.sausages_cooked == 0,
        r.music_seed == 0,
{
    GameState {
        overworld: false,
        push_target_level: String::new(),
        entities: Vec::new(),
        level_completed: Vec::new(),
        world_sausages_issued: Vec::new(),
        tile_set: 0,
        display_name: String::new(),
        sausages_cooked: 0,
        music_seed: 0,
    }
}

fn find_ordinal(v: &Vec<NumberedState>, n: usize) -> (r: Option<usize>)
    ensures
        match r {
            Some(j) => ordinal_index(v@, n) == Some(j as int),
            None => ordinal_index(v@, n) is None,
        },
{
    let mut j: usize = 0;
    while j < v.len()
        invariant
            j <= v@.len(),
            forall|i: int| 0 <= i < j ==> v@[i].0 != n,
        decreases v@.len() - j,
    {
        if v[j].0 == n {
            proof {
                lemma_ordinal_index_found(v@, n, j as int);
            }
            return Some(j);
        }
        j += 1;
    }
    proof {
        lemma_ordinal_index(v@, n, j as int);
        assert(v@.take(j as int) =~= v@);
    }
    None
}

/// The entries that pairing the entry states `es` with the overworld
/// checkpoints `os` gives, or the first mismatch; see
/// [`CampaignEntries::from_states`].
pub open spec fn entries_built(es: Seq<NumberedState>, os: Seq<NumberedState>, r: Result<CampaignEntries, String>) -> bool {
    match first_problem(es, os, es.len() as int) {
        Some(m) => r is Err && r->Err_0@ == m,
        None => if has_extra(es, os) {
            r is Err && r->Err_0@ == "overworld checkpoint archive has extra entries"@
        } else {
            match first_misplaced(es, es.len() as int) {
                Some(k) => r is Err && r->Err_0@ == "expected campaign-entry ordinal "@ + nat_text((k + 1) as nat)
                    + ", found "@ + nat_text(es[k].0 as nat),
                None => r is Ok && {
                    let levels = r->Ok_0.levels@;
                    &&& levels.len() == es.len()
                    &&& forall|k: int| 0 <= k < levels.len() ==> {
                        let e = #[trigger] levels[k];
                        let j = ordinal_index(os, es[k].0)->0;
                        &&& e.ordinal == es[k].0
                        &&& e.id == es[k].1
                        &&& e.state == es[k].2
                        &&& e.overworld == os[j].2
                    }
                },
            }
        },
    }
}

impl CampaignEntries {
    /// The entries of a campaign from its entry states and its overworld
    /// checkpoints, each listed by ascending ordinal: every entry must
    /// target its own puzzle and have an overworld checkpoint of the same
    /// puzzle, no checkpoint may be left over, and the ordinals must run
    /// from one.
    pub fn from_states(entry_states: Vec<NumberedState>, overworld_states: Vec<NumberedState>) -> (r: Result<CampaignEntries, String>)
        requires
            ordinals_ascend(entry_states@),
            ordinals_ascend(overworld_states@),
        ensures
            entries_built(entry_states@, overworld_states@, r),
    {
        let ghost es = entry_states@;
        let ghost os = overworld_states@;
        let mut entries = entry_states;
        let mut checkpoints = overworld_states;
        let mut matched: Vec<bool> = Vec::new();
        let mut m: usize = 0;
        while m < checkpoints.len()
            invariant
                m <= checkpoints@.len(),
                matched@.len() == m,
                forall|j: int| 0 <= j < m ==> !matched@[j],
            decreases checkpoints@.len() - m,
        {
            matched.push(false);
            m += 1;
        }
        let mut levels: Vec<CampaignEntry> = Vec::new();
        let mut i: usize = 0;
        while i < entries.len()
            invariant
                es == entry_states@,
                os == overworld_states@,
                entries@.len() == es.len(),
                checkpoints@.len() == os.len(),
                matched@.len() == os.len(),
                ordinals_ascend(es),
                ordinals_ascend(os),
                i <= es.len(),
                forall|k: int| 0 <= k < es.len() ==> (#[trigger] entries@[k]).0 == es[k].0,
                forall|k: int| i <= k < es.len() ==> #[trigger] entries@[k] == es[k],
                forall|j: int| 0 <= j < os.len() ==> (#[trigger] checkpoints@[j]).0 == os[j].0,
                forall|j: int| 0 <= j < os.len() && !matched@[j] ==> #[trigger] checkpoints@[j] == os[j],
                forall|j: int| 0 <= j < os.len() ==> (#[trigger] matched@[j] <==> exists|k: int| 0 <= k < i && es[k].0 == os[j].0),
                first_problem(es, os, i as int) is None,
                levels@.len() == i,
                forall|k: int| 0 <= k < i ==> ordinal_index(os, (#[trigger] levels@[k]).ordinal) is Some,
                forall|k: int| 0 <= k < i ==> (#[trigger] levels@[k]).ordinal == es[k].0,
                forall|k: int| 0 <= k < i ==> (#[trigger] levels@[k]).id == es[k].1,
                forall|k: int| 0 <= k < i ==> (#[trigger] levels@[k]).state == es[k].2,
                forall|k: int| 0 <= k < i ==> (#[trigger] levels@[k]).overworld == os[ordinal_index(os, es[k].0)->0].2,
            decreases es.len() - i,
        {
            let n = entries[i].0;
            let target_ok = !entries[i].2.overworld && str_eq(entries[i].2.push_target_level.as_str(), entries[i].1.as_str());
            if !target_ok {
                proof {
                    lemma_problem_persists(es, os, i + 1, es.len() as int);
                }
                let mut message = String::from_str("campaign entry ");
                append_count(&mut message, n);
                message.append(" targets ");
                let target = to_chars(entries[i].2.push_target_level.as_str());
                crate::text::append_debug(&mut message, target.as_slice());
                message.append(" instead of ");
                let id = to_chars(entries[i].1.as_str());
                crate::text::append_debug(&mut message, id.as_slice());
                return Err(message);
            }
            let j = match find_ordinal(&checkpoints, n) {
                Some(j) => j,
                None => {
                    proof {
                        assert forall|k: int| 0 <= k < os.len() implies os[k].0 != n by {
                            lemma_ordinal_index_spec(checkpoints@, n);
                            assert(checkpoints@[k].0 == os[k].0);
                        }
                        lemma_ordinal_index(os, n, os.len() as int);
                        assert(os.take(os.len() as int) =~= os);
                        lemma_problem_persists(es, os, i + 1, es.len() as int);
                    }
                    let mut message = String::from_str("overworld checkpoint is missing ordinal ");
                    append_count(&mut message, n);
                    message.append(" ");
                    let id = to_chars(entries[i].1.as_str());
                    crate::text::append_debug(&mut message, id.as_slice());
                    return Err(message);
                },
            };
            proof {
                lemma_ordinal_index_spec(checkpoints@, n);
                assert forall|k: int| 0 <= k < j implies os[k].0 != n by {
                    assert(checkpoints@[k].0 == os[k].0);
                }
                lemma_ordinal_index_found(os, n, j as int);
                if matched@[j as int] {
                    let k = choose|k: int| 0 <= k < i && es[k].0 == os[j as int].0;
                    assert(es[k].0 < es[i as int].0);
                }
                assert(checkpoints@[j as int] == os[j as int]);
            }
            let checkpoint_ok = checkpoints[j].2.overworld && str_eq(checkpoints[j].1.as_str(), entries[i].1.as_str());
            if !checkpoint_ok {
                proof {
                    lemma_problem_persists(es, os, i + 1, es.len() as int);
                }
                let mut message = String::from_str("overworld checkpoint ");
                append_count(&mut message, n);
                message.append(" ");
                let other = to_chars(checkpoints[j].1.as_str());
                crate::text::append_debug(&mut message, other.as_slice());
                message.append(" does not match ");
                let id = to_chars(entries[i].1.as_str());
                crate::text::append_debug(&mut message, id.as_slice());
                return Err(message);
            }
            let mut taken_entry: NumberedState = (n, String::new(), placeholder_state());
            entries.set_and_swap(i, &mut taken_entry);
            let mut taken_checkpoint: NumberedState = (n, String::new(), placeholder_state());
            checkpoints.set_and_swap(j, &mut taken_checkpoint);
            matched.set(j, true);
            assert(taken_entry == es[i as int]);
            assert(taken_checkpoint == os[j as int]);
            let (_, id, state) = taken_entry;
            let (_, _, overworld) = taken_checkpoint;
            let ghost before = levels@;
            levels.push(CampaignEntry { ordinal: n, id, state, overworld });
            assert(levels@[i as int].state == es[i as int].2);
            assert(levels@[i as int].overworld == os[j as int].2);
            assert(ordinal_index(os, es[i as int].0) == Some(j as int));

            proof {
                assert forall|q: int| 0 <= q < os.len() implies (#[trigger] matched@[q] <==> exists|k: int|
                    0 <= k < i + 1 && es[k].0 == os[q].0) by {
                    if q == j {
                        assert(es[i as int].0 == os[q].0);
                    } else {
                        assert(os[q].0 != n);
                        if exists|k: int| 0 <= k < i + 1 && es[k].0 == os[q].0 {
                            let k = choose|k: int| 0 <= k < i + 1 && es[k].0 == os[q].0;
                            assert(k != i);
                        }
                    }
                }
            }
            i += 1;
        }
        let mut q: usize = 0;
        while q < matched.len()
            invariant
                es == entry_states@,
                os == overworld_states@,
                first_problem(es, os, es.len() as int) is None,
                q <= matched@.len(),
                matched@.len() == os.len(),
                i == es.len(),
                forall|j: int| 0 <= j < os.len() ==> (#[trigger] matched@[j] <==> exists|k: int| 0 <= k < i && es[k].0 == os[j].0),
                forall|j: int| 0 <= j < q ==> matched@[j],
            decreases matched@.len() - q,
        {
            if !matched[q] {
                proof {
                    lemma_ordinal_index_spec(es, os[q as int].0);
                    if ordinal_index(es, os[q as int].0) is Some {
                        let k = ordinal_index(es, os[q as int].0)->0;
                        assert(es[k].0 == os[q as int].0);
                    }
                    assert(ordinal_index(es, os[q as int].0) is None);
                }
                return Err(String::from_str("overworld checkpoint archive has extra entries"));
            }
            q += 1;
        }
        proof {
            assert forall|j: int| 0 <= j < os.len() implies ordinal_index(es, (#[trigger] os[j]).0) is Some by {
                assert(matched@[j]);
                let k = choose|k: int| 0 <= k < i && es[k].0 == os[j].0;
                lemma_ordinal_index_spec(es, os[j].0);
            }
        }
        let mut p: usize = 0;
        while p < levels.len()
            invariant
                es == entry_states@,
                os == overworld_states@,
                first_problem(es, os, es.len() as int) is None,
                !has_extra(es, os),
                p <= levels@.len(),
                levels@.len() == es.len(),
                forall|k: int| 0 <= k < es.len() ==> (#[trigger] levels@[k]).ordinal == es[k].0,
                first_misplaced(es, p as int) is None,
            decreases levels@.len() - p,
        {
            if levels[p].ordinal != p + 1 {
                proof {
                    lemma_misplaced_persists(es, p + 1, es.len() as int);
                }
                let mut message = String::from_str("expected campaign-entry ordinal ");
                append_count(&mut message, p + 1);
                message.append(", found ");
                append_count(&mut message, levels[p].ordinal);
                return Err(message);
            }
            p += 1;
        }
        Ok(CampaignEntries { levels })
    }
}

} // verus!
