//! Recently used projects: newest first, each once, at most ten, kept as a JSON
//! list of paths.

use vstd::prelude::*;

use crate::paths::{
    decided, file_stem, lemma_decided, may_be_same, may_be_stem, opt_text, same_path, tells_same,
};
use crate::text::texts;

verus! {

/// Most paths kept in the list.
pub const MAX_ENTRIES: usize = 10;

// --- the file -------------------------------------------------------------

/// Error of the JSON reader and writer.
#[verifier::external_type_specification]
#[verifier::external_body]
pub struct ExJsonError(serde_json::Error);

/// The list of strings that `serde_json::from_str` reads from a text, if it reads
/// one.
pub uninterp spec fn list_in_json(json: Seq<char>) -> Option<Seq<Seq<char>>>;

/// The text that `serde_json::to_string_pretty` writes for a list of strings.
pub uninterp spec fn json_of_list(entries: Seq<Seq<char>>) -> Seq<char>;

/// `serde_json::from_str` for a list of strings: it reads the list that the text
/// holds, or fails when the text is not a JSON array of strings.
#[verifier::external_body]
fn read_json_list(json: &str) -> (r: Result<Vec<String>, serde_json::Error>)
    ensures
        match r {
            Ok(entries) => list_in_json(json@) == Some(texts(entries@)),
            Err(_) => list_in_json(json@) is None,
        },
{
    serde_json::from_str::<Vec<String>>(json)
}

/// `serde_json::to_string_pretty` for a list of strings: a list of strings always
/// serializes, and the text reads back as the list.
#[verifier::external_body]
fn write_json_list(entries: &Vec<String>) -> (r: Result<String, serde_json::Error>)
    ensures
        r is Ok,
        r->Ok_0@ == json_of_list(texts(entries@)),
        list_in_json(r->Ok_0@) == Some(texts(entries@)),
{
    serde_json::to_string_pretty(entries)
}

/// The list that a text holds; none when it cannot be read.
pub open spec fn recents_in(json: Seq<char>) -> Seq<Seq<char>> {
    match list_in_json(json) {
        Some(entries) => entries,
        None => Seq::empty(),
    }
}

/// Read the list; a text that cannot be read is an empty list.
pub fn parse_recents(json: &str) -> (r: Vec<String>)
    ensures
        texts(r@) == recents_in(json@),
{
    match read_json_list(json) {
        Ok(entries) => entries,
        Err(_) => {
            let none: Vec<String> = Vec::new();
            assert(texts(none@) =~= Seq::<Seq<char>>::empty());
            none
        },
    }
}

/// Write the list; reading it gives the list back.
pub fn recents_to_json(entries: &Vec<String>) -> (r: String)
    ensures
        r@ == json_of_list(texts(entries@)),
        recents_in(r@) == texts(entries@),
{
    match write_json_list(entries) {
        Ok(json) => json,
        Err(_) => String::new(),
    }
}

// --- the list -------------------------------------------------------------

/// The entries that `keep` marks, in order.
pub open spec fn marked(entries: Seq<Seq<char>>, keep: Seq<bool>) -> Seq<Seq<char>>
    decreases entries.len(),
{
    if entries.len() == 0 {
        Seq::empty()
    } else {
        let before = marked(entries.drop_last(), keep);
        if keep[entries.len() - 1] {
            before.push(entries.last())
        } else {
            before
        }
    }
}

/// The marked entries stay, in their order, each as often as it is marked, and no other.
pub proof fn law_marked_entries_stay(entries: Seq<Seq<char>>, keep: Seq<bool>) -> (at: Seq<int>)
    ensures
        at.len() == marked(entries, keep).len(),
        forall|k: int|
            #![trigger at[k]]
            0 <= k < at.len() ==> 0 <= at[k] < entries.len() && keep[at[k]] && marked(entries, keep)[k]
                == entries[at[k]],
        forall|j: int, k: int|
            #![trigger at[j], at[k]]
            0 <= j < k < at.len() ==> at[j] < at[k],
        forall|i: int| 0 <= i < entries.len() && keep[i] ==> #[trigger] at.contains(i),
    decreases entries.len(),
{
    if entries.len() == 0 {
        Seq::empty()
    } else {
        let init = entries.drop_last();
        let before = law_marked_entries_stay(init, keep);
        let n = entries.len() - 1;
        if keep[n] {
            let at = before.push(n);
            assert forall|k: int|
                #![trigger at[k]]
                0 <= k < at.len() implies 0 <= at[k] < entries.len() && keep[at[k]] && marked(
                entries,
                keep,
            )[k] == entries[at[k]] by {
                if k < before.len() {
                    assert(before[k] == at[k]);
                    assert(init[before[k]] == entries[before[k]]);
                }
            }
            assert forall|j: int, k: int|
                #![trigger at[j], at[k]]
                0 <= j < k < at.len() implies at[j] < at[k] by {
                assert(before[j] == at[j]);
                if k < before.len() {
                    assert(before[k] == at[k]);
                }
            }
            assert forall|i: int| 0 <= i < entries.len() && keep[i] implies #[trigger] at.contains(
                i,
            ) by {
                if i < n {
                    assert(before.contains(i));
                    let k = choose|k: int| 0 <= k < before.len() && before[k] == i;
                    assert(at[k] == i);
                } else {
                    assert(at[before.len() as int] == i);
                }
            }
            at
        } else {
            assert forall|k: int|
                #![trigger before[k]]
                0 <= k < before.len() implies 0 <= before[k] < entries.len() && keep[before[k]]
                && marked(entries, keep)[k] == entries[before[k]] by {
                assert(init[before[k]] == entries[before[k]]);
            }
            before
        }
    }
}

/// At most the first [`MAX_ENTRIES`].
pub open spec fn capped(entries: Seq<Seq<char>>) -> Seq<Seq<char>> {
    if entries.len() > MAX_ENTRIES {
        entries.take(MAX_ENTRIES as int)
    } else {
        entries
    }
}

/// A capped list is the list up to ten entries long, and else its first ten.
pub proof fn law_capped_list_keeps_the_first(entries: Seq<Seq<char>>)
    ensures
        entries.len() <= 10 ==> capped(entries) == entries,
        entries.len() > 10 ==> capped(entries).len() == 10,
        forall|k: int|
            0 <= k < capped(entries).len() ==> #[trigger] capped(entries)[k] == entries[k],
{
}

fn keep_marked(entries: &Vec<String>, keep: &Vec<bool>) -> (r: Vec<String>)
    requires
        keep.len() == entries.len(),
    ensures
        texts(r@) == marked(texts(entries@), keep@),
{
    let ghost all = texts(entries@);
    let mut out: Vec<String> = Vec::new();
    let mut i: usize = 0;
    assert(texts(out@) =~= Seq::<Seq<char>>::empty());
    while i < entries.len()
        invariant
            i <= entries.len(),
            keep.len() == entries.len(),
            all == texts(entries@),
            texts(out@) == marked(all.take(i as int), keep@),
        decreases entries.len() - i,
    {
        let ghost was = texts(out@);
        assert(all.take(i as int + 1).drop_last() =~= all.take(i as int));
        if keep[i] {
            out.push(entries[i].clone());
            assert(texts(out@) =~= was.push(entries@[i as int]@));
        }
        i += 1;
    }
    assert(all.take(i as int) =~= all);
    out
}

fn cap(entries: &mut Vec<String>)
    ensures
        texts(final(entries)@) == capped(texts(old(entries)@)),
{
    let ghost was = texts(entries@);
    if entries.len() > MAX_ENTRIES {
        entries.truncate(MAX_ENTRIES);
        assert(texts(entries@) =~= was.take(MAX_ENTRIES as int));
    }
}

/// The entries whose files exist, `exists[i]` saying so of entry `i`; at most
/// [`MAX_ENTRIES`].
pub fn prune_recents(entries: &Vec<String>, exists: &Vec<bool>) -> (r: Vec<String>)
    requires
        exists.len() == entries.len(),
    ensures
        texts(r@) == capped(marked(texts(entries@), exists@)),
{
    let mut out = keep_marked(entries, exists);
    cap(&mut out);
    out
}

/// Other paths than the noted one.
pub open spec fn flipped(same: Seq<bool>) -> Seq<bool> {
    same.map_values(|b: bool| !b)
}

/// The list after `project` was noted, `same[i]` saying that entry `i` is the same
/// path: it leads, and its old entry is gone.
pub open spec fn promoted(entries: Seq<Seq<char>>, same: Seq<bool>, project: Seq<char>) -> Seq<
    Seq<char>,
> {
    capped(seq![project] + marked(entries, flipped(same)))
}

/// A noted project leads the list, and behind it the entries that are other paths follow
/// in their order, as far as there is room.
pub proof fn law_noted_project_leads(
    entries: Seq<Seq<char>>,
    same: Seq<bool>,
    project: Seq<char>,
) -> (at: Seq<int>)
    requires
        same.len() == entries.len(),
    ensures
        promoted(entries, same, project).len() == (if at.len() < 9 {
            at.len() + 1
        } else {
            10
        }),
        promoted(entries, same, project)[0] == project,
        forall|k: int|
            #![trigger at[k]]
            0 <= k < at.len() ==> 0 <= at[k] < entries.len() && !same[at[k]] && (k < 9 ==> promoted(
                entries,
                same,
                project,
            )[k + 1] == entries[at[k]]),
        forall|j: int, k: int|
            #![trigger at[j], at[k]]
            0 <= j < k < at.len() ==> at[j] < at[k],
        forall|i: int| 0 <= i < entries.len() && !same[i] ==> #[trigger] at.contains(i),
{
    let at = law_marked_entries_stay(entries, flipped(same));
    assert forall|i: int| 0 <= i < entries.len() && !same[i] implies #[trigger] at.contains(i) by {
        assert(flipped(same)[i]);
    }
    assert forall|k: int|
        #![trigger at[k]]
        0 <= k < at.len() implies 0 <= at[k] < entries.len() && !same[at[k]] && (k < 9 ==> promoted(
        entries,
        same,
        project,
    )[k + 1] == entries[at[k]]) by {
        assert(flipped(same)[at[k]]);
        assert((seq![project] + marked(entries, flipped(same)))[k + 1] == entries[at[k]]);
    }
    at
}

/// Put `project` in front of the entries that are not the same path; at most
/// [`MAX_ENTRIES`] stay.
pub fn promote(entries: &Vec<String>, same: &Vec<bool>, project: &str) -> (r: Vec<String>)
    requires
        same.len() == entries.len(),
    ensures
        texts(r@) == promoted(texts(entries@), same@, project@),
{
    let mut keep: Vec<bool> = Vec::new();
    let mut i: usize = 0;
    while i < same.len()
        invariant
            i <= same.len(),
            keep@ == flipped(same@).take(i as int),
        decreases same.len() - i,
    {
        keep.push(!same[i]);
        assert(keep@ =~= flipped(same@).take(i as int + 1));
        i += 1;
    }
    assert(flipped(same@).take(i as int) =~= flipped(same@));
    let mut out = keep_marked(entries, &keep);
    let ghost rest = texts(out@);
    out.insert(0, project.to_owned());
    assert(texts(out@) =~= seq![project@] + rest);
    cap(&mut out);
    out
}

/// Note `project` as the newest entry: it leads, its old entries are gone, the
/// others keep their order, and at most [`MAX_ENTRIES`] stay.
pub fn note_recent(entries: &Vec<String>, project: &str) -> (r: Vec<String>)
    ensures
        exists|same: Seq<bool>|
            tells_same(texts(entries@), same, project@) && texts(r@) == #[trigger] promoted(
                texts(entries@),
                same,
                project@,
            ),
        r.len() <= MAX_ENTRIES,
        texts(r@)[0] == project@,
        forall|i: int| 0 < i < r.len() ==> #[trigger] texts(r@)[i] != project@,
{
    let mut same: Vec<bool> = Vec::new();
    let mut i: usize = 0;
    while i < entries.len()
        invariant
            i <= entries.len(),
            same.len() == i,
            forall|j: int|
                0 <= j < i ==> may_be_same(texts(entries@)[j], project@, #[trigger] same@[j]),
        decreases entries.len() - i,
    {
        same.push(same_path(entries[i].as_str(), project));
        i += 1;
    }
    let r = promote(entries, &same, project);
    proof {
        let all = texts(entries@);
        assert(tells_same(all, same@, project@));
        assert forall|i: int| 0 <= i < all.len() && all[i] == project@ implies #[trigger] same@[i] by {
            assert(may_be_same(all[i], project@, same@[i]));
        }
        lemma_marked_others(all, same@, project@);
        let rest = marked(all, flipped(same@));
        let whole = seq![project@] + rest;
        assert(texts(r@).len() == r.len());
        assert(texts(r@) == capped(whole));
        assert forall|k: int| 0 < k < r.len() implies #[trigger] texts(r@)[k] != project@ by {
            assert(texts(r@)[k] == whole[k]);
            assert(whole[k] == rest[k - 1]);
        }
        assert(texts(r@)[0] == whole[0]);
        assert(texts(r@) == promoted(all, same@, project@));
    }
    r
}

proof fn lemma_marked_others(entries: Seq<Seq<char>>, same: Seq<bool>, project: Seq<char>)
    requires
        same.len() >= entries.len(),
        forall|i: int| 0 <= i < entries.len() && entries[i] == project ==> #[trigger] same[i],
    ensures
        forall|k: int|
            0 <= k < marked(entries, flipped(same)).len() ==> #[trigger] marked(
                entries,
                flipped(same),
            )[k] != project,
    decreases entries.len(),
{
    if entries.len() > 0 {
        let front = entries.drop_last();
        assert forall|i: int| 0 <= i < front.len() && front[i] == project implies #[trigger] same[i] by {
            assert(entries[i] == front[i]);
        }
        lemma_marked_others(front, same, project);
        let before = marked(front, flipped(same));
        let now = marked(entries, flipped(same));
        assert forall|k: int| 0 <= k < now.len() implies #[trigger] now[k] != project by {
            if k < before.len() {
                assert(now[k] == before[k]);
            } else {
                assert(!same[entries.len() - 1]);
                assert(entries[entries.len() - 1] == entries.last());
            }
        }
    }
}

/// Other projects stay: an entry that is decidedly another path than the noted one is
/// in the new list, while there is room for all.
pub proof fn law_other_projects_stay(
    entries: Seq<Seq<char>>,
    same: Seq<bool>,
    project: Seq<char>,
    i: int,
)
    requires
        tells_same(entries, same, project),
        entries.len() < MAX_ENTRIES,
        0 <= i < entries.len(),
        decided(entries[i], project),
        entries[i] != project,
    ensures
        promoted(entries, same, project).contains(entries[i]),
{
    assert(may_be_same(entries[i], project, same[i]));
    lemma_decided(entries[i], project, same[i]);
    assert(flipped(same)[i]);
    let rest = marked(entries, flipped(same));
    let k = lemma_marked_holds(entries, flipped(same), i);
    lemma_marked_len(entries, flipped(same));
    let whole = seq![project] + rest;
    assert(whole[k + 1] == entries[i]);
    assert(promoted(entries, same, project) == whole);
}

proof fn lemma_marked_holds(entries: Seq<Seq<char>>, keep: Seq<bool>, i: int) -> (k: int)
    requires
        0 <= i < entries.len(),
        keep[i],
    ensures
        0 <= k < marked(entries, keep).len(),
        marked(entries, keep)[k] == entries[i],
    decreases entries.len(),
{
    let front = entries.drop_last();
    if i < front.len() {
        assert(front[i] == entries[i]);
        let k = lemma_marked_holds(front, keep, i);
        assert(marked(entries, keep)[k] == marked(front, keep)[k]);
        k
    } else {
        marked(entries, keep).len() - 1
    }
}

proof fn lemma_marked_len(entries: Seq<Seq<char>>, keep: Seq<bool>)
    ensures
        marked(entries, keep).len() <= entries.len(),
    decreases entries.len(),
{
    if entries.len() > 0 {
        lemma_marked_len(entries.drop_last(), keep);
    }
}

/// Noting a project twice is noting it once, among paths of which it is decided whether
/// they are the same.
pub proof fn law_note_twice(
    entries: Seq<Seq<char>>,
    same: Seq<bool>,
    again: Seq<bool>,
    project: Seq<char>,
)
    requires
        forall|i: int| 0 <= i < entries.len() ==> decided(#[trigger] entries[i], project),
        tells_same(entries, same, project),
        tells_same(promoted(entries, same, project), again, project),
    ensures
        promoted(promoted(entries, same, project), again, project) == promoted(
            entries,
            same,
            project,
        ),
{
    let rest = marked(entries, flipped(same));
    let whole = seq![project] + rest;
    let once = promoted(entries, same, project);
    assert forall|i: int| 0 <= i < entries.len() && entries[i] == project implies #[trigger] same[i] by {
        assert(may_be_same(entries[i], project, same[i]));
    }
    lemma_marked_others(entries, same, project);
    lemma_marked_decided(entries, flipped(same), project);
    assert forall|k: int| 0 < k < once.len() implies #[trigger] flipped(again)[k] by {
        assert(once[k] == whole[k]);
        assert(whole[k] == rest[k - 1]);
        assert(may_be_same(once[k], project, again[k]));
        lemma_decided(once[k], project, again[k]);
    }
    assert(once[0] == project);
    assert(may_be_same(once[0], project, again[0]));
    assert(!flipped(again)[0]);
    lemma_marked_tail(once, flipped(again), once.len() as int);
    assert(once.take(once.len() as int) =~= once);
    assert(seq![project] + once.skip(1) =~= once);
}

proof fn lemma_marked_decided(entries: Seq<Seq<char>>, keep: Seq<bool>, project: Seq<char>)
    requires
        forall|i: int| 0 <= i < entries.len() ==> decided(#[trigger] entries[i], project),
    ensures
        forall|k: int|
            0 <= k < marked(entries, keep).len() ==> decided(
                #[trigger] marked(entries, keep)[k],
                project,
            ),
    decreases entries.len(),
{
    if entries.len() > 0 {
        let front = entries.drop_last();
        assert forall|i: int| 0 <= i < front.len() implies decided(#[trigger] front[i], project) by {
            assert(front[i] == entries[i]);
        }
        lemma_marked_decided(front, keep, project);
        let before = marked(front, keep);
        assert forall|k: int| 0 <= k < marked(entries, keep).len() implies decided(
            #[trigger] marked(entries, keep)[k],
            project,
        ) by {
            if k < before.len() {
                assert(decided(before[k], project));
            } else {
                assert(decided(entries[entries.len() - 1], project));
            }
        }
    }
}

proof fn lemma_marked_tail(entries: Seq<Seq<char>>, keep: Seq<bool>, n: int)
    requires
        1 <= n <= entries.len(),
        keep.len() == entries.len(),
        !keep[0],
        forall|i: int| 0 < i < entries.len() ==> #[trigger] keep[i],
    ensures
        marked(entries.take(n), keep) == entries.take(n).skip(1),
    decreases n,
{
    let part = entries.take(n);
    if n == 1 {
        let none = Seq::<Seq<char>>::empty();
        assert(part.drop_last() =~= none);
        assert(marked(none, keep) == none);
        assert(marked(part, keep) == none);
        assert(part.skip(1) =~= none);
    } else {
        assert(part.drop_last() =~= entries.take(n - 1));
        lemma_marked_tail(entries, keep, n - 1);
        assert(keep[n - 1]);
        assert(marked(part, keep) =~= part.skip(1));
    }
}

// --- rows -----------------------------------------------------------------

/// A row of the recent-projects menu.
#[derive(Debug)]
pub struct RecentProject {
    pub name: String,
    pub path: String,
}

/// The row of a project with this file stem.
pub fn recent_row(stem: Option<String>, path: &str) -> (r: RecentProject)
    ensures
        r.path@ == path@,
        match stem {
            Some(s) => r.name@ == s@,
            None => r.name@ == Seq::<char>::empty(),
        },
{
    let name: String = match stem {
        Some(s) => s,
        None => String::new(),
    };
    RecentProject { name, path: path.to_owned() }
}

/// What a row shows: the full path, and its file stem, or nothing where it has
/// none.
pub open spec fn is_row_of(row: RecentProject, path: Seq<char>) -> bool {
    row.path@ == path && exists|stem: Option<Seq<char>>| #[trigger]
        may_be_stem(path, stem) && row.name@ == match stem {
            Some(s) => s,
            None => Seq::empty(),
        }
}

/// The menu rows: file stem for display, full path for opening.
pub fn to_rows(entries: &Vec<String>) -> (r: Vec<RecentProject>)
    ensures
        r.len() == entries.len(),
        forall|i: int| 0 <= i < r.len() ==> is_row_of(#[trigger] r@[i], entries@[i]@),
{
    let mut out: Vec<RecentProject> = Vec::new();
    let mut i: usize = 0;
    while i < entries.len()
        invariant
            i <= entries.len(),
            out.len() == i,
            forall|k: int| 0 <= k < i ==> is_row_of(#[trigger] out@[k], entries@[k]@),
        decreases entries.len() - i,
    {
        let path = entries[i].as_str();
        let stem = file_stem(path);
        let ghost found = opt_text(stem);
        let row = recent_row(stem, path);
        proof {
            assert(may_be_stem(path@, found));
            assert(is_row_of(row, entries@[i as int]@));
        }
        out.push(row);
        i += 1;
    }
    out
}

} // verus!
