//! The search index: all entries, the query, and the ranked view that the
//! query leaves of them.

use crate::actions::{builtin_actions, get_builtin_actions};
use crate::data::{DesktopEntry, DesktopEntryView};
use crate::entry::{str_of, Entry, EntryView};
use crate::icons::{is_absolute, pairs_map, resolve, resolved, IconMap};
use crate::launch::{launch_plan_of, outcome_view, plan_launch, LaunchError, LaunchPlan};
use crate::outside::{appears_in, fuzzy_match, fuzzy_score};
use crate::search::{
    combine_scores, combined_score, is_ranking, lemma_ranking_unique,
    lemma_sorted_list_keeps_order, rank, ranks_before, Candidate, CandidateView,
};
use crate::text::{lemma_lex_total, lex_less};
use vstd::prelude::*;

verus! {

/// The score of an entry for a query. The empty query matches every entry
/// alike; any other query is matched against the title and the generic name.
pub open spec fn entry_score(entry: EntryView, query: Seq<char>) -> Option<i64> {
    if query.len() == 0 {
        Some(0i64)
    } else {
        combined_score(
            fuzzy_score(entry.title, query),
            match entry.generic_name {
                Some(generic) => fuzzy_score(generic, query),
                None => None,
            },
        )
    }
}

/// An entry matches a query when the letters of the query appear in order,
/// without regard to case, in its title or in its generic name.
pub open spec fn entry_matches(entry: EntryView, query: Seq<char>) -> bool {
    appears_in(query, entry.title) || match entry.generic_name {
        Some(generic) => appears_in(query, generic),
        None => false,
    }
}

/// The entries that have a score for the query are those that match it.
pub open spec fn scored_as_matched(entries: Seq<EntryView>, query: Seq<char>) -> bool {
    forall|i: int|
        0 <= i < entries.len() ==> (entry_score(#[trigger] entries[i], query) is Some
            <==> entry_matches(entries[i], query))
}

/// The entries as the ranking sees them.
pub open spec fn candidates_for(entries: Seq<EntryView>, query: Seq<char>) -> Seq<CandidateView> {
    Seq::new(
        entries.len(),
        |i: int| CandidateView { title: entries[i].title, score: entry_score(entries[i], query) },
    )
}

/// The entries at the positions that `order` lists.
pub open spec fn picked(entries: Seq<EntryView>, order: Seq<usize>) -> Seq<EntryView> {
    Seq::new(order.len(), |k: int| entries[order[k] as int])
}

/// `filtered` is what `query` leaves of `entries`: the entries that match, by
/// falling score, equal scores by rising title, equal titles in list order.
pub open spec fn is_filtered(
    entries: Seq<EntryView>,
    query: Seq<char>,
    filtered: Seq<EntryView>,
) -> bool {
    exists|order: Seq<usize>|
        is_ranking(candidates_for(entries, query), order) && filtered == #[trigger] picked(
            entries,
            order,
        )
}

/// Entries and query determine the filtered view.
pub proof fn lemma_filtered_unique(
    entries: Seq<EntryView>,
    query: Seq<char>,
    a: Seq<EntryView>,
    b: Seq<EntryView>,
)
    requires
        is_filtered(entries, query, a),
        is_filtered(entries, query, b),
    ensures
        a == b,
{
    let c = candidates_for(entries, query);
    let oa = choose|order: Seq<usize>| is_ranking(c, order) && a == #[trigger] picked(entries, order);
    let ob = choose|order: Seq<usize>| is_ranking(c, order) && b == #[trigger] picked(entries, order);
    lemma_ranking_unique(c, oa, ob);
}

/// The filtered view holds matching entries only, and every matching entry
/// is in it.
pub proof fn lemma_filtered_matches(
    entries: Seq<EntryView>,
    query: Seq<char>,
    filtered: Seq<EntryView>,
)
    requires
        is_filtered(entries, query, filtered),
    ensures
        forall|k: int|
            0 <= k < filtered.len() ==> entries.contains(#[trigger] filtered[k]) && entry_score(
                filtered[k],
                query,
            ) is Some,
        forall|i: int|
            0 <= i < entries.len() && entry_score(#[trigger] entries[i], query) is Some
                ==> filtered.contains(entries[i]),
{
    let c = candidates_for(entries, query);
    let order = choose|order: Seq<usize>|
        is_ranking(c, order) && filtered == #[trigger] picked(entries, order);
    assert forall|k: int| 0 <= k < filtered.len() implies entries.contains(#[trigger] filtered[k])
        && entry_score(filtered[k], query) is Some by {
        let i = order[k] as int;
        assert(c[i].score is Some);
        assert(entries[i] == filtered[k]);
    }
    assert forall|i: int|
        0 <= i < entries.len() && entry_score(
            #[trigger] entries[i],
            query,
        ) is Some implies filtered.contains(entries[i]) by {
        assert(c[i].score is Some);
        let k = choose|k: int| 0 <= k < order.len() && #[trigger] order[k] == i;
        assert(filtered[k] == entries[i]);
    }
}

/// In a consistent state the view holds exactly the entries that match the
/// query: each item of the view matches, and each entry that matches is an
/// item of the view.
pub proof fn lemma_view_holds_the_matches(state: StateView)
    requires
        state.consistent(),
    ensures
        forall|k: int|
            0 <= k < state.filtered_entries.len() ==> entry_matches(
                #[trigger] state.filtered_entries[k],
                state.query,
            ),
        forall|i: int|
            0 <= i < state.entries.len() && entry_matches(#[trigger] state.entries[i], state.query)
                ==> state.filtered_entries.contains(state.entries[i]),
{
    lemma_filtered_matches(state.entries, state.query, state.filtered_entries);
    assert forall|k: int| 0 <= k < state.filtered_entries.len() implies entry_matches(
        #[trigger] state.filtered_entries[k],
        state.query,
    ) by {
        let item = state.filtered_entries[k];
        assert(state.entries.contains(item));
        let i = choose|i: int| 0 <= i < state.entries.len() && state.entries[i] == item;
        assert(entry_score(state.entries[i], state.query) is Some);
    }
}

/// Along the filtered view the score never rises, and among equal scores the
/// title never falls.
pub proof fn lemma_filtered_ordered(
    entries: Seq<EntryView>,
    query: Seq<char>,
    filtered: Seq<EntryView>,
)
    requires
        is_filtered(entries, query, filtered),
    ensures
        forall|k: int, l: int|
            0 <= k < l < filtered.len() ==> {
                let first = entry_score(#[trigger] filtered[k], query);
                let second = entry_score(#[trigger] filtered[l], query);
                &&& first is Some
                &&& second is Some
                &&& first->0 >= second->0
                &&& first->0 == second->0 ==> !lex_less(filtered[l].title, filtered[k].title)
            },
{
    let c = candidates_for(entries, query);
    let order = choose|order: Seq<usize>|
        is_ranking(c, order) && filtered == #[trigger] picked(entries, order);
    assert forall|k: int, l: int| 0 <= k < l < filtered.len() implies {
        let first = entry_score(#[trigger] filtered[k], query);
        let second = entry_score(#[trigger] filtered[l], query);
        &&& first is Some
        &&& second is Some
        &&& first->0 >= second->0
        &&& first->0 == second->0 ==> !lex_less(filtered[l].title, filtered[k].title)
    } by {
        let i = order[k] as int;
        let j = order[l] as int;
        assert(c[i].score is Some && c[j].score is Some);
        assert(ranks_before(c, order[k] as int, order[l] as int));
        lemma_lex_total(entries[i].title, entries[j].title);
    }
}

/// The empty query leaves every entry in the view. Where the titles never
/// fall along the list of entries, it leaves the list as it is.
pub proof fn lemma_empty_query(entries: Seq<EntryView>, filtered: Seq<EntryView>)
    requires
        entries.len() <= usize::MAX,
        is_filtered(entries, Seq::<char>::empty(), filtered),
    ensures
        forall|i: int| 0 <= i < entries.len() ==> filtered.contains(#[trigger] entries[i]),
        (forall|i: int, j: int|
            0 <= i < j < entries.len() ==> !lex_less(
                (#[trigger] entries[j]).title,
                (#[trigger] entries[i]).title,
            )) ==> filtered == entries,
{
    let query = Seq::<char>::empty();
    lemma_filtered_matches(entries, query, filtered);
    if forall|i: int, j: int|
        0 <= i < j < entries.len() ==> !lex_less(
            (#[trigger] entries[j]).title,
            (#[trigger] entries[i]).title,
        ) {
        let c = candidates_for(entries, query);
        let order = choose|order: Seq<usize>|
            is_ranking(c, order) && filtered == #[trigger] picked(entries, order);
        assert forall|i: int, j: int| 0 <= i < j < c.len() implies (#[trigger] c[i]).score == (
        #[trigger] c[j]).score && !lex_less(c[j].title, c[i].title) by {
            assert(!lex_less(entries[j].title, entries[i].title));
        }
        lemma_sorted_list_keeps_order(c, order);
        assert(filtered =~= entries);
    }
}

/// Where a selection lands in a view of `len` items: on the item asked for,
/// on the last item where that lies beyond the end, on 0 in an empty view.
pub open spec fn clamped(index: int, len: int) -> int {
    if len <= 0 {
        0
    } else if index >= len {
        len - 1
    } else if index < 0 {
        0
    } else {
        index
    }
}

/// The mathematical content of a [`State`].
pub struct StateView {
    pub selection_index: usize,
    pub query: Seq<char>,
    pub entries: Seq<EntryView>,
    pub filtered_entries: Seq<EntryView>,
    pub icons: Map<Seq<char>, Seq<char>>,
    pub confirming_entry: Option<EntryView>,
}

impl StateView {
    /// The filtered view is the one that entries and query determine, and
    /// the entries with a score are those that match the query.
    pub open spec fn consistent(self) -> bool {
        &&& is_filtered(self.entries, self.query, self.filtered_entries)
        &&& scored_as_matched(self.entries, self.query)
    }

    /// The entry under the selection, if the selection lies in the view.
    pub open spec fn selected(self) -> Option<EntryView> {
        if self.selection_index < self.filtered_entries.len() {
            Some(self.filtered_entries[self.selection_index as int])
        } else {
            None
        }
    }
}

/// The entries of a refresh: the discovered descriptors in their order, then
/// the built-in actions.
pub open spec fn refreshed(discovered: Seq<DesktopEntryView>) -> Seq<EntryView> {
    discovered.map_values(|d: DesktopEntryView| d.entry()) + builtin_actions()
}

/// The search index.
pub struct State {
    selection_index: usize,
    query: String,
    entries: Vec<Entry>,
    filtered_entries: Vec<Entry>,
    icon_map: IconMap,
    confirming_entry: Option<Entry>,
}

impl View for State {
    type V = StateView;

    closed spec fn view(&self) -> StateView {
        StateView {
            selection_index: self.selection_index,
            query: self.query@,
            entries: self.entries.deep_view(),
            filtered_entries: self.filtered_entries.deep_view(),
            icons: self.icon_map@,
            confirming_entry: self.confirming_entry.deep_view(),
        }
    }
}

/// Scores one entry for a query. An entry has a score exactly when it
/// matches the query.
pub fn score_entry(entry: &Entry, query: &str) -> (r: Option<i64>)
    ensures
        r == entry_score(entry@, query@),
        r is Some <==> entry_matches(entry@, query@),
{
    if query.is_empty() {
        Some(0)
    } else {
        let title = fuzzy_match(entry.title(), query);
        let generic = match entry.generic_name() {
            Some(generic) => fuzzy_match(generic, query),
            None => None,
        };
        combine_scores(title, generic)
    }
}

/// Computes what `query` leaves of `entries`: the entries that match it,
/// ranked.
pub fn filter_entries(entries: &Vec<Entry>, query: &str) -> (r: Vec<Entry>)
    ensures
        is_filtered(entries.deep_view(), query@, r.deep_view()),
        scored_as_matched(entries.deep_view(), query@),
        forall|k: int| 0 <= k < r.len() ==> entry_matches(#[trigger] r.deep_view()[k], query@),
        forall|i: int|
            0 <= i < entries.len() && entry_matches(#[trigger] entries.deep_view()[i], query@)
                ==> r.deep_view().contains(entries.deep_view()[i]),
{
    let ghost all = entries.deep_view();
    let ghost wanted = candidates_for(all, query@);
    let mut candidates: Vec<Candidate> = Vec::new();
    let mut i: usize = 0;
    while i < entries.len()
        invariant
            i <= entries.len(),
            all == entries.deep_view(),
            wanted == candidates_for(all, query@),
            candidates.len() == i,
            forall|k: int| 0 <= k < i ==> (#[trigger] candidates[k])@ == wanted[k],
            forall|k: int|
                0 <= k < i ==> (entry_score(#[trigger] all[k], query@) is Some <==> entry_matches(
                    all[k],
                    query@,
                )),
        decreases entries.len() - i,
    {
        let entry = &entries[i];
        proof {
            assert(all[i as int] == entry@);
        }
        candidates.push(
            Candidate { title: entry.title().to_owned(), score: score_entry(entry, query) },
        );
        i += 1;
    }
    proof {
        assert(candidates.deep_view() =~= wanted);
    }
    let order = rank(&candidates);
    let mut filtered: Vec<Entry> = Vec::new();
    let mut k: usize = 0;
    while k < order.len()
        invariant
            k <= order.len(),
            all == entries.deep_view(),
            is_ranking(wanted, order@),
            wanted.len() == entries.len(),
            filtered.len() == k,
            forall|j: int| 0 <= j < k ==> (#[trigger] filtered[j])@ == all[order[j] as int],
        decreases order.len() - k,
    {
        let position = order[k];
        proof {
            assert(order@[k as int] < wanted.len());
            assert(all[position as int] == entries[position as int]@);
        }
        filtered.push(entries[position].clone());
        k += 1;
    }
    proof {
        assert(filtered.deep_view() =~= picked(all, order@));
        lemma_filtered_matches(all, query@, filtered.deep_view());
    }
    filtered
}

impl State {
    /// An index without entries, with the empty query.
    pub fn new() -> (r: State)
        ensures
            r@.selection_index == 0,
            r@.query == Seq::<char>::empty(),
            r@.entries == Seq::<EntryView>::empty(),
            r@.filtered_entries == Seq::<EntryView>::empty(),
            r@.icons == Map::<Seq<char>, Seq<char>>::empty(),
            r@.confirming_entry is None,
            r@.consistent(),
    {
        let entries: Vec<Entry> = Vec::new();
        let filtered_entries: Vec<Entry> = Vec::new();
        proof {
            let none = Seq::<usize>::empty();
            assert(entries.deep_view() =~= Seq::<EntryView>::empty());
            assert(filtered_entries.deep_view() =~= Seq::<EntryView>::empty());
            assert(picked(entries.deep_view(), none) =~= filtered_entries.deep_view());
            assert(is_ranking(candidates_for(entries.deep_view(), Seq::<char>::empty()), none));
        }
        State {
            selection_index: 0,
            query: String::new(),
            entries,
            filtered_entries,
            icon_map: IconMap::new(),
            confirming_entry: None,
        }
    }

    /// The position of the selection.
    pub fn selection_index(&self) -> (r: usize)
        ensures
            r == self@.selection_index,
    {
        self.selection_index
    }

    /// The current query.
    pub fn query(&self) -> (r: &str)
        ensures
            r@ == self@.query,
    {
        self.query.as_str()
    }

    /// All entries, in the order they were loaded.
    pub fn entries(&self) -> (r: &Vec<Entry>)
        ensures
            r.deep_view() == self@.entries,
    {
        &self.entries
    }

    /// The ranked view of the entries that match the query.
    pub fn filtered_entries(&self) -> (r: &Vec<Entry>)
        ensures
            r.deep_view() == self@.filtered_entries,
    {
        &self.filtered_entries
    }

    /// The entry that waits for confirmation, if one does.
    pub fn confirming_entry(&self) -> (r: Option<&Entry>)
        ensures
            match r {
                Some(entry) => self@.confirming_entry == Some(entry@),
                None => self@.confirming_entry is None,
            },
    {
        match &self.confirming_entry {
            Some(entry) => Some(entry),
            None => None,
        }
    }

    /// Replaces the entries and recomputes the filtered view. Icons resolved
    /// for the old entries are forgotten. Query, selection and a pending
    /// confirmation stay.
    pub fn set_entries(&mut self, entries: Vec<Entry>)
        ensures
            is_filtered(entries.deep_view(), old(self)@.query, final(self)@.filtered_entries),
            final(self)@ == (StateView {
                entries: entries.deep_view(),
                filtered_entries: final(self)@.filtered_entries,
                icons: Map::<Seq<char>, Seq<char>>::empty(),
                ..old(self)@
            }),
            final(self)@.consistent(),
    {
        self.filtered_entries = filter_entries(&entries, self.query.as_str());
        self.entries = entries;
        self.icon_map.clear();
    }

    /// Loads what discovery found: the entries become the discovered
    /// descriptors in their order, followed by the built-in actions, and the
    /// filtered view is recomputed. Icons resolved for the old entries are
    /// forgotten. Query, selection and a pending confirmation stay.
    pub fn refresh_entries(&mut self, discovered: &Vec<DesktopEntry>)
        ensures
            is_filtered(
                refreshed(discovered.deep_view()),
                old(self)@.query,
                final(self)@.filtered_entries,
            ),
            final(self)@ == (StateView {
                entries: refreshed(discovered.deep_view()),
                filtered_entries: final(self)@.filtered_entries,
                icons: Map::<Seq<char>, Seq<char>>::empty(),
                ..old(self)@
            }),
            final(self)@.consistent(),
    {
        let ghost found = discovered.deep_view();
        let mut entries: Vec<Entry> = Vec::new();
        let mut i: usize = 0;
        while i < discovered.len()
            invariant
                i <= discovered.len(),
                found == discovered.deep_view(),
                entries.len() == i,
                forall|k: int| 0 <= k < i ==> (#[trigger] entries[k])@ == found[k].entry(),
            decreases discovered.len() - i,
        {
            proof {
                assert(found[i as int] == discovered[i as int]@);
            }
            entries.push(discovered[i].to_entry());
            i += 1;
        }
        let ghost first = entries.deep_view();
        proof {
            assert(first =~= found.map_values(|d: DesktopEntryView| d.entry()));
        }
        let mut actions = get_builtin_actions();
        let ghost second = actions.deep_view();
        entries.append(&mut actions);
        proof {
            assert(entries.deep_view() =~= first + second);
        }
        self.set_entries(entries);
    }

    /// Recomputes the filtered view from entries and query. Nothing else
    /// changes.
    pub fn update_filtered_entries(&mut self)
        ensures
            is_filtered(old(self)@.entries, old(self)@.query, final(self)@.filtered_entries),
            final(self)@ == (StateView {
                filtered_entries: final(self)@.filtered_entries,
                ..old(self)@
            }),
            final(self)@.consistent(),
    {
        self.filtered_entries = filter_entries(&self.entries, self.query.as_str());
    }

    /// Takes a new query: the selection goes back to the first item and the
    /// filtered view is recomputed.
    pub fn set_query(&mut self, query: String)
        ensures
            is_filtered(old(self)@.entries, query@, final(self)@.filtered_entries),
            final(self)@ == (StateView {
                query: query@,
                selection_index: 0,
                filtered_entries: final(self)@.filtered_entries,
                ..old(self)@
            }),
            final(self)@.consistent(),
    {
        self.filtered_entries = filter_entries(&self.entries, query.as_str());
        self.query = query;
        self.selection_index = 0;
    }

    /// Moves the selection to `index`, or to the last item where `index` lies
    /// beyond the view.
    pub fn set_selection_index(&mut self, index: usize)
        ensures
            final(self)@ == (StateView {
                selection_index: clamped(
                    index as int,
                    old(self)@.filtered_entries.len() as int,
                ) as usize,
                ..old(self)@
            }),
            final(self)@.selection_index as int == clamped(
                index as int,
                old(self)@.filtered_entries.len() as int,
            ),
            old(self)@.consistent() ==> final(self)@.consistent(),
    {
        let len = self.filtered_entries.len();
        self.selection_index = if len == 0 {
            0
        } else if index >= len {
            len - 1
        } else {
            index
        };
    }

    /// Moves the selection by `delta` items. It stops at the first and at the
    /// last item.
    pub fn add_selection_index(&mut self, delta: isize)
        ensures
            final(self)@ == (StateView {
                selection_index: clamped(
                    old(self)@.selection_index + delta,
                    old(self)@.filtered_entries.len() as int,
                ) as usize,
                ..old(self)@
            }),
            final(self)@.selection_index as int == clamped(
                old(self)@.selection_index + delta,
                old(self)@.filtered_entries.len() as int,
            ),
            old(self)@.consistent() ==> final(self)@.consistent(),
    {
        let base = self.selection_index;
        let len = self.filtered_entries.len();
        if delta < 0 {
            let back: usize = ((-(delta + 1)) as usize) + 1;
            let target: usize = if back >= base {
                0
            } else {
                base - back
            };
            self.set_selection_index(target);
        } else {
            let forth: usize = delta as usize;
            if forth >= len || base >= len - forth {
                self.set_selection_index(len);
            } else {
                self.set_selection_index(base + forth);
            }
        }
    }

    /// The entry under the selection, if the selection lies in the view.
    pub fn get_selected_entry(&self) -> (r: Option<&Entry>)
        ensures
            r.deep_view() == self@.selected(),
    {
        if self.selection_index < self.filtered_entries.len() {
            proof {
                assert(self.filtered_entries.deep_view()[self.selection_index as int]
                    == self.filtered_entries[self.selection_index as int]@);
            }
            Some(&self.filtered_entries[self.selection_index])
        } else {
            None
        }
    }

    /// Plans the launch of `entry`, with no regard to confirmation.
    pub fn execute_entry(&self, entry: &Entry) -> (r: Result<LaunchPlan, LaunchError>)
        ensures
            outcome_view(r) == launch_plan_of(entry@),
    {
        plan_launch(entry)
    }

    /// Asks to launch `entry`. An entry that wants confirmation is parked and
    /// nothing is planned yet; any other entry is planned at once and the
    /// state stays as it is.
    pub fn launch_entry(&mut self, entry: Entry) -> (r: Option<Result<LaunchPlan, LaunchError>>)
        ensures
            entry@.user_confirm ==> r is None && final(self)@ == (StateView {
                confirming_entry: Some(entry@),
                ..old(self)@
            }),
            !entry@.user_confirm ==> r is Some && outcome_view(r->0) == launch_plan_of(entry@)
                && final(self)@ == old(self)@,
            old(self)@.consistent() ==> final(self)@.consistent(),
    {
        if entry.user_confirm() {
            self.confirming_entry = Some(entry);
            None
        } else {
            Some(plan_launch(&entry))
        }
    }

    /// The confirmation has come: plans the launch of the parked entry.
    /// Without a parked entry there is nothing to plan.
    pub fn confirm_launch(&self) -> (r: Option<Result<LaunchPlan, LaunchError>>)
        ensures
            match self@.confirming_entry {
                Some(entry) => r is Some && outcome_view(r->0) == launch_plan_of(entry),
                None => r is None,
            },
    {
        match &self.confirming_entry {
            Some(entry) => Some(plan_launch(entry)),
            None => None,
        }
    }

    /// The confirmation was refused: the parked entry is let go.
    pub fn cancel_confirmation(&mut self)
        ensures
            final(self)@ == (StateView { confirming_entry: None, ..old(self)@ }),
            old(self)@.consistent() ==> final(self)@.consistent(),
    {
        self.confirming_entry = None;
    }

    /// The icon values to resolve: that of each entry that has one, in the
    /// order of the entries.
    pub fn icon_names(&self) -> (r: Vec<String>)
        ensures
            r.deep_view() == icon_values(self@.entries),
    {
        let ghost all = self.entries.deep_view();
        let mut names: Vec<String> = Vec::new();
        let mut i: usize = 0;
        proof {
            assert(all.take(0) =~= Seq::<EntryView>::empty());
            assert(names.deep_view() =~= Seq::<Seq<char>>::empty());
        }
        while i < self.entries.len()
            invariant
                i <= self.entries.len(),
                all == self.entries.deep_view(),
                names.deep_view() == icon_values(all.take(i as int)),
            decreases self.entries.len() - i,
        {
            let ghost before = names.deep_view();
            proof {
                assert(all.take(i + 1).drop_last() =~= all.take(i as int));
                assert(all.take(i + 1).last() == self.entries[i as int]@);
            }
            match self.entries[i].icon() {
                Some(icon) => {
                    names.push(icon.to_owned());
                    proof {
                        assert(names.deep_view() =~= before.push(icon@));
                    }
                },
                None => {},
            }
            i += 1;
        }
        proof {
            assert(all.take(self.entries.len() as int) =~= all);
        }
        names
    }

    /// Takes what the theme searches found for the icons of the current
    /// entries and works out where each icon leads. `hits` holds, for each
    /// name of `icon_names()` in turn, what the search of each theme of the
    /// chain found, in chain order; a search that was not made may be left
    /// out at the end. The old icons are forgotten. A name then leads
    /// somewhere exactly when it is the icon of an entry and is an absolute
    /// path or was found in a theme, and it leads to that path or to the
    /// first find. Nothing else changes.
    pub fn find_icons(&mut self, hits: &Vec<Vec<Option<String>>>)
        ensures
            final(self)@ == (StateView {
                icons: resolved_icons(icon_values(old(self)@.entries), hits.deep_view()),
                ..old(self)@
            }),
            forall|name: Seq<char>| #[trigger]
                final(self)@.icons.contains_key(name) <==> exists|k: int|
                    is_answered(icon_values(old(self)@.entries), hits.deep_view(), k, name),
            forall|name: Seq<char>| #[trigger]
                final(self)@.icons.contains_key(name) ==> exists|k: int|
                    is_answered(icon_values(old(self)@.entries), hits.deep_view(), k, name)
                        && resolved(name, hits_at(hits.deep_view(), k)) == Some(
                        final(self)@.icons[name],
                    ),
            forall|name: Seq<char>| #[trigger]
                final(self)@.icons.contains_key(name) ==> exists|i: int|
                    0 <= i < old(self)@.entries.len() && (#[trigger] old(self)@.entries[i]).icon
                        == Some(name),
            forall|k: int|
                0 <= k < icon_values(old(self)@.entries).len() && is_absolute(
                    #[trigger] icon_values(old(self)@.entries)[k],
                ) ==> final(self)@.icons.contains_key(icon_values(old(self)@.entries)[k])
                    && final(self)@.icons[icon_values(old(self)@.entries)[k]] == icon_values(
                    old(self)@.entries,
                )[k],
            old(self)@.consistent() ==> final(self)@.consistent(),
    {
        let names = self.icon_names();
        let none: Vec<Option<String>> = Vec::new();
        let ghost wanted = names.deep_view();
        let ghost found = hits.deep_view();
        self.icon_map.clear();
        let mut i: usize = 0;
        proof {
            assert(none.deep_view() =~= Seq::<Option<Seq<char>>>::empty());
        }
        while i < names.len()
            invariant
                i <= names.len(),
                wanted == names.deep_view(),
                found == hits.deep_view(),
                none.deep_view() == Seq::<Option<Seq<char>>>::empty(),
                self.icon_map@ == pairs_map(icon_answers(wanted, found, i as int)),
                self.selection_index == old(self).selection_index,
                self.query == old(self).query,
                self.entries == old(self).entries,
                self.filtered_entries == old(self).filtered_entries,
                self.confirming_entry == old(self).confirming_entry,
            decreases names.len() - i,
        {
            let name = names[i].as_str();
            let ghost before = icon_answers(wanted, found, i as int);
            proof {
                assert(wanted[i as int] == name@);
                if i < hits.len() {
                    assert(found[i as int] == hits[i as int].deep_view());
                }
            }
            let answer = if i < hits.len() {
                resolve(name, &hits[i])
            } else {
                resolve(name, &none)
            };
            match answer {
                Some(path) => {
                    proof {
                        assert(before.push((name@, path@)).drop_last() =~= before);
                    }
                    self.icon_map.insert(names[i].clone(), path);
                },
                None => {},
            }
            i += 1;
        }
        proof {
            lemma_resolved_icons(wanted, found, wanted.len() as int);
            assert forall|name: Seq<char>| #[trigger]
                self.icon_map@.contains_key(name) implies exists|i: int|
                0 <= i < self.entries.deep_view().len() && (#[trigger] self.entries.deep_view()[i]).icon
                    == Some(name) by {
                let k = choose|k: int| is_answered(wanted, found, k, name);
                assert(wanted[k] == name);
                assert(wanted.contains(name));
                lemma_icon_values_are_the_icons(self.entries.deep_view(), name);
            }
            assert forall|k: int| 0 <= k < wanted.len() && is_absolute(
                #[trigger] wanted[k],
            ) implies self.icon_map@.contains_key(wanted[k]) && self.icon_map@[wanted[k]]
                == wanted[k] by {
                let name = wanted[k];
                let icons = self.icon_map@;
                assert(resolved(name, hits_at(found, k)) == Some(name));
                assert(is_answered(wanted, found, k, name));
                assert(icons.contains_key(name));
                let other = choose|other: int|
                    is_answered(wanted, found, other, name) && resolved(
                        name,
                        hits_at(found, other),
                    ) == Some(icons[name]);
                assert(resolved(name, hits_at(found, other)) == Some(name));
            }
        }
    }

    /// The file that shows the icon `name`, if it was resolved.
    pub fn icon_path(&self, name: &str) -> (r: Option<&str>)
        ensures
            str_of(r) == if self@.icons.contains_key(name@) {
                Some(self@.icons[name@])
            } else {
                None
            },
    {
        self.icon_map.get(name)
    }
}

/// What the theme searches found for the name at position `k`; nothing
/// where the list of finds is shorter than the list of names.
pub open spec fn hits_at(hits: Seq<Seq<Option<Seq<char>>>>, k: int) -> Seq<Option<Seq<char>>> {
    if 0 <= k < hits.len() {
        hits[k]
    } else {
        Seq::empty()
    }
}

/// The name at position `k` is `name` and its resolution gives a path.
pub open spec fn is_answered(
    names: Seq<Seq<char>>,
    hits: Seq<Seq<Option<Seq<char>>>>,
    k: int,
    name: Seq<char>,
) -> bool {
    0 <= k < names.len() && names[k] == name && resolved(name, hits_at(hits, k)) is Some
}

/// The records that the first `count` names give: one for each name whose
/// resolution gives a path, in the order of the names.
pub open spec fn icon_answers(
    names: Seq<Seq<char>>,
    hits: Seq<Seq<Option<Seq<char>>>>,
    count: int,
) -> Seq<(Seq<char>, Seq<char>)>
    decreases count,
{
    if count <= 0 {
        Seq::empty()
    } else {
        let before = icon_answers(names, hits, count - 1);
        match resolved(names[count - 1], hits_at(hits, count - 1)) {
            Some(path) => before.push((names[count - 1], path)),
            None => before,
        }
    }
}

/// Where the icons lead once every name is resolved.
pub open spec fn resolved_icons(names: Seq<Seq<char>>, hits: Seq<Seq<Option<Seq<char>>>>) -> Map<
    Seq<char>,
    Seq<char>,
> {
    pairs_map(icon_answers(names, hits, names.len() as int))
}

/// After the first `count` names a name leads somewhere exactly when one of
/// them is that name and resolves, and it leads to what such a one resolves
/// to.
pub proof fn lemma_resolved_icons(
    names: Seq<Seq<char>>,
    hits: Seq<Seq<Option<Seq<char>>>>,
    count: int,
)
    requires
        0 <= count <= names.len(),
    ensures
        forall|name: Seq<char>| #[trigger]
            pairs_map(icon_answers(names, hits, count)).contains_key(name) <==> exists|k: int|
                k < count && is_answered(names, hits, k, name),
        forall|name: Seq<char>| #[trigger]
            pairs_map(icon_answers(names, hits, count)).contains_key(name) ==> exists|k: int|
                k < count && is_answered(names, hits, k, name) && resolved(name, hits_at(hits, k))
                    == Some(pairs_map(icon_answers(names, hits, count))[name]),
    decreases count,
{
    if count > 0 {
        lemma_resolved_icons(names, hits, count - 1);
        let before = icon_answers(names, hits, count - 1);
        let last = names[count - 1];
        let now = pairs_map(icon_answers(names, hits, count));
        match resolved(last, hits_at(hits, count - 1)) {
            Some(path) => {
                assert(before.push((last, path)).drop_last() =~= before);
                assert(now == pairs_map(before).insert(last, path));
                assert(is_answered(names, hits, count - 1, last));
                assert forall|name: Seq<char>| #[trigger] now.contains_key(name) implies exists|
                    k: int,
                |
                    k < count && is_answered(names, hits, k, name) && resolved(
                        name,
                        hits_at(hits, k),
                    ) == Some(now[name]) by {
                    if name == last {
                        assert(is_answered(names, hits, count - 1, name));
                    } else {
                        assert(pairs_map(before).contains_key(name));
                        let k = choose|k: int|
                            k < count - 1 && is_answered(names, hits, k, name) && resolved(
                                name,
                                hits_at(hits, k),
                            ) == Some(pairs_map(before)[name]);
                        assert(k < count && is_answered(names, hits, k, name));
                    }
                }
                assert forall|name: Seq<char>|
                    (exists|k: int|
                        k < count && is_answered(names, hits, k, name)) implies #[trigger] now.contains_key(
                    name,
                ) by {
                    let k = choose|k: int| k < count && is_answered(names, hits, k, name);
                    if k < count - 1 {
                        assert(pairs_map(before).contains_key(name));
                    }
                }
            },
            None => {
                assert forall|name: Seq<char>|
                    (exists|k: int|
                        k < count && is_answered(names, hits, k, name)) implies #[trigger] now.contains_key(
                    name,
                ) by {
                    let k = choose|k: int| k < count && is_answered(names, hits, k, name);
                    assert(k < count - 1);
                }
                assert forall|name: Seq<char>| #[trigger] now.contains_key(name) implies exists|
                    k: int,
                |
                    k < count && is_answered(names, hits, k, name) && resolved(
                        name,
                        hits_at(hits, k),
                    ) == Some(now[name]) by {
                    let k = choose|k: int|
                        k < count - 1 && is_answered(names, hits, k, name) && resolved(
                            name,
                            hits_at(hits, k),
                        ) == Some(pairs_map(before)[name]);
                    assert(k < count && is_answered(names, hits, k, name));
                }
            },
        }
    }
}

/// A text is among the icon values exactly when it is the icon of an entry.
pub proof fn lemma_icon_values_are_the_icons(entries: Seq<EntryView>, name: Seq<char>)
    ensures
        icon_values(entries).contains(name) <==> exists|i: int|
            0 <= i < entries.len() && (#[trigger] entries[i]).icon == Some(name),
    decreases entries.len(),
{
    if entries.len() > 0 {
        let front = entries.drop_last();
        lemma_icon_values_are_the_icons(front, name);
        let before = icon_values(front);
        if icon_values(entries).contains(name) {
            let j = choose|j: int| 0 <= j < icon_values(entries).len() && icon_values(entries)[j] == name;
            if j < before.len() {
                assert(before[j] == name);
                assert(before.contains(name));
                let i = choose|i: int| 0 <= i < front.len() && (#[trigger] front[i]).icon == Some(name);
                assert(entries[i] == front[i]);
            } else {
                assert(entries[entries.len() - 1].icon == Some(name));
            }
        }
        if exists|i: int| 0 <= i < entries.len() && (#[trigger] entries[i]).icon == Some(name) {
            let i = choose|i: int| 0 <= i < entries.len() && (#[trigger] entries[i]).icon == Some(name);
            if i < front.len() {
                assert(front[i] == entries[i]);
                assert(before.contains(name));
                let j = choose|j: int| 0 <= j < before.len() && before[j] == name;
                assert(icon_values(entries)[j] == name);
            } else {
                assert(entries.last().icon == Some(name));
                assert(icon_values(entries) == before.push(name));
                assert(icon_values(entries)[before.len() as int] == name);
            }
        }
    }
}

/// The icon values of the entries that have one, in the order of the entries.
pub open spec fn icon_values(entries: Seq<EntryView>) -> Seq<Seq<char>>
    decreases entries.len(),
{
    if entries.len() == 0 {
        Seq::empty()
    } else {
        let before = icon_values(entries.drop_last());
        match entries.last().icon {
            Some(icon) => before.push(icon),
            None => before,
        }
    }
}

/// A copy of a list of entries.
fn clone_entries(entries: &Vec<Entry>) -> (r: Vec<Entry>)
    ensures
        r.deep_view() == entries.deep_view(),
{
    let mut copy: Vec<Entry> = Vec::new();
    let mut i: usize = 0;
    while i < entries.len()
        invariant
            i <= entries.len(),
            copy.len() == i,
            forall|k: int| 0 <= k < i ==> (#[trigger] copy[k])@ == entries[k]@,
        decreases entries.len() - i,
    {
        copy.push(entries[i].clone());
        i += 1;
    }
    proof {
        assert(copy.deep_view() =~= entries.deep_view());
    }
    copy
}

impl Clone for State {
    fn clone(&self) -> (r: State)
        ensures
            r@ == self@,
    {
        State {
            selection_index: self.selection_index,
            query: self.query.clone(),
            entries: clone_entries(&self.entries),
            filtered_entries: clone_entries(&self.filtered_entries),
            icon_map: self.icon_map.clone(),
            confirming_entry: match &self.confirming_entry {
                Some(entry) => Some(entry.clone()),
                None => None,
            },
        }
    }
}

impl Default for State {
    fn default() -> (r: State)
        ensures
            r@.entries == Seq::<EntryView>::empty(),
            r@.filtered_entries == Seq::<EntryView>::empty(),
            r@.query == Seq::<char>::empty(),
            r@.selection_index == 0,
            r@.consistent(),
    {
        State::new()
    }
}

} // verus!
