//! Depth-first location of two named files in a directory tree.
//!
//! The traversal is driven by an explicit work list rather than recursion, so
//! arbitrarily deep trees cannot exhaust the call stack. A [`Locator`] owns
//! the work list and the two result slots; the caller performs the actual
//! directory listings and hands each listing back as plain [`WorkItem`]
//! values. Matching is exact, case-sensitive equality on the basename, and a
//! later match silently overwrites an earlier one, so each slot ends up
//! holding the path of the *last* matching file in traversal order.

use vstd::prelude::*;

verus! {

/// One pending unit of traversal work: a file to examine, or a directory
/// whose listing is still owed by the caller.
#[derive(Debug)]
pub enum WorkItem {
    /// A file entry: its basename and its full path.
    File { name: String, path: String },
    /// A directory whose entries have not been listed yet.
    Dir { path: String },
}

/// Whether a work item is a file entry.
pub open spec fn item_is_file(item: WorkItem) -> bool {
    item matches WorkItem::File { .. }
}

/// The record a visited file leaves behind: its basename and its full path.
pub open spec fn file_visit(item: WorkItem) -> (Seq<char>, Seq<char>)
    recommends
        item_is_file(item),
{
    match item {
        WorkItem::File { name, path } => (name@, path@),
        WorkItem::Dir { .. } => arbitrary(),
    }
}

/// The path of the last visited file whose basename equals `name`, if any.
pub open spec fn last_match(visited: Seq<(Seq<char>, Seq<char>)>, name: Seq<char>) -> Option<
    Seq<char>,
>
    decreases visited.len(),
{
    if visited.len() == 0 {
        None
    } else if visited.last().0 == name {
        Some(visited.last().1)
    } else {
        last_match(visited.drop_last(), name)
    }
}

/// Like [`last_match`], but a file whose basename equals `taken` never counts:
/// the target slot is examined first, so a file matching the target name is
/// consumed by it and can never fill the key slot, even when both sought
/// names are the same.
pub open spec fn last_match_skipping(
    visited: Seq<(Seq<char>, Seq<char>)>,
    name: Seq<char>,
    taken: Seq<char>,
) -> Option<Seq<char>>
    decreases visited.len(),
{
    if visited.len() == 0 {
        None
    } else if visited.last().0 != taken && visited.last().0 == name {
        Some(visited.last().1)
    } else {
        last_match_skipping(visited.drop_last(), name, taken)
    }
}

/// How many file entries sit on top of the work list, above the topmost
/// pending directory. These are exactly the items one call to
/// [`Locator::advance`] consumes.
pub open spec fn trailing_file_count(pending: Seq<WorkItem>) -> nat
    decreases pending.len(),
{
    if pending.len() == 0 {
        0
    } else if item_is_file(pending.last()) {
        1 + trailing_file_count(pending.drop_last())
    } else {
        0
    }
}

/// The visit records of the top `count` items of the work list, in the order
/// they are popped (topmost first).
pub open spec fn popped_visits(pending: Seq<WorkItem>, count: nat) -> Seq<
    (Seq<char>, Seq<char>),
>
    recommends
        count <= pending.len(),
    decreases count,
{
    if count == 0 {
        Seq::empty()
    } else {
        seq![file_visit(pending.last())] + popped_visits(pending.drop_last(), (count - 1) as nat)
    }
}

/// The view of an optional located path.
pub open spec fn path_option_view(path: Option<String>) -> Option<Seq<char>> {
    match path {
        Some(p) => Some(p@),
        None => None,
    }
}

/// The traversal state: the work list still to visit and the two result
/// slots, together with the ghost history of every file visited so far.
///
/// The caller drives it in a loop: [`Locator::advance`] consumes file entries
/// until it owes the caller a directory listing or the work list is empty;
/// the caller lists that directory and hands the entries to
/// [`Locator::provide_listing`] (skipping the call when the directory cannot
/// be read leaves that subtree out, and the traversal continues). When
/// `advance` returns `None` the whole reachable tree has been walked and
/// [`Locator::into_result`] yields the located paths.
pub struct Locator {
    /// The exact basename sought for the target slot.
    pub target_name: String,
    /// The exact basename sought for the key slot.
    pub key_name: String,
    /// The work list: entries still to visit, top of the stack at the end.
    pub pending: Vec<WorkItem>,
    /// The path of the last visited file named `target_name`.
    pub target: Option<String>,
    /// The path of the last visited file named `key_name` (and not
    /// `target_name`; the target slot is examined first).
    pub key: Option<String>,
    /// The basename and path of every file visited so far, in visit order.
    pub visited: Ghost<Seq<(Seq<char>, Seq<char>)>>,
}

impl Locator {
    /// The result slots always hold the last match among the visited files.
    pub open spec fn wf(self) -> bool {
        &&& path_option_view(self.target) == last_match(self.visited@, self.target_name@)
        &&& path_option_view(self.key) == last_match_skipping(
            self.visited@,
            self.key_name@,
            self.target_name@,
        )
    }

    /// Starts a traversal of the tree rooted at `root`, looking for the two
    /// given basenames.
    pub fn new(root: String, target_name: String, key_name: String) -> (locator: Locator)
        ensures
            locator.wf(),
            locator.target_name@ == target_name@,
            locator.key_name@ == key_name@,
            locator.visited@ == Seq::<(Seq<char>, Seq<char>)>::empty(),
            locator.pending@.len() == 1,
            (locator.pending@[0] matches WorkItem::Dir { path } && path@ == root@),
    {
        Locator {
            target_name,
            key_name,
            pending: vec![WorkItem::Dir { path: root }],
            target: None,
            key: None,
            visited: Ghost(Seq::empty()),
        }
    }

    /// Visits file entries from the top of the work list until a pending
    /// directory surfaces (returning its path, so the caller can list it) or
    /// the work list runs out (returning `None`: the traversal is complete).
    ///
    /// Every file consumed is appended to the visit history, and the result
    /// slots keep tracking the last match, so the overwrite policy is decided
    /// here and nowhere else.
    #[verifier::loop_isolation(false)]
    pub fn advance(&mut self) -> (next_dir: Option<String>)
        requires
            old(self).wf(),
        ensures
            final(self).wf(),
            final(self).target_name@ == old(self).target_name@,
            final(self).key_name@ == old(self).key_name@,
            final(self).visited@ == old(self).visited@ + popped_visits(
                old(self).pending@,
                trailing_file_count(old(self).pending@),
            ),
            ({
                let files = trailing_file_count(old(self).pending@) as int;
                let n = old(self).pending@.len() as int;
                if files == n {
                    next_dir is None && final(self).pending@.len() == 0
                } else {
                    &&& (old(self).pending@[n - files - 1] matches WorkItem::Dir { path }
                        && next_dir matches Some(d) && d@ == path@)
                    &&& final(self).pending@ == old(self).pending@.take(n - files - 1)
                }
            }),
    {
        let ghost orig_pending = self.pending@;
        let ghost orig_visited = self.visited@;
        let ghost mut popped: nat = 0;
        proof {
            lemma_trailing_le_len(orig_pending);
            assert(orig_pending.take(orig_pending.len() as int) =~= orig_pending);
            assert(orig_visited + popped_visits(orig_pending, 0) =~= orig_visited);
        }
        loop
            invariant
                self.wf(),
                self.target_name@ == old(self).target_name@,
                self.key_name@ == old(self).key_name@,
                popped <= trailing_file_count(orig_pending),
                self.pending@ == orig_pending.take(orig_pending.len() - popped),
                self.visited@ == orig_visited + popped_visits(orig_pending, popped),
            decreases self.pending@.len(),
        {
            proof {
                lemma_trailing_le_len(orig_pending);
            }
            let ghost pre_pending = self.pending@;
            match self.pending.pop() {
                None => {
                    proof {
                        assert(popped == orig_pending.len());
                        assert(trailing_file_count(orig_pending) == popped);
                    }
                    return None;
                },
                Some(item) => {
                    match item {
                        WorkItem::Dir { path } => {
                            proof {
                                lemma_trailing_of_take(orig_pending, popped);
                                assert(!item_is_file(pre_pending.last()));
                                assert(trailing_file_count(pre_pending) == 0);
                                assert(trailing_file_count(orig_pending) == popped);
                                assert(self.pending@ =~= orig_pending.take(
                                    orig_pending.len() - popped - 1,
                                ));
                            }
                            return Some(path);
                        },
                        WorkItem::File { name, path } => {
                            let ghost visit = (name@, path@);
                            proof {
                                lemma_trailing_of_take(orig_pending, popped);
                                assert(item_is_file(pre_pending.last()));
                                assert(trailing_file_count(pre_pending) >= 1);
                                assert(popped + 1 <= trailing_file_count(orig_pending));
                                assert(pre_pending.last() == item);
                                assert(file_visit(item) == visit);
                            }
                            if name == self.target_name {
                                self.target = Some(path);
                            } else if name == self.key_name {
                                self.key = Some(path);
                            }
                            proof {
                                lemma_last_match_push(self.visited@, visit, self.target_name@);
                                lemma_last_match_skipping_push(
                                    self.visited@,
                                    visit,
                                    self.key_name@,
                                    self.target_name@,
                                );
                            }
                            self.visited = Ghost(self.visited@.push(visit));
                            proof {
                                lemma_trailing_le_len(orig_pending);
                                lemma_popped_visits_step(orig_pending, popped);
                                assert(orig_pending[orig_pending.len() - popped - 1] == item);
                                assert(self.pending@ =~= orig_pending.take(
                                    orig_pending.len() - (popped + 1),
                                ));
                                assert(orig_visited + popped_visits(orig_pending, popped + 1)
                                    =~= (orig_visited + popped_visits(orig_pending, popped)).push(
                                    visit,
                                ));
                                popped = popped + 1;
                            }
                        },
                    }
                },
            }
        }
    }

    /// Accepts the listing of the directory most recently returned by
    /// [`Locator::advance`]. The entries are pushed so that they will be
    /// visited in the given order, before everything that was already
    /// pending: the traversal stays depth-first.
    #[verifier::loop_isolation(false)]
    pub fn provide_listing(&mut self, entries: Vec<WorkItem>)
        requires
            old(self).wf(),
        ensures
            final(self).wf(),
            final(self).target_name@ == old(self).target_name@,
            final(self).key_name@ == old(self).key_name@,
            final(self).visited@ == old(self).visited@,
            final(self).pending@ == old(self).pending@ + entries@.reverse(),
    {
        let ghost entries0 = entries@;
        let mut rest = entries;
        proof {
            assert(entries0.take(entries0.len() as int) =~= entries0);
            assert(entries0.skip(entries0.len() as int).reverse() =~= Seq::<WorkItem>::empty());
            assert(self.pending@ + entries0.skip(entries0.len() as int).reverse()
                =~= self.pending@);
        }
        loop
            invariant
                self.target_name == old(self).target_name,
                self.key_name == old(self).key_name,
                self.visited@ == old(self).visited@,
                self.target == old(self).target,
                self.key == old(self).key,
                rest@.len() <= entries0.len(),
                rest@ == entries0.take(rest@.len() as int),
                self.pending@ == old(self).pending@ + entries0.skip(rest@.len() as int).reverse(),
            decreases rest@.len(),
        {
            let ghost m: nat = rest@.len();
            match rest.pop() {
                None => {
                    proof {
                        assert(entries0.skip(0) =~= entries0);
                    }
                    return ;
                },
                Some(item) => {
                    proof {
                        assert(entries0.take(m as int)[m - 1] == entries0[m - 1]);
                        assert(item == entries0[m - 1]);
                        assert(rest@ =~= entries0.take(rest@.len() as int));
                    }
                    self.pending.push(item);
                    proof {
                        assert(entries0.skip((m - 1) as int).reverse() =~= entries0.skip(
                            m as int,
                        ).reverse().push(entries0[m - 1]));
                        assert(self.pending@ =~= old(self).pending@ + entries0.skip(
                            rest@.len() as int,
                        ).reverse());
                    }
                },
            }
        }
    }

    /// Ends the traversal, yielding the located target and key paths. Each
    /// slot holds the path of the last matching file visited, or `None` when
    /// no file of that name was ever seen.
    pub fn into_result(self) -> (located: (Option<String>, Option<String>))
        requires
            self.wf(),
        ensures
            path_option_view(located.0) == last_match(self.visited@, self.target_name@),
            path_option_view(located.1) == last_match_skipping(
                self.visited@,
                self.key_name@,
                self.target_name@,
            ),
    {
        (self.target, self.key)
    }
}

/// A partial result fails closed: the pipeline may proceed exactly when both
/// the target and the key were located; anything else is "not found".
pub fn both_located(located: (Option<String>, Option<String>)) -> (both: Option<(String, String)>)
    ensures
        (both is Some) <==> (located.0 is Some && located.1 is Some),
        (both matches Some(pair) ==> located.0 matches Some(t) && pair.0 == t),
        (both matches Some(pair) ==> located.1 matches Some(k) && pair.1 == k),
{
    match located {
        (Some(target), Some(key)) => Some((target, key)),
        _ => None,
    }
}

/// Traversal completeness: when the visited files hold exactly one file named
/// `target_name` (at position `ti`) and exactly one named `key_name` (at
/// position `ki`), the traversal locates both, each slot holding that file's
/// path.
pub proof fn lemma_locate_both_found(
    visited: Seq<(Seq<char>, Seq<char>)>,
    target_name: Seq<char>,
    key_name: Seq<char>,
    ti: int,
    ki: int,
)
    requires
        target_name != key_name,
        0 <= ti < visited.len(),
        visited[ti].0 == target_name,
        forall|i: int| 0 <= i < visited.len() && i != ti ==> visited[i].0 != target_name,
        0 <= ki < visited.len(),
        visited[ki].0 == key_name,
        forall|i: int| 0 <= i < visited.len() && i != ki ==> visited[i].0 != key_name,
    ensures
        last_match(visited, target_name) == Some(visited[ti].1),
        last_match_skipping(visited, key_name, target_name) == Some(visited[ki].1),
{
    lemma_last_match_found(visited, target_name, ti);
    lemma_last_match_skipping_eq(visited, key_name, target_name);
    lemma_last_match_found(visited, key_name, ki);
}

/// Last match wins: when two files both carry the sought name, at positions
/// `i` and then `j` in visit order, the slot ends up holding the path of the
/// one visited later.
pub proof fn lemma_locate_last_match_wins(
    visited: Seq<(Seq<char>, Seq<char>)>,
    name: Seq<char>,
    i: int,
    j: int,
)
    requires
        0 <= i < j < visited.len(),
        visited[i].0 == name,
        visited[j].0 == name,
        forall|l: int| j < l < visited.len() ==> visited[l].0 != name,
    ensures
        last_match(visited, name) == Some(visited[j].1),
{
    lemma_last_match_found(visited, name, j);
}

/// A partial match fails closed: when some visited file is named
/// `target_name` but none is named `key_name`, the traversal yields a target
/// path and no key path — and [`both_located`] then refuses to let the
/// pipeline proceed.
pub proof fn lemma_locate_partial_match(
    visited: Seq<(Seq<char>, Seq<char>)>,
    target_name: Seq<char>,
    key_name: Seq<char>,
    ti: int,
)
    requires
        target_name != key_name,
        0 <= ti < visited.len(),
        visited[ti].0 == target_name,
        forall|i: int| 0 <= i < visited.len() ==> visited[i].0 != key_name,
    ensures
        last_match(visited, target_name) is Some,
        last_match_skipping(visited, key_name, target_name) is None,
{
    lemma_last_match_present(visited, target_name, ti);
    lemma_last_match_skipping_eq(visited, key_name, target_name);
    lemma_last_match_absent(visited, key_name);
}

proof fn lemma_last_match_found(visited: Seq<(Seq<char>, Seq<char>)>, name: Seq<char>, i: int)
    requires
        0 <= i < visited.len(),
        visited[i].0 == name,
        forall|j: int| i < j < visited.len() ==> visited[j].0 != name,
    ensures
        last_match(visited, name) == Some(visited[i].1),
    decreases visited.len(),
{
    if i == visited.len() - 1 {
        assert(visited.last() == visited[i]);
    } else {
        assert(visited[visited.len() - 1].0 != name);
        let shorter = visited.drop_last();
        assert(shorter[i] == visited[i]);
        assert forall|j: int| i < j < shorter.len() implies shorter[j].0 != name by {
            assert(shorter[j] == visited[j]);
        }
        lemma_last_match_found(shorter, name, i);
    }
}

proof fn lemma_last_match_present(visited: Seq<(Seq<char>, Seq<char>)>, name: Seq<char>, i: int)
    requires
        0 <= i < visited.len(),
        visited[i].0 == name,
    ensures
        last_match(visited, name) is Some,
    decreases visited.len(),
{
    if visited.last().0 == name {
    } else {
        let shorter = visited.drop_last();
        assert(i < visited.len() - 1);
        assert(shorter[i] == visited[i]);
        lemma_last_match_present(shorter, name, i);
    }
}

proof fn lemma_last_match_absent(visited: Seq<(Seq<char>, Seq<char>)>, name: Seq<char>)
    requires
        forall|i: int| 0 <= i < visited.len() ==> visited[i].0 != name,
    ensures
        last_match(visited, name) is None,
    decreases visited.len(),
{
    if visited.len() > 0 {
        assert(visited[visited.len() - 1].0 != name);
        let shorter = visited.drop_last();
        assert forall|i: int| 0 <= i < shorter.len() implies shorter[i].0 != name by {
            assert(shorter[i] == visited[i]);
        }
        lemma_last_match_absent(shorter, name);
    }
}

/// When the two sought names differ, the key slot's skipping rule changes
/// nothing: it matches exactly the files named `name`.
proof fn lemma_last_match_skipping_eq(
    visited: Seq<(Seq<char>, Seq<char>)>,
    name: Seq<char>,
    taken: Seq<char>,
)
    requires
        name != taken,
    ensures
        last_match_skipping(visited, name, taken) == last_match(visited, name),
    decreases visited.len(),
{
    if visited.len() > 0 {
        lemma_last_match_skipping_eq(visited.drop_last(), name, taken);
    }
}

proof fn lemma_trailing_le_len(pending: Seq<WorkItem>)
    ensures
        trailing_file_count(pending) <= pending.len(),
    decreases pending.len(),
{
    if pending.len() > 0 && item_is_file(pending.last()) {
        lemma_trailing_le_len(pending.drop_last());
    }
}

proof fn lemma_trailing_of_take(pending: Seq<WorkItem>, count: nat)
    requires
        count <= trailing_file_count(pending),
    ensures
        trailing_file_count(pending.take(pending.len() - count)) == trailing_file_count(pending)
            - count,
    decreases count,
{
    lemma_trailing_le_len(pending);
    if count == 0 {
        assert(pending.take(pending.len() as int) =~= pending);
    } else {
        let shorter = pending.drop_last();
        assert(trailing_file_count(pending) == 1 + trailing_file_count(shorter));
        lemma_trailing_of_take(shorter, (count - 1) as nat);
        assert(pending.take(pending.len() - count) =~= shorter.take(
            shorter.len() - (count - 1),
        ));
    }
}

proof fn lemma_popped_visits_step(pending: Seq<WorkItem>, count: nat)
    requires
        count + 1 <= pending.len(),
    ensures
        popped_visits(pending, count + 1) == popped_visits(pending, count).push(
            file_visit(pending[pending.len() - count - 1]),
        ),
    decreases count,
{
    let shorter = pending.drop_last();
    if count == 0 {
        assert(popped_visits(shorter, 0) == Seq::<(Seq<char>, Seq<char>)>::empty());
        assert(popped_visits(pending, 1) == seq![file_visit(pending.last())] + popped_visits(
            shorter,
            0,
        ));
        assert(popped_visits(pending, 1) =~= popped_visits(pending, 0).push(
            file_visit(pending[pending.len() - 1]),
        ));
    } else {
        lemma_popped_visits_step(shorter, (count - 1) as nat);
        assert(shorter[shorter.len() - (count - 1) - 1] == pending[pending.len() - count - 1]);
        assert(popped_visits(pending, count + 1) == seq![file_visit(pending.last())]
            + popped_visits(shorter, count));
        assert(popped_visits(pending, count) == seq![file_visit(pending.last())] + popped_visits(
            shorter,
            (count - 1) as nat,
        ));
        assert(popped_visits(pending, count + 1) =~= popped_visits(pending, count).push(
            file_visit(pending[pending.len() - count - 1]),
        ));
    }
}

proof fn lemma_last_match_push(
    visited: Seq<(Seq<char>, Seq<char>)>,
    visit: (Seq<char>, Seq<char>),
    name: Seq<char>,
)
    ensures
        last_match(visited.push(visit), name) == (if visit.0 == name {
            Some(visit.1)
        } else {
            last_match(visited, name)
        }),
{
    let extended = visited.push(visit);
    assert(extended.last() == visit);
    assert(extended.drop_last() =~= visited);
}

proof fn lemma_last_match_skipping_push(
    visited: Seq<(Seq<char>, Seq<char>)>,
    visit: (Seq<char>, Seq<char>),
    name: Seq<char>,
    taken: Seq<char>,
)
    ensures
        last_match_skipping(visited.push(visit), name, taken) == (if visit.0 != taken && visit.0
            == name {
            Some(visit.1)
        } else {
            last_match_skipping(visited, name, taken)
        }),
{
    let extended = visited.push(visit);
    assert(extended.last() == visit);
    assert(extended.drop_last() =~= visited);
}

} // verus!
