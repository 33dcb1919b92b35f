//! Sets of paths in which none leads through another.

use vstd::prelude::*;

use crate::paths::{self, compare_components, components_within, Component, FilePath};
use crate::sorting::{self, sort, Sortable};
use crate::text::Order;

verus! {

/// The texts of some paths.
pub open spec fn path_texts(paths: Seq<FilePath>) -> Seq<Seq<char>> {
    paths.map_values(|path: FilePath| path@)
}

/// A path is one of the scopes or leads through one.
pub open spec fn covered(scopes: Seq<Seq<char>>, path: Seq<char>) -> bool {
    exists|i: int|
        0 <= i < scopes.len() && paths::within(
            paths::parts(path),
            paths::parts(#[trigger] scopes[i]),
        )
}

/// No scope is another one or leads through it.
pub open spec fn separate(scopes: Seq<Seq<char>>) -> bool {
    forall|i: int, j: int|
        #![trigger scopes[i], scopes[j]]
        0 <= i < scopes.len() && 0 <= j < scopes.len() && i != j ==> !paths::within(
            paths::parts(scopes[i]),
            paths::parts(scopes[j]),
        )
}

/// The scopes that do not lead through `path`.
pub open spec fn outside(scopes: Seq<Seq<char>>, path: Seq<char>) -> Seq<Seq<char>>
    decreases scopes.len(),
{
    if scopes.len() == 0 {
        Seq::empty()
    } else {
        let before = outside(scopes.drop_last(), path);
        if paths::within(paths::parts(scopes.last()), paths::parts(path)) {
            before
        } else {
            before.push(scopes.last())
        }
    }
}

/// The scopes with one more path: unchanged where a scope covers it, otherwise with the path in
/// place of the scopes that lead through it.
pub open spec fn absorb(scopes: Seq<Seq<char>>, path: Seq<char>) -> Seq<Seq<char>> {
    if covered(scopes, path) {
        scopes
    } else {
        outside(scopes, path).push(path)
    }
}

/// The scopes with several more paths.
pub open spec fn absorb_all(scopes: Seq<Seq<char>>, paths: Seq<Seq<char>>) -> Seq<Seq<char>>
    decreases paths.len(),
{
    if paths.len() == 0 {
        scopes
    } else {
        absorb(absorb_all(scopes, paths.drop_last()), paths.last())
    }
}

/// The paths are in their order.
pub open spec fn paths_sorted(paths: Seq<Seq<char>>) -> bool {
    forall|i: int, j: int|
        #![trigger paths[i], paths[j]]
        0 <= i < j < paths.len() ==> paths::parts_order(
            paths::parts(paths[i]),
            paths::parts(paths[j]),
        ) != Order::Greater
}

/// `list` holds the scopes with several more paths, in their order.
pub open spec fn settled(
    list: Seq<Seq<char>>,
    scopes: Seq<Seq<char>>,
    paths: Seq<Seq<char>>,
) -> bool {
    &&& paths_sorted(list)
    &&& list.to_multiset() == absorb_all(scopes, paths).to_multiset()
}

/// What stays outside a path.
proof fn outside_keeps(scopes: Seq<Seq<char>>, path: Seq<char>)
    ensures
        forall|i: int|
            #![trigger outside(scopes, path)[i]]
            0 <= i < outside(scopes, path).len() ==> !paths::within(
                paths::parts(outside(scopes, path)[i]),
                paths::parts(path),
            ) && scopes.contains(outside(scopes, path)[i]),
        forall|i: int|
            #![trigger scopes[i]]
            0 <= i < scopes.len() && !paths::within(
                paths::parts(scopes[i]),
                paths::parts(path),
            ) ==> outside(scopes, path).contains(scopes[i]),
    decreases scopes.len(),
{
    if scopes.len() > 0 {
        let rest = scopes.drop_last();
        let before = outside(rest, path);
        let all = outside(scopes, path);
        outside_keeps(rest, path);
        assert forall|i: int| #![trigger all[i]] 0 <= i < all.len() implies !paths::within(
            paths::parts(all[i]),
            paths::parts(path),
        ) && scopes.contains(all[i]) by {
            if i < before.len() {
                assert(all[i] == before[i]);
                let k = choose|k: int| 0 <= k < rest.len() && rest[k] == before[i];
                assert(scopes[k] == before[i]);
            } else {
                assert(scopes[scopes.len() - 1] == all[i]);
            }
        }
        assert forall|i: int|
            #![trigger scopes[i]]
            0 <= i < scopes.len() && !paths::within(
                paths::parts(scopes[i]),
                paths::parts(path),
            ) implies all.contains(scopes[i]) by {
            if i < rest.len() {
                assert(rest[i] == scopes[i]);
                let k = choose|k: int| 0 <= k < before.len() && before[k] == rest[i];
                assert(all[k] == before[k]);
            } else {
                assert(all[before.len() as int] == scopes[i]);
            }
        }
    }
}

proof fn outside_is_separate(scopes: Seq<Seq<char>>, path: Seq<char>)
    requires
        separate(scopes),
    ensures
        separate(outside(scopes, path)),
    decreases scopes.len(),
{
    if scopes.len() > 0 {
        let rest = scopes.drop_last();
        let before = outside(rest, path);
        let all = outside(scopes, path);
        assert(separate(rest)) by {
            assert forall|i: int, j: int|
                #![trigger rest[i], rest[j]]
                0 <= i < rest.len() && 0 <= j < rest.len() && i != j implies !paths::within(
                paths::parts(rest[i]),
                paths::parts(rest[j]),
            ) by {
                assert(rest[i] == scopes[i] && rest[j] == scopes[j]);
            }
        }
        outside_is_separate(rest, path);
        outside_keeps(rest, path);
        let last = scopes.len() - 1;
        assert forall|i: int, j: int|
            #![trigger all[i], all[j]]
            0 <= i < all.len() && 0 <= j < all.len() && i != j implies !paths::within(
            paths::parts(all[i]),
            paths::parts(all[j]),
        ) by {
            if i < before.len() && j < before.len() {
                assert(all[i] == before[i] && all[j] == before[j]);
            } else if i < before.len() {
                assert(all[i] == before[i] && all[j] == scopes[last]);
                let k = choose|k: int| 0 <= k < rest.len() && rest[k] == before[i];
                assert(scopes[k] == before[i]);
            } else {
                assert(all[j] == before[j] && all[i] == scopes[last]);
                let k = choose|k: int| 0 <= k < rest.len() && rest[k] == before[j];
                assert(scopes[k] == before[j]);
            }
        }
    }
}

/// Taking in a path keeps the scopes separate, covers the path and whatever was covered before,
/// and adds nothing but the path.
pub proof fn absorbing_keeps_scopes_minimal(scopes: Seq<Seq<char>>, path: Seq<char>)
    requires
        separate(scopes),
    ensures
        separate(absorb(scopes, path)),
        covered(absorb(scopes, path), path),
        forall|other: Seq<char>| #[trigger]
            covered(scopes, other) ==> covered(absorb(scopes, path), other),
        forall|i: int|
            #![trigger absorb(scopes, path)[i]]
            0 <= i < absorb(scopes, path).len() ==> absorb(scopes, path)[i] == path
                || scopes.contains(absorb(scopes, path)[i]),
{
    let result = absorb(scopes, path);
    paths::within_is_reflexive(paths::parts(path));
    if covered(scopes, path) {
    } else {
        let kept = outside(scopes, path);
        outside_keeps(scopes, path);
        outside_is_separate(scopes, path);
        assert(result[kept.len() as int] == path);
        assert forall|i: int, j: int|
            #![trigger result[i], result[j]]
            0 <= i < result.len() && 0 <= j < result.len() && i != j implies !paths::within(
            paths::parts(result[i]),
            paths::parts(result[j]),
        ) by {
            if i < kept.len() && j < kept.len() {
                assert(result[i] == kept[i] && result[j] == kept[j]);
            } else if i < kept.len() {
                assert(result[i] == kept[i] && result[j] == path);
            } else {
                assert(result[j] == kept[j] && result[i] == path);
                let k = choose|k: int| 0 <= k < scopes.len() && scopes[k] == kept[j];
                assert(scopes[k] == kept[j]);
            }
        }
        assert forall|other: Seq<char>| #[trigger] covered(scopes, other) implies covered(
            result,
            other,
        ) by {
            let i = choose|i: int|
                0 <= i < scopes.len() && paths::within(
                    paths::parts(other),
                    paths::parts(#[trigger] scopes[i]),
                );
            if paths::within(paths::parts(scopes[i]), paths::parts(path)) {
                paths::within_is_transitive(
                    paths::parts(other),
                    paths::parts(scopes[i]),
                    paths::parts(path),
                );
                assert(result[kept.len() as int] == path);
            } else {
                let k = choose|k: int| 0 <= k < kept.len() && kept[k] == scopes[i];
                assert(result[k] == kept[k]);
            }
        }
        assert forall|i: int| #![trigger result[i]] 0 <= i < result.len() implies result[i] == path
            || scopes.contains(result[i]) by {
            if i < kept.len() {
                assert(result[i] == kept[i]);
            }
        }
    }
}

/// Taking in several paths keeps the scopes separate, covers each of the paths and whatever was
/// covered before, and adds nothing but the paths.
pub proof fn absorbing_all_keeps_scopes_minimal(scopes: Seq<Seq<char>>, paths: Seq<Seq<char>>)
    requires
        separate(scopes),
    ensures
        separate(absorb_all(scopes, paths)),
        forall|i: int|
            0 <= i < paths.len() ==> covered(absorb_all(scopes, paths), #[trigger] paths[i]),
        forall|other: Seq<char>| #[trigger]
            covered(scopes, other) ==> covered(absorb_all(scopes, paths), other),
        forall|i: int|
            #![trigger absorb_all(scopes, paths)[i]]
            0 <= i < absorb_all(scopes, paths).len() ==> paths.contains(
                absorb_all(scopes, paths)[i],
            ) || scopes.contains(absorb_all(scopes, paths)[i]),
    decreases paths.len(),
{
    let result = absorb_all(scopes, paths);
    if paths.len() > 0 {
        let rest = paths.drop_last();
        let before = absorb_all(scopes, rest);
        absorbing_all_keeps_scopes_minimal(scopes, rest);
        absorbing_keeps_scopes_minimal(before, paths.last());
        assert forall|i: int| 0 <= i < paths.len() implies covered(
            result,
            #[trigger] paths[i],
        ) by {
            if i < rest.len() {
                assert(rest[i] == paths[i]);
                assert(covered(before, rest[i]));
            }
        }
        assert forall|i: int| #![trigger result[i]] 0 <= i < result.len() implies paths.contains(
            result[i],
        ) || scopes.contains(result[i]) by {
            if result[i] == paths.last() {
                assert(paths[paths.len() - 1] == result[i]);
            } else {
                let k = choose|k: int| 0 <= k < before.len() && before[k] == result[i];
                assert(paths.contains(before[k]) || scopes.contains(before[k]));
                if rest.contains(before[k]) {
                    let m = choose|m: int| 0 <= m < rest.len() && rest[m] == before[k];
                    assert(paths[m] == before[k]);
                }
            }
        }
    } else {
        assert forall|i: int| #![trigger result[i]] 0 <= i < result.len() implies scopes.contains(
            result[i],
        ) by {
            assert(scopes[i] == result[i]);
        }
    }
}

/// Settled scopes are separate, cover every path that was taken in and whatever the earlier
/// scopes covered, and hold nothing but paths that were taken in.
pub proof fn settled_scopes_are_minimal(
    list: Seq<Seq<char>>,
    scopes: Seq<Seq<char>>,
    paths: Seq<Seq<char>>,
)
    requires
        separate(scopes),
        settled(list, scopes, paths),
    ensures
        separate(list),
        forall|i: int| 0 <= i < paths.len() ==> covered(list, #[trigger] paths[i]),
        forall|other: Seq<char>| #[trigger] covered(scopes, other) ==> covered(list, other),
        forall|i: int|
            #![trigger list[i]]
            0 <= i < list.len() ==> paths.contains(list[i]) || scopes.contains(list[i]),
{
    broadcast use vstd::seq_lib::group_to_multiset_ensures;

    let all = absorb_all(scopes, paths);
    absorbing_all_keeps_scopes_minimal(scopes, paths);
    separate_in_any_order(all, list);
    assert forall|i: int| #![trigger list[i]] 0 <= i < list.len() implies paths.contains(list[i])
        || scopes.contains(list[i]) by {
        assert(list.contains(list[i]));
        assert(list.to_multiset().count(list[i]) > 0);
        assert(all.contains(list[i]));
        let k = choose|k: int| 0 <= k < all.len() && all[k] == list[i];
        assert(paths.contains(all[k]) || scopes.contains(all[k]));
    }
    assert forall|other: Seq<char>| covered(all, other) implies #[trigger] covered(
        list,
        other,
    ) by {
        let k = choose|k: int|
            0 <= k < all.len() && paths::within(
                paths::parts(other),
                paths::parts(#[trigger] all[k]),
            );
        assert(all.contains(all[k]));
        assert(all.to_multiset().count(all[k]) > 0);
        assert(list.contains(all[k]));
        let i = choose|i: int| 0 <= i < list.len() && list[i] == all[k];
        assert(paths::within(paths::parts(other), paths::parts(list[i])));
    }
}

/// Separate scopes stay separate in any order.
proof fn separate_in_any_order(left: Seq<Seq<char>>, right: Seq<Seq<char>>)
    requires
        separate(left),
        left.to_multiset() == right.to_multiset(),
    ensures
        separate(right),
{
    broadcast use vstd::seq_lib::group_to_multiset_ensures;

    assert forall|i: int, j: int|
        #![trigger right[i], right[j]]
        0 <= i < right.len() && 0 <= j < right.len() && i != j implies !paths::within(
        paths::parts(right[i]),
        paths::parts(right[j]),
    ) by {
        assert(right.contains(right[i]) && right.contains(right[j]));
        assert(right.to_multiset().count(right[i]) > 0);
        assert(right.to_multiset().count(right[j]) > 0);
        assert(left.contains(right[i]) && left.contains(right[j]));
        let a = choose|a: int| 0 <= a < left.len() && left[a] == right[i];
        let b = choose|b: int| 0 <= b < left.len() && left[b] == right[j];
        if a == b {
            no_duplicates(left);
            left.lemma_multiset_has_no_duplicates();
            right.lemma_multiset_has_no_duplicates_conv();
            assert(right.no_duplicates());
            assert(right[i] != right[j]);
        }
        assert(left[a] == right[i] && left[b] == right[j]);
    }
}

proof fn no_duplicates(scopes: Seq<Seq<char>>)
    requires
        separate(scopes),
    ensures
        scopes.no_duplicates(),
{
    assert forall|i: int, j: int|
        0 <= i < scopes.len() && 0 <= j < scopes.len() && i != j implies scopes[i] != scopes[j] by {
        paths::within_is_reflexive(paths::parts(scopes[i]));
    }
}

/// A path with its components.
struct Scope {
    path: FilePath,
    components: Vec<Component>,
}

spec fn scope_paths(list: Seq<Scope>) -> Seq<FilePath> {
    list.map_values(|scope: Scope| scope.path)
}

spec fn scope_texts(list: Seq<Scope>) -> Seq<Seq<char>> {
    list.map_values(|scope: Scope| scope.path@)
}

spec fn scopes_fit(list: Seq<Scope>) -> bool {
    forall|i: int| 0 <= i < list.len() ==> (#[trigger] list[i]).fits()
}

impl Scope {
    spec fn fits(&self) -> bool {
        paths::parts_in(self.components@) == self.path.parts()
    }
}

impl Sortable for Scope {
    closed spec fn place(&self, other: &Self) -> Order {
        paths::parts_order(
            paths::parts_in(self.components@),
            paths::parts_in(other.components@),
        )
    }

    proof fn place_is_antisymmetric(left: &Self, right: &Self) {
        paths::parts_order_is_antisymmetric(
            paths::parts_in(left.components@),
            paths::parts_in(right.components@),
        );
    }

    proof fn place_is_transitive(first: &Self, second: &Self, third: &Self) {
        paths::parts_order_is_transitive(
            paths::parts_in(first.components@),
            paths::parts_in(second.components@),
            paths::parts_in(third.components@),
        );
    }

    fn compare(&self, other: &Self) -> (order: Order) {
        compare_components(self.components.as_slice(), other.components.as_slice())
    }
}

fn scope_of(path: FilePath) -> (scope: Scope)
    ensures
        scope.fits(),
        scope.path == path,
{
    let components = path.components();
    Scope { path, components }
}

/// Takes one path into a list of scopes.
fn absorb_scope(list: Vec<Scope>, scope: Scope) -> (result: Vec<Scope>)
    requires
        scopes_fit(list@),
        scope.fits(),
    ensures
        scopes_fit(result@),
        scope_texts(result@) == absorb(scope_texts(list@), scope.path@),
{
    let ghost all = list@;
    let ghost texts = scope_texts(all);
    for i in 0..list.len()
        invariant
            list@ == all,
            texts == scope_texts(all),
            scopes_fit(all),
            scope.fits(),
            forall|k: int|
                0 <= k < i ==> !paths::within(
                    paths::parts(scope.path@),
                    paths::parts(#[trigger] texts[k]),
                ),
    {
        assert(all[i as int].fits());
        assert(texts[i as int] == all[i as int].path@);
        if components_within(scope.components.as_slice(), list[i].components.as_slice()) {
            assert(covered(texts, scope.path@));
            return list;
        }
    }
    assert(!covered(texts, scope.path@));
    let mut result: Vec<Scope> = Vec::new();
    assert(texts.take(0) =~= Seq::empty());
    for existing in it: list.into_iter()
        invariant
            it.seq() == all,
            texts == scope_texts(all),
            scopes_fit(all),
            scope.fits(),
            scopes_fit(result@),
            scope_texts(result@) =~= outside(texts.take(it.index()), scope.path@),
    {
        let ghost before = result@;
        proof {
            assert(all[it.index()].fits());
            assert(texts.take(it.index() + 1).drop_last() =~= texts.take(it.index()));
            assert(texts.take(it.index() + 1).last() == existing.path@);
        }
        if !components_within(existing.components.as_slice(), scope.components.as_slice()) {
            result.push(existing);
            assert(scope_texts(result@) =~= scope_texts(before).push(existing.path@));
        }
    }
    assert(texts.take(texts.len() as int) =~= texts);
    let ghost before = result@;
    result.push(scope);
    assert(scope_texts(result@) =~= scope_texts(before).push(scope.path@));
    result
}

/// Takes several paths into a list of scopes and puts them in order.
pub fn settle(scopes: Vec<FilePath>, paths: Vec<FilePath>) -> (result: Vec<FilePath>)
    ensures
        settled(path_texts(result@), path_texts(scopes@), path_texts(paths@)),
{
    let ghost start = path_texts(scopes@);
    let ghost scope_list = scopes@;
    let ghost path_list = paths@;
    let ghost added = path_texts(paths@);
    let mut list: Vec<Scope> = Vec::new();
    for path in it: scopes.into_iter()
        invariant
            it.seq() == scope_list,
            start == path_texts(scope_list),
            scopes_fit(list@),
            scope_texts(list@) =~= start.take(it.index()),
    {
        let ghost before = list@;
        list.push(scope_of(path));
        assert(scope_texts(list@) =~= scope_texts(before).push(path@));
        assert(start[it.index()] == path@);
    }
    assert(scope_texts(list@) =~= start);
    assert(added.take(0) =~= Seq::empty());
    for path in it: paths.into_iter()
        invariant
            it.seq() == path_list,
            added == path_texts(path_list),
            scopes_fit(list@),
            scope_texts(list@) == absorb_all(start, added.take(it.index())),
    {
        proof {
            assert(added.take(it.index() + 1).drop_last() =~= added.take(it.index()));
            assert(added.take(it.index() + 1).last() == path@);
        }
        list = absorb_scope(list, scope_of(path));
    }
    assert(added.take(added.len() as int) =~= added);
    let ghost unsorted = list@;
    let ordered = sort(list);
    let ghost sorted_list = ordered@;
    proof {
        sorting::same_values_map(unsorted, sorted_list, |scope: Scope| scope.path@);
        scopes_stay(unsorted, sorted_list);
    }
    let mut result: Vec<FilePath> = Vec::new();
    for scope in it: ordered.into_iter()
        invariant
            it.seq() == sorted_list,
            result@ =~= scope_paths(sorted_list).take(it.index()),
    {
        result.push(scope.path);
    }
    assert(path_texts(result@) =~= scope_texts(sorted_list));
    assert forall|i: int, j: int|
        #![trigger path_texts(result@)[i], path_texts(result@)[j]]
        0 <= i < j < path_texts(result@).len() implies paths::parts_order(
        paths::parts(path_texts(result@)[i]),
        paths::parts(path_texts(result@)[j]),
    ) != Order::Greater by {
        assert(sorted_list[i].fits() && sorted_list[j].fits());
        assert(sorted_list[i].place(&sorted_list[j]) != Order::Greater);
    }
    result
}

proof fn scopes_stay(before: Seq<Scope>, after: Seq<Scope>)
    requires
        scopes_fit(before),
        before.to_multiset() == after.to_multiset(),
    ensures
        scopes_fit(after),
{
    broadcast use vstd::seq_lib::group_to_multiset_ensures;

    assert forall|i: int| 0 <= i < after.len() implies (#[trigger] after[i]).fits() by {
        assert(after.contains(after[i]));
        assert(after.to_multiset().count(after[i]) > 0);
        assert(before.contains(after[i]));
        let k = choose|k: int| 0 <= k < before.len() && before[k] == after[i];
        assert(before[k].fits());
    }
}

/// Whether a path is one of the scopes or leads through one.
pub fn is_covered(scopes: &[FilePath], path: &FilePath) -> (inside: bool)
    ensures
        inside == covered(path_texts(scopes@), path@),
{
    let ghost texts = path_texts(scopes@);
    for i in 0..scopes.len()
        invariant
            texts == path_texts(scopes@),
            forall|k: int|
                0 <= k < i ==> !paths::within(
                    paths::parts(path@),
                    paths::parts(#[trigger] texts[k]),
                ),
    {
        assert(texts[i as int] == scopes@[i as int]@);
        if path.starts_with(&scopes[i]) {
            assert(covered(texts, path@));
            return true;
        }
    }
    false
}

} // verus!
