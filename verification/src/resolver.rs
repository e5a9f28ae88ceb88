//! Where a dependency of a package is looked for.
//!
//! The directories are those from the package up to the root of the file system. They are given
//! as a chain, in which each directory is followed by its parent.

use vstd::prelude::*;

use crate::text::{characters, contains, contains_text, occurs_at};

verus! {

/// A directory: its path as text and the last component of the path, if it has one.
#[verifier::ext_equal]
pub struct DirectoryModel {
    pub text: Seq<char>,
    pub name: Option<Seq<char>>,
}

/// A directory: its path as text and the last component of the path, if it has one.
#[derive(Debug)]
pub struct Directory {
    pub text: String,
    pub name: Option<String>,
}

impl View for Directory {
    type V = DirectoryModel;

    open spec fn view(&self) -> DirectoryModel {
        DirectoryModel {
            text: self.text@,
            name: match self.name {
                Some(name) => Some(name@),
                None => None,
            },
        }
    }
}

/// The directories of a chain.
pub open spec fn directories(chain: Seq<Directory>) -> Seq<DirectoryModel> {
    chain.map_values(|d: Directory| d@)
}

impl DirectoryModel {
    /// Whether the directory lies in the store of a package manager.
    pub open spec fn in_store(self) -> bool {
        ||| contains_text(self.text, "/.pnpm/"@)
        ||| contains_text(self.text, "\\.pnpm\\"@)
        ||| contains_text(self.text, "/.store/"@)
        ||| contains_text(self.text, "\\.store\\"@)
    }

    /// Whether the directory holds the packages of a scope.
    pub open spec fn is_scope(self) -> bool {
        self.name matches Some(name) && name.len() > 0 && name[0] == '@'
    }

    /// Whether the directory is a `node_modules` directory.
    pub open spec fn is_node_modules(self) -> bool {
        self.name == Some("node_modules"@)
    }
}

impl Directory {
    /// Whether the directory lies in the store of a package manager.
    pub fn is_in_store(&self) -> (found: bool)
        ensures
            found == self@.in_store(),
    {
        contains(self.text.as_str(), "/.pnpm/") || contains(self.text.as_str(), "\\.pnpm\\")
            || contains(self.text.as_str(), "/.store/") || contains(
            self.text.as_str(),
            "\\.store\\",
        )
    }

    /// Whether the directory holds the packages of a scope.
    pub fn is_scope_folder(&self) -> (scope: bool)
        ensures
            scope == self@.is_scope(),
    {
        match &self.name {
            Some(name) => {
                let chars = characters(name.as_str());
                chars.len() > 0 && chars[0] == '@'
            },
            None => false,
        }
    }

    /// Whether the directory is a `node_modules` directory.
    pub fn is_modules_folder(&self) -> (modules: bool)
        ensures
            modules == self@.is_node_modules(),
    {
        match &self.name {
            Some(name) => *name == "node_modules".to_owned(),
            None => false,
        }
    }
}

/// Whether the directory at position `i` has a parent.
pub open spec fn has_parent(chain: Seq<DirectoryModel>, i: int) -> bool {
    i + 1 < chain.len()
}

/// The parent of the directory at position `i`, if `skipped` and there is one, or else the
/// directory itself.
pub open spec fn stepped_over(chain: Seq<DirectoryModel>, i: int, skipped: bool) -> int {
    if skipped && has_parent(chain, i) {
        i + 1
    } else {
        i
    }
}

/// The directory that is reached from the one at position `i`: its parent, but a scope directory
/// is stepped over, unless the search comes from within a store, and then a `node_modules`
/// directory is.
pub open spec fn above(chain: Seq<DirectoryModel>, i: int) -> int {
    let parent = i + 1;
    let unscoped = stepped_over(
        chain,
        parent,
        !chain[i].in_store() && chain[parent].is_scope(),
    );
    stepped_over(chain, unscoped, chain[unscoped].is_node_modules())
}

/// The directory that is searched after the one at position `i`; none after the root of the file
/// system.
pub open spec fn next_of(chain: Seq<DirectoryModel>, i: int) -> Option<int> {
    if has_parent(chain, i) {
        Some(above(chain, i))
    } else {
        None
    }
}

/// The directories that are searched from the one at position `i` on.
pub open spec fn searched_from(chain: Seq<DirectoryModel>, i: int) -> Seq<int>
    decreases chain.len() - i,
{
    match next_of(chain, i) {
        Some(next) => seq![i] + searched_from(chain, next),
        None => seq![i],
    }
}

/// The directories that are searched, in order.
pub open spec fn searched(chain: Seq<DirectoryModel>) -> Seq<int> {
    if chain.len() == 0 {
        Seq::empty()
    } else {
        searched_from(chain, 0)
    }
}

/// The directory that is searched after the one at position `i`, if any.
pub fn next_directory(chain: &Vec<Directory>, i: usize) -> (next: Option<usize>)
    requires
        i < chain.len(),
    ensures
        match next {
            Some(next) => next_of(directories(chain@), i as int) == Some(next as int),
            None => next_of(directories(chain@), i as int) is None,
        },
{
    let len: usize = chain.len();
    if i + 1 >= len {
        return None;
    }
    let in_store = chain[i].is_in_store();
    let mut next: usize = i + 1;
    if !in_store && chain[next].is_scope_folder() && next + 1 < len {
        next = next + 1;
    }
    if chain[next].is_modules_folder() && next + 1 < len {
        next = next + 1;
    }
    Some(next)
}

/// Whether a look at the first `n` of the searched directories has found nothing.
pub open spec fn misses<P, Q: Fn(usize, &str, &str) -> Option<P>>(
    probe: Q,
    visits: Seq<int>,
    dependency_name: &str,
    n: int,
) -> bool {
    forall|k: int|
        0 <= k < n ==> call_ensures(
            probe,
            (#[trigger] visits[k] as usize, "node_modules", dependency_name),
            None,
        )
}

/// Whether `found` is the outcome of looking at the searched directories in order, until a look
/// finds the dependency.
pub open spec fn finds<P, Q: Fn(usize, &str, &str) -> Option<P>>(
    probe: Q,
    visits: Seq<int>,
    dependency_name: &str,
    found: Option<P>,
) -> bool {
    match found {
        Some(path) => exists|n: int|
            0 <= n < visits.len() && #[trigger] misses(probe, visits, dependency_name, n)
                && call_ensures(
                probe,
                (visits[n] as usize, "node_modules", dependency_name),
                Some(path),
            ),
        None => misses(probe, visits, dependency_name, visits.len() as int),
    }
}

/// Looks for a dependency in the `node_modules` directories from the first directory of the chain
/// upwards.
///
/// `probe` is asked for the dependency in the directory at a position of the chain: for the path
/// that is joined from that directory, `node_modules` and the name of the dependency.
pub fn resolve_dependency_path<P, Q: Fn(usize, &str, &str) -> Option<P>>(
    chain: &Vec<Directory>,
    dependency_name: &str,
    probe: Q,
) -> (found: Option<P>)
    requires
        forall|i: usize|
            i < chain.len() ==> #[trigger] call_requires(
                probe,
                (i, "node_modules", dependency_name),
            ),
    ensures
        finds(probe, searched(directories(chain@)), dependency_name, found),
{
    if chain.len() == 0 {
        return None;
    }
    let ghost dirs = directories(chain@);
    let ghost visits = searched(dirs);
    let ghost mut n: int = 0;
    let mut current: usize = 0;
    assert(visits =~= visits.take(0) + searched_from(dirs, 0));
    loop
        invariant
            current < chain.len(),
            dirs == directories(chain@),
            visits == searched(dirs),
            0 <= n < visits.len(),
            visits == visits.take(n) + searched_from(dirs, current as int),
            misses(probe, visits, dependency_name, n),
            forall|i: usize|
                i < chain.len() ==> #[trigger] call_requires(
                    probe,
                    (i, "node_modules", dependency_name),
                ),
        decreases chain.len() - current,
    {
        proof {
            lemma_searched_from_starts(dirs, current as int);
            assert(visits[n] == current);
        }
        let found = probe(current, "node_modules", dependency_name);
        if found.is_some() {
            return found;
        }
        match next_directory(chain, current) {
            None => {
                assert(visits.len() == n + 1);
                return None;
            },
            Some(next) => {
                proof {
                    assert(visits.take(n + 1) =~= visits.take(n) + seq![current as int]);
                    lemma_searched_from_starts(dirs, next as int);
                    assert(visits =~= visits.take(n + 1) + searched_from(dirs, next as int));
                    n = n + 1;
                }
                current = next;
            },
        }
    }
}

/// A search from a position looks there first.
proof fn lemma_searched_from_starts(chain: Seq<DirectoryModel>, i: int)
    ensures
        searched_from(chain, i).len() > 0,
        searched_from(chain, i)[0] == i,
{
}

/// The search goes upwards: it starts at the first directory, each directory that it looks at
/// lies above the one before, and the last one is the root of the file system.
pub proof fn law_search_goes_upwards(chain: Seq<DirectoryModel>)
    requires
        chain.len() > 0,
    ensures
        searched(chain).len() > 0,
        searched(chain)[0] == 0,
        forall|k: int| 0 <= k < searched(chain).len() ==> 0 <= #[trigger] searched(chain)[k]
            < chain.len(),
        forall|j: int, k: int|
            0 <= j < k < searched(chain).len() ==> searched(chain)[j] < searched(chain)[k],
        searched(chain).last() == chain.len() - 1,
{
    lemma_searched_from(chain, 0);
}

proof fn lemma_searched_from(chain: Seq<DirectoryModel>, i: int)
    requires
        0 <= i < chain.len(),
    ensures
        searched_from(chain, i).len() > 0,
        searched_from(chain, i)[0] == i,
        forall|k: int|
            0 <= k < searched_from(chain, i).len() ==> i <= #[trigger] searched_from(chain, i)[k]
                < chain.len(),
        forall|j: int, k: int|
            0 <= j < k < searched_from(chain, i).len() ==> searched_from(chain, i)[j]
                < searched_from(chain, i)[k],
        searched_from(chain, i).last() == chain.len() - 1,
        forall|k: int|
            0 < k < searched_from(chain, i).len() ==> next_of(
                chain,
                searched_from(chain, i)[k - 1],
            ) == Some(#[trigger] searched_from(chain, i)[k]),
    decreases chain.len() - i,
{
    if let Some(next) = next_of(chain, i) {
        lemma_searched_from(chain, next);
        let rest = searched_from(chain, next);
        let all = searched_from(chain, i);
        assert(all =~= seq![i] + rest);
        assert forall|j: int, k: int| 0 <= j < k < all.len() implies all[j] < all[k] by {
            if j > 0 {
                assert(rest[j - 1] < rest[k - 1]);
            } else {
                assert(rest[k - 1] >= next);
            }
        }
        assert(all.last() == rest.last());
        assert forall|k: int| 0 < k < all.len() implies next_of(chain, all[k - 1]) == Some(
            #[trigger] all[k],
        ) by {
            if k > 1 {
                assert(next_of(chain, rest[k - 2]) == Some(rest[k - 1]));
            }
        }
    }
}

/// The search leaves nothing out: a directory that it does not look inside is a scope directory or
/// a `node_modules` directory.
pub proof fn law_search_leaves_nothing_out(chain: Seq<DirectoryModel>, j: int)
    requires
        0 <= j < chain.len(),
    ensures
        searched(chain).contains(j) || chain[j].is_scope() || chain[j].is_node_modules(),
{
    lemma_searched_from_leaves_nothing_out(chain, 0, j);
}

proof fn lemma_searched_from_leaves_nothing_out(chain: Seq<DirectoryModel>, i: int, j: int)
    requires
        0 <= i <= j < chain.len(),
    ensures
        searched_from(chain, i).contains(j) || chain[j].is_scope() || chain[j].is_node_modules(),
    decreases chain.len() - i,
{
    let all = searched_from(chain, i);
    assert(all[0] == i);
    if let Some(next) = next_of(chain, i) {
        if next <= j {
            lemma_searched_from_leaves_nothing_out(chain, next, j);
            let rest = searched_from(chain, next);
            if rest.contains(j) {
                assert(all[rest.index_of(j) + 1] == j);
            }
        }
    }
}

/// After its first directory, and the root left aside, the search looks inside a `node_modules`
/// directory only where that lies directly around another one, and inside a scope directory only
/// where it comes from within a store or the scope directory lies directly around another scope or
/// `node_modules` directory.
pub proof fn law_search_steps_over(chain: Seq<DirectoryModel>, k: int)
    requires
        0 < k < searched(chain).len(),
        has_parent(chain, searched(chain)[k]),
    ensures
        ({
            let here = searched(chain)[k];
            let from = searched(chain)[k - 1];
            &&& chain[here].is_node_modules() ==> chain[here - 1].is_node_modules() && from < here
                - 1
            &&& chain[here].is_scope() ==> chain[from].in_store() || (from < here - 1 && (
            chain[here - 1].is_scope() || chain[here - 1].is_node_modules()))
        }),
{
    lemma_searched_from(chain, 0);
    let here = searched(chain)[k];
    let from = searched(chain)[k - 1];
    assert(next_of(chain, from) == Some(here));
}

/// What `probe` answers for the searched directories, in order, decides: the first answer that is
/// a path is the outcome.
pub proof fn law_nearest_package_is_found<P, Q: Fn(usize, &str, &str) -> Option<P>>(
    probe: Q,
    visits: Seq<int>,
    dependency_name: &str,
    answers: Seq<Option<P>>,
    found: Option<P>,
)
    requires
        answers.len() == visits.len(),
        forall|k: int, answer: Option<P>|
            0 <= k < visits.len() && #[trigger] call_ensures(
                probe,
                (visits[k] as usize, "node_modules", dependency_name),
                answer,
            ) ==> answer == answers[k],
        finds(probe, visits, dependency_name, found),
    ensures
        match found {
            Some(path) => exists|n: int|
                0 <= n < answers.len() && #[trigger] answers[n] == Some(path) && forall|k: int|
                    0 <= k < n ==> #[trigger] answers[k] is None,
            None => forall|k: int| 0 <= k < answers.len() ==> #[trigger] answers[k] is None,
        },
{
    if let Some(path) = found {
        let n = choose|n: int|
            0 <= n < visits.len() && #[trigger] misses(probe, visits, dependency_name, n)
                && call_ensures(
                probe,
                (visits[n] as usize, "node_modules", dependency_name),
                Some(path),
            );
        assert(answers[n] == Some(path));
        assert forall|k: int| 0 <= k < n implies #[trigger] answers[k] is None by {
            assert(call_ensures(
                probe,
                (visits[k] as usize, "node_modules", dependency_name),
                None,
            ));
        }
    } else {
        assert forall|k: int| 0 <= k < answers.len() implies #[trigger] answers[k] is None by {
            assert(call_ensures(
                probe,
                (visits[k] as usize, "node_modules", dependency_name),
                None,
            ));
        }
    }
}

/// Whether `resolved` is the outcome for a path: nothing where it does not exist. Otherwise the
/// path with its links resolved, or the path itself where they cannot be, if a `package.json` is
/// there.
pub open spec fn resolves<
    P,
    E: Fn(&P) -> bool,
    C: Fn(&P) -> Option<P>,
    H: Fn(&P, &str) -> bool,
>(is_there: E, canonicalize: C, has_file: H, path: P, resolved: Option<P>) -> bool {
    ||| call_ensures(is_there, (&path,), false) && resolved is None
    ||| call_ensures(is_there, (&path,), true) && exists|canonical: Option<P>| #[trigger]
        call_ensures(canonicalize, (&path,), canonical) && {
            let place = match canonical {
                Some(place) => place,
                None => path,
            };
            ||| call_ensures(has_file, (&place, "package.json"), true) && resolved == Some(place)
            ||| call_ensures(has_file, (&place, "package.json"), false) && resolved is None
        }
}

/// The package at a path: the path with its links resolved, if it is there and holds a
/// `package.json`.
pub fn try_resolve_with_symlinks<
    P,
    E: Fn(&P) -> bool,
    C: Fn(&P) -> Option<P>,
    H: Fn(&P, &str) -> bool,
>(path: P, is_there: E, canonicalize: C, has_file: H) -> (resolved: Option<P>)
    requires
        call_requires(is_there, (&path,)),
        call_requires(canonicalize, (&path,)),
        forall|p: P| #[trigger] call_requires(has_file, (&p, "package.json")),
    ensures
        resolves(is_there, canonicalize, has_file, path, resolved),
{
    if !is_there(&path) {
        return None;
    }
    let canonical = canonicalize(&path);
    let ghost known = canonical;
    let place = match canonical {
        Some(place) => place,
        None => path,
    };
    assert(call_ensures(canonicalize, (&path,), known));
    if has_file(&place, "package.json") {
        Some(place)
    } else {
        None
    }
}

/// What contracts say of a chain is what its directories hold.
pub proof fn law_chain_is_seen_as_it_is(chain: Seq<Directory>, i: int)
    requires
        0 <= i < chain.len(),
    ensures
        directories(chain).len() == chain.len(),
        directories(chain)[i].text == chain[i].text@,
        chain[i].name matches Some(name) ==> directories(chain)[i].name == Some(name@),
        chain[i].name is None ==> directories(chain)[i].name is None,
{
}

/// A directory is searched, whatever it is called, unless its name begins with `@` or is
/// `node_modules`.
pub proof fn law_ordinary_directories_are_searched(chain: Seq<DirectoryModel>, j: int)
    requires
        0 <= j < chain.len(),
        chain[j].name matches Some(name) ==> (name.len() > 0 ==> name[0] != '@') && name
            != "node_modules"@,
    ensures
        searched(chain).contains(j),
{
    law_search_leaves_nothing_out(chain, j);
}

/// A `node_modules` directory is not searched, unless the search starts there, or it is the last
/// directory, or there is another one directly inside it.
pub proof fn law_node_modules_is_stepped_over(chain: Seq<DirectoryModel>, j: int)
    requires
        0 < j < chain.len() - 1,
        chain[j].name == Some("node_modules"@),
        chain[j - 1].name != Some("node_modules"@),
    ensures
        !searched(chain).contains(j),
{
    if searched(chain).contains(j) {
        lemma_searched_from(chain, 0);
        let k = searched(chain).index_of(j);
        assert(searched(chain)[k] == j);
        law_search_steps_over(chain, k);
    }
}

/// A directory whose name begins with `@` is not searched, if the search comes to it from an
/// ordinary directory that does not lie in a store.
pub proof fn law_scope_is_stepped_over(chain: Seq<DirectoryModel>, j: int, scope: Seq<char>)
    requires
        0 < j < chain.len() - 1,
        chain[j].name == Some(scope),
        scope.len() > 0,
        scope[0] == '@',
        chain[j - 1].name matches Some(name) ==> (name.len() > 0 ==> name[0] != '@') && name
            != "node_modules"@,
        forall|p: int| !#[trigger] occurs_at(chain[j - 1].text, "/.pnpm/"@, p),
        forall|p: int| !#[trigger] occurs_at(chain[j - 1].text, "\\.pnpm\\"@, p),
        forall|p: int| !#[trigger] occurs_at(chain[j - 1].text, "/.store/"@, p),
        forall|p: int| !#[trigger] occurs_at(chain[j - 1].text, "\\.store\\"@, p),
    ensures
        !searched(chain).contains(j),
{
    if searched(chain).contains(j) {
        let k = searched(chain).index_of(j);
        assert(searched(chain)[k] == j);
        law_search_goes_upwards(chain);
        law_search_goes_past_two_at_most(chain, k);
        let from = searched(chain)[k - 1];
        assert(from == j - 1);
        law_searched_directories_follow_each_other(chain, k - 1);
        law_next_directory_by_names(chain, from);
    }
}

/// Within a store no scope directory is stepped over: from a directory whose path names a store the
/// search goes on with the parent, unless that is a `node_modules` directory.
pub proof fn law_scope_in_a_store_is_searched(chain: Seq<DirectoryModel>, j: int, p: int)
    requires
        0 < j < chain.len(),
        searched(chain).contains(j - 1),
        chain[j].name != Some("node_modules"@),
        occurs_at(chain[j - 1].text, "/.pnpm/"@, p) || occurs_at(
            chain[j - 1].text,
            "\\.pnpm\\"@,
            p,
        ) || occurs_at(chain[j - 1].text, "/.store/"@, p) || occurs_at(
            chain[j - 1].text,
            "\\.store\\"@,
            p,
        ),
    ensures
        searched(chain).contains(j),
{
    let k = searched(chain).index_of(j - 1);
    assert(searched(chain)[k] == j - 1);
    law_searched_directories_follow_each_other(chain, k);
    law_next_directory_by_names(chain, j - 1);
    assert(next_of(chain, j - 1) == Some(j));
    assert(searched(chain)[k + 1] == j);
}

/// From a directory the search goes on with one of the three above it. It goes past the parent only
/// if that is called `node_modules` or begins with `@`, and past the one above only if that is
/// called `node_modules`.
pub proof fn law_search_goes_past_two_at_most(chain: Seq<DirectoryModel>, k: int)
    requires
        0 < k < searched(chain).len(),
    ensures
        ({
            let from = searched(chain)[k - 1];
            let here = searched(chain)[k];
            &&& from + 1 <= here <= from + 3
            &&& here >= from + 2 ==> chain[from + 1].name == Some("node_modules"@) || (
            chain[from + 1].name matches Some(name) && name.len() > 0 && name[0] == '@')
            &&& here == from + 3 ==> chain[from + 2].name == Some("node_modules"@) && (
            chain[from + 1].name matches Some(name) && name.len() > 0 && name[0] == '@')
        }),
{
    lemma_searched_from(chain, 0);
    assert(next_of(chain, searched(chain)[k - 1]) == Some(searched(chain)[k]));
    reveal_strlit("node_modules");
}

/// The search goes on with the parent, and not after the last directory. If the name of the parent
/// begins with `@`, and the path that the search comes from names no store, it goes on with the
/// parent of that. If what it has come to is called `node_modules` it goes on with the parent of
/// that. The last directory is never left behind.
pub proof fn law_next_directory_by_names(chain: Seq<DirectoryModel>, i: int)
    requires
        0 <= i < chain.len(),
    ensures
        ({
            let text = chain[i].text;
            let store = exists|p: int|
                #![trigger occurs_at(text, "/.pnpm/"@, p)]
                #![trigger occurs_at(text, "\\.pnpm\\"@, p)]
                #![trigger occurs_at(text, "/.store/"@, p)]
                #![trigger occurs_at(text, "\\.store\\"@, p)]
                occurs_at(text, "/.pnpm/"@, p) || occurs_at(text, "\\.pnpm\\"@, p) || occurs_at(
                    text,
                    "/.store/"@,
                    p,
                ) || occurs_at(text, "\\.store\\"@, p);
            let scope = chain[i + 1].name matches Some(name) && name.len() > 0 && name[0] == '@';
            let over_scope = scope && !store && i + 2 < chain.len();
            &&& i + 1 == chain.len() ==> next_of(chain, i) is None
            &&& i + 1 < chain.len() && over_scope && chain[i + 2].name == Some("node_modules"@) && i
                + 3 < chain.len() ==> next_of(chain, i) == Some(i + 3)
            &&& i + 1 < chain.len() && over_scope && !(chain[i + 2].name == Some("node_modules"@)
                && i + 3 < chain.len()) ==> next_of(chain, i) == Some(i + 2)
            &&& i + 1 < chain.len() && !over_scope && chain[i + 1].name == Some("node_modules"@) && i
                + 2 < chain.len() ==> next_of(chain, i) == Some(i + 2)
            &&& i + 1 < chain.len() && !over_scope && !(chain[i + 1].name == Some("node_modules"@)
                && i + 2 < chain.len()) ==> next_of(chain, i) == Some(i + 1)
        }),
{
    let text = chain[i].text;
    if chain[i].in_store() {
        if contains_text(text, "/.pnpm/"@) {
            let p = choose|p: int| #[trigger] occurs_at(text, "/.pnpm/"@, p);
            assert(occurs_at(text, "/.pnpm/"@, p));
        } else if contains_text(text, "\\.pnpm\\"@) {
            let p = choose|p: int| #[trigger] occurs_at(text, "\\.pnpm\\"@, p);
            assert(occurs_at(text, "\\.pnpm\\"@, p));
        } else if contains_text(text, "/.store/"@) {
            let p = choose|p: int| #[trigger] occurs_at(text, "/.store/"@, p);
            assert(occurs_at(text, "/.store/"@, p));
        } else {
            let p = choose|p: int| #[trigger] occurs_at(text, "\\.store\\"@, p);
            assert(occurs_at(text, "\\.store\\"@, p));
        }
    }
}

/// The directories that are searched are the first one and then, again and again, the next one.
pub proof fn law_searched_directories_follow_each_other(chain: Seq<DirectoryModel>, k: int)
    requires
        0 <= k < searched(chain).len(),
    ensures
        searched(chain)[0] == 0,
        k + 1 < searched(chain).len() ==> next_of(chain, searched(chain)[k]) == Some(
            searched(chain)[k + 1],
        ),
        k + 1 == searched(chain).len() ==> searched(chain)[k] == chain.len() - 1,
{
    lemma_searched_from(chain, 0);
    if k + 1 < searched(chain).len() {
        assert(next_of(chain, searched(chain)[k + 1 - 1]) == Some(searched(chain)[k + 1]));
    }
}

/// The search comes to an answer by looking at the directories in order: the look at each directory
/// before the last one has found nothing, and the answer is what the last look has found. It ends
/// with the first hit, or when there is no directory left.
pub proof fn law_search_ends_with_the_first_hit<P, Q: Fn(usize, &str, &str) -> Option<P>>(
    probe: Q,
    visits: Seq<int>,
    dependency_name: &str,
    found: Option<P>,
)
    requires
        finds(probe, visits, dependency_name, found),
    ensures
        found is None ==> forall|k: int|
            0 <= k < visits.len() ==> call_ensures(
                probe,
                (#[trigger] visits[k] as usize, "node_modules", dependency_name),
                None,
            ),
        found is Some ==> exists|n: int|
            0 <= n < visits.len() && call_ensures(
                probe,
                (#[trigger] visits[n] as usize, "node_modules", dependency_name),
                found,
            ) && forall|k: int|
                0 <= k < n ==> call_ensures(
                    probe,
                    (#[trigger] visits[k] as usize, "node_modules", dependency_name),
                    None,
                ),
{
    if let Some(path) = found {
        let n = choose|n: int|
            0 <= n < visits.len() && #[trigger] misses(probe, visits, dependency_name, n)
                && call_ensures(
                probe,
                (visits[n] as usize, "node_modules", dependency_name),
                Some(path),
            );
        assert(call_ensures(
            probe,
            (visits[n] as usize, "node_modules", dependency_name),
            found,
        ));
    }
}

/// What becomes of a path, by what the file system answers: nothing if it is not there; otherwise
/// the path with its links resolved, or the path itself if they cannot be, provided that a
/// `package.json` lies there.
pub proof fn law_package_is_looked_for_behind_links<
    P,
    E: Fn(&P) -> bool,
    C: Fn(&P) -> Option<P>,
    H: Fn(&P, &str) -> bool,
>(
    is_there: E,
    canonicalize: C,
    has_file: H,
    path: P,
    there: bool,
    canonical: Option<P>,
    package: bool,
    resolved: Option<P>,
)
    requires
        resolves(is_there, canonicalize, has_file, path, resolved),
        forall|answer: bool| #[trigger]
            call_ensures(is_there, (&path,), answer) ==> answer == there,
        forall|answer: Option<P>| #[trigger]
            call_ensures(canonicalize, (&path,), answer) ==> answer == canonical,
        forall|answer: bool|
            canonical is Some && #[trigger] call_ensures(
                has_file,
                (&canonical->Some_0, "package.json"),
                answer,
            ) ==> answer == package,
        forall|answer: bool|
            canonical is None && #[trigger] call_ensures(has_file, (&path, "package.json"), answer)
                ==> answer == package,
    ensures
        !there ==> resolved is None,
        !package ==> resolved is None,
        there && package && canonical is Some ==> resolved == canonical,
        there && package && canonical is None ==> resolved == Some(path),
{
}

} // verus!
