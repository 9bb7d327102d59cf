//! Filtered directory listings, and a sequence that is either one failure or many results.
use vstd::prelude::*;

use crate::naming::{is_record_file_name, is_record_name, lex_le, lex_lt, lex_step};

verus! {

#[verifier::external_type_specification]
#[verifier::external_body]
pub struct ExIoError(std::io::Error);

#[verifier::external_type_specification]
#[verifier::external_body]
pub struct ExJsonError(serde_json::Error);

/// Error while listing the contents of a directory.
#[derive(Debug)]
pub enum DirReadError {
    /// Could not open the directory for reading.
    DirReadFailed(std::io::Error),
    /// Could not read an entry of the directory.
    CouldNotReadEntry(std::io::Error),
    /// An entry name, given here as its raw bytes, is not valid Unicode.
    NonUnicodeFilename(Vec<u8>),
}

/// The texts held by a sequence of strings.
pub open spec fn views(s: Seq<String>) -> Seq<Seq<char>> {
    s.map_values(|x: String| x@)
}

/// Every text comes before or equals every later one.
pub open spec fn sorted_lex(s: Seq<Seq<char>>) -> bool {
    forall|i: int, j: int| 0 <= i < j < s.len() ==> lex_le(#[trigger] s[i], #[trigger] s[j])
}

/// `name` joined onto `root` as a path: with a `/` between them unless `root` is empty or
/// already ends in one.
pub open spec fn joined(root: Seq<char>, name: Seq<char>) -> Seq<char> {
    if root.len() == 0 || root.last() == '/' {
        root + name
    } else {
        root + seq!['/'] + name
    }
}

/// The paths under `root` of the record names among `names`, in the order of `names`.
pub open spec fn record_paths(root: Seq<char>, names: Seq<Seq<char>>) -> Seq<Seq<char>>
    decreases names.len(),
{
    if names.len() == 0 {
        seq![]
    } else {
        let rest = record_paths(root, names.drop_last());
        if is_record_name(names.last()) {
            rest.push(joined(root, names.last()))
        } else {
            rest
        }
    }
}

/// `paths` are the record paths of `names` under `root`, each as often as there, sorted.
pub open spec fn is_sorted_listing(
    root: Seq<char>,
    names: Seq<Seq<char>>,
    paths: Seq<Seq<char>>,
) -> bool {
    paths.to_multiset() == record_paths(root, names).to_multiset() && sorted_lex(paths)
}

/// Join `name` onto `root` as a path.
pub fn join_path(root: &str, name: &str) -> (r: String)
    ensures
        r@ == joined(root@, name@),
{
    let mut p = String::from_str(root);
    let n = root.unicode_len();
    if n > 0 && root.get_char(n - 1) != '/' {
        p.append("/");
    }
    p.append(name);
    proof {
        reveal_strlit("/");
    }
    p
}

/// Relies on `slice::sort` over `String`'s `Ord`: the same strings in ascending order,
/// strings comparing by code point.
#[verifier::external_body]
fn sort_strings(v: &mut Vec<String>)
    ensures
        views(final(v)@).to_multiset() == views(old(v)@).to_multiset(),
        sorted_lex(views(final(v)@)),
{
    v.sort();
}

/// The sorted paths under `root` of the record names in a directory listing.
///
/// `listing` is the directory's entry names, or the error that ended the listing; that error
/// is handed on.
pub fn read_dir_matching(root: &str, listing: Result<Vec<String>, DirReadError>) -> (r: Result<
    Vec<String>,
    DirReadError,
>)
    ensures
        match listing {
            Err(e) => r == Err::<Vec<String>, DirReadError>(e),
            Ok(names) => r matches Ok(paths) && is_sorted_listing(
                root@,
                views(names@),
                views(paths@),
            ),
        },
{
    let names = match listing {
        Ok(names) => names,
        Err(e) => return Err(e),
    };
    let mut paths: Vec<String> = Vec::new();
    let mut i: usize = 0;
    while i < names.len()
        invariant
            i <= names@.len(),
            views(paths@) == record_paths(root@, views(names@).subrange(0, i as int)),
        decreases names@.len() - i,
    {
        let name = &names[i];
        let ghost before = views(names@).subrange(0, i as int);
        let ghost after = views(names@).subrange(0, i + 1);
        assert(after.drop_last() =~= before);
        assert(after.last() == name@);
        if is_record_file_name(name.as_str()) {
            let p = join_path(root, name.as_str());
            paths.push(p);
            assert(views(paths@) =~= record_paths(root@, before).push(joined(root@, name@)));
        }
        i = i + 1;
    }
    assert(views(names@).subrange(0, names@.len() as int) =~= views(names@));
    sort_strings(&mut paths);
    Ok(paths)
}

/// A sequence that yields either one initial failure, or the results of an inner sequence.
///
/// Made by [`flatten_results`].
#[derive(Debug)]
pub enum FlattenResult<T, E> {
    /// The failure, until it has been yielded.
    Failed(Option<E>),
    /// The results not yet yielded.
    Inner(Vec<Result<T, E>>),
}

impl<T, E> FlattenResult<T, E> {
    /// What is left to yield, in order.
    pub open spec fn remaining(&self) -> Seq<Result<T, E>> {
        match self {
            FlattenResult::Failed(Some(e)) => seq![Err(*e)],
            FlattenResult::Failed(None) => seq![],
            FlattenResult::Inner(v) => v@,
        }
    }

    /// Yield the next item, if any.
    pub fn next(&mut self) -> (r: Option<Result<T, E>>)
        ensures
            old(self).remaining().len() == 0 ==> r is None && final(self).remaining().len() == 0,
            old(self).remaining().len() > 0 ==> r == Some(old(self).remaining()[0])
                && final(self).remaining() == old(self).remaining().drop_first(),
            *old(self) is Failed ==> *final(self) == FlattenResult::<T, E>::Failed(None),
            *old(self) matches FlattenResult::Inner(v) ==> (*final(self) matches FlattenResult::Inner(
                w,
            ) && w@ == if v@.len() > 0 {
                v@.drop_first()
            } else {
                v@
            }),
    {
        match self {
            FlattenResult::Failed(err) => match err.take() {
                Some(e) => {
                    assert(final(self).remaining() =~= seq![]);
                    Some(Err(e))
                },
                None => None,
            },
            FlattenResult::Inner(inner) => {
                if inner.len() == 0 {
                    None
                } else {
                    let item = inner.remove(0);
                    assert(inner@ =~= old(self).remaining().drop_first());
                    Some(item)
                }
            },
        }
    }
}

/// Turn a result of a sequence of results into one sequence of results: when iterated, it
/// yields the outer error, if there was one, and stops; otherwise it yields the inner results.
pub fn flatten_results<T, E>(r: Result<Vec<Result<T, E>>, E>) -> (f: FlattenResult<T, E>)
    ensures
        f == match r {
            Ok(v) => FlattenResult::Inner(v),
            Err(e) => FlattenResult::<T, E>::Failed(Some(e)),
        },
        f.remaining() == match r {
            Ok(v) => v@,
            Err(e) => seq![Err(e)],
        },
{
    match r {
        Ok(inner) => FlattenResult::Inner(inner),
        Err(e) => FlattenResult::Failed(Some(e)),
    }
}

/// Every path of `record_paths` is a record name of `names` joined onto the root, and
/// every record name of `names` gives one.
proof fn lemma_record_paths_members(root: Seq<char>, names: Seq<Seq<char>>)
    ensures
        forall|p: Seq<char>|
            #[trigger] record_paths(root, names).contains(p) ==> exists|n: Seq<char>|
                names.contains(n) && is_record_name(n) && p == joined(root, n),
        forall|n: Seq<char>|
            names.contains(n) && is_record_name(n) ==> #[trigger] record_paths(
                root,
                names,
            ).contains(joined(root, n)),
    decreases names.len(),
{
    if names.len() > 0 {
        let init = names.drop_last();
        lemma_record_paths_members(root, init);
        let rest = record_paths(root, init);
        assert forall|p: Seq<char>| #[trigger] record_paths(root, names).contains(p) implies exists|
            n: Seq<char>,
        | names.contains(n) && is_record_name(n) && p == joined(root, n) by {
            if rest.contains(p) {
                let n = choose|n: Seq<char>|
                    init.contains(n) && is_record_name(n) && p == joined(root, n);
                let k = choose|k: int| 0 <= k < init.len() && init[k] == n;
                assert(names[k] == n);
            } else {
                assert(names[names.len() - 1] == names.last());
            }
        }
        assert forall|n: Seq<char>| names.contains(n) && is_record_name(n) implies #[trigger] record_paths(
            root,
            names,
        ).contains(joined(root, n)) by {
            let k = choose|k: int| 0 <= k < names.len() && names[k] == n;
            if k < names.len() - 1 {
                assert(init[k] == n);
                assert(rest.contains(joined(root, n)));
                if is_record_name(names.last()) {
                    let j = choose|j: int| 0 <= j < rest.len() && rest[j] == joined(root, n);
                    assert(record_paths(root, names)[j] == joined(root, n));
                }
            } else {
                let all = record_paths(root, names);
                assert(all[all.len() - 1] == joined(root, n));
            }
        }
    }
}

/// A listing holds the path of every record name of the directory: a record that was
/// written under its own name is found again.
pub proof fn lemma_listing_finds_record(
    root: Seq<char>,
    names: Seq<Seq<char>>,
    paths: Seq<Seq<char>>,
    name: Seq<char>,
)
    requires
        is_sorted_listing(root, names, paths),
        names.contains(name),
        is_record_name(name),
    ensures
        paths.contains(joined(root, name)),
{
    broadcast use vstd::seq_lib::to_multiset_contains;

    lemma_record_paths_members(root, names);
    assert(record_paths(root, names).to_multiset().count(joined(root, name)) > 0);
}

/// A listing holds nothing but record names of the directory joined onto the root: entries
/// of any other name are left out.
pub proof fn lemma_listing_ignores_other_names(
    root: Seq<char>,
    names: Seq<Seq<char>>,
    paths: Seq<Seq<char>>,
)
    requires
        is_sorted_listing(root, names, paths),
    ensures
        forall|p: Seq<char>|
            #[trigger] paths.contains(p) ==> exists|n: Seq<char>|
                names.contains(n) && is_record_name(n) && p == joined(root, n),
{
    broadcast use vstd::seq_lib::to_multiset_contains;

    lemma_record_paths_members(root, names);
    assert forall|p: Seq<char>| #[trigger] paths.contains(p) implies exists|n: Seq<char>|
        names.contains(n) && is_record_name(n) && p == joined(root, n) by {
        assert(paths.to_multiset().count(p) > 0);
        assert(record_paths(root, names).contains(p));
    }
}

/// Joining two names onto one root keeps their order.
pub proof fn lemma_joined_keeps_order(root: Seq<char>, a: Seq<char>, b: Seq<char>)
    requires
        lex_lt(a, b),
    ensures
        lex_lt(joined(root, a), joined(root, b)),
{
    let i = choose|i: int|
        0 <= i <= a.len() && i <= b.len() && a.subrange(0, i) == b.subrange(0, i) && #[trigger] lex_step(
            a,
            b,
            i,
        );
    let pre = if root.len() == 0 || root.last() == '/' { root } else { root + seq!['/'] };
    let ja = joined(root, a);
    let jb = joined(root, b);
    assert(ja == pre + a);
    assert(jb == pre + b);
    let k = pre.len() + i;
    assert(ja.subrange(0, k) =~= pre + a.subrange(0, i));
    assert(jb.subrange(0, k) =~= pre + b.subrange(0, i));
    assert(lex_step(ja, jb, k));
}

/// No two texts each come strictly before the other.
proof fn lemma_lex_lt_asymmetric(a: Seq<char>, b: Seq<char>)
    requires
        lex_lt(a, b),
    ensures
        !lex_lt(b, a),
{
    let i = choose|i: int|
        0 <= i <= a.len() && i <= b.len() && a.subrange(0, i) == b.subrange(0, i) && #[trigger] lex_step(
            a,
            b,
            i,
        );
    if lex_lt(b, a) {
        let j = choose|j: int|
            0 <= j <= b.len() && j <= a.len() && b.subrange(0, j) == a.subrange(0, j) && #[trigger] lex_step(
                b,
                a,
                j,
            );
        if i < j {
            assert(a.subrange(0, j)[i] == b.subrange(0, j)[i]);
        } else if j < i {
            assert(a.subrange(0, i)[j] == b.subrange(0, i)[j]);
        }
    }
}

/// Two sorted sequences with the same elements are the same sequence.
proof fn lemma_sorted_unique(p: Seq<Seq<char>>, q: Seq<Seq<char>>)
    requires
        sorted_lex(p),
        sorted_lex(q),
        p.to_multiset() == q.to_multiset(),
    ensures
        p == q,
    decreases p.len(),
{
    broadcast use vstd::seq_lib::to_multiset_contains;
    broadcast use vstd::seq::group_seq_axioms;

    vstd::seq_lib::to_multiset_len(p);
    vstd::seq_lib::to_multiset_len(q);
    if p.len() > 0 {
        let a = p[0];
        let b = q[0];
        assert(p.to_multiset().count(a) > 0);
        assert(q.contains(a));
        let k = choose|k: int| 0 <= k < q.len() && q[k] == a;
        assert(q.to_multiset().count(b) > 0);
        assert(p.contains(b));
        let l = choose|l: int| 0 <= l < p.len() && p[l] == b;
        if a != b {
            assert(k > 0 && lex_le(q[0], q[k]));
            assert(l > 0 && lex_le(p[0], p[l]));
            lemma_lex_lt_asymmetric(a, b);
        }
        vstd::seq_lib::to_multiset_remove(p, 0);
        vstd::seq_lib::to_multiset_remove(q, 0);
        assert(p.remove(0) =~= p.drop_first());
        assert(q.remove(0) =~= q.drop_first());
        let p1 = p.drop_first();
        let q1 = q.drop_first();
        assert forall|i: int, j: int| 0 <= i < j < p1.len() implies lex_le(
            #[trigger] p1[i],
            #[trigger] p1[j],
        ) by {
            assert(p1[i] == p[i + 1] && p1[j] == p[j + 1]);
        }
        assert forall|i: int, j: int| 0 <= i < j < q1.len() implies lex_le(
            #[trigger] q1[i],
            #[trigger] q1[j],
        ) by {
            assert(q1[i] == q[i + 1] && q1[j] == q[j + 1]);
        }
        lemma_sorted_unique(p1, q1);
        assert(a == b);
        assert forall|i: int| 0 <= i < p.len() implies p[i] == q[i] by {
            if i > 0 {
                assert(p[i] == p1[i - 1] && q[i] == q1[i - 1]);
            }
        }
        assert(p =~= q);
    } else {
        assert(q.len() == 0);
        assert(p =~= q);
    }
}

/// Entries that are not record names add nothing to `record_paths`.
proof fn lemma_record_paths_skip_junk(root: Seq<char>, names: Seq<Seq<char>>, junk: Seq<Seq<char>>)
    requires
        forall|i: int| 0 <= i < junk.len() ==> !is_record_name(#[trigger] junk[i]),
    ensures
        record_paths(root, names + junk) == record_paths(root, names),
    decreases junk.len(),
{
    if junk.len() == 0 {
        assert(names + junk =~= names);
    } else {
        let init = junk.drop_last();
        assert((names + junk).drop_last() =~= names + init);
        assert((names + junk).last() == junk[junk.len() - 1]);
        lemma_record_paths_skip_junk(root, names, init);
    }
}

/// Entries of any name but a record name change nothing: the listing of a directory with
/// such entries added is the listing without them.
pub proof fn lemma_junk_changes_nothing(
    root: Seq<char>,
    names: Seq<Seq<char>>,
    junk: Seq<Seq<char>>,
    paths: Seq<Seq<char>>,
    paths_with_junk: Seq<Seq<char>>,
)
    requires
        forall|i: int| 0 <= i < junk.len() ==> !is_record_name(#[trigger] junk[i]),
        is_sorted_listing(root, names, paths),
        is_sorted_listing(root, names + junk, paths_with_junk),
    ensures
        paths_with_junk == paths,
{
    lemma_record_paths_skip_junk(root, names, junk);
    lemma_sorted_unique(paths_with_junk, paths);
}

} // verus!
