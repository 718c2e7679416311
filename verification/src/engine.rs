//! The traversal engine's decision core: seeding the per-root accumulators,
//! the quiescence test the supervisor polls, draining partial counters into
//! the root counters, and the laws that make the result independent of the
//! order in which workers deliver their results.

use vstd::prelude::*;
use vstd::seq_lib::{commutative_foldl, group_to_multiset_ensures, lemma_fold_left_permutation};

use crate::cmdargs::OrderBy;
use crate::ledger::{lemma_map_total_insert, map_total};
use crate::walker::{spec_is_ancestor, Counter};

verus! {

/// Lexicographic order on character sequences, by code point.
pub open spec fn lex_le(a: Seq<char>, b: Seq<char>) -> bool
    decreases a.len(),
{
    if a.len() == 0 {
        true
    } else if b.len() == 0 {
        false
    } else if a[0] == b[0] {
        lex_le(a.drop_first(), b.drop_first())
    } else {
        (a[0] as u32) < (b[0] as u32)
    }
}

/// Any two character sequences are lexicographically comparable.
pub proof fn lemma_lex_le_total(a: Seq<char>, b: Seq<char>)
    ensures
        lex_le(a, b) || lex_le(b, a),
    decreases a.len(),
{
    if a.len() == 0 {
    } else if b.len() == 0 {
        assert(lex_le(b, a));
    } else if a[0] == b[0] {
        lemma_lex_le_total(a.drop_first(), b.drop_first());
        assert(lex_le(a, b) == lex_le(a.drop_first(), b.drop_first()));
        assert(lex_le(b, a) == lex_le(b.drop_first(), a.drop_first()));
    } else {
        // Distinct characters have distinct code points.
        vstd::utf8::char_u32_cast(a[0], a[0] as u32);
        vstd::utf8::char_u32_cast(b[0], b[0] as u32);
        assert((a[0] as u32) != (b[0] as u32));
    }
}

/// The lexicographic order is transitive.
pub proof fn lemma_lex_le_trans(a: Seq<char>, b: Seq<char>, c: Seq<char>)
    requires
        lex_le(a, b),
        lex_le(b, c),
    ensures
        lex_le(a, c),
    decreases a.len(),
{
    if a.len() > 0 && b.len() > 0 && c.len() > 0 {
        if a[0] == b[0] && b[0] == c[0] {
            lemma_lex_le_trans(a.drop_first(), b.drop_first(), c.drop_first());
        }
    }
}

/// Decides the lexicographic order on two strings.
pub fn str_le(a: &str, b: &str) -> (r: bool)
    ensures
        r == lex_le(a@, b@),
{
    let la = a.unicode_len();
    let lb = b.unicode_len();
    let mut i: usize = 0;
    proof {
        assert(a@.skip(0) =~= a@);
        assert(b@.skip(0) =~= b@);
    }
    while i < la && i < lb
        invariant
            i <= la,
            i <= lb,
            la == a@.len(),
            lb == b@.len(),
            lex_le(a@, b@) == lex_le(a@.skip(i as int), b@.skip(i as int)),
        decreases la - i,
    {
        let ca = a.get_char(i);
        let cb = b.get_char(i);
        proof {
            assert(a@.skip(i as int)[0] == a@[i as int]);
            assert(b@.skip(i as int)[0] == b@[i as int]);
            assert(a@.skip(i as int).drop_first() =~= a@.skip(i as int + 1));
            assert(b@.skip(i as int).drop_first() =~= b@.skip(i as int + 1));
        }
        if ca != cb {
            return (ca as u32) < (cb as u32);
        }
        i = i + 1;
    }
    proof {
        if i >= la {
            assert(a@.skip(i as int).len() == 0);
        } else {
            assert(b@.skip(i as int).len() == 0);
            assert(a@.skip(i as int).len() > 0);
        }
    }
    la <= lb
}

/// One counter per root path, all zeroed, each with a ledger exactly when
/// size accounting is requested.
pub fn seed_counters(roots: &Vec<String>, with_size: bool) -> (r: Vec<Counter>)
    ensures
        r@.len() == roots@.len(),
        forall|i: int|
            0 <= i < roots@.len() ==> {
                &&& (#[trigger] r@[i]).wf()
                &&& r@[i].dirpath@ == roots@[i]@
                &&& r@[i].n_files == 0
                &&& r@[i].n_dirs == 0
                &&& r@[i].with_size() == with_size
                &&& r@[i].ledger() == Map::<u64, u64>::empty()
            },
{
    let mut out: Vec<Counter> = Vec::new();
    let n = roots.len();
    let mut i: usize = 0;
    while i < n
        invariant
            i <= n,
            n == roots@.len(),
            out@.len() == i,
            forall|j: int|
                0 <= j < i ==> {
                    &&& (#[trigger] out@[j]).wf()
                    &&& out@[j].dirpath@ == roots@[j]@
                    &&& out@[j].n_files == 0
                    &&& out@[j].n_dirs == 0
                    &&& out@[j].with_size() == with_size
                    &&& out@[j].ledger() == Map::<u64, u64>::empty()
                },
        decreases n - i,
    {
        out.push(Counter::new(&roots[i], with_size));
        i = i + 1;
    }
    out
}

/// Whether every worker's busy/idle flag reads idle.
pub fn all_idle(flags: &Vec<bool>) -> (r: bool)
    ensures
        r <==> forall|i: int| 0 <= i < flags@.len() ==> flags@[i],
{
    let n = flags.len();
    let mut i: usize = 0;
    while i < n
        invariant
            i <= n,
            n == flags@.len(),
            forall|j: int| 0 <= j < i ==> flags@[j],
        decreases n - i,
    {
        if !flags[i] {
            return false;
        }
        i = i + 1;
    }
    true
}

/// The quiescence test the supervisor polls: traversal is complete exactly
/// when every worker is idle and the work queue is observably empty. In
/// particular completion is never reported while the queue holds work.
pub fn traversal_complete(idle_flags: &Vec<bool>, queue_empty: bool) -> (r: bool)
    ensures
        r <==> (queue_empty && forall|i: int| 0 <= i < idle_flags@.len() ==> idle_flags@[i]),
        r ==> queue_empty,
{
    queue_empty && all_idle(idle_flags)
}

/// The step a draining pass makes on a root's file count.
pub open spec fn files_step(path: Seq<char>) -> spec_fn(int, Counter) -> int {
    |acc: int, p: Counter|
        if spec_is_ancestor(path, p.dirpath@) {
            acc + p.n_files
        } else {
            acc
        }
}

/// The step a draining pass makes on a root's directory count.
pub open spec fn dirs_step(path: Seq<char>) -> spec_fn(int, Counter) -> int {
    |acc: int, p: Counter|
        if spec_is_ancestor(path, p.dirpath@) {
            acc + p.n_dirs
        } else {
            acc
        }
}

/// The step a draining pass makes on a root's ledger.
pub open spec fn ledger_step(path: Seq<char>, has: bool) -> spec_fn(
    Map<u64, u64>,
    Counter,
) -> Map<u64, u64> {
    |acc: Map<u64, u64>, p: Counter|
        if has && spec_is_ancestor(path, p.dirpath@) {
            p.ledger().union_prefer_right(acc)
        } else {
            acc
        }
}

/// The step a draining pass makes on a root's set of recorded identifiers.
pub open spec fn dom_step(path: Seq<char>, has: bool) -> spec_fn(Set<u64>, Counter) -> Set<u64> {
    |acc: Set<u64>, p: Counter|
        if has && spec_is_ancestor(path, p.dirpath@) {
            acc.union(p.ledger().dom())
        } else {
            acc
        }
}

/// A root's file count after the partial counters `ps` are drained into it:
/// each partial summarizing the root itself or a descendant adds its count.
pub open spec fn fold_files(path: Seq<char>, base: int, ps: Seq<Counter>) -> int {
    ps.fold_left(base, files_step(path))
}

/// A root's directory count after the partial counters `ps` are drained into
/// it.
pub open spec fn fold_dirs(path: Seq<char>, base: int, ps: Seq<Counter>) -> int {
    ps.fold_left(base, dirs_step(path))
}

/// A root's ledger after the partial counters `ps` are drained into it:
/// matching partials contribute their entries, identifiers already recorded
/// keeping their earlier size. Nothing is taken when the root keeps no
/// ledger.
pub open spec fn fold_ledger(path: Seq<char>, has: bool, base: Map<u64, u64>, ps: Seq<Counter>)
    -> Map<u64, u64> {
    ps.fold_left(base, ledger_step(path, has))
}

/// The key set of `fold_ledger`.
pub open spec fn fold_ledger_dom(path: Seq<char>, has: bool, base: Set<u64>, ps: Seq<Counter>)
    -> Set<u64> {
    ps.fold_left(base, dom_step(path, has))
}

/// Counts folded over a prefix stay between the base and the full fold.
pub proof fn lemma_fold_counts_prefix(path: Seq<char>, base: int, ps: Seq<Counter>, i: int)
    requires
        0 <= i <= ps.len(),
    ensures
        base <= fold_files(path, base, ps.take(i)) <= fold_files(path, base, ps),
        base <= fold_dirs(path, base, ps.take(i)) <= fold_dirs(path, base, ps),
    decreases ps.len(),
{
    if ps.len() > 0 {
        let pd = ps.drop_last();
        assert(forall|j: int| 0 <= j < pd.len() ==> #[trigger] pd[j] == ps[j]);
        if i == ps.len() {
            lemma_fold_counts_prefix(path, base, pd, pd.len() as int);
            assert(pd.take(pd.len() as int) =~= pd);
            assert(ps.take(i) =~= ps);
        } else {
            lemma_fold_counts_prefix(path, base, pd, i);
            assert(ps.take(i) =~= pd.take(i));
        }
    } else {
        assert(ps.take(i) =~= ps);
    }
}

/// What the ledger fold builds: a map that still agrees with the global
/// assignment `m`, over exactly the union of the contributing key sets.
pub proof fn lemma_fold_ledger_props(
    path: Seq<char>,
    has: bool,
    base: Map<u64, u64>,
    ps: Seq<Counter>,
    m: Map<u64, u64>,
)
    requires
        base.submap_of(m),
        forall|i: int| 0 <= i < ps.len() ==> (#[trigger] ps[i]).ledger().submap_of(m),
    ensures
        fold_ledger(path, has, base, ps).submap_of(m),
        fold_ledger(path, has, base, ps).dom() == fold_ledger_dom(path, has, base.dom(), ps),
    decreases ps.len(),
{
    if ps.len() > 0 {
        let pd = ps.drop_last();
        let p = ps.last();
        assert(forall|j: int| 0 <= j < pd.len() ==> #[trigger] pd[j] == ps[j]);
        lemma_fold_ledger_props(path, has, base, pd, m);
        let prev = fold_ledger(path, has, base, pd);
        if has && spec_is_ancestor(path, p.dirpath@) {
            assert(p.ledger().submap_of(m));
            assert(p.ledger().union_prefer_right(prev).submap_of(m));
            assert(p.ledger().union_prefer_right(prev).dom() =~= prev.dom().union(
                p.ledger().dom(),
            ));
        }
    }
}

/// Law: draining the same multiset of partial counters into a root in any
/// order yields the same file count, directory count, and size ledger —
/// provided every ledger in play agrees with one global assignment `m` of
/// sizes to file identifiers, as ledgers built from the same file system do.
pub proof fn lemma_aggregation_order_independent(
    root: Counter,
    ps1: Seq<Counter>,
    ps2: Seq<Counter>,
    m: Map<u64, u64>,
)
    requires
        ps1.to_multiset() == ps2.to_multiset(),
        root.ledger().submap_of(m),
        forall|i: int| 0 <= i < ps1.len() ==> (#[trigger] ps1[i]).ledger().submap_of(m),
    ensures
        fold_files(root.dirpath@, root.n_files as int, ps1) == fold_files(
            root.dirpath@,
            root.n_files as int,
            ps2,
        ),
        fold_dirs(root.dirpath@, root.n_dirs as int, ps1) == fold_dirs(
            root.dirpath@,
            root.n_dirs as int,
            ps2,
        ),
        fold_ledger(root.dirpath@, root.with_size(), root.ledger(), ps1) == fold_ledger(
            root.dirpath@,
            root.with_size(),
            root.ledger(),
            ps2,
        ),
{
    broadcast use group_to_multiset_ensures;

    let path = root.dirpath@;
    let has = root.with_size();
    // Every element of the reordered sequence is one of the originals, so it
    // agrees with `m` as well.
    assert forall|i: int| 0 <= i < ps2.len() implies (#[trigger] ps2[i]).ledger().submap_of(
        m,
    ) by {
        assert(ps2.to_multiset().contains(ps2[i]));
        assert(ps1.contains(ps2[i]));
    }
    // The counts are folds of a commutative step.
    let ff = files_step(path);
    assert(commutative_foldl(ff)) by {
        assert(forall|x: Counter, y: Counter, v: int| #[trigger] ff(ff(v, x), y) == ff(ff(v, y), x));
    }
    lemma_fold_left_permutation(ps1, ps2, ff, root.n_files as int);
    let fd = dirs_step(path);
    assert(commutative_foldl(fd)) by {
        assert(forall|x: Counter, y: Counter, v: int| #[trigger] fd(fd(v, x), y) == fd(fd(v, y), x));
    }
    lemma_fold_left_permutation(ps1, ps2, fd, root.n_dirs as int);
    // The ledgers' key sets are folds of a commutative step too.
    let fs = dom_step(path, has);
    assert(commutative_foldl(fs)) by {
        assert forall|x: Counter, y: Counter, v: Set<u64>| #[trigger] fs(fs(v, x), y) == fs(
            fs(v, y),
            x,
        ) by {
            assert(v.union(x.ledger().dom()).union(y.ledger().dom()) =~= v.union(
                y.ledger().dom(),
            ).union(x.ledger().dom()));
        }
    }
    lemma_fold_left_permutation(ps1, ps2, fs, root.ledger().dom());
    // Both ledgers agree with `m` and carry the same keys, so they are the
    // same map.
    lemma_fold_ledger_props(path, has, root.ledger(), ps1, m);
    lemma_fold_ledger_props(path, has, root.ledger(), ps2, m);
    let l1 = fold_ledger(path, has, root.ledger(), ps1);
    let l2 = fold_ledger(path, has, root.ledger(), ps2);
    assert(l1.submap_of(m));
    assert(l2.submap_of(m));
    assert(l1.dom() == l2.dom());
    assert forall|k: u64| l1.dom().contains(k) implies l1[k] == l2[k] by {
        assert(l1.submap_of(m));
        assert(l1.dom().contains(k));
        assert(m.dom().contains(k) && l1[k] == m[k]);
        assert(l2.dom().contains(k));
        assert(m.dom().contains(k) && l2[k] == m[k]);
    }
    assert(l1 =~= l2);
}

/// Law: in a united ledger every shared file identifier is charged exactly
/// once: the union's total is the right-hand total plus only the left-hand
/// entries whose identifiers are new.
pub proof fn lemma_union_charges_once(a: Map<u64, u64>, b: Map<u64, u64>)
    requires
        a.dom().finite(),
        b.dom().finite(),
    ensures
        map_total(a.union_prefer_right(b)) == map_total(b) + map_total(
            a.remove_keys(b.dom()),
        ),
    decreases a.dom().len(),
{
    if a.dom() =~= Set::<u64>::empty() {
        assert(a.union_prefer_right(b) =~= b);
        assert(a.remove_keys(b.dom()) =~= Map::<u64, u64>::empty());
        crate::ledger::lemma_map_total_empty();
    } else {
        let k = a.dom().choose();
        assert(a.dom().contains(k));
        let ar = a.remove(k);
        assert(ar.dom() =~= a.dom().remove(k));
        lemma_union_charges_once(ar, b);
        if b.dom().contains(k) {
            assert(a.union_prefer_right(b) =~= ar.union_prefer_right(b));
            assert(a.remove_keys(b.dom()) =~= ar.remove_keys(b.dom()));
        } else {
            assert(a.union_prefer_right(b) =~= ar.union_prefer_right(b).insert(k, a[k]));
            assert(a.remove_keys(b.dom()) =~= ar.remove_keys(b.dom()).insert(k, a[k]));
            assert(ar.union_prefer_right(b).dom() =~= ar.dom().union(b.dom()));
            assert(ar.remove_keys(b.dom()).dom().finite()) by {
                assert(ar.remove_keys(b.dom()).dom() =~= ar.dom().difference(b.dom()));
            }
            lemma_map_total_insert(ar.union_prefer_right(b), k, a[k]);
            lemma_map_total_insert(ar.remove_keys(b.dom()), k, a[k]);
        }
    }
}

/// Drains a batch of partial counters into the root counters, merging each
/// partial into every root that is an ancestor of (or the same as) the
/// partial's directory, in delivery order.
pub fn drain_results(counters: &mut Vec<Counter>, partials: &Vec<Counter>)
    requires
        forall|j: int| 0 <= j < old(counters)@.len() ==> (#[trigger] old(counters)@[j]).wf(),
        forall|i: int| 0 <= i < partials@.len() ==> (#[trigger] partials@[i]).wf(),
        forall|j: int|
            0 <= j < old(counters)@.len() ==> fold_files(
                (#[trigger] old(counters)@[j]).dirpath@,
                old(counters)@[j].n_files as int,
                partials@,
            ) <= u64::MAX,
        forall|j: int|
            0 <= j < old(counters)@.len() ==> fold_dirs(
                (#[trigger] old(counters)@[j]).dirpath@,
                old(counters)@[j].n_dirs as int,
                partials@,
            ) <= u64::MAX,
        forall|j: int, i: int|
            0 <= j < old(counters)@.len() && 0 <= i < partials@.len() && (
            #[trigger] old(counters)@[j]).with_size() && spec_is_ancestor(
                old(counters)@[j].dirpath@,
                (#[trigger] partials@[i]).dirpath@,
            ) ==> partials@[i].with_size(),
    ensures
        final(counters)@.len() == old(counters)@.len(),
        forall|j: int|
            0 <= j < old(counters)@.len() ==> {
                &&& (#[trigger] final(counters)@[j]).wf()
                &&& final(counters)@[j].dirpath == old(counters)@[j].dirpath
                &&& final(counters)@[j].with_size() == old(counters)@[j].with_size()
                &&& final(counters)@[j].n_files == fold_files(
                    old(counters)@[j].dirpath@,
                    old(counters)@[j].n_files as int,
                    partials@,
                )
                &&& final(counters)@[j].n_dirs == fold_dirs(
                    old(counters)@[j].dirpath@,
                    old(counters)@[j].n_dirs as int,
                    partials@,
                )
                &&& final(counters)@[j].ledger() == fold_ledger(
                    old(counters)@[j].dirpath@,
                    old(counters)@[j].with_size(),
                    old(counters)@[j].ledger(),
                    partials@,
                )
            },
{
    let ghost base = counters@;
    let ghost ps = partials@;
    let np = partials.len();
    let nc = counters.len();
    let mut k: usize = 0;
    proof {
        assert(ps.take(0) =~= Seq::<Counter>::empty());
    }
    while k < np
        invariant
            k <= np,
            np == ps.len(),
            nc == base.len(),
            ps == partials@,
            counters@.len() == base.len(),
            forall|j: int| 0 <= j < base.len() ==> (#[trigger] base[j]).wf(),
            forall|i: int| 0 <= i < ps.len() ==> (#[trigger] ps[i]).wf(),
            forall|j: int|
                0 <= j < base.len() ==> fold_files(
                    (#[trigger] base[j]).dirpath@,
                    base[j].n_files as int,
                    ps,
                ) <= u64::MAX,
            forall|j: int|
                0 <= j < base.len() ==> fold_dirs(
                    (#[trigger] base[j]).dirpath@,
                    base[j].n_dirs as int,
                    ps,
                ) <= u64::MAX,
            forall|j: int, i: int|
                0 <= j < base.len() && 0 <= i < ps.len() && (#[trigger] base[j]).with_size()
                    && spec_is_ancestor(base[j].dirpath@, (#[trigger] ps[i]).dirpath@)
                    ==> ps[i].with_size(),
            forall|j: int|
                0 <= j < base.len() ==> {
                    &&& (#[trigger] counters@[j]).wf()
                    &&& counters@[j].dirpath == base[j].dirpath
                    &&& counters@[j].with_size() == base[j].with_size()
                    &&& counters@[j].n_files == fold_files(
                        base[j].dirpath@,
                        base[j].n_files as int,
                        ps.take(k as int),
                    )
                    &&& counters@[j].n_dirs == fold_dirs(
                        base[j].dirpath@,
                        base[j].n_dirs as int,
                        ps.take(k as int),
                    )
                    &&& counters@[j].ledger() == fold_ledger(
                        base[j].dirpath@,
                        base[j].with_size(),
                        base[j].ledger(),
                        ps.take(k as int),
                    )
                },
        decreases np - k,
    {
        let mut j: usize = 0;
        proof {
            assert(ps.take(k as int + 1).drop_last() =~= ps.take(k as int));
            assert(ps.take(k as int + 1).last() == ps[k as int]);
        }
        while j < nc
            invariant
                j <= nc,
                k < np,
                np == ps.len(),
                nc == base.len(),
                ps == partials@,
                counters@.len() == base.len(),
                forall|jj: int| 0 <= jj < base.len() ==> (#[trigger] base[jj]).wf(),
                forall|i: int| 0 <= i < ps.len() ==> (#[trigger] ps[i]).wf(),
                forall|jj: int|
                    0 <= jj < base.len() ==> fold_files(
                        (#[trigger] base[jj]).dirpath@,
                        base[jj].n_files as int,
                        ps,
                    ) <= u64::MAX,
                forall|jj: int|
                    0 <= jj < base.len() ==> fold_dirs(
                        (#[trigger] base[jj]).dirpath@,
                        base[jj].n_dirs as int,
                        ps,
                    ) <= u64::MAX,
                forall|jj: int, i: int|
                    0 <= jj < base.len() && 0 <= i < ps.len() && (#[trigger] base[jj]).with_size()
                        && spec_is_ancestor(base[jj].dirpath@, (#[trigger] ps[i]).dirpath@)
                        ==> ps[i].with_size(),
                forall|jj: int|
                    0 <= jj < base.len() ==> {
                        &&& (#[trigger] counters@[jj]).wf()
                        &&& counters@[jj].dirpath == base[jj].dirpath
                        &&& counters@[jj].with_size() == base[jj].with_size()
                        &&& counters@[jj].n_files == fold_files(
                            base[jj].dirpath@,
                            base[jj].n_files as int,
                            ps.take(if jj < j { k as int + 1 } else { k as int }),
                        )
                        &&& counters@[jj].n_dirs == fold_dirs(
                            base[jj].dirpath@,
                            base[jj].n_dirs as int,
                            ps.take(if jj < j { k as int + 1 } else { k as int }),
                        )
                        &&& counters@[jj].ledger() == fold_ledger(
                            base[jj].dirpath@,
                            base[jj].with_size(),
                            base[jj].ledger(),
                            ps.take(if jj < j { k as int + 1 } else { k as int }),
                        )
                    },
            decreases nc - j,
        {
            proof {
                assert(ps.take(k as int + 1).drop_last() =~= ps.take(k as int));
                assert(ps.take(k as int + 1).last() == ps[k as int]);
                lemma_fold_counts_prefix(
                    base[j as int].dirpath@,
                    base[j as int].n_files as int,
                    ps,
                    k as int + 1,
                );
                lemma_fold_counts_prefix(
                    base[j as int].dirpath@,
                    base[j as int].n_dirs as int,
                    ps,
                    k as int + 1,
                );
            }
            let mut c = counters.remove(j);
            c.merge(&partials[k]);
            counters.insert(j, c);
            proof {
                assert(forall|jj: int|
                    0 <= jj < base.len() && jj != j ==> counters@[jj]
                        == counters@.subrange(0, base.len() as int)[jj]);
            }
            j = j + 1;
        }
        k = k + 1;
    }
    proof {
        assert(ps.take(np as int) =~= ps);
    }
}

/// The report order a sort key selects: ascending by pathname for `Name`,
/// descending by the counted quantity otherwise. `le(a, b)` says `a` may
/// stand before `b`.
pub open spec fn spec_counter_le(order: OrderBy, a: Counter, b: Counter) -> bool {
    match order {
        OrderBy::Name | OrderBy::N => lex_le(a.dirpath@, b.dirpath@),
        OrderBy::File | OrderBy::F => a.n_files >= b.n_files,
        OrderBy::Dir | OrderBy::D => a.n_dirs >= b.n_dirs,
        OrderBy::Size | OrderBy::S => map_total(a.ledger()) >= map_total(b.ledger()),
    }
}

/// Any two counters are comparable under every sort key.
pub proof fn lemma_counter_le_total(order: OrderBy, a: Counter, b: Counter)
    ensures
        spec_counter_le(order, a, b) || spec_counter_le(order, b, a),
{
    match order {
        OrderBy::Name | OrderBy::N => {
            lemma_lex_le_total(a.dirpath@, b.dirpath@);
        },
        _ => {},
    }
}

/// The report order is transitive under every sort key.
pub proof fn lemma_counter_le_trans(order: OrderBy, a: Counter, b: Counter, c: Counter)
    requires
        spec_counter_le(order, a, b),
        spec_counter_le(order, b, c),
    ensures
        spec_counter_le(order, a, c),
{
    match order {
        OrderBy::Name | OrderBy::N => {
            lemma_lex_le_trans(a.dirpath@, b.dirpath@, c.dirpath@);
        },
        _ => {},
    }
}

/// Decides the report order on two counters.
fn counter_le(order: OrderBy, a: &Counter, b: &Counter) -> (r: bool)
    requires
        a.wf(),
        b.wf(),
    ensures
        r == spec_counter_le(order, *a, *b),
{
    match order {
        OrderBy::Name | OrderBy::N => str_le(a.dirpath.as_str(), b.dirpath.as_str()),
        OrderBy::File | OrderBy::F => a.n_files >= b.n_files,
        OrderBy::Dir | OrderBy::D => a.n_dirs >= b.n_dirs,
        OrderBy::Size | OrderBy::S => {
            let ta = match &a.sz_map {
                Some(l) => l.total(),
                None => {
                    proof {
                        crate::ledger::lemma_map_total_empty();
                    }
                    0
                },
            };
            let tb = match &b.sz_map {
                Some(l) => l.total(),
                None => {
                    proof {
                        crate::ledger::lemma_map_total_empty();
                    }
                    0
                },
            };
            proof {
                a.lemma_size_nonneg();
                b.lemma_size_nonneg();
            }
            ta >= tb
        },
    }
}

/// Sorts the root counters for the report: by pathname ascending, or by the
/// chosen quantity descending. The same counters come out, in order.
pub fn sort_counters(counters: &mut Vec<Counter>, order: OrderBy)
    requires
        forall|i: int| 0 <= i < old(counters)@.len() ==> (#[trigger] old(counters)@[i]).wf(),
    ensures
        final(counters)@.len() == old(counters)@.len(),
        final(counters)@.to_multiset() == old(counters)@.to_multiset(),
        forall|i: int| 0 <= i < final(counters)@.len() ==> (#[trigger] final(counters)@[i]).wf(),
        forall|i: int, j: int|
            0 <= i < j < final(counters)@.len() ==> spec_counter_le(
                order,
                final(counters)@[i],
                final(counters)@[j],
            ),
{
    broadcast use group_to_multiset_ensures;

    let n = counters.len();
    if n <= 1 {
        return ;
    }
    let mut k: usize = 1;
    while k < n
        invariant
            1 <= k <= n,
            n == counters@.len(),
            counters@.to_multiset() == old(counters)@.to_multiset(),
            forall|i: int| 0 <= i < counters@.len() ==> (#[trigger] counters@[i]).wf(),
            forall|i: int, j: int|
                0 <= i < j < k ==> spec_counter_le(order, counters@[i], counters@[j]),
        decreases n - k,
    {
        let mut j: usize = k;
        while j > 0 && !counter_le(order, &counters[j - 1], &counters[j])
            invariant
                j <= k < n,
                n == counters@.len(),
                counters@.to_multiset() == old(counters)@.to_multiset(),
                forall|i: int| 0 <= i < counters@.len() ==> (#[trigger] counters@[i]).wf(),
                // Sorted among positions up to k, leaving position j out.
                forall|i1: int, i2: int|
                    0 <= i1 < i2 <= k && i1 != j && i2 != j ==> spec_counter_le(
                        order,
                        counters@[i1],
                        counters@[i2],
                    ),
                // The element sifting down stands before everything after it.
                forall|i2: int|
                    j < i2 <= k ==> spec_counter_le(order, counters@[j as int], counters@[i2]),
            decreases j,
        {
            let ghost s = counters@;
            proof {
                lemma_counter_le_total(order, s[j as int - 1], s[j as int]);
            }
            // Swap the neighbours at j - 1 and j.
            let c = counters.remove(j);
            counters.insert(j - 1, c);
            proof {
                broadcast use group_to_multiset_ensures;

                let s2 = counters@;
                assert(s2 == s.remove(j as int).insert(j as int - 1, s[j as int]));
                assert(s2[j as int - 1] == s[j as int]);
                assert(s2[j as int] == s[j as int - 1]);
                assert(forall|i: int|
                    0 <= i < s.len() && i != j - 1 && i != j ==> #[trigger] s2[i] == s[i]);
                assert(s.remove(j as int).insert(j as int - 1, s[j as int]).to_multiset()
                    == s.remove(j as int).to_multiset().insert(s[j as int]));
                assert(s.remove(j as int).to_multiset() == s.to_multiset().remove(s[j as int]));
                assert(s.to_multiset().contains(s[j as int]));
                assert(s2.to_multiset() =~= s.to_multiset());
            }
            j = j - 1;
        }
        proof {
            // The sifted element found its place: everything before it is no
            // later in the order, by transitivity through its predecessor.
            if j > 0 {
                assert forall|i1: int| 0 <= i1 < j implies spec_counter_le(
                    order,
                    counters@[i1],
                    counters@[j as int],
                ) by {
                    if i1 < j - 1 {
                        lemma_counter_le_trans(
                            order,
                            counters@[i1],
                            counters@[j as int - 1],
                            counters@[j as int],
                        );
                    }
                }
            }
        }
        k = k + 1;
    }
}

} // verus!
