//! Walking the commit graph towards the roots.
use vstd::prelude::*;
use vstd::hash_map::StringHashMap;
use crate::error::VaultError;
use crate::objects::{Commit, CommitView, str_views};
use crate::store::{ObjectStore, StoreView, resolve_head_of};

verus! {

broadcast use vstd::set::group_set_axioms;

/// The parents of the stored commit `h`.
pub open spec fn parents_of(v: StoreView, h: Seq<char>) -> Seq<Seq<char>> {
    v.commits[h].parents
}

/// Every stored commit in `s` has its parents in `s`.
pub open spec fn parent_closed(v: StoreView, s: Set<Seq<char>>) -> bool {
    forall|h: Seq<char>, k: int|
        #![trigger s.contains(h), v.commits[h].parents[k]]
        s.contains(h) && v.commits.contains_key(h) && 0 <= k < v.commits[h].parents.len()
            ==> s.contains(v.commits[h].parents[k])
}

/// `h` is `start` or an ancestor of it: it lies in every parent-closed set holding `start`.
pub open spec fn reachable(v: StoreView, start: Seq<char>, h: Seq<char>) -> bool {
    forall|s: Set<Seq<char>>| #[trigger] parent_closed(v, s) && s.contains(start) ==> s.contains(h)
}

/// Visiting a new stored commit leaves fewer to visit.
pub proof fn lemma_visit_shrinks(dom: Set<Seq<char>>, vis: Set<Seq<char>>, x: Seq<char>)
    requires
        dom.finite(),
        dom.contains(x),
        !vis.contains(x),
    ensures
        dom.difference(vis.insert(x)).len() < dom.difference(vis).len(),
{
    assert(dom.difference(vis.insert(x)) =~= dom.difference(vis).remove(x));
}

/// `r` before whatever `o` holds; nothing when `o` is nothing.
pub open spec fn prepend(r: Seq<Seq<char>>, o: Option<Seq<Seq<char>>>) -> Option<Seq<Seq<char>>> {
    match o {
        Some(x) => Some(r + x),
        None => None,
    }
}

/// The commits a breadth-first walk visits from the queue `q`, skipping those in `vis`;
/// nothing when it meets a hash that is not a stored commit.
pub open spec fn bfs(v: StoreView, q: Seq<Seq<char>>, vis: Set<Seq<char>>) -> Option<Seq<Seq<char>>>
    decreases v.commits.dom().difference(vis).len(), q.len(),
    when v.commits.dom().finite()
{
    if q.len() == 0 {
        Some(Seq::empty())
    } else if vis.contains(q[0]) {
        bfs(v, q.drop_first(), vis)
    } else if !v.commits.contains_key(q[0]) {
        None
    } else {
        proof {
            lemma_visit_shrinks(v.commits.dom(), vis, q[0]);
        }
        prepend(seq![q[0]], bfs(v, q.drop_first() + parents_of(v, q[0]), vis.insert(q[0])))
    }
}

/// The commits a depth-first walk visits from the stack `st` (top last), first parents
/// first; nothing when it meets a hash that is not a stored commit.
pub open spec fn dfs(v: StoreView, st: Seq<Seq<char>>, vis: Set<Seq<char>>) -> Option<Seq<Seq<char>>>
    decreases v.commits.dom().difference(vis).len(), st.len(),
    when v.commits.dom().finite()
{
    if st.len() == 0 {
        Some(Seq::empty())
    } else if vis.contains(st.last()) {
        dfs(v, st.drop_last(), vis)
    } else if !v.commits.contains_key(st.last()) {
        None
    } else {
        proof {
            lemma_visit_shrinks(v.commits.dom(), vis, st.last());
        }
        prepend(
            seq![st.last()],
            dfs(v, st.drop_last() + parents_of(v, st.last()).reverse(), vis.insert(st.last())),
        )
    }
}

/// A finite list names finitely many commits.
pub proof fn lemma_commits_finite(store: &ObjectStore)
    requires
        store.wf(),
    ensures
        store@.commits.dom().finite(),
{
    let ks = str_views(store.commit_keys@);
    assert(store@.commits.dom() =~= ks.to_set());
    vstd::seq_lib::seq_to_set_is_finite(ks);
}

/// The walk's invariant: what was visited and what is queued are ancestors of `start`;
/// the visited commits are stored and their parents are visited or queued.
pub open spec fn walk_closure(
    v: StoreView,
    start: Seq<char>,
    done: Seq<Seq<char>>,
    pending: Seq<Seq<char>>,
) -> bool {
    &&& done.contains(start) || pending.contains(start)
    &&& forall|k: int| 0 <= k < done.len() ==> reachable(v, start, #[trigger] done[k])
    &&& forall|k: int| 0 <= k < pending.len() ==> reachable(v, start, #[trigger] pending[k])
    &&& forall|k: int|
        0 <= k < done.len() ==> v.commits.contains_key(#[trigger] done[k]) && forall|j: int|
            0 <= j < v.commits[done[k]].parents.len() ==> done.contains(v.commits[done[k]].parents[j])
                || pending.contains(v.commits[done[k]].parents[j])
}

/// The parents of an ancestor are ancestors.
pub proof fn lemma_parent_reachable(v: StoreView, start: Seq<char>, h: Seq<char>, k: int)
    requires
        reachable(v, start, h),
        v.commits.contains_key(h),
        0 <= k < v.commits[h].parents.len(),
    ensures
        reachable(v, start, v.commits[h].parents[k]),
{
    assert forall|s: Set<Seq<char>>| #[trigger] parent_closed(v, s) && s.contains(start) implies s.contains(
        v.commits[h].parents[k],
    ) by {
        assert(s.contains(h));
    }
}

/// A finished walk visited exactly the ancestors.
proof fn lemma_walk_complete(v: StoreView, start: Seq<char>, done: Seq<Seq<char>>)
    requires
        walk_closure(v, start, done, Seq::empty()),
    ensures
        forall|h: Seq<char>| done.contains(h) <==> reachable(v, start, h),
{
    let s = done.to_set();
    assert(parent_closed(v, s)) by {
        assert forall|h: Seq<char>, k: int|
            s.contains(h) && v.commits.contains_key(h) && 0 <= k < v.commits[h].parents.len() implies s.contains(
            v.commits[h].parents[k],
        ) by {
            let i = choose|i: int| 0 <= i < done.len() && done[i] == h;
            assert(done.contains(v.commits[done[i]].parents[k]));
        }
    }
    assert forall|h: Seq<char>| done.contains(h) <==> reachable(v, start, h) by {
        if reachable(v, start, h) {
            assert(s.contains(start));
            assert(s.contains(h));
        }
        if done.contains(h) {
            let i = choose|i: int| 0 <= i < done.len() && done[i] == h;
        }
    }
}

/// The starting point of a walk satisfies its invariant.
proof fn lemma_walk_start(v: StoreView, start: Seq<char>)
    ensures
        walk_closure(v, start, Seq::empty(), seq![start]),
{
    assert(seq![start][0] == start);
    assert forall|k: int| 0 <= k < seq![start].len() implies reachable(v, start, #[trigger] seq![start][k]) by {
        assert forall|s: Set<Seq<char>>| #[trigger] parent_closed(v, s) && s.contains(start) implies s.contains(
            start,
        ) by {}
    }
}

/// The commit hashes reachable from `start` (itself included), in breadth-first order.
pub fn ancestors(store: &ObjectStore, start: &str) -> (r: Result<Vec<String>, VaultError>)
    requires
        store.wf(),
    ensures
        match bfs(store@, seq![start@], Set::empty()) {
            Some(s) => r matches Ok(v) && str_views(v@) == s && forall|h: Seq<char>|
                s.contains(h) <==> reachable(store@, start@, h),
            None => r matches Err(VaultError::ObjectNotFound(_)),
        },
{
    proof {
        lemma_commits_finite(store);
        lemma_walk_start(store@, start@);
    }
    let ghost v = store@;
    let ghost target = bfs(v, seq![start@], Set::empty());
    let mut visited: StringHashMap<bool> = StringHashMap::new();
    let mut queue: Vec<String> = Vec::new();
    queue.push(crate::text::owned(start));
    let mut qi: usize = 0;
    let mut result: Vec<String> = Vec::new();
    assert(str_views(queue@).skip(0) =~= seq![start@]);
    assert(str_views(result@) =~= Seq::<Seq<char>>::empty());
    assert(visited@.dom() =~= Set::<Seq<char>>::empty());
    while qi < queue.len()
        invariant
            v == store@,
            v.commits.dom().finite(),
            qi <= queue@.len(),
            prepend(str_views(result@), bfs(v, str_views(queue@).skip(qi as int), visited@.dom()))
                == target,
            target == bfs(v, seq![start@], Set::empty()),
            forall|h: Seq<char>| visited@.dom().contains(h) <==> str_views(result@).contains(h),
            walk_closure(v, start@, str_views(result@), str_views(queue@).skip(qi as int)),
        decreases v.commits.dom().difference(visited@.dom()).len(), queue@.len() - qi,
    {
        let ghost pend = str_views(queue@).skip(qi as int);
        let ghost done = str_views(result@);
        let h = queue[qi].clone();
        assert(pend[0] == h@);
        assert(pend.drop_first() =~= str_views(queue@).skip(qi + 1));
        qi = qi + 1;
        if visited.contains_key(h.as_str()) {
            proof {
                assert forall|k: int| 0 <= k < done.len() implies v.commits.contains_key(#[trigger] done[k])
                    && forall|j: int|
                    0 <= j < v.commits[done[k]].parents.len() ==> done.contains(
                        v.commits[done[k]].parents[j],
                    ) || pend.drop_first().contains(v.commits[done[k]].parents[j]) by {
                    assert forall|j: int| 0 <= j < v.commits[done[k]].parents.len() implies done.contains(
                        v.commits[done[k]].parents[j],
                    ) || pend.drop_first().contains(v.commits[done[k]].parents[j]) by {
                        let p = v.commits[done[k]].parents[j];
                        if pend.contains(p) && !done.contains(p) {
                            let q = choose|q: int| 0 <= q < pend.len() && pend[q] == p;
                            assert(q != 0);
                            assert(pend.drop_first()[q - 1] == p);
                        }
                    }
                }
                if pend.contains(start@) && !done.contains(start@) {
                    let q = choose|q: int| 0 <= q < pend.len() && pend[q] == start@;
                    assert(pend.drop_first()[q - 1] == start@);
                }
            }
        } else {
            let ghost vd = visited@.dom();
            visited.insert(h.clone(), true);
            result.push(h.clone());
            let commit = store.read_commit(h.as_str())?;
            proof {
                lemma_visit_shrinks(v.commits.dom(), vd, h@);
                assert(visited@.dom() =~= vd.insert(h@));
            }
            let ghost ps = commit@.parents;
            let mut k: usize = 0;
            while k < commit.parents.len()
                invariant
                    k <= commit.parents@.len(),
                    ps == str_views(commit.parents@),
                    pend.len() >= 1,
                    str_views(queue@).skip(qi as int) == pend.drop_first() + ps.take(k as int),
                    qi <= queue@.len(),
                decreases commit.parents.len() - k,
            {
                let ghost before = str_views(queue@);
                queue.push(commit.parents[k].clone());
                assert(str_views(queue@) =~= before.push(commit.parents@[k as int]@));
                assert(str_views(queue@).skip(qi as int) =~= before.skip(qi as int).push(ps[k as int]));
                assert(ps.take(k + 1) =~= ps.take(k as int).push(ps[k as int]));
                k = k + 1;
                assert(str_views(queue@).skip(qi as int) =~= pend.drop_first() + ps.take(k as int));
            }
            assert(ps.take(ps.len() as int) =~= ps);
            proof {
                let done2 = str_views(result@);
                let pend2 = str_views(queue@).skip(qi as int);
                assert(done2 =~= done.push(h@));
                assert(prepend(done, bfs(v, pend, vd)) == target);
                assert forall|x: Seq<char>| visited@.dom().contains(x) <==> done2.contains(x) by {
                    if done2.contains(x) && x != h@ {
                        let q = choose|q: int| 0 <= q < done2.len() && done2[q] == x;
                        assert(done[q] == x);
                    }
                    if done.contains(x) {
                        let q = choose|q: int| 0 <= q < done.len() && done[q] == x;
                        assert(done2[q] == x);
                    }
                    if x == h@ {
                        assert(done2[done2.len() - 1] == x);
                    }
                }
                assert(v.commits[h@].parents == ps);
                assert forall|j: int| 0 <= j < pend2.len() implies reachable(v, start@, #[trigger] pend2[j]) by {
                    if j < pend.len() - 1 {
                        assert(pend2[j] == pend[j + 1]);
                    } else {
                        assert(pend2[j] == ps[j - (pend.len() - 1)]);
                        lemma_parent_reachable(v, start@, h@, j - (pend.len() - 1));
                    }
                }
                assert forall|q: int| 0 <= q < done2.len() implies reachable(v, start@, #[trigger] done2[q]) by {
                    if q < done.len() {
                        assert(done2[q] == done[q]);
                    }
                }
                assert forall|q: int| 0 <= q < done2.len() implies v.commits.contains_key(#[trigger] done2[q])
                    && forall|j: int|
                    0 <= j < v.commits[done2[q]].parents.len() ==> done2.contains(
                        v.commits[done2[q]].parents[j],
                    ) || pend2.contains(v.commits[done2[q]].parents[j]) by {
                    if q < done.len() {
                        assert(done2[q] == done[q]);
                        assert forall|j: int| 0 <= j < v.commits[done2[q]].parents.len() implies done2.contains(
                            v.commits[done2[q]].parents[j],
                        ) || pend2.contains(v.commits[done2[q]].parents[j]) by {
                            let p = v.commits[done[q]].parents[j];
                            if done.contains(p) {
                                let w = choose|w: int| 0 <= w < done.len() && done[w] == p;
                                assert(done2[w] == p);
                            } else if p == h@ {
                                assert(done2[done2.len() - 1] == p);
                            } else {
                                let w = choose|w: int| 0 <= w < pend.len() && pend[w] == p;
                                assert(w != 0);
                                assert(pend2[w - 1] == p);
                            }
                        }
                    } else {
                        assert(done2[q] == h@);
                        assert forall|j: int| 0 <= j < ps.len() implies done2.contains(ps[j]) || pend2.contains(ps[j]) by {
                            assert(pend2[pend.len() - 1 + j] == ps[j]);
                        }
                    }
                }
                if !done2.contains(start@) {
                    let w = choose|w: int| 0 <= w < pend.len() && pend[w] == start@;
                    if w == 0 {
                        assert(done2[done2.len() - 1] == start@);
                    } else {
                        assert(pend2[w - 1] == start@);
                    }
                }
            }
        }
    }
    proof {
        assert(str_views(queue@).skip(qi as int) =~= Seq::<Seq<char>>::empty());
        lemma_walk_complete(v, start@, str_views(result@));
        assert(str_views(result@) + Seq::<Seq<char>>::empty() =~= str_views(result@));
    }
    Ok(result)
}


/// `h` is reachable from one of `starts`.
pub open spec fn reach_any(v: StoreView, starts: Seq<Seq<char>>, h: Seq<char>) -> bool {
    exists|k: int| 0 <= k < starts.len() && #[trigger] reachable(v, starts[k], h)
}

/// The invariant of the walk from several starting points: what was visited and what is
/// queued is reachable from a start; every start was visited or is queued; every visited
/// stored commit has its parents visited or queued.
pub open spec fn multi_walk(v: StoreView, starts: Seq<Seq<char>>, done: Set<Seq<char>>, pend: Seq<Seq<char>>) -> bool {
    &&& forall|x: Seq<char>| #[trigger] done.contains(x) ==> reach_any(v, starts, x)
    &&& forall|j: int| 0 <= j < pend.len() ==> reach_any(v, starts, #[trigger] pend[j])
    &&& forall|k: int| 0 <= k < starts.len() ==> done.contains(#[trigger] starts[k]) || pend.contains(starts[k])
    &&& forall|x: Seq<char>, j: int|
        #![trigger done.contains(x), v.commits[x].parents[j]]
        done.contains(x) && v.commits.contains_key(x) && 0 <= j < v.commits[x].parents.len()
            ==> done.contains(v.commits[x].parents[j]) || pend.contains(v.commits[x].parents[j])
}

/// A parent of a commit reachable from a start is reachable from that start.
proof fn lemma_parent_reach_any(v: StoreView, starts: Seq<Seq<char>>, h: Seq<char>, j: int)
    requires
        reach_any(v, starts, h),
        v.commits.contains_key(h),
        0 <= j < v.commits[h].parents.len(),
    ensures
        reach_any(v, starts, v.commits[h].parents[j]),
{
    let k = choose|k: int| 0 <= k < starts.len() && #[trigger] reachable(v, starts[k], h);
    lemma_parent_reachable(v, starts[k], h, j);
}

/// The commits reachable from any of `starts`; a hash that names no stored commit has no
/// parents and is reached only as itself.
pub fn reachable_from_any(store: &ObjectStore, starts: &Vec<String>) -> (r: StringHashMap<bool>)
    requires
        store.wf(),
    ensures
        forall|h: Seq<char>| r@.dom().contains(h) <==> reach_any(store@, str_views(starts@), h),
{
    proof {
        lemma_commits_finite(store);
    }
    let ghost v = store@;
    let ghost st = str_views(starts@);
    let mut visited: StringHashMap<bool> = StringHashMap::new();
    let mut queue = crate::objects::copy_strings(starts);
    let mut qi: usize = 0;
    proof {
        assert(str_views(queue@).skip(0) =~= st);
        assert(visited@.dom() =~= Set::<Seq<char>>::empty());
        assert forall|j: int| 0 <= j < st.len() implies reach_any(v, st, #[trigger] st[j]) by {
            lemma_reach_trans(v, st[j], st[j], st[j]);
        }
        assert forall|k: int| 0 <= k < st.len() implies visited@.dom().contains(#[trigger] st[k])
            || str_views(queue@).skip(0).contains(st[k]) by {
            assert(str_views(queue@).skip(0)[k] == st[k]);
        }
    }
    while qi < queue.len()
        invariant
            v == store@,
            v.commits.dom().finite(),
            qi <= queue@.len(),
            st == str_views(starts@),
            multi_walk(v, st, visited@.dom(), str_views(queue@).skip(qi as int)),
        decreases v.commits.dom().difference(visited@.dom()).len(), queue@.len() - qi,
    {
        let ghost pend = str_views(queue@).skip(qi as int);
        let ghost vd = visited@.dom();
        let h = queue[qi].clone();
        assert(pend[0] == h@);
        assert(pend.drop_first() =~= str_views(queue@).skip(qi + 1));
        qi = qi + 1;
        proof {
            assert(reach_any(v, st, pend[0]));
        }
        if visited.contains_key(h.as_str()) {
            proof {
                let p2 = pend.drop_first();
                assert forall|x: Seq<char>, j: int|
                    #![trigger vd.contains(x), v.commits[x].parents[j]]
                    vd.contains(x) && v.commits.contains_key(x) && 0 <= j < v.commits[x].parents.len()
                        implies vd.contains(v.commits[x].parents[j]) || p2.contains(v.commits[x].parents[j]) by {
                    let p = v.commits[x].parents[j];
                    if pend.contains(p) && !vd.contains(p) {
                        let q = choose|q: int| 0 <= q < pend.len() && pend[q] == p;
                        assert(q != 0);
                        assert(p2[q - 1] == p);
                    }
                }
                assert forall|k: int| 0 <= k < st.len() implies vd.contains(#[trigger] st[k]) || p2.contains(st[k]) by {
                    if pend.contains(st[k]) && !vd.contains(st[k]) {
                        let q = choose|q: int| 0 <= q < pend.len() && pend[q] == st[k];
                        assert(q != 0);
                        assert(p2[q - 1] == st[k]);
                    }
                }
                assert forall|j: int| 0 <= j < p2.len() implies reach_any(v, st, #[trigger] p2[j]) by {
                    assert(p2[j] == pend[j + 1]);
                }
            }
        } else {
            visited.insert(h.clone(), true);
            proof {
                assert(visited@.dom() =~= vd.insert(h@));
            }
            match store.read_commit(h.as_str()) {
                Err(_) => {
                    proof {
                        assert(v.commits.dom().difference(vd.insert(h@)) =~= v.commits.dom().difference(vd));
                        let p2 = pend.drop_first();
                        let d2 = vd.insert(h@);
                        assert forall|x: Seq<char>, j: int|
                            #![trigger d2.contains(x), v.commits[x].parents[j]]
                            d2.contains(x) && v.commits.contains_key(x) && 0 <= j < v.commits[x].parents.len()
                                implies d2.contains(v.commits[x].parents[j]) || p2.contains(v.commits[x].parents[j]) by {
                            assert(x != h@);
                            assert(vd.contains(x));
                            let p = v.commits[x].parents[j];
                            if pend.contains(p) && !vd.contains(p) && p != h@ {
                                let q = choose|q: int| 0 <= q < pend.len() && pend[q] == p;
                                assert(q != 0);
                                assert(p2[q - 1] == p);
                            }
                        }
                        assert forall|k: int| 0 <= k < st.len() implies d2.contains(#[trigger] st[k]) || p2.contains(st[k]) by {
                            if pend.contains(st[k]) && !vd.contains(st[k]) && st[k] != h@ {
                                let q = choose|q: int| 0 <= q < pend.len() && pend[q] == st[k];
                                assert(q != 0);
                                assert(p2[q - 1] == st[k]);
                            }
                        }
                        assert forall|j: int| 0 <= j < p2.len() implies reach_any(v, st, #[trigger] p2[j]) by {
                            assert(p2[j] == pend[j + 1]);
                        }
                    }
                },
                Ok(commit) => {
                    proof {
                        lemma_visit_shrinks(v.commits.dom(), vd, h@);
                    }
                    let ghost ps = commit@.parents;
                    let mut k: usize = 0;
                    while k < commit.parents.len()
                        invariant
                            k <= commit.parents@.len(),
                            ps == str_views(commit.parents@),
                            pend.len() >= 1,
                            str_views(queue@).skip(qi as int) == pend.drop_first() + ps.take(k as int),
                            qi <= queue@.len(),
                        decreases commit.parents.len() - k,
                    {
                        let ghost before = str_views(queue@);
                        queue.push(commit.parents[k].clone());
                        assert(str_views(queue@) =~= before.push(commit.parents@[k as int]@));
                        assert(str_views(queue@).skip(qi as int) =~= before.skip(qi as int).push(ps[k as int]));
                        assert(ps.take(k + 1) =~= ps.take(k as int).push(ps[k as int]));
                        k = k + 1;
                    }
                    assert(ps.take(ps.len() as int) =~= ps);
                    proof {
                        let p2 = str_views(queue@).skip(qi as int);
                        let d2 = vd.insert(h@);
                        assert(v.commits[h@].parents == ps);
                        assert(p2 == pend.drop_first() + ps);
                        assert forall|x: Seq<char>| #[trigger] d2.contains(x) implies reach_any(v, st, x) by {
                            if x == h@ {
                                assert(reach_any(v, st, pend[0]));
                            }
                        }
                        assert forall|j: int| 0 <= j < p2.len() implies reach_any(v, st, #[trigger] p2[j]) by {
                            if j < pend.len() - 1 {
                                assert(p2[j] == pend[j + 1]);
                            } else {
                                assert(p2[j] == ps[j - (pend.len() - 1)]);
                                lemma_parent_reach_any(v, st, h@, j - (pend.len() - 1));
                            }
                        }
                        assert forall|x: Seq<char>, j: int|
                            #![trigger d2.contains(x), v.commits[x].parents[j]]
                            d2.contains(x) && v.commits.contains_key(x) && 0 <= j < v.commits[x].parents.len()
                                implies d2.contains(v.commits[x].parents[j]) || p2.contains(v.commits[x].parents[j]) by {
                            let p = v.commits[x].parents[j];
                            if x == h@ {
                                assert(p2[pend.len() - 1 + j] == p);
                            } else {
                                assert(vd.contains(x));
                                if pend.contains(p) && !vd.contains(p) && p != h@ {
                                    let q = choose|q: int| 0 <= q < pend.len() && pend[q] == p;
                                    assert(q != 0);
                                    assert(p2[q - 1] == p);
                                }
                            }
                        }
                        assert forall|k2: int| 0 <= k2 < st.len() implies d2.contains(#[trigger] st[k2]) || p2.contains(st[k2]) by {
                            if pend.contains(st[k2]) && !vd.contains(st[k2]) && st[k2] != h@ {
                                let q = choose|q: int| 0 <= q < pend.len() && pend[q] == st[k2];
                                assert(q != 0);
                                assert(p2[q - 1] == st[k2]);
                            }
                        }
                    }
                },
            }
        }
    }
    proof {
        let d = visited@.dom();
        assert(str_views(queue@).skip(qi as int) =~= Seq::<Seq<char>>::empty());
        assert(parent_closed(v, d));
        assert forall|h: Seq<char>| reach_any(v, st, h) implies d.contains(h) by {
            let k = choose|k: int| 0 <= k < st.len() && #[trigger] reachable(v, st[k], h);
            assert(d.contains(st[k]));
        }
    }
    visited
}

/// A set holding the given hashes.
fn hash_set(v: &Vec<String>) -> (r: StringHashMap<bool>)
    ensures
        forall|h: Seq<char>| r@.dom().contains(h) <==> str_views(v@).contains(h),
{
    let mut r: StringHashMap<bool> = StringHashMap::new();
    let mut i: usize = 0;
    while i < v.len()
        invariant
            i <= v@.len(),
            forall|h: Seq<char>| r@.dom().contains(h) <==> str_views(v@).take(i as int).contains(h),
        decreases v.len() - i,
    {
        let ghost before = r@.dom();
        r.insert(v[i].clone(), true);
        assert(str_views(v@).take(i + 1) =~= str_views(v@).take(i as int).push(v@[i as int]@));
        assert forall|h: Seq<char>| r@.dom().contains(h) <==> str_views(v@).take(i + 1).contains(h) by {
            let t = str_views(v@).take(i as int);
            if t.contains(h) {
                let q = choose|q: int| 0 <= q < t.len() && t[q] == h;
                assert(str_views(v@).take(i + 1)[q] == h);
            }
            let t1 = str_views(v@).take(i + 1);
            if t1.contains(h) && h != v@[i as int]@ {
                let q = choose|q: int| 0 <= q < t1.len() && t1[q] == h;
                assert(q < i);
                assert(t[q] == t1[q]);
            }
            if h == v@[i as int]@ {
                assert(str_views(v@).take(i + 1)[i as int] == h);
            }
        }
        i = i + 1;
    }
    assert(str_views(v@).take(v@.len() as int) =~= str_views(v@));
    r
}

/// The value of an optional string.
pub open spec fn opt_str(o: Option<String>) -> Option<Seq<char>> {
    match o {
        Some(s) => Some(s@),
        None => None,
    }
}

/// The commits of `sb` that `sa` also holds, in `sb`'s order.
pub open spec fn common_of(sa: Seq<Seq<char>>, sb: Seq<Seq<char>>) -> Seq<Seq<char>>
    decreases sb.len(),
{
    if sb.len() == 0 {
        Seq::empty()
    } else if sa.contains(sb.last()) {
        common_of(sa, sb.drop_last()).push(sb.last())
    } else {
        common_of(sa, sb.drop_last())
    }
}

/// What `common_of` holds.
proof fn lemma_common_of(sa: Seq<Seq<char>>, sb: Seq<Seq<char>>)
    ensures
        forall|h: Seq<char>| #[trigger] common_of(sa, sb).contains(h) <==> sa.contains(h) && sb.contains(h),
    decreases sb.len(),
{
    if sb.len() > 0 {
        let t = sb.drop_last();
        lemma_common_of(sa, t);
        let c = common_of(sa, t);
        assert forall|h: Seq<char>| #[trigger] common_of(sa, sb).contains(h) <==> sa.contains(h) && sb.contains(h) by {
            if sb.contains(h) && h != sb.last() {
                let k = choose|k: int| 0 <= k < sb.len() && sb[k] == h;
                assert(t[k] == h);
            }
            if t.contains(h) {
                let k = choose|k: int| 0 <= k < t.len() && t[k] == h;
                assert(sb[k] == h);
            }
            if sb.last() == h {
                assert(sb[sb.len() - 1] == h);
            }
            if sa.contains(sb.last()) {
                if c.contains(h) {
                    let k = choose|k: int| 0 <= k < c.len() && c[k] == h;
                    assert(c.push(sb.last())[k] == h);
                }
                if c.push(sb.last()).contains(h) && h != sb.last() {
                    let k = choose|k: int| 0 <= k < c.len() + 1 && c.push(sb.last())[k] == h;
                    assert(c[k] == h);
                }
                assert(c.push(sb.last())[c.len() as int] == sb.last());
            }
        }
    }
}

/// Some other stored commit of `cs` has `c` as a parent.
pub open spec fn has_child_in(v: StoreView, cs: Seq<Seq<char>>, c: Seq<char>) -> bool {
    exists|k: int|
        0 <= k < cs.len() && cs[k] != c && v.commits.contains_key(cs[k]) && (#[trigger] v.commits[cs[k]]).parents.contains(c)
}

/// The first commit of `cs` from position `i` on that no other commit of `cs` has as a parent.
pub open spec fn first_lowest(v: StoreView, cs: Seq<Seq<char>>, i: int) -> Option<Seq<char>>
    decreases cs.len() - i,
{
    if i < 0 || i >= cs.len() {
        None
    } else if !has_child_in(v, cs, cs[i]) {
        Some(cs[i])
    } else {
        first_lowest(v, cs, i + 1)
    }
}

/// The merge base among the common ancestors `cs` (in breadth-first order from one side):
/// the first that is no other's parent, or the first of all when every one is (which only a
/// cycle of commits allows), or none when there is none.
pub open spec fn pick_lowest(v: StoreView, cs: Seq<Seq<char>>) -> Option<Seq<char>> {
    match first_lowest(v, cs, 0) {
        Some(c) => Some(c),
        None => if cs.len() > 0 {
            Some(cs[0])
        } else {
            None
        },
    }
}

/// `x` is a lowest common ancestor of `a` and `b`: an ancestor of both that is an ancestor of
/// no other common ancestor.
pub open spec fn is_lca(v: StoreView, a: Seq<char>, b: Seq<char>, x: Seq<char>) -> bool {
    &&& reachable(v, a, x)
    &&& reachable(v, b, x)
    &&& forall|d: Seq<char>|
        #![trigger reachable(v, d, x)]
        reachable(v, a, d) && reachable(v, b, d) && d != x ==> !reachable(v, d, x)
}

/// Reachability is transitive, and every commit reaches itself.
pub proof fn lemma_reach_trans(v: StoreView, a: Seq<char>, d: Seq<char>, x: Seq<char>)
    ensures
        reachable(v, a, a),
        reachable(v, a, d) && reachable(v, d, x) ==> reachable(v, a, x),
{
    assert forall|s: Set<Seq<char>>| #[trigger] parent_closed(v, s) && s.contains(a) implies s.contains(a) by {}
    if reachable(v, a, d) && reachable(v, d, x) {
        assert forall|s: Set<Seq<char>>| #[trigger] parent_closed(v, s) && s.contains(a) implies s.contains(x) by {
            assert(s.contains(d));
        }
    }
}

/// What `first_lowest` finds is in `cs` and no other's parent; it finds one when some
/// commit from position `i` on is no other's parent.
proof fn lemma_first_lowest(v: StoreView, cs: Seq<Seq<char>>, i: int, j: int)
    requires
        0 <= i,
    ensures
        first_lowest(v, cs, i) matches Some(c) ==> cs.contains(c) && !has_child_in(v, cs, c),
        i <= j < cs.len() && !has_child_in(v, cs, cs[j]) ==> first_lowest(v, cs, i) is Some,
    decreases cs.len() - i,
{
    if i < cs.len() {
        lemma_first_lowest(v, cs, i + 1, j);
    }
}

/// A common ancestor that no other common ancestor has as a parent is a lowest one.
proof fn lemma_no_child_lowest(v: StoreView, a: Seq<char>, b: Seq<char>, cs: Seq<Seq<char>>, c: Seq<char>)
    requires
        forall|h: Seq<char>| #[trigger] cs.contains(h) <==> reachable(v, a, h) && reachable(v, b, h),
        cs.contains(c),
        !has_child_in(v, cs, c),
    ensures
        is_lca(v, a, b, c),
{
    assert forall|d: Seq<char>|
        #![trigger reachable(v, d, c)]
        reachable(v, a, d) && reachable(v, b, d) && d != c implies !reachable(v, d, c) by {
        let t = Set::new(|x: Seq<char>| reachable(v, d, x) && x != c);
        lemma_reach_trans(v, d, d, d);
        assert(t.contains(d));
        assert(parent_closed(v, t)) by {
            assert forall|h: Seq<char>, k: int|
                #![trigger t.contains(h), v.commits[h].parents[k]]
                t.contains(h) && v.commits.contains_key(h) && 0 <= k < v.commits[h].parents.len()
                    implies t.contains(v.commits[h].parents[k]) by {
                let p = v.commits[h].parents[k];
                lemma_parent_reachable(v, d, h, k);
                if p == c {
                    lemma_reach_trans(v, a, d, h);
                    lemma_reach_trans(v, b, d, h);
                    assert(cs.contains(h));
                    let q = choose|q: int| 0 <= q < cs.len() && cs[q] == h;
                    assert(v.commits[cs[q]].parents.contains(c)) by {
                        assert(v.commits[h].parents[k] == c);
                    }
                    assert(has_child_in(v, cs, c));
                }
            }
        }
        if reachable(v, d, c) {
            assert(t.contains(c));
        }
    }
}

/// Whether some other stored commit of `cs` has `c` as a parent.
fn has_child(store: &ObjectStore, cs: &Vec<String>, c: &str) -> (r: bool)
    ensures
        r == has_child_in(store@, str_views(cs@), c@),
{
    let ghost v = store@;
    let ghost sv = str_views(cs@);
    let cc = crate::text::owned(c);
    let mut k: usize = 0;
    while k < cs.len()
        invariant
            k <= cs@.len(),
            cc@ == c@,
            v == store@,
            sv == str_views(cs@),
            forall|q: int|
                0 <= q < k ==> !(sv[q] != c@ && v.commits.contains_key(sv[q]) && (#[trigger] v.commits[sv[q]]).parents.contains(c@)),
        decreases cs.len() - k,
    {
        assert(sv[k as int] == cs@[k as int]@);
        if cs[k] != cc {
            if let Ok(p) = store.read_commit(cs[k].as_str()) {
                if crate::history::contains_text(&p.parents, c) {
                    assert(str_views(p.parents@) == v.commits[sv[k as int]].parents);
                    return true;
                }
                assert(str_views(p.parents@) == v.commits[sv[k as int]].parents);
            }
        }
        k = k + 1;
    }
    false
}

/// The merge base of `a` and `b`: among their common ancestors, in breadth-first order from
/// `b`, the first that is a parent of no other (see `pick_lowest`); none when the histories
/// are disjoint. When the two histories have a lowest common ancestor, the result is one.
pub fn merge_base(store: &ObjectStore, a: &str, b: &str) -> (r: Result<Option<String>, VaultError>)
    requires
        store.wf(),
    ensures
        match (bfs(store@, seq![a@], Set::empty()), bfs(store@, seq![b@], Set::empty())) {
            (Some(sa), Some(sb)) => r matches Ok(y) && opt_str(y) == pick_lowest(store@, common_of(sa, sb)),
            _ => r matches Err(VaultError::ObjectNotFound(_)),
        },
        r matches Ok(Some(h)) ==> reachable(store@, a@, h@) && reachable(store@, b@, h@),
        r matches Ok(None) ==> forall|h: Seq<char>|
            !(#[trigger] reachable(store@, a@, h) && reachable(store@, b@, h)),
        r matches Ok(Some(h)) ==> ((exists|x: Seq<char>| is_lca(store@, a@, b@, x)) ==> is_lca(store@, a@, b@, h@)),
{
    proof {
        lemma_commits_finite(store);
    }
    let ghost v = store@;
    let anc_a = ancestors(store, a)?;
    let anc_b = ancestors(store, b)?;
    let in_a = hash_set(&anc_a);
    let ghost sa = str_views(anc_a@);
    let ghost sb = str_views(anc_b@);
    let mut common: Vec<String> = Vec::new();
    let mut i: usize = 0;
    while i < anc_b.len()
        invariant
            i <= anc_b@.len(),
            sb == str_views(anc_b@),
            forall|h: Seq<char>| in_a@.dom().contains(h) <==> sa.contains(h),
            str_views(common@) == common_of(sa, sb.take(i as int)),
            sa == str_views(anc_a@),
            v == store@,
            v.commits.dom().finite(),
            bfs(v, seq![a@], Set::empty()) == Some(sa),
            bfs(v, seq![b@], Set::empty()) == Some(sb),
            forall|h: Seq<char>| sa.contains(h) <==> reachable(v, a@, h),
            forall|h: Seq<char>| sb.contains(h) <==> reachable(v, b@, h),
        decreases anc_b.len() - i,
    {
        assert(sb.take(i + 1).drop_last() =~= sb.take(i as int));
        assert(sb.take(i + 1).last() == anc_b@[i as int]@);
        if in_a.contains_key(anc_b[i].as_str()) {
            let ghost c0 = str_views(common@);
            common.push(anc_b[i].clone());
            assert(str_views(common@) =~= c0.push(anc_b@[i as int]@));
        }
        i = i + 1;
    }
    assert(sb.take(sb.len() as int) =~= sb);
    let ghost cs = str_views(common@);
    proof {
        lemma_common_of(sa, sb);
        assert forall|h: Seq<char>| #[trigger] cs.contains(h) <==> reachable(v, a@, h) && reachable(v, b@, h) by {}
    }
    let mut j: usize = 0;
    while j < common.len()
        invariant
            j <= common@.len(),
            cs == str_views(common@),
            v == store@,
            first_lowest(v, cs, 0) == first_lowest(v, cs, j as int),
            forall|h: Seq<char>| #[trigger] cs.contains(h) <==> reachable(v, a@, h) && reachable(v, b@, h),
            v.commits.dom().finite(),
            bfs(v, seq![a@], Set::empty()) == Some(sa),
            bfs(v, seq![b@], Set::empty()) == Some(sb),
            cs == common_of(sa, sb),
        decreases common.len() - j,
    {
        assert(cs[j as int] == common@[j as int]@);
        if !has_child(store, &common, common[j].as_str()) {
            proof {
                lemma_first_lowest(v, cs, 0, j as int);
                lemma_no_child_lowest(v, a@, b@, cs, cs[j as int]);
            }
            return Ok(Some(common[j].clone()));
        }
        j = j + 1;
    }
    proof {
        if exists|x: Seq<char>| is_lca(v, a@, b@, x) {
            let x = choose|x: Seq<char>| is_lca(v, a@, b@, x);
            assert(cs.contains(x));
            let q = choose|q: int| 0 <= q < cs.len() && cs[q] == x;
            if has_child_in(v, cs, x) {
                let k = choose|k: int|
                    0 <= k < cs.len() && cs[k] != x && v.commits.contains_key(cs[k]) && (#[trigger] v.commits[cs[k]]).parents.contains(x);
                let pk = choose|pk: int| 0 <= pk < v.commits[cs[k]].parents.len() && v.commits[cs[k]].parents[pk] == x;
                lemma_reach_trans(v, cs[k], cs[k], cs[k]);
                lemma_parent_reachable(v, cs[k], cs[k], pk);
                assert(cs.contains(cs[k]));
                assert(!reachable(v, cs[k], x));
            }
            lemma_first_lowest(v, cs, 0, q);
        }
    }
    if common.len() > 0 {
        proof {
            assert(cs.contains(cs[0]));
        }
        Ok(Some(common[0].clone()))
    } else {
        proof {
            assert forall|h: Seq<char>| !(#[trigger] reachable(v, a@, h) && reachable(v, b@, h)) by {
                if reachable(v, a@, h) && reachable(v, b@, h) {
                    assert(cs.contains(h));
                }
            }
        }
        Ok(None)
    }
}

/// The commit HEAD points at, or none for a repository without commits.
pub fn head_commit(store: &ObjectStore) -> (r: Option<String>)
    ensures
        opt_str(r) == resolve_head_of(store@),
{
    store.resolve_head()
}

/// The values of a list of hash/commit pairs.
pub open spec fn log_views(v: Seq<(String, Commit)>) -> Seq<(Seq<char>, CommitView)> {
    v.map_values(|e: (String, Commit)| (e.0@, e.1@))
}

/// The time key of an RFC 3339 UTC timestamp: the text without its closing `Z`. Such keys of
/// one format order as the times do, a key that another extends with a fraction coming first.
pub open spec fn time_key(t: Seq<char>) -> Seq<char> {
    if t.len() > 0 && t.last() == 'Z' {
        t.drop_last()
    } else {
        t
    }
}

/// The entry `x` is older than the entry `y`.
pub open spec fn older(x: (Seq<char>, CommitView), y: (Seq<char>, CommitView)) -> bool {
    crate::order::text_lt(time_key(x.1.timestamp), time_key(y.1.timestamp))
}

/// `s` (newest first) with `e` placed after every entry that is not older than it.
pub open spec fn place(s: Seq<(Seq<char>, CommitView)>, e: (Seq<char>, CommitView)) -> Seq<(Seq<char>, CommitView)>
    decreases s.len(),
{
    if s.len() == 0 {
        seq![e]
    } else if older(s.last(), e) {
        place(s.drop_last(), e).push(s.last())
    } else {
        s.push(e)
    }
}

/// The entries of `s`, newest first, entries of equal time in their order in `s`.
pub open spec fn newest_first(s: Seq<(Seq<char>, CommitView)>) -> Seq<(Seq<char>, CommitView)>
    decreases s.len(),
{
    if s.len() == 0 {
        s
    } else {
        place(newest_first(s.drop_last()), s.last())
    }
}

/// The log of `start`: the commits reachable from it, each with its hash, newest first (see
/// `newest_first`); nothing when a walk meets a missing commit.
pub open spec fn log_of(v: StoreView, start: Seq<char>) -> Option<Seq<(Seq<char>, CommitView)>> {
    match dfs(v, seq![start], Set::empty()) {
        Some(s) => Some(newest_first(s.map_values(|h: Seq<char>| (h, v.commits[h])))),
        None => None,
    }
}

/// The hashes of the log of `start`.
pub open spec fn log_hashes(v: StoreView, start: Seq<char>) -> Option<Seq<Seq<char>>> {
    match log_of(v, start) {
        Some(es) => Some(es.map_values(|e: (Seq<char>, CommitView)| e.0)),
        None => None,
    }
}

/// Placing `e` into `s` puts it at position `j`: after the entries up to `j`, none older than
/// it, and before those from `j` on, all older.
proof fn lemma_place(s: Seq<(Seq<char>, CommitView)>, e: (Seq<char>, CommitView)) -> (j: int)
    ensures
        0 <= j <= s.len(),
        place(s, e) == s.insert(j, e),
        j > 0 ==> !older(s[j - 1], e),
        forall|k: int| j <= k < s.len() ==> older(#[trigger] s[k], e),
    decreases s.len(),
{
    if s.len() == 0 {
        assert(s.insert(0, e) =~= seq![e]);
        0
    } else if older(s.last(), e) {
        let j = lemma_place(s.drop_last(), e);
        assert(s.drop_last().insert(j, e).push(s.last()) =~= s.insert(j, e));
        assert forall|k: int| j <= k < s.len() implies older(#[trigger] s[k], e) by {
            if k < s.len() - 1 {
                assert(s[k] == s.drop_last()[k]);
            }
        }
        if j > 0 {
            assert(s[j - 1] == s.drop_last()[j - 1]);
        }
        j
    } else {
        assert(s.push(e) =~= s.insert(s.len() as int, e));
        s.len() as int
    }
}

/// Every entry of `newest_first(s)` is an entry of `s`, and the lengths agree.
proof fn lemma_newest_first_from(s: Seq<(Seq<char>, CommitView)>)
    ensures
        newest_first(s).len() == s.len(),
        forall|k: int| 0 <= k < newest_first(s).len() ==> s.contains(#[trigger] newest_first(s)[k]),
    decreases s.len(),
{
    if s.len() > 0 {
        let t = s.drop_last();
        lemma_newest_first_from(t);
        let n = newest_first(t);
        let j = lemma_place(n, s.last());
        assert forall|k: int| 0 <= k < newest_first(s).len() implies s.contains(#[trigger] newest_first(s)[k]) by {
            let x = newest_first(s)[k];
            if k == j {
                assert(s[s.len() - 1] == x);
            } else {
                let i = if k < j { k } else { k - 1 };
                assert(x == n[i]);
                assert(t.contains(x));
                let q = choose|q: int| 0 <= q < t.len() && t[q] == x;
                assert(s[q] == x);
            }
        }
    }
}

/// `newest_first(s)` is in reverse time order: no entry is older than one after it.
proof fn lemma_newest_first_sorted(s: Seq<(Seq<char>, CommitView)>)
    ensures
        forall|i: int, k: int| 0 <= i < k < newest_first(s).len() ==> !older(#[trigger] newest_first(s)[i], #[trigger] newest_first(s)[k]),
    decreases s.len(),
{
    if s.len() > 0 {
        let t = s.drop_last();
        let e = s.last();
        lemma_newest_first_sorted(t);
        let n = newest_first(t);
        let j = lemma_place(n, e);
        let m = newest_first(s);
        assert(m == n.insert(j, e));
        assert forall|i: int, k: int| 0 <= i < k < m.len() implies !older(#[trigger] m[i], #[trigger] m[k]) by {
            let ki = if i < j { i } else { i - 1 };
            let kk = if k <= j { k } else { k - 1 };
            if i == j {
                // e against a later entry, which is older than e
                assert(m[k] == n[kk]);
                assert(older(n[kk], e));
                if older(e, n[kk]) {
                    crate::order::lemma_lt_transitive(
                        time_key(n[kk].1.timestamp),
                        time_key(e.1.timestamp),
                        time_key(n[kk].1.timestamp),
                    );
                    crate::order::lemma_lt_irreflexive(time_key(n[kk].1.timestamp));
                }
            } else if k == j {
                // an earlier entry against e: it is not older than n[j - 1], which is not older than e
                assert(m[i] == n[ki]);
                assert(!older(n[j - 1], e));
                if ki < j - 1 {
                    assert(!older(n[ki], n[j - 1]));
                    let ka = time_key(n[ki].1.timestamp);
                    let kb = time_key(n[j - 1].1.timestamp);
                    let kc = time_key(e.1.timestamp);
                    crate::order::lemma_lt_total(ka, kb);
                    if crate::order::text_lt(ka, kc) && crate::order::text_lt(kb, ka) {
                        crate::order::lemma_lt_transitive(kb, ka, kc);
                    }
                }
            } else {
                assert(m[i] == n[ki]);
                assert(m[k] == n[kk]);
            }
        }
    }
}

/// The commits reachable from `start`, each with its hash, newest first: by the time key of
/// their timestamps, commits of equal time in depth-first order, first parents first.
pub fn log_walk(store: &ObjectStore, start: &str) -> (r: Result<Vec<(String, Commit)>, VaultError>)
    requires
        store.wf(),
    ensures
        match log_of(store@, start@) {
            Some(es) => r matches Ok(v) && log_views(v@) == es,
            None => r matches Err(VaultError::ObjectNotFound(_)),
        },
        r matches Ok(v) ==> forall|k: int|
            0 <= k < v@.len() ==> store@.commits.contains_key(#[trigger] v@[k].0@)
                && store@.commits[v@[k].0@] == v@[k].1@,
        r matches Ok(v) ==> forall|i: int, k: int|
            0 <= i < k < v@.len() ==> !older(#[trigger] log_views(v@)[i], #[trigger] log_views(v@)[k]),
{
    proof {
        lemma_commits_finite(store);
    }
    let walked = walk_depth_first(store, start)?;
    let ghost v = store@;
    let ghost s = dfs(v, seq![start@], Set::empty())->0;
    let ghost es = s.map_values(|h: Seq<char>| (h, v.commits[h]));
    assert(log_views(walked@) =~= es) by {
        assert(log_views(walked@).map_values(|e: (Seq<char>, CommitView)| e.0) == s);
        assert forall|k: int| 0 <= k < es.len() implies log_views(walked@)[k] == es[k] by {
            assert(log_views(walked@).map_values(|e: (Seq<char>, CommitView)| e.0)[k] == s[k]);
        }
    }
    let mut out: Vec<(String, Commit)> = Vec::new();
    let mut i: usize = 0;
    while i < walked.len()
        invariant
            i <= walked@.len(),
            log_views(walked@) == es,
            log_views(out@) == newest_first(es.take(i as int)),
        decreases walked.len() - i,
    {
        let ghost n = log_views(out@);
        let e = (walked[i].0.clone(), walked[i].1.duplicate());
        let ghost ev = (e.0@, e.1@);
        assert(ev == es[i as int]);
        let key = time_key_of(e.1.timestamp.as_str());
        let mut j: usize = out.len();
        let mut stop = false;
        assert(n.take(n.len() as int) =~= n);
        assert(n.skip(n.len() as int) =~= Seq::<(Seq<char>, CommitView)>::empty());
        assert(place(n, ev) + Seq::<(Seq<char>, CommitView)>::empty() =~= place(n, ev));
        while j > 0 && !stop
            invariant
                j <= out@.len(),
                n == log_views(out@),
                key@ == time_key(ev.1.timestamp),
                forall|k: int| j <= k < n.len() ==> older(#[trigger] n[k], ev),
                place(n, ev) == place(n.take(j as int), ev) + n.skip(j as int),
                stop ==> j > 0 && !older(n[j - 1], ev),
            decreases j + (if stop { 0int } else { 1int }),
        {
            let kj = time_key_of(out[j - 1].1.timestamp.as_str());
            assert(log_views(out@)[j - 1] == (out@[j - 1].0@, out@[j - 1].1@));
            if crate::order::str_lt(kj.as_str(), key.as_str()) {
                proof {
                    let t = n.take(j as int);
                    assert(t.last() == n[j - 1]);
                    assert(t.drop_last() =~= n.take(j - 1));
                    assert(place(t, ev) == place(n.take(j - 1), ev).push(n[j - 1]));
                    assert(place(n.take(j - 1), ev).push(n[j - 1]) + n.skip(j as int) =~= place(n.take(j - 1), ev) + n.skip(j - 1));
                }
                j = j - 1;
            } else {
                stop = true;
            }
        }
        proof {
            let t = n.take(j as int);
            if j > 0 {
                assert(t.last() == n[j - 1]);
                assert(!older(n[j - 1], ev));
                assert(place(t, ev) == t.push(ev));
            } else {
                assert(place(t, ev) =~= seq![ev]);
            }
            assert(place(t, ev) + n.skip(j as int) =~= n.insert(j as int, ev));
            assert(es.take(i + 1).drop_last() =~= es.take(i as int));
            assert(es.take(i + 1).last() == ev);
        }
        out.insert(j, e);
        assert(log_views(out@) =~= n.insert(j as int, ev));
        i = i + 1;
    }
    proof {
        assert(es.take(es.len() as int) =~= es);
        lemma_newest_first_sorted(es);
        lemma_newest_first_from(es);
        assert forall|k: int| 0 <= k < out@.len() implies v.commits.contains_key(#[trigger] out@[k].0@)
            && v.commits[out@[k].0@] == out@[k].1@ by {
            assert(log_views(out@)[k] == (out@[k].0@, out@[k].1@));
            assert(es.contains(log_views(out@)[k]));
            let q = choose|q: int| 0 <= q < es.len() && es[q] == log_views(out@)[k];
            assert(log_views(walked@)[q] == es[q]);
            assert(log_views(walked@)[q] == (walked@[q].0@, walked@[q].1@));
        }
    }
    Ok(out)
}

/// The time key of a timestamp (see `time_key`).
fn time_key_of(t: &str) -> (r: String)
    ensures
        r@ == time_key(t@),
{
    if crate::text::ends_with(t, "Z") {
        proof {
            reveal_strlit("Z");
            assert(t@.subrange(t@.len() - 1, t@.len() as int)[0] == "Z"@[0]);
            assert(t@.subrange(0, t@.len() - 1) =~= t@.drop_last());
        }
        crate::text::substring(t, 0, t.unicode_len() - 1)
    } else {
        proof {
            reveal_strlit("Z");
            if t@.len() > 0 && t@.last() == 'Z' {
                assert("Z"@.is_suffix_of(t@)) by {
                    assert(t@.subrange(t@.len() - 1, t@.len() as int) =~= "Z"@);
                }
            }
        }
        crate::text::owned(t)
    }
}

/// The commits reachable from `start`, depth first, first parents first, each with its hash.
fn walk_depth_first(store: &ObjectStore, start: &str) -> (r: Result<Vec<(String, Commit)>, VaultError>)
    requires
        store.wf(),
    ensures
        match dfs(store@, seq![start@], Set::empty()) {
            Some(s) => r matches Ok(v) && log_views(v@).map_values(|e: (Seq<char>, CommitView)| e.0)
                == s && forall|k: int|
                0 <= k < v@.len() ==> store@.commits.contains_key(#[trigger] v@[k].0@)
                    && store@.commits[v@[k].0@] == v@[k].1@,
            None => r matches Err(VaultError::ObjectNotFound(_)),
        },
{
    proof {
        lemma_commits_finite(store);
    }
    let ghost v = store@;
    let ghost target = dfs(v, seq![start@], Set::empty());
    let mut visited: StringHashMap<bool> = StringHashMap::new();
    let mut stack: Vec<String> = Vec::new();
    stack.push(crate::text::owned(start));
    let mut result: Vec<(String, Commit)> = Vec::new();
    assert(str_views(stack@) =~= seq![start@]);
    assert(visited@.dom() =~= Set::<Seq<char>>::empty());
    assert(log_views(result@).map_values(|e: (Seq<char>, CommitView)| e.0) =~= Seq::<Seq<char>>::empty());
    while stack.len() > 0
        invariant
            v == store@,
            v.commits.dom().finite(),
            prepend(
                log_views(result@).map_values(|e: (Seq<char>, CommitView)| e.0),
                dfs(v, str_views(stack@), visited@.dom()),
            ) == target,
            target == dfs(v, seq![start@], Set::empty()),
            forall|k: int|
                0 <= k < result@.len() ==> v.commits.contains_key(#[trigger] result@[k].0@)
                    && v.commits[result@[k].0@] == result@[k].1@,
        decreases v.commits.dom().difference(visited@.dom()).len(), stack@.len(),
    {
        let ghost st = str_views(stack@);
        let ghost names = log_views(result@).map_values(|e: (Seq<char>, CommitView)| e.0);
        let h = stack.pop().unwrap();
        assert(st.last() == h@);
        assert(str_views(stack@) =~= st.drop_last());
        if visited.contains_key(h.as_str()) {
        } else {
            let ghost vd = visited@.dom();
            visited.insert(h.clone(), true);
            let commit = store.read_commit(h.as_str())?;
            proof {
                lemma_visit_shrinks(v.commits.dom(), vd, h@);
                assert(visited@.dom() =~= vd.insert(h@));
            }
            let ghost ps = commit@.parents;
            let mut k: usize = commit.parents.len();
            while k > 0
                invariant
                    k <= commit.parents@.len(),
                    ps == str_views(commit.parents@),
                    str_views(stack@) == st.drop_last() + ps.reverse().take(ps.len() - k),
                decreases k,
            {
                k = k - 1;
                let ghost before = str_views(stack@);
                stack.push(commit.parents[k].clone());
                assert(str_views(stack@) =~= before.push(ps[k as int]));
                assert(ps.reverse().take(ps.len() - k) =~= ps.reverse().take(ps.len() - k - 1).push(
                    ps[k as int],
                ));
            }
            assert(ps.reverse().take(ps.len() as int) =~= ps.reverse());
            let ghost rb = log_views(result@);
            let ghost hv = h@;
            let ghost cv = commit@;
            result.push((h, commit));
            proof {
                assert(log_views(result@) =~= rb.push((hv, cv)));
                assert(log_views(result@).map_values(|e: (Seq<char>, CommitView)| e.0) =~= names.push(hv));
                assert(v.commits[hv].parents == ps);
            }
        }
    }
    assert(str_views(stack@) =~= Seq::<Seq<char>>::empty());
    assert(log_views(result@).map_values(|e: (Seq<char>, CommitView)| e.0) + Seq::<Seq<char>>::empty()
        =~= log_views(result@).map_values(|e: (Seq<char>, CommitView)| e.0));
    Ok(result)
}

} // verus!
