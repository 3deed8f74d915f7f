//! A flattened tree: every file path of a tree mapped to the kind and hash of its entry,
//! kept in path order.
use vstd::prelude::*;
use crate::objects::EntryKind;
use crate::order::{chars_lt, lemma_lt_irreflexive, lemma_lt_total, lemma_lt_transitive, text_lt};

verus! {

/// One flattened path.
#[derive(Debug)]
pub struct FlatEntry {
    pub path: String,
    pub kind: EntryKind,
    pub hash: String,
}

/// A flattened path as a value.
pub struct FlatView {
    pub path: Seq<char>,
    pub kind: EntryKind,
    pub hash: Seq<char>,
}

impl View for FlatEntry {
    type V = FlatView;

    open spec fn view(&self) -> FlatView {
        FlatView { path: self.path@, kind: self.kind, hash: self.hash@ }
    }
}

impl FlatEntry {
    /// A copy of the entry.
    pub fn duplicate(&self) -> (r: FlatEntry)
        ensures
            r@ == self@,
    {
        FlatEntry { path: self.path.clone(), kind: self.kind, hash: self.hash.clone() }
    }
}

/// Paths mapped to the kind and hash of their entries.
pub type FlatMap = Map<Seq<char>, (EntryKind, Seq<char>)>;

/// The values of a sequence of flat entries.
pub open spec fn flat_views(es: Seq<FlatEntry>) -> Seq<FlatView> {
    es.map_values(|e: FlatEntry| e@)
}

/// The paths are in strictly increasing order.
pub open spec fn sorted_paths(s: Seq<FlatView>) -> bool {
    forall|i: int, j: int| 0 <= i < j < s.len() ==> text_lt(s[i].path, s[j].path)
}

/// The map that a sequence of flat entries describes.
pub open spec fn seq_to_map(s: Seq<FlatView>) -> FlatMap
    decreases s.len(),
{
    if s.len() == 0 {
        Map::empty()
    } else {
        seq_to_map(s.drop_last()).insert(s.last().path, (s.last().kind, s.last().hash))
    }
}

/// A sorted sequence describes each of its entries and nothing else.
pub proof fn lemma_seq_to_map(s: Seq<FlatView>)
    requires
        sorted_paths(s),
    ensures
        forall|p: Seq<char>|
            #![trigger seq_to_map(s).contains_key(p)]
            seq_to_map(s).contains_key(p) <==> exists|i: int| 0 <= i < s.len() && s[i].path == p,
        forall|i: int|
            0 <= i < s.len() ==> #[trigger] seq_to_map(s)[s[i].path] == (s[i].kind, s[i].hash),
        seq_to_map(s).dom().finite(),
        seq_to_map(s).dom().len() == s.len(),
    decreases s.len(),
{
    if s.len() > 0 {
        let t = s.drop_last();
        assert(sorted_paths(t));
        lemma_seq_to_map(t);
        let l = s.last();
        assert forall|i: int| 0 <= i < t.len() implies t[i].path != l.path by {
            assert(text_lt(s[i].path, s[s.len() - 1].path));
            lemma_lt_irreflexive(l.path);
        }
        assert(!seq_to_map(t).contains_key(l.path));
        assert forall|p: Seq<char>| seq_to_map(s).contains_key(p) implies exists|i: int|
            0 <= i < s.len() && s[i].path == p by {
            if p != l.path {
                let i = choose|i: int| 0 <= i < t.len() && t[i].path == p;
                assert(s[i].path == p);
            } else {
                assert(s[s.len() - 1].path == p);
            }
        }
        assert forall|p: Seq<char>| (exists|i: int| 0 <= i < s.len() && s[i].path == p) implies
            seq_to_map(s).contains_key(p) by {
            let i = choose|i: int| 0 <= i < s.len() && s[i].path == p;
            if i < s.len() - 1 {
                assert(t[i].path == p);
            }
        }
        assert forall|i: int| 0 <= i < s.len() implies #[trigger] seq_to_map(s)[s[i].path] == (
            s[i].kind,
            s[i].hash,
        ) by {
            if i < s.len() - 1 {
                assert(t[i] == s[i]);
                assert(seq_to_map(t)[t[i].path] == (t[i].kind, t[i].hash));
            }
        }
    }
}

/// Around the insertion point of `p` in a sorted sequence: the paths from `k` on sort after
/// `p` when the one at `k` is not `p`, and then no path is `p`.
pub proof fn lemma_after_position(s: Seq<FlatView>, k: int, p: Seq<char>)
    requires
        sorted_paths(s),
        0 <= k <= s.len(),
        forall|j: int| 0 <= j < k ==> text_lt(#[trigger] s[j].path, p),
        forall|j: int| k <= j < s.len() ==> !text_lt(#[trigger] s[j].path, p),
        k < s.len() ==> s[k].path != p,
    ensures
        forall|j: int| k <= j < s.len() ==> text_lt(p, #[trigger] s[j].path),
        forall|j: int| 0 <= j < s.len() ==> #[trigger] s[j].path != p,
{
    assert forall|j: int| k <= j < s.len() implies text_lt(p, #[trigger] s[j].path) by {
        lemma_lt_total(s[k].path, p);
        if j > k {
            lemma_lt_transitive(p, s[k].path, s[j].path);
        }
    }
    assert forall|j: int| 0 <= j < s.len() implies #[trigger] s[j].path != p by {
        lemma_lt_irreflexive(p);
    }
}

/// The sorted sequence that describes a map (there is at most one).
pub open spec fn flat_seq_of(m: FlatMap) -> Seq<FlatView> {
    choose|s: Seq<FlatView>| sorted_paths(s) && seq_to_map(s) == m
}

/// Two sorted sequences that describe the same map are the same sequence.
pub proof fn lemma_sorted_unique(s1: Seq<FlatView>, s2: Seq<FlatView>)
    requires
        sorted_paths(s1),
        sorted_paths(s2),
        seq_to_map(s1) == seq_to_map(s2),
    ensures
        s1 == s2,
    decreases s1.len(),
{
    lemma_seq_to_map(s1);
    lemma_seq_to_map(s2);
    if s1.len() == 0 || s2.len() == 0 {
        if s1.len() > 0 {
            assert(seq_to_map(s1).contains_key(s1[0].path));
        }
        if s2.len() > 0 {
            assert(seq_to_map(s2).contains_key(s2[0].path));
        }
        assert(s1 =~= s2);
    } else {
        let l1 = s1.last();
        let l2 = s2.last();
        assert(seq_to_map(s2).contains_key(l1.path));
        assert(seq_to_map(s1).contains_key(l2.path));
        let j = choose|j: int| 0 <= j < s2.len() && s2[j].path == l1.path;
        let i = choose|i: int| 0 <= i < s1.len() && s1[i].path == l2.path;
        if l1.path != l2.path {
            assert(j < s2.len() - 1);
            assert(i < s1.len() - 1);
            assert(text_lt(l1.path, l2.path));
            assert(text_lt(l2.path, l1.path));
            lemma_lt_transitive(l1.path, l2.path, l1.path);
            lemma_lt_irreflexive(l1.path);
        }
        assert(seq_to_map(s1)[l1.path] == (l1.kind, l1.hash));
        assert(seq_to_map(s2)[l2.path] == (l2.kind, l2.hash));
        assert(l1 == l2);
        let t1 = s1.drop_last();
        let t2 = s2.drop_last();
        assert(sorted_paths(t1));
        assert(sorted_paths(t2));
        lemma_seq_to_map(t1);
        lemma_seq_to_map(t2);
        assert forall|k: int| 0 <= k < t1.len() implies t1[k].path != l1.path by {
            assert(text_lt(s1[k].path, l1.path));
            lemma_lt_irreflexive(l1.path);
        }
        assert forall|k: int| 0 <= k < t2.len() implies t2[k].path != l2.path by {
            assert(text_lt(s2[k].path, l2.path));
            lemma_lt_irreflexive(l2.path);
        }
        assert(!seq_to_map(t1).contains_key(l1.path));
        assert(!seq_to_map(t2).contains_key(l1.path));
        assert(seq_to_map(t1) =~= seq_to_map(s1).remove(l1.path));
        assert(seq_to_map(t2) =~= seq_to_map(s2).remove(l1.path));
        lemma_sorted_unique(t1, t2);
        assert(s1 =~= t1.push(l1));
        assert(s2 =~= t2.push(l2));
    }
}

/// A well-formed flat tree's entries are the sorted sequence of its map.
pub proof fn lemma_flat_seq_of(f: &FlatTree)
    requires
        f.wf(),
    ensures
        flat_seq_of(f.view()) == f.seqv(),
{
    let s = flat_seq_of(f.view());
    assert(sorted_paths(f.seqv()) && seq_to_map(f.seqv()) == f.view());
    lemma_sorted_unique(s, f.seqv());
}

/// A file tree in flattened form, its entries sorted by path.
pub struct FlatTree {
    pub entries: Vec<FlatEntry>,
}

impl FlatTree {
    /// The entries as values, in order.
    pub open spec fn seqv(&self) -> Seq<FlatView> {
        flat_views(self.entries@)
    }

    /// The entries are sorted by path, each path once.
    pub open spec fn wf(&self) -> bool {
        sorted_paths(self.seqv())
    }

    /// The paths and their entries.
    pub open spec fn view(&self) -> FlatMap {
        seq_to_map(self.seqv())
    }

    /// An empty flattened tree.
    pub fn new() -> (r: FlatTree)
        ensures
            r.wf(),
            r.view() == FlatMap::empty(),
            r.seqv().len() == 0,
    {
        let r = FlatTree { entries: Vec::new() };
        assert(r.seqv() =~= Seq::<FlatView>::empty());
        r
    }

    /// The number of paths.
    pub fn len(&self) -> (n: usize)
        ensures
            n == self.seqv().len(),
    {
        self.entries.len()
    }

    /// The first position whose path does not sort before `p`.
    fn position(&self, p: &Vec<char>) -> (k: usize)
        requires
            self.wf(),
        ensures
            k <= self.seqv().len(),
            forall|j: int| 0 <= j < k ==> text_lt(#[trigger] self.seqv()[j].path, p@),
            forall|j: int| k <= j < self.seqv().len() ==> !text_lt(#[trigger] self.seqv()[j].path, p@),
    {
        let mut k: usize = 0;
        while k < self.entries.len()
            invariant
                self.wf(),
                k <= self.seqv().len(),
                forall|j: int| 0 <= j < k ==> text_lt(#[trigger] self.seqv()[j].path, p@),
            decreases self.entries.len() - k,
        {
            let cv = crate::text::chars_vec(self.entries[k].path.as_str());
            if !chars_lt(&cv, p) {
                assert forall|j: int| k <= j < self.seqv().len() implies !text_lt(
                    #[trigger] self.seqv()[j].path,
                    p@,
                ) by {
                    if j > k && text_lt(self.seqv()[j].path, p@) {
                        lemma_lt_transitive(self.seqv()[k as int].path, self.seqv()[j].path, p@);
                    }
                }
                return k;
            }
            k = k + 1;
        }
        k
    }

    /// The entry for `path`, if there is one.
    pub fn get(&self, path: &str) -> (r: Option<&FlatEntry>)
        requires
            self.wf(),
        ensures
            match r {
                Some(e) => self.view().contains_key(path@) && self.view()[path@] == (
                    e@.kind,
                    e@.hash,
                ) && e@.path == path@,
                None => !self.view().contains_key(path@),
            },
    {
        proof {
            lemma_seq_to_map(self.seqv());
        }
        let pv = crate::text::chars_vec(path);
        let ps = crate::text::owned(path);
        let k = self.position(&pv);
        if k < self.entries.len() && self.entries[k].path == ps {
            assert(self.seqv()[k as int] == self.entries@[k as int]@);
            return Some(&self.entries[k]);
        }
        proof {
            lemma_after_position(self.seqv(), k as int, path@);
        }
        None
    }

    /// Whether `path` has an entry.
    pub fn contains_key(&self, path: &str) -> (r: bool)
        requires
            self.wf(),
        ensures
            r == self.view().contains_key(path@),
    {
        self.get(path).is_some()
    }

    /// Sets the entry for `path`.
    #[verifier::spinoff_prover]
    #[verifier::rlimit(40)]
    pub fn insert(&mut self, path: String, kind: EntryKind, hash: String)
        requires
            old(self).wf(),
        ensures
            final(self).wf(),
            final(self).view() == old(self).view().insert(path@, (kind, hash@)),
    {
        proof {
            lemma_seq_to_map(self.seqv());
        }
        let ghost old_s = self.seqv();
        let ghost p = path@;
        let ghost v = (kind, hash@);
        let pv = crate::text::chars_vec(path.as_str());
        let k = self.position(&pv);
        let same = k < self.entries.len() && self.entries[k].path == path;
        let e = FlatEntry { path, kind, hash };
        if same {
            self.entries.set(k, e);
            let ghost s = self.seqv();
            assert(s =~= old_s.update(k as int, e@));
            assert(self.wf()) by {
                assert forall|i: int, j: int| 0 <= i < j < s.len() implies text_lt(
                    s[i].path,
                    s[j].path,
                ) by {
                    assert(old_s[i].path == s[i].path);
                    assert(old_s[j].path == s[j].path);
                }
            }
            proof {
                lemma_seq_to_map(s);
                assert forall|q: Seq<char>| #[trigger] self.view().contains_key(q) implies old(
                    self,
                ).view().insert(p, v).contains_key(q) by {
                    let i = choose|i: int| 0 <= i < s.len() && s[i].path == q;
                    assert(old_s[i].path == q);
                }
                assert forall|q: Seq<char>| old(self).view().insert(p, v).contains_key(q) implies
                    #[trigger] self.view().contains_key(q) by {
                    if q != p {
                        let i = choose|i: int| 0 <= i < old_s.len() && old_s[i].path == q;
                        assert(s[i].path == q);
                    } else {
                        assert(s[k as int].path == q);
                    }
                }
                assert forall|q: Seq<char>| #[trigger] self.view().contains_key(q) implies self.view()[q]
                    == old(self).view().insert(p, v)[q] by {
                    let i = choose|i: int| 0 <= i < s.len() && s[i].path == q;
                    assert(self.view()[s[i].path] == (s[i].kind, s[i].hash));
                    if i != k {
                        assert(old(self).view()[old_s[i].path] == (old_s[i].kind, old_s[i].hash));
                    }
                }
                assert(self.view() =~= old(self).view().insert(p, v));
            }
        } else {
            self.entries.insert(k, e);
            let ghost s = self.seqv();
            assert(s =~= old_s.insert(k as int, e@));
            proof {
                lemma_after_position(old_s, k as int, p);
            }
            assert(self.wf()) by {
                assert forall|i: int, j: int| 0 <= i < j < s.len() implies text_lt(
                    s[i].path,
                    s[j].path,
                ) by {
                    if j < k {
                        assert(s[i] == old_s[i] && s[j] == old_s[j]);
                    } else if j == k {
                        assert(s[i] == old_s[i]);
                    } else if i == k {
                        assert(s[j] == old_s[j - 1]);
                    } else if i < k {
                        assert(s[i] == old_s[i] && s[j] == old_s[j - 1]);
                    } else {
                        assert(s[i] == old_s[i - 1] && s[j] == old_s[j - 1]);
                    }
                }
            }
            proof {
                lemma_seq_to_map(s);
                assert forall|q: Seq<char>| #[trigger] self.view().contains_key(q) implies old(
                    self,
                ).view().insert(p, v).contains_key(q) by {
                    let i = choose|i: int| 0 <= i < s.len() && s[i].path == q;
                    if i < k {
                        assert(old_s[i].path == q);
                    } else if i > k {
                        assert(old_s[i - 1].path == q);
                    }
                }
                assert forall|q: Seq<char>| old(self).view().insert(p, v).contains_key(q) implies
                    #[trigger] self.view().contains_key(q) by {
                    if q != p {
                        let i = choose|i: int| 0 <= i < old_s.len() && old_s[i].path == q;
                        if i < k {
                            assert(s[i].path == q);
                        } else {
                            assert(s[i + 1].path == q);
                        }
                    } else {
                        assert(s[k as int].path == q);
                    }
                }
                assert forall|q: Seq<char>| #[trigger] self.view().contains_key(q) implies self.view()[q]
                    == old(self).view().insert(p, v)[q] by {
                    let i = choose|i: int| 0 <= i < s.len() && s[i].path == q;
                    assert(self.view()[s[i].path] == (s[i].kind, s[i].hash));
                    if i < k {
                        assert(s[i] == old_s[i]);
                        assert(old(self).view()[old_s[i].path] == (old_s[i].kind, old_s[i].hash));
                        assert(q != p);
                    } else if i > k {
                        assert(s[i] == old_s[i - 1]);
                        assert(old(self).view()[old_s[i - 1].path] == (
                            old_s[i - 1].kind,
                            old_s[i - 1].hash,
                        ));
                        assert(q != p);
                    }
                }
                assert(self.view() =~= old(self).view().insert(p, v));
            }
        }
    }

    /// Removes the entry for `path`, if there is one.
    pub fn remove(&mut self, path: &str)
        requires
            old(self).wf(),
        ensures
            final(self).wf(),
            final(self).view() == old(self).view().remove(path@),
    {
        proof {
            lemma_seq_to_map(self.seqv());
        }
        let ghost old_s = self.seqv();
        let ghost p = path@;
        let pv = crate::text::chars_vec(path);
        let ps = crate::text::owned(path);
        let k = self.position(&pv);
        if k < self.entries.len() && self.entries[k].path == ps {
            self.entries.remove(k);
            let ghost s = self.seqv();
            assert(s =~= old_s.remove(k as int));
            assert(self.wf()) by {
                assert forall|i: int, j: int| 0 <= i < j < s.len() implies text_lt(
                    s[i].path,
                    s[j].path,
                ) by {
                    let oi = if i < k { i } else { i + 1 };
                    let oj = if j < k { j } else { j + 1 };
                    assert(s[i] == old_s[oi] && s[j] == old_s[oj]);
                }
            }
            proof {
                lemma_seq_to_map(s);
                assert forall|q: Seq<char>| #[trigger] self.view().contains_key(q) implies old(
                    self,
                ).view().remove(p).contains_key(q) by {
                    let i = choose|i: int| 0 <= i < s.len() && s[i].path == q;
                    let oi = if i < k { i } else { i + 1 };
                    assert(s[i] == old_s[oi]);
                    assert(old_s[oi].path == q);
                    assert(old(self).view().contains_key(q));
                    if q == p {
                        if oi < k {
                            assert(text_lt(old_s[oi].path, old_s[k as int].path));
                        } else {
                            assert(text_lt(old_s[k as int].path, old_s[oi].path));
                        }
                        lemma_lt_irreflexive(p);
                    }
                }
                assert forall|q: Seq<char>| old(self).view().remove(p).contains_key(q) implies
                    #[trigger] self.view().contains_key(q) by {
                    let i = choose|i: int| 0 <= i < old_s.len() && old_s[i].path == q;
                    if i < k {
                        assert(s[i] == old_s[i]);
                        assert(s[i].path == q);
                    } else if i > k {
                        assert(s[i - 1] == old_s[i]);
                        assert(s[i - 1].path == q);
                    }
                }
                assert forall|q: Seq<char>| #[trigger] self.view().contains_key(q) implies self.view()[q]
                    == old(self).view().remove(p)[q] by {
                    let i = choose|i: int| 0 <= i < s.len() && s[i].path == q;
                    let oi = if i < k { i } else { i + 1 };
                    assert(self.view()[s[i].path] == (s[i].kind, s[i].hash));
                    assert(old(self).view()[old_s[oi].path] == (old_s[oi].kind, old_s[oi].hash));
                }
                assert(self.view() =~= old(self).view().remove(p));
            }
        } else {
            proof {
                lemma_after_position(old_s, k as int, p);
            }
            assert(self.view() =~= old(self).view().remove(p));
        }
    }

    /// A copy of the flattened tree.
    pub fn duplicate(&self) -> (r: FlatTree)
        ensures
            r.seqv() == self.seqv(),
            r.view() == self.view(),
            r.wf() == self.wf(),
    {
        let mut v: Vec<FlatEntry> = Vec::new();
        let mut i: usize = 0;
        while i < self.entries.len()
            invariant
                i <= self.entries@.len(),
                v@.len() == i,
                forall|j: int| 0 <= j < i ==> (#[trigger] v@[j])@ == self.entries@[j]@,
            decreases self.entries.len() - i,
        {
            v.push(self.entries[i].duplicate());
            i = i + 1;
        }
        let r = FlatTree { entries: v };
        assert(r.seqv() =~= self.seqv());
        r
    }
}

} // verus!
