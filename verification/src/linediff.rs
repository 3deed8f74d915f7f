//! Line diffs: a longest-common-subsequence edit script grouped into hunks with context.
use vstd::prelude::*;

verus! {

/// One line of an edit script.
#[derive(Debug)]
pub enum DiffLine {
    Context(String),
    Added(String),
    Removed(String),
}

/// A line of an edit script as a value.
pub enum LineView {
    Context(Seq<char>),
    Added(Seq<char>),
    Removed(Seq<char>),
}

impl View for DiffLine {
    type V = LineView;

    open spec fn view(&self) -> LineView {
        match self {
            DiffLine::Context(s) => LineView::Context(s@),
            DiffLine::Added(s) => LineView::Added(s@),
            DiffLine::Removed(s) => LineView::Removed(s@),
        }
    }
}

impl DiffLine {
    /// A copy of the line.
    pub fn duplicate(&self) -> (r: DiffLine)
        ensures
            r@ == self@,
    {
        match self {
            DiffLine::Context(s) => DiffLine::Context(s.clone()),
            DiffLine::Added(s) => DiffLine::Added(s.clone()),
            DiffLine::Removed(s) => DiffLine::Removed(s.clone()),
        }
    }
}

/// A run of edit-script lines and where it starts in the old and the new text (1-based).
#[derive(Debug)]
pub struct DiffHunk {
    pub old_start: usize,
    pub new_start: usize,
    pub lines: Vec<DiffLine>,
}

/// The values of a sequence of diff lines.
pub open spec fn line_views(v: Seq<DiffLine>) -> Seq<LineView> {
    v.map_values(|l: DiffLine| l@)
}

/// A hunk as a value.
pub struct HunkView {
    pub old_start: int,
    pub new_start: int,
    pub lines: Seq<LineView>,
}

impl View for DiffHunk {
    type V = HunkView;

    open spec fn view(&self) -> HunkView {
        HunkView {
            old_start: self.old_start as int,
            new_start: self.new_start as int,
            lines: line_views(self.lines@),
        }
    }
}

/// The values of a sequence of hunks.
pub open spec fn hunk_views(v: Seq<DiffHunk>) -> Seq<HunkView> {
    v.map_values(|h: DiffHunk| h@)
}

/// Length of a longest common subsequence of `a[i..]` and `b[j..]`.
pub open spec fn lcs_len(a: Seq<Seq<char>>, b: Seq<Seq<char>>, i: int, j: int) -> int
    decreases a.len() - i, b.len() - j,
{
    if i < 0 || j < 0 || i >= a.len() || j >= b.len() {
        0
    } else if a[i] == b[j] {
        1 + lcs_len(a, b, i + 1, j + 1)
    } else {
        let x = lcs_len(a, b, i + 1, j);
        let y = lcs_len(a, b, i, j + 1);
        if x >= y {
            x
        } else {
            y
        }
    }
}

/// The edit script from `a[i..]` to `b[j..]`: a common line is kept; otherwise a line of `b`
/// is added when that keeps at least as long a common subsequence as removing the line of
/// `a`, else the line of `a` is removed.
pub open spec fn edit_script(a: Seq<Seq<char>>, b: Seq<Seq<char>>, i: int, j: int) -> Seq<LineView>
    decreases a.len() - i + b.len() - j,
{
    if i < 0 || j < 0 || i > a.len() || j > b.len() {
        Seq::empty()
    } else if i < a.len() && j < b.len() && a[i] == b[j] {
        seq![LineView::Context(a[i])] + edit_script(a, b, i + 1, j + 1)
    } else if j < b.len() && (i >= a.len() || lcs_len(a, b, i, j + 1) >= lcs_len(a, b, i + 1, j)) {
        seq![LineView::Added(b[j])] + edit_script(a, b, i, j + 1)
    } else if i < a.len() {
        seq![LineView::Removed(a[i])] + edit_script(a, b, i + 1, j)
    } else {
        Seq::empty()
    }
}

/// The line belongs to the old text.
pub open spec fn is_old_line(l: LineView) -> bool {
    l is Context || l is Removed
}

/// The line belongs to the new text.
pub open spec fn is_new_line(l: LineView) -> bool {
    l is Context || l is Added
}

/// The text of a line.
pub open spec fn line_text(l: LineView) -> Seq<char> {
    match l {
        LineView::Context(s) => s,
        LineView::Added(s) => s,
        LineView::Removed(s) => s,
    }
}

/// The old text that an edit script reads.
pub open spec fn old_side(e: Seq<LineView>) -> Seq<Seq<char>>
    decreases e.len(),
{
    if e.len() == 0 {
        Seq::empty()
    } else if is_old_line(e.last()) {
        old_side(e.drop_last()).push(line_text(e.last()))
    } else {
        old_side(e.drop_last())
    }
}

/// The new text that an edit script writes.
pub open spec fn new_side(e: Seq<LineView>) -> Seq<Seq<char>>
    decreases e.len(),
{
    if e.len() == 0 {
        Seq::empty()
    } else if is_new_line(e.last()) {
        new_side(e.drop_last()).push(line_text(e.last()))
    } else {
        new_side(e.drop_last())
    }
}

/// The number of unchanged lines in an edit script.
pub open spec fn context_count(e: Seq<LineView>) -> int
    decreases e.len(),
{
    if e.len() == 0 {
        0
    } else {
        context_count(e.drop_last()) + if e.last() is Context {
            1int
        } else {
            0int
        }
    }
}

/// A common-subsequence length is bounded by what is left of the old text.
pub proof fn lemma_lcs_bounds(a: Seq<Seq<char>>, b: Seq<Seq<char>>, i: int, j: int)
    requires
        0 <= i <= a.len(),
        0 <= j <= b.len(),
    ensures
        0 <= lcs_len(a, b, i, j) <= a.len() - i,
        lcs_len(a, b, i, j) <= b.len() - j,
    decreases a.len() - i, b.len() - j,
{
    if i < a.len() && j < b.len() {
        lemma_lcs_bounds(a, b, i + 1, j + 1);
        lemma_lcs_bounds(a, b, i + 1, j);
        lemma_lcs_bounds(a, b, i, j + 1);
    }
}

/// The old side distributes over concatenation.
pub proof fn lemma_old_side_concat(x: Seq<LineView>, y: Seq<LineView>)
    ensures
        old_side(x + y) == old_side(x) + old_side(y),
        new_side(x + y) == new_side(x) + new_side(y),
        context_count(x + y) == context_count(x) + context_count(y),
    decreases y.len(),
{
    if y.len() == 0 {
        assert(x + y =~= x);
    } else {
        lemma_old_side_concat(x, y.drop_last());
        assert((x + y).drop_last() =~= x + y.drop_last());
        assert((x + y).last() == y.last());
    }
}

/// The sides of a one-line script.
pub proof fn lemma_single_sides(l: LineView)
    ensures
        old_side(seq![l]) == (if is_old_line(l) { seq![line_text(l)] } else { Seq::empty() }),
        new_side(seq![l]) == (if is_new_line(l) { seq![line_text(l)] } else { Seq::empty() }),
        context_count(seq![l]) == (if l is Context { 1int } else { 0int }),
{
    let h = seq![l];
    assert(h.drop_last() =~= Seq::<LineView>::empty());
    assert(old_side(h.drop_last()) == Seq::<Seq<char>>::empty());
    assert(new_side(h.drop_last()) == Seq::<Seq<char>>::empty());
    assert(context_count(h.drop_last()) == 0);
    assert(seq![line_text(l)] =~= Seq::<Seq<char>>::empty().push(line_text(l)));
}

/// An edit script reads exactly the rest of the old text, writes exactly the rest of the new
/// text, keeps a longest common subsequence, and is no longer than the two rests together.
pub proof fn lemma_edit_script(a: Seq<Seq<char>>, b: Seq<Seq<char>>, i: int, j: int)
    requires
        0 <= i <= a.len(),
        0 <= j <= b.len(),
    ensures
        old_side(edit_script(a, b, i, j)) == a.skip(i),
        new_side(edit_script(a, b, i, j)) == b.skip(j),
        context_count(edit_script(a, b, i, j)) == lcs_len(a, b, i, j),
        edit_script(a, b, i, j).len() <= a.len() - i + b.len() - j,
    decreases a.len() - i + b.len() - j,
{
    let e = edit_script(a, b, i, j);
    if i < a.len() && j < b.len() && a[i] == b[j] {
        lemma_edit_script(a, b, i + 1, j + 1);
        let h = seq![LineView::Context(a[i])];
        lemma_old_side_concat(h, edit_script(a, b, i + 1, j + 1));
        lemma_single_sides(h[0]);
        assert(h =~= seq![h[0]]);
        assert(a.skip(i) =~= seq![a[i]] + a.skip(i + 1));
        assert(b.skip(j) =~= seq![b[j]] + b.skip(j + 1));
    } else if j < b.len() && (i >= a.len() || lcs_len(a, b, i, j + 1) >= lcs_len(a, b, i + 1, j)) {
        lemma_edit_script(a, b, i, j + 1);
        let h = seq![LineView::Added(b[j])];
        lemma_old_side_concat(h, edit_script(a, b, i, j + 1));
        lemma_single_sides(h[0]);
        assert(h =~= seq![h[0]]);
        assert(b.skip(j) =~= seq![b[j]] + b.skip(j + 1));
        assert(old_side(edit_script(a, b, i, j)) =~= a.skip(i));
    } else if i < a.len() {
        lemma_edit_script(a, b, i + 1, j);
        let h = seq![LineView::Removed(a[i])];
        lemma_old_side_concat(h, edit_script(a, b, i + 1, j));
        lemma_single_sides(h[0]);
        assert(h =~= seq![h[0]]);
        assert(a.skip(i) =~= seq![a[i]] + a.skip(i + 1));
        assert(new_side(edit_script(a, b, i, j)) =~= b.skip(j));
    } else {
        assert(a.skip(i) =~= Seq::<Seq<char>>::empty());
        assert(b.skip(j) =~= Seq::<Seq<char>>::empty());
    }
}

/// The values of a sequence of strings.
pub open spec fn texts(v: Seq<String>) -> Seq<Seq<char>> {
    v.map_values(|s: String| s@)
}

/// The common-subsequence table: `rows[m - i][n - j]` holds the length for `a[i..]`, `b[j..]`.
fn lcs_table(a: &Vec<String>, b: &Vec<String>) -> (rows: Vec<Vec<usize>>)
    requires
        a@.len() < usize::MAX,
        b@.len() < usize::MAX,
    ensures
        rows@.len() == a@.len() + 1,
        forall|r: int|
            0 <= r <= a@.len() ==> (#[trigger] rows@[r])@.len() == b@.len() + 1 && forall|c: int|
                0 <= c <= b@.len() ==> rows@[r]@[c] == lcs_len(
                    texts(a@),
                    texts(b@),
                    a@.len() - r,
                    b@.len() - c,
                ),
{
    let ghost ta = texts(a@);
    let ghost tb = texts(b@);
    let m = a.len();
    let n = b.len();
    let mut rows: Vec<Vec<usize>> = Vec::new();
    let mut base: Vec<usize> = Vec::new();
    let mut k: usize = 0;
    while k <= n
        invariant
            k <= n + 1,
            n == b@.len(),
            n < usize::MAX,
            base@.len() == k,
            forall|c: int| 0 <= c < k ==> base@[c] == 0,
        decreases n + 1 - k,
    {
        base.push(0);
        k = k + 1;
    }
    rows.push(base);
    let mut i = m;
    while i > 0
        invariant
            i <= m,
            m == a@.len(),
            n == b@.len(),
            m < usize::MAX,
            n < usize::MAX,
            ta == texts(a@),
            tb == texts(b@),
            rows@.len() == m - i + 1,
            forall|r: int|
                0 <= r < rows@.len() ==> (#[trigger] rows@[r])@.len() == n + 1 && forall|c: int|
                    0 <= c <= n ==> rows@[r]@[c] == lcs_len(ta, tb, m - r, n - c),
        decreases i,
    {
        i = i - 1;
        let mut cur: Vec<usize> = Vec::new();
        cur.push(0);
        let mut j = n;
        while j > 0
            invariant
                i < m,
                j <= n,
                m == a@.len(),
                n == b@.len(),
                m < usize::MAX,
                n < usize::MAX,
                ta == texts(a@),
                tb == texts(b@),
                rows@.len() == m - i,
                forall|r: int|
                    0 <= r < rows@.len() ==> (#[trigger] rows@[r])@.len() == n + 1 && forall|c: int|
                        0 <= c <= n ==> rows@[r]@[c] == lcs_len(ta, tb, m - r, n - c),
                cur@.len() == n - j + 1,
                forall|c: int| 0 <= c <= n - j ==> cur@[c] == lcs_len(ta, tb, i as int, n - c),
            decreases j,
        {
            j = j - 1;
            let next = &rows[m - i - 1];
            assert(next@.len() == n + 1);
            proof {
                lemma_lcs_bounds(ta, tb, i + 1, j + 1);
                assert(ta[i as int] == a@[i as int]@);
                assert(tb[j as int] == b@[j as int]@);
            }
            let v = if a[i] == b[j] {
                next[n - (j + 1)] + 1
            } else {
                let x = next[n - j];
                let y = cur[n - (j + 1)];
                if x >= y {
                    x
                } else {
                    y
                }
            };
            cur.push(v);
        }
        rows.push(cur);
    }
    rows
}

/// The edit script from the lines `a` to the lines `b`.
pub fn edit_lines(a: &Vec<String>, b: &Vec<String>) -> (edits: Vec<DiffLine>)
    requires
        a@.len() < usize::MAX,
        b@.len() < usize::MAX,
    ensures
        line_views(edits@) == edit_script(texts(a@), texts(b@), 0, 0),
{
    let ghost ta = texts(a@);
    let ghost tb = texts(b@);
    let rows = lcs_table(a, b);
    let m = a.len();
    let n = b.len();
    let mut edits: Vec<DiffLine> = Vec::new();
    let mut i: usize = 0;
    let mut j: usize = 0;
    while i < m || j < n
        invariant
            i <= m,
            j <= n,
            m == a@.len(),
            n == b@.len(),
            ta == texts(a@),
            tb == texts(b@),
            rows@.len() == m + 1,
            forall|r: int|
                0 <= r <= m ==> (#[trigger] rows@[r])@.len() == n + 1 && forall|c: int|
                    0 <= c <= n ==> rows@[r]@[c] == lcs_len(ta, tb, m - r, n - c),
            line_views(edits@) + edit_script(ta, tb, i as int, j as int) == edit_script(
                ta,
                tb,
                0,
                0,
            ),
        decreases m - i + n - j,
    {
        let ghost pre = line_views(edits@);
        let ghost oi = i as int;
        let ghost oj = j as int;
        let same = i < m && j < n && a[i] == b[j];
        proof {
            if i < m {
                assert(ta[i as int] == a@[i as int]@);
            }
            if j < n {
                assert(tb[j as int] == b@[j as int]@);
            }
        }
        if same {
            edits.push(DiffLine::Context(a[i].clone()));
            i = i + 1;
            j = j + 1;
        } else if j < n && (i >= m || rows[m - i][n - (j + 1)] >= rows[m - (i + 1)][n - j]) {
            edits.push(DiffLine::Added(b[j].clone()));
            j = j + 1;
        } else {
            edits.push(DiffLine::Removed(a[i].clone()));
            i = i + 1;
        }
        assert(line_views(edits@) =~= pre.push(edits@.last()@));
        assert(edit_script(ta, tb, oi, oj) == seq![edits@.last()@] + edit_script(
            ta,
            tb,
            i as int,
            j as int,
        ));
        assert(pre + edit_script(ta, tb, oi, oj) =~= line_views(edits@) + edit_script(
            ta,
            tb,
            i as int,
            j as int,
        ));
    }
    assert(line_views(edits@) + edit_script(ta, tb, m as int, n as int) =~= line_views(edits@));
    edits
}


/// The context window around a changed line at `pos`: three lines either side.
pub open spec fn window_of(len: int, pos: int) -> (int, int) {
    (if pos >= 3 { pos - 3 } else { 0 }, if pos + 4 <= len { pos + 4 } else { len })
}

/// The windows of the changes among the first `k` lines of `e`, overlapping or touching
/// windows merged.
pub open spec fn windows_upto(e: Seq<LineView>, k: int) -> Seq<(int, int)>
    decreases k,
{
    if k <= 0 || k > e.len() {
        Seq::empty()
    } else {
        let w = windows_upto(e, k - 1);
        let pos = k - 1;
        if e[pos] is Context {
            w
        } else {
            let (st, en) = window_of(e.len() as int, pos);
            if w.len() > 0 && st <= w.last().1 {
                w.update(w.len() - 1, (w.last().0, if w.last().1 >= en { w.last().1 } else { en }))
            } else {
                w.push((st, en))
            }
        }
    }
}

/// The hunk for window `w` of the edit script `e`.
pub open spec fn hunk_at(e: Seq<LineView>, w: (int, int)) -> HunkView {
    HunkView {
        old_start: 1 + old_side(e.take(w.0)).len() as int,
        new_start: 1 + new_side(e.take(w.0)).len() as int,
        lines: e.subrange(w.0, w.1),
    }
}

/// The hunks of an edit script.
pub open spec fn hunks_of(e: Seq<LineView>) -> Seq<HunkView> {
    windows_upto(e, e.len() as int).map_values(|w: (int, int)| hunk_at(e, w))
}

/// The hunks of the line diff from `old` to `new`.
pub open spec fn spec_line_diff(old: Seq<char>, new: Seq<char>) -> Seq<HunkView> {
    hunks_of(edit_script(crate::text::spec_lines(old), crate::text::spec_lines(new), 0, 0))
}

/// The windows are in order, apart, and within the script.
pub open spec fn windows_ordered(w: Seq<(int, int)>, len: int) -> bool {
    &&& forall|i: int| 0 <= i < w.len() ==> 0 <= (#[trigger] w[i]).0 < w[i].1 <= len
    &&& forall|i: int| 0 <= i < w.len() - 1 ==> (#[trigger] w[i]).1 < w[i + 1].0
}

/// Windows built so far are ordered, and the last ends at most four lines past `k`.
proof fn lemma_windows_ordered(e: Seq<LineView>, k: int)
    requires
        0 <= k <= e.len(),
    ensures
        windows_ordered(windows_upto(e, k), e.len() as int),
        windows_upto(e, k).len() > 0 ==> windows_upto(e, k).last().1 <= k + 3 || windows_upto(
            e,
            k,
        ).last().1 == e.len(),
        windows_upto(e, k).len() > 0 ==> windows_upto(e, k).last().1 <= e.len(),
    decreases k,
{
    if k > 0 {
        lemma_windows_ordered(e, k - 1);
    }
}

/// Old and new line counts grow by at most one per script line.
proof fn lemma_side_step(e: Seq<LineView>, c: int)
    requires
        0 <= c < e.len(),
    ensures
        old_side(e.take(c + 1)).len() == old_side(e.take(c)).len() + if is_old_line(e[c]) {
            1int
        } else {
            0int
        },
        new_side(e.take(c + 1)).len() == new_side(e.take(c)).len() + if is_new_line(e[c]) {
            1int
        } else {
            0int
        },
{
    assert(e.take(c + 1).drop_last() =~= e.take(c));
}

/// A prefix of a script reads and writes no more than the whole.
proof fn lemma_side_prefix(e: Seq<LineView>, c: int)
    requires
        0 <= c <= e.len(),
    ensures
        old_side(e.take(c)).len() <= old_side(e).len(),
        new_side(e.take(c)).len() <= new_side(e).len(),
{
    lemma_old_side_concat(e.take(c), e.skip(c));
    assert(e.take(c) + e.skip(c) =~= e);
}

/// The merged change windows of `e`.
fn change_windows(e: &Vec<DiffLine>) -> (w: Vec<(usize, usize)>)
    ensures
        w@.len() == windows_upto(line_views(e@), e@.len() as int).len(),
        forall|i: int|
            0 <= i < w@.len() ==> (#[trigger] w@[i]).0 as int == windows_upto(
                line_views(e@),
                e@.len() as int,
            )[i].0 && w@[i].1 as int == windows_upto(line_views(e@), e@.len() as int)[i].1,
{
    let ghost ev = line_views(e@);
    let mut w: Vec<(usize, usize)> = Vec::new();
    let len = e.len();
    let mut k: usize = 0;
    while k < len
        invariant
            k <= len,
            len == e@.len(),
            ev == line_views(e@),
            w@.len() == windows_upto(ev, k as int).len(),
            forall|i: int|
                0 <= i < w@.len() ==> (#[trigger] w@[i]).0 as int == windows_upto(ev, k as int)[i].0
                    && w@[i].1 as int == windows_upto(ev, k as int)[i].1,
        decreases len - k,
    {
        let ghost pw = windows_upto(ev, k as int);
        proof {
            lemma_windows_ordered(ev, k as int);
        }
        let is_ctx = match &e[k] {
            DiffLine::Context(_) => true,
            _ => false,
        };
        assert(ev[k as int] == e@[k as int]@);
        if !is_ctx {
            let st: usize = if k >= 3 {
                k - 3
            } else {
                0
            };
            let en: usize = if len - k >= 4 {
                k + 4
            } else {
                len
            };
            let nw = w.len();
            if nw > 0 && st <= w[nw - 1].1 {
                let last = w[nw - 1];
                let ne = if last.1 >= en {
                    last.1
                } else {
                    en
                };
                w.set(nw - 1, (last.0, ne));
            } else {
                w.push((st, en));
            }
        }
        k = k + 1;
        assert(windows_upto(ev, k as int) == if ev[k - 1] is Context {
            pw
        } else {
            let (st, en) = window_of(ev.len() as int, k - 1);
            if pw.len() > 0 && st <= pw.last().1 {
                pw.update(
                    pw.len() - 1,
                    (pw.last().0, if pw.last().1 >= en { pw.last().1 } else { en }),
                )
            } else {
                pw.push((st, en))
            }
        });
    }
    w
}

/// Copies of the script lines `lo..hi`.
fn copy_lines(e: &Vec<DiffLine>, lo: usize, hi: usize) -> (r: Vec<DiffLine>)
    requires
        lo <= hi <= e@.len(),
    ensures
        line_views(r@) == line_views(e@).subrange(lo as int, hi as int),
{
    let mut r: Vec<DiffLine> = Vec::new();
    let mut k = lo;
    while k < hi
        invariant
            lo <= k <= hi,
            hi <= e@.len(),
            r@.len() == k - lo,
            forall|q: int| 0 <= q < r@.len() ==> (#[trigger] r@[q])@ == e@[lo + q]@,
        decreases hi - k,
    {
        r.push(e[k].duplicate());
        k = k + 1;
    }
    assert(line_views(r@) =~= line_views(e@).subrange(lo as int, hi as int));
    r
}

/// Groups an edit script into hunks with three lines of context.
pub fn group_hunks(e: &Vec<DiffLine>) -> (hunks: Vec<DiffHunk>)
    requires
        old_side(line_views(e@)).len() < usize::MAX,
        new_side(line_views(e@)).len() < usize::MAX,
    ensures
        hunk_views(hunks@) == hunks_of(line_views(e@)),
{
    let ghost ev = line_views(e@);
    let ghost ws = windows_upto(ev, ev.len() as int);
    proof {
        lemma_windows_ordered(ev, ev.len() as int);
    }
    let windows = change_windows(e);
    let mut hunks: Vec<DiffHunk> = Vec::new();
    let mut old_line: usize = 1;
    let mut new_line: usize = 1;
    let mut cursor: usize = 0;
    let mut wi: usize = 0;
    while wi < windows.len()
        invariant
            wi <= windows@.len(),
            ev == line_views(e@),
            ws == windows_upto(ev, ev.len() as int),
            windows_ordered(ws, ev.len() as int),
            windows@.len() == ws.len(),
            forall|i: int|
                0 <= i < windows@.len() ==> (#[trigger] windows@[i]).0 as int == ws[i].0
                    && windows@[i].1 as int == ws[i].1,
            old_side(ev).len() < usize::MAX,
            new_side(ev).len() < usize::MAX,
            cursor <= ev.len(),
            wi < windows@.len() ==> cursor <= ws[wi as int].0,
            old_line == 1 + old_side(ev.take(cursor as int)).len(),
            new_line == 1 + new_side(ev.take(cursor as int)).len(),
            hunks@.len() == wi,
            forall|i: int| 0 <= i < wi ==> (#[trigger] hunks@[i])@ == hunk_at(ev, ws[i]),
        decreases windows.len() - wi,
    {
        let (start, end) = windows[wi];
        while cursor < start
            invariant
                cursor <= start,
                start < end <= ev.len(),
                ev == line_views(e@),
                old_side(ev).len() < usize::MAX,
                new_side(ev).len() < usize::MAX,
                old_line == 1 + old_side(ev.take(cursor as int)).len(),
                new_line == 1 + new_side(ev.take(cursor as int)).len(),
            decreases start - cursor,
        {
            proof {
                lemma_side_step(ev, cursor as int);
                lemma_side_prefix(ev, cursor + 1);
                assert(ev[cursor as int] == e@[cursor as int]@);
            }
            match &e[cursor] {
                DiffLine::Context(_) => {
                    old_line = old_line + 1;
                    new_line = new_line + 1;
                },
                DiffLine::Removed(_) => {
                    old_line = old_line + 1;
                },
                DiffLine::Added(_) => {
                    new_line = new_line + 1;
                },
            }
            cursor = cursor + 1;
        }
        let lines = copy_lines(e, start, end);
        hunks.push(DiffHunk { old_start: old_line, new_start: new_line, lines });
        while cursor < end
            invariant
                start <= cursor <= end,
                end <= ev.len(),
                ev == line_views(e@),
                old_side(ev).len() < usize::MAX,
                new_side(ev).len() < usize::MAX,
                old_line == 1 + old_side(ev.take(cursor as int)).len(),
                new_line == 1 + new_side(ev.take(cursor as int)).len(),
            decreases end - cursor,
        {
            proof {
                lemma_side_step(ev, cursor as int);
                lemma_side_prefix(ev, cursor + 1);
                assert(ev[cursor as int] == e@[cursor as int]@);
            }
            match &e[cursor] {
                DiffLine::Context(_) => {
                    old_line = old_line + 1;
                    new_line = new_line + 1;
                },
                DiffLine::Removed(_) => {
                    old_line = old_line + 1;
                },
                DiffLine::Added(_) => {
                    new_line = new_line + 1;
                },
            }
            cursor = cursor + 1;
        }
        wi = wi + 1;
    }
    assert(hunk_views(hunks@) =~= hunks_of(ev));
    hunks
}

/// The hunks of the line diff from `old` to `new`: a longest-common-subsequence edit script,
/// each change shown with up to three lines of context, overlapping contexts merged.
pub fn line_diff(old: &str, new: &str) -> (hunks: Vec<DiffHunk>)
    requires
        crate::text::spec_lines(old@).len() < usize::MAX,
        crate::text::spec_lines(new@).len() < usize::MAX,
    ensures
        hunk_views(hunks@) == spec_line_diff(old@, new@),
{
    let a = crate::text::lines(old);
    let b = crate::text::lines(new);
    assert(texts(a@) == crate::text::spec_lines(old@));
    assert(texts(b@) == crate::text::spec_lines(new@));
    diff_lines(&a, &b)
}

/// The hunks of the line diff between two lists of lines.
pub fn diff_lines(a: &Vec<String>, b: &Vec<String>) -> (hunks: Vec<DiffHunk>)
    requires
        a@.len() < usize::MAX,
        b@.len() < usize::MAX,
    ensures
        hunk_views(hunks@) == hunks_of(edit_script(texts(a@), texts(b@), 0, 0)),
{
    let edits = edit_lines(a, b);
    proof {
        lemma_edit_script(texts(a@), texts(b@), 0, 0);
        assert(texts(a@).skip(0) =~= texts(a@));
        assert(texts(b@).skip(0) =~= texts(b@));
    }
    group_hunks(&edits)
}

/// The hunk that shows a whole text as added (or nothing for a text without lines).
pub open spec fn addition_hunks(text: Seq<char>) -> Seq<HunkView> {
    let ls = crate::text::spec_lines(text);
    if ls.len() == 0 {
        Seq::empty()
    } else {
        seq![HunkView { old_start: 0, new_start: 1, lines: ls.map_values(|l: Seq<char>| LineView::Added(l)) }]
    }
}

/// The hunk that shows a whole text as removed (or nothing for a text without lines).
pub open spec fn deletion_hunks(text: Seq<char>) -> Seq<HunkView> {
    let ls = crate::text::spec_lines(text);
    if ls.len() == 0 {
        Seq::empty()
    } else {
        seq![HunkView { old_start: 1, new_start: 0, lines: ls.map_values(|l: Seq<char>| LineView::Removed(l)) }]
    }
}

/// The hunk showing all of `text` as added.
pub fn make_addition_hunks(text: &str) -> (r: Vec<DiffHunk>)
    ensures
        hunk_views(r@) == addition_hunks(text@),
{
    let ls = crate::text::lines(text);
    let mut lines: Vec<DiffLine> = Vec::new();
    let mut k: usize = 0;
    while k < ls.len()
        invariant
            k <= ls@.len(),
            lines@.len() == k,
            forall|q: int| 0 <= q < k ==> (#[trigger] lines@[q])@ == LineView::Added(ls@[q]@),
        decreases ls.len() - k,
    {
        lines.push(DiffLine::Added(ls[k].clone()));
        k = k + 1;
    }
    assert(texts(ls@) == crate::text::spec_lines(text@));
    if lines.len() == 0 {
        let r: Vec<DiffHunk> = Vec::new();
        assert(hunk_views(r@) =~= addition_hunks(text@));
        return r;
    }
    let mut r: Vec<DiffHunk> = Vec::new();
    r.push(DiffHunk { old_start: 0, new_start: 1, lines });
    assert(line_views(r@[0].lines@) =~= crate::text::spec_lines(text@).map_values(
        |l: Seq<char>| LineView::Added(l),
    ));
    assert(hunk_views(r@) =~= addition_hunks(text@));
    r
}

/// The hunk showing all of `text` as removed.
pub fn make_deletion_hunks(text: &str) -> (r: Vec<DiffHunk>)
    ensures
        hunk_views(r@) == deletion_hunks(text@),
{
    let ls = crate::text::lines(text);
    let mut lines: Vec<DiffLine> = Vec::new();
    let mut k: usize = 0;
    while k < ls.len()
        invariant
            k <= ls@.len(),
            lines@.len() == k,
            forall|q: int| 0 <= q < k ==> (#[trigger] lines@[q])@ == LineView::Removed(ls@[q]@),
        decreases ls.len() - k,
    {
        lines.push(DiffLine::Removed(ls[k].clone()));
        k = k + 1;
    }
    assert(texts(ls@) == crate::text::spec_lines(text@));
    if lines.len() == 0 {
        let r: Vec<DiffHunk> = Vec::new();
        assert(hunk_views(r@) =~= deletion_hunks(text@));
        return r;
    }
    let mut r: Vec<DiffHunk> = Vec::new();
    r.push(DiffHunk { old_start: 1, new_start: 0, lines });
    assert(line_views(r@[0].lines@) =~= crate::text::spec_lines(text@).map_values(
        |l: Seq<char>| LineView::Removed(l),
    ));
    assert(hunk_views(r@) =~= deletion_hunks(text@));
    r
}

/// Every line of `e` before `k` is unchanged.
pub open spec fn unchanged_upto(e: Seq<LineView>, k: int) -> bool {
    forall|i: int| 0 <= i < k ==> (#[trigger] e[i]) is Context
}

/// There are windows of changes among the first `k` lines exactly when one of them changed.
proof fn lemma_windows_empty(e: Seq<LineView>, k: int)
    requires
        0 <= k <= e.len(),
    ensures
        windows_upto(e, k).len() == 0 <==> unchanged_upto(e, k),
    decreases k,
{
    if k > 0 {
        lemma_windows_empty(e, k - 1);
        if !(e[k - 1] is Context) {
            assert(!unchanged_upto(e, k));
        } else {
            assert(unchanged_upto(e, k) <==> unchanged_upto(e, k - 1)) by {
                if unchanged_upto(e, k - 1) {
                    assert forall|i: int| 0 <= i < k implies (#[trigger] e[i]) is Context by {
                        if i < k - 1 {
                        }
                    }
                }
            }
        }
    }
}

/// A script of unchanged lines reads what it writes.
proof fn lemma_unchanged_sides(e: Seq<LineView>)
    requires
        unchanged_upto(e, e.len() as int),
    ensures
        old_side(e) == new_side(e),
    decreases e.len(),
{
    if e.len() > 0 {
        assert(unchanged_upto(e.drop_last(), e.drop_last().len() as int)) by {
            assert forall|i: int| 0 <= i < e.drop_last().len() implies (#[trigger] e.drop_last()[i]) is Context by {
                assert(e.drop_last()[i] == e[i]);
            }
        }
        lemma_unchanged_sides(e.drop_last());
        assert(e.last() is Context);
    }
}

/// The script from a text to itself changes no line.
proof fn lemma_script_of_same(a: Seq<Seq<char>>, i: int)
    requires
        0 <= i <= a.len(),
    ensures
        unchanged_upto(edit_script(a, a, i, i), edit_script(a, a, i, i).len() as int),
    decreases a.len() - i,
{
    if i < a.len() {
        lemma_script_of_same(a, i + 1);
        let r = edit_script(a, a, i + 1, i + 1);
        let e = seq![LineView::Context(a[i])] + r;
        assert(edit_script(a, a, i, i) == e);
        assert forall|k: int| 0 <= k < e.len() implies (#[trigger] e[k]) is Context by {
            if k > 0 {
                assert(e[k] == r[k - 1]);
            }
        }
    }
}

/// The line diff of two texts is empty exactly when they have the same lines.
pub proof fn lemma_line_diff_empty(old: Seq<char>, new: Seq<char>)
    ensures
        spec_line_diff(old, new).len() == 0 <==> crate::text::spec_lines(old) == crate::text::spec_lines(new),
{
    let a = crate::text::spec_lines(old);
    let b = crate::text::spec_lines(new);
    let e = edit_script(a, b, 0, 0);
    lemma_windows_empty(e, e.len() as int);
    lemma_edit_script(a, b, 0, 0);
    assert(a.skip(0) =~= a);
    assert(b.skip(0) =~= b);
    if spec_line_diff(old, new).len() == 0 {
        lemma_unchanged_sides(e);
    }
    if a == b {
        lemma_script_of_same(a, 0);
    }
}

} // verus!
