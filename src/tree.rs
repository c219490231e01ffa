//! The directory listing: a prefix tree of relative paths, drawn depth-first
//! with branch glyphs, children in the order of their names.
//!
//! The tree is held as the strictly sorted sequence of its file paths, in the
//! segment-wise order: a node comes right before its descendants, and those
//! before its next sibling, so that this sequence is the tree's depth-first
//! order.

use vstd::prelude::*;

use crate::order::{lemma_bytes_lt_irreflexive, lemma_bytes_lt_transitive, lemma_str_lt_total, str_less, str_lt};
use crate::text::{clone_strings, views};

verus! {

/// Segment-wise lexicographic order of paths: a path comes before its
/// extensions, and siblings go by the order of their names.
pub open spec fn path_lt(a: Seq<Seq<char>>, b: Seq<Seq<char>>) -> bool
    decreases a.len(),
{
    if a.len() == 0 {
        b.len() > 0
    } else if b.len() == 0 {
        false
    } else if a[0] != b[0] {
        str_lt(a[0], b[0])
    } else {
        path_lt(a.drop_first(), b.drop_first())
    }
}

/// Each path comes strictly before the ones after it.
pub open spec fn strictly_sorted(s: Seq<Seq<Seq<char>>>) -> bool {
    forall|i: int, j: int| 0 <= i < j < s.len() ==> path_lt(#[trigger] s[i], #[trigger] s[j])
}

/// The views of a vector of paths.
pub open spec fn path_views(v: Seq<Vec<String>>) -> Seq<Seq<Seq<char>>> {
    v.map_values(|p: Vec<String>| views(p@))
}

proof fn lemma_path_lt_irreflexive(a: Seq<Seq<char>>)
    ensures
        !path_lt(a, a),
    decreases a.len(),
{
    if a.len() > 0 {
        lemma_path_lt_irreflexive(a.drop_first());
    }
}

proof fn lemma_path_lt_transitive(a: Seq<Seq<char>>, b: Seq<Seq<char>>, c: Seq<Seq<char>>)
    requires
        path_lt(a, b),
        path_lt(b, c),
    ensures
        path_lt(a, c),
    decreases a.len(),
{
    if a.len() > 0 && b.len() > 0 && c.len() > 0 {
        if a[0] == b[0] && b[0] == c[0] {
            lemma_path_lt_transitive(a.drop_first(), b.drop_first(), c.drop_first());
        } else if a[0] != b[0] && b[0] != c[0] {
            lemma_bytes_lt_transitive(
                crate::order::key(a[0]),
                crate::order::key(b[0]),
                crate::order::key(c[0]),
            );
            if a[0] == c[0] {
                lemma_bytes_lt_irreflexive(crate::order::key(a[0]));
            }
        }
    }
}

proof fn lemma_path_lt_total(a: Seq<Seq<char>>, b: Seq<Seq<char>>)
    requires
        a != b,
    ensures
        path_lt(a, b) || path_lt(b, a),
    decreases a.len(),
{
    if a.len() > 0 && b.len() > 0 {
        if a[0] != b[0] {
            lemma_str_lt_total(a[0], b[0]);
        } else {
            if a.drop_first() == b.drop_first() {
                assert(a =~= seq![a[0]] + a.drop_first());
                assert(b =~= seq![b[0]] + b.drop_first());
            }
            lemma_path_lt_total(a.drop_first(), b.drop_first());
        }
    } else if a.len() == 0 && b.len() == 0 {
        assert(a =~= b);
    }
}

/// A path does not come before one of its prefixes.
proof fn lemma_prefix_not_after(a: Seq<Seq<char>>, b: Seq<Seq<char>>)
    requires
        b.len() <= a.len(),
        a.subrange(0, b.len() as int) == b,
    ensures
        !path_lt(a, b),
    decreases b.len(),
{
    if b.len() > 0 {
        assert(a[0] == b[0]);
        assert(a.drop_first().subrange(0, b.drop_first().len() as int) =~= b.drop_first());
        lemma_prefix_not_after(a.drop_first(), b.drop_first());
    }
}

/// The end of the run of paths that share the segment at depth `d` with the
/// first path, searched from `j`.
pub open spec fn run_end(s: Seq<Seq<Seq<char>>>, d: int, j: int) -> int
    decreases s.len() - j,
{
    if j < 1 || j >= s.len() || s[j][d] != s[0][d] {
        j
    } else {
        run_end(s, d, j + 1)
    }
}

proof fn lemma_run_end_bounds(s: Seq<Seq<Seq<char>>>, d: int, j: int)
    requires
        1 <= j <= s.len(),
    ensures
        j <= run_end(s, d, j) <= s.len(),
    decreases s.len() - j,
{
    if j < s.len() && s[j][d] == s[0][d] {
        lemma_run_end_bounds(s, d, j + 1);
    }
}

/// The branch glyph of an entry: the last child of its parent closes the
/// branch.
pub open spec fn branch(last: bool) -> Seq<char> {
    if last {
        seq!['\u{2514}', '\u{2500}', '\u{2500}', '\u{2500}']
    } else {
        seq!['\u{251c}', '\u{2500}', '\u{2500}', '\u{2500}']
    }
}

/// What the children of an entry add to the left margin: a bar where more
/// siblings of the entry follow.
pub open spec fn indent(last: bool) -> Seq<char> {
    if last {
        seq![' ', ' ', ' ', ' ']
    } else {
        seq!['\u{2502}', ' ', ' ', ' ']
    }
}

#[via_fn]
proof fn tree_lines_decreases(s: Seq<Seq<Seq<char>>>, d: int, prefix: Seq<char>, fuel: nat) {
    if s.len() > 0 {
        lemma_run_end_bounds(s, d, 1);
    }
}

/// The lines that draw the sorted paths `s`, which share their first `d`
/// segments, under the left margin `prefix`: one line per distinct segment
/// at depth `d`, each followed by the drawing of its own subtree, at most
/// `fuel` levels deep.
pub open spec fn tree_lines(s: Seq<Seq<Seq<char>>>, d: int, prefix: Seq<char>, fuel: nat) -> Seq<
    char,
>
    decreases fuel, s.len(),
    via tree_lines_decreases
{
    if fuel == 0 || s.len() == 0 {
        seq![]
    } else {
        let e = run_end(s, d, 1);
        let last = e >= s.len();
        let line = prefix + branch(last) + s[0][d] + seq!['\n'];
        let kids = if s[0].len() == d + 1 {
            s.subrange(1, e)
        } else {
            s.subrange(0, e)
        };
        line + tree_lines(kids, d + 1, prefix + indent(last), (fuel - 1) as nat) + tree_lines(
            s.subrange(e, s.len() as int),
            d,
            prefix,
            fuel,
        )
    }
}

/// The greatest number of segments of a path of `s`.
pub open spec fn max_len(s: Seq<Seq<Seq<char>>>) -> nat
    decreases s.len(),
{
    if s.len() == 0 {
        0
    } else if max_len(s.drop_last()) >= s.last().len() {
        max_len(s.drop_last())
    } else {
        s.last().len()
    }
}

/// `s` without one final line feed.
pub open spec fn without_final_newline(s: Seq<char>) -> Seq<char> {
    if s.len() > 0 && s.last() == '\n' {
        s.drop_last()
    } else {
        s
    }
}

/// The listing of the tree whose file paths, in depth-first order, are `s`.
pub open spec fn tree_text(s: Seq<Seq<Seq<char>>>) -> Seq<char> {
    without_final_newline(tree_lines(s, 0, seq![], max_len(s)))
}

/// The paths of `s` that have at least one segment.
pub open spec fn nonempty_paths(s: Seq<Seq<Seq<char>>>) -> Set<Seq<Seq<char>>> {
    s.to_set().filter(|p: Seq<Seq<char>>| p.len() > 0)
}

/// The paths of `s` from `lo` to `hi` share their first `d` segments and have
/// more than `d`.
pub open spec fn common_prefix(s: Seq<Seq<Seq<char>>>, lo: int, hi: int, d: int) -> bool {
    &&& forall|k: int| lo <= k < hi ==> #[trigger] s[k].len() > d
    &&& forall|k: int, t: int| lo <= k < hi && 0 <= t < d ==> #[trigger] s[k][t] == s[lo][t]
}

/// Strictly sorted sequences of the same paths are equal: the listing depends
/// on the set of paths alone.
pub proof fn lemma_sorted_paths_determined(a: Seq<Seq<Seq<char>>>, b: Seq<Seq<Seq<char>>>)
    requires
        strictly_sorted(a),
        strictly_sorted(b),
        a.to_set() == b.to_set(),
    ensures
        a == b,
    decreases a.len(),
{
    broadcast use vstd::seq_lib::group_seq_properties;

    if a.len() == 0 {
        if b.len() > 0 {
            assert(b.to_set().contains(b[0]));
        }
        assert(a =~= b);
    } else {
        assert(a.to_set().contains(a[0]));
        assert(b.len() > 0);
        assert(b.to_set().contains(b[0]));
        assert(a.contains(b[0]));
        assert(b.contains(a[0]));
        let i = choose|i: int| 0 <= i < a.len() && a[i] == b[0];
        let j = choose|j: int| 0 <= j < b.len() && b[j] == a[0];
        if i != 0 {
            assert(path_lt(a[0], a[i]));
            if j != 0 {
                assert(path_lt(b[0], b[j]));
                lemma_path_lt_transitive(a[0], b[0], a[0]);
            }
            lemma_path_lt_irreflexive(a[0]);
        }
        let a1 = a.drop_first();
        let b1 = b.drop_first();
        assert(a1.to_set() =~= b1.to_set()) by {
            assert forall|x| a1.to_set().contains(x) implies b1.to_set().contains(x) by {
                let k = choose|k: int| 0 <= k < a1.len() && a1[k] == x;
                assert(a[k + 1] == x);
                assert(path_lt(a[0], a[k + 1]));
                assert(a.contains(x));
                assert(a.to_set().contains(x));
                assert(b.to_set().contains(x));
                assert(b.contains(x));
                let l = choose|l: int| 0 <= l < b.len() && b[l] == x;
                if l == 0 {
                    lemma_path_lt_irreflexive(x);
                }
                assert(b1[l - 1] == x);
            }
            assert forall|x| b1.to_set().contains(x) implies a1.to_set().contains(x) by {
                let k = choose|k: int| 0 <= k < b1.len() && b1[k] == x;
                assert(b[k + 1] == x);
                assert(path_lt(b[0], b[k + 1]));
                assert(b.contains(x));
                assert(b.to_set().contains(x));
                assert(a.to_set().contains(x));
                assert(a.contains(x));
                let l = choose|l: int| 0 <= l < a.len() && a[l] == x;
                if l == 0 {
                    lemma_path_lt_irreflexive(x);
                }
                assert(a1[l - 1] == x);
            }
        }
        assert forall|p: int, q: int| 0 <= p < q < a1.len() implies path_lt(
            #[trigger] a1[p],
            #[trigger] a1[q],
        ) by {
            assert(a1[p] == a[p + 1] && a1[q] == a[q + 1]);
        }
        assert forall|p: int, q: int| 0 <= p < q < b1.len() implies path_lt(
            #[trigger] b1[p],
            #[trigger] b1[q],
        ) by {
            assert(b1[p] == b[p + 1] && b1[q] == b[q + 1]);
        }
        lemma_sorted_paths_determined(a1, b1);
        assert(a =~= seq![a[0]] + a1);
        assert(b =~= seq![b[0]] + b1);
    }
}

/// Whether path `a` comes strictly before path `b`.
fn path_less(a: &Vec<String>, b: &Vec<String>) -> (r: bool)
    ensures
        r == path_lt(views(a@), views(b@)),
{
    let n = a.len();
    let m = b.len();
    let ghost va = views(a@);
    let ghost vb = views(b@);
    let mut i: usize = 0;
    assert(va.subrange(0, n as int) =~= va);
    assert(vb.subrange(0, m as int) =~= vb);
    while i < n && i < m && a[i] == b[i]
        invariant
            n == a@.len(),
            m == b@.len(),
            va == views(a@),
            vb == views(b@),
            i <= n,
            i <= m,
            path_lt(va, vb) == path_lt(
                va.subrange(i as int, n as int),
                vb.subrange(i as int, m as int),
            ),
        decreases n - i,
    {
        assert(va.subrange(i as int, n as int).drop_first() =~= va.subrange(i + 1, n as int));
        assert(vb.subrange(i as int, m as int).drop_first() =~= vb.subrange(i + 1, m as int));
        i = i + 1;
    }
    if i == n {
        i < m
    } else if i == m {
        false
    } else {
        assert(va.subrange(i as int, n as int)[0] == va[i as int]);
        assert(vb.subrange(i as int, m as int)[0] == vb[i as int]);
        str_less(a[i].as_str(), b[i].as_str())
    }
}

/// Whether two paths have the same segments.
fn path_equal(a: &Vec<String>, b: &Vec<String>) -> (r: bool)
    ensures
        r == (views(a@) == views(b@)),
{
    if a.len() != b.len() {
        assert(views(a@).len() != views(b@).len());
        return false;
    }
    let n = a.len();
    let mut i: usize = 0;
    while i < n
        invariant
            n == a@.len(),
            n == b@.len(),
            i <= n,
            forall|k: int| 0 <= k < i ==> a@[k]@ == b@[k]@,
        decreases n - i,
    {
        if a[i] != b[i] {
            assert(views(a@)[i as int] != views(b@)[i as int]);
            return false;
        }
        i = i + 1;
    }
    assert(views(a@) =~= views(b@));
    true
}

/// The file paths of a prefix tree, in depth-first order.
pub struct PathTree {
    pub paths: Vec<Vec<String>>,
}

impl View for PathTree {
    type V = Seq<Seq<Seq<char>>>;

    open spec fn view(&self) -> Seq<Seq<Seq<char>>> {
        path_views(self.paths@)
    }
}

impl PathTree {
    /// The paths are strictly sorted and none is empty.
    pub open spec fn wf(&self) -> bool {
        &&& strictly_sorted(self@)
        &&& forall|i: int| 0 <= i < self@.len() ==> #[trigger] self@[i].len() > 0
    }

    /// An empty tree.
    pub fn new() -> (r: PathTree)
        ensures
            r.wf(),
            r@ == Seq::<Seq<Seq<char>>>::empty(),
    {
        let r = PathTree { paths: Vec::new() };
        assert(r@ =~= Seq::<Seq<Seq<char>>>::empty());
        r
    }

    /// Adds the file path `parts`, with its directories; an empty path adds
    /// nothing.
    pub fn insert(&mut self, parts: &Vec<String>)
        requires
            old(self).wf(),
        ensures
            final(self).wf(),
            views(parts@).len() == 0 ==> final(self)@ == old(self)@,
            views(parts@).len() > 0 ==> final(self)@.to_set() == old(self)@.to_set().insert(
                views(parts@),
            ),
    {
        if parts.len() == 0 {
            return;
        }
        let ghost x = views(parts@);
        let n = self.paths.len();
        let mut lo: usize = 0;
        let mut hi: usize = n;
        while lo < hi
            invariant
                n == self.paths@.len(),
                lo <= hi <= n,
                self.wf(),
                self@ == path_views(self.paths@),
                x == views(parts@),
                forall|k: int| 0 <= k < lo ==> path_lt(#[trigger] self@[k], x),
                forall|k: int| hi <= k < n ==> !path_lt(#[trigger] self@[k], x),
            decreases hi - lo,
        {
            let mid = lo + (hi - lo) / 2;
            assert(self@[mid as int] == views(self.paths@[mid as int]@));
            if path_less(&self.paths[mid], parts) {
                proof {
                    assert forall|k: int| 0 <= k <= mid implies path_lt(#[trigger] self@[k], x) by {
                        if k < mid {
                            lemma_path_lt_transitive(self@[k], self@[mid as int], x);
                        }
                    }
                }
                lo = mid + 1;
            } else {
                proof {
                    assert forall|k: int| mid <= k < n implies !path_lt(#[trigger] self@[k], x) by {
                        if k > mid && path_lt(self@[k], x) {
                            lemma_path_lt_transitive(self@[mid as int], self@[k], x);
                        }
                    }
                }
                hi = mid;
            }
        }
        let p = lo;
        if p < n {
            assert(self@[p as int] == views(self.paths@[p as int]@));
            if path_equal(&self.paths[p], parts) {
                assert(self@.to_set() =~= old(self)@.to_set().insert(x)) by {
                    assert(self@.contains(x));
                }
                return;
            }
        }
        let ghost old_v = self@;
        let c = clone_strings(parts);
        self.paths.insert(p, c);
        proof {
            assert(self@ =~= old_v.insert(p as int, x));
            broadcast use vstd::seq_lib::group_seq_properties;

            if p < n {
                lemma_path_lt_total(x, old_v[p as int]);
            }
            assert forall|i: int, j: int| 0 <= i < j < self@.len() implies path_lt(
                #[trigger] self@[i],
                #[trigger] self@[j],
            ) by {
                if i == p {
                    if j > p + 1 {
                        lemma_path_lt_transitive(x, old_v[p as int], old_v[j - 1]);
                    }
                } else if j == p {
                } else {
                    let oi = if i < p { i } else { i - 1 };
                    let oj = if j < p { j } else { j - 1 };
                    assert(self@[i] == old_v[oi]);
                    assert(self@[j] == old_v[oj]);
                }
            }
            assert forall|i: int| 0 <= i < self@.len() implies #[trigger] self@[i].len() > 0 by {
                if i < p {
                    assert(self@[i] == old_v[i]);
                } else if i > p {
                    assert(self@[i] == old_v[i - 1]);
                }
            }
            assert(self@.to_set() =~= old_v.to_set().insert(x)) by {
                assert forall|y| self@.to_set().contains(y) implies old_v.to_set().insert(
                    x,
                ).contains(y) by {
                    let k = choose|k: int| 0 <= k < self@.len() && self@[k] == y;
                    if k < p {
                        assert(old_v[k] == y);
                    } else if k > p {
                        assert(old_v[k - 1] == y);
                    }
                }
                assert forall|y| old_v.to_set().insert(x).contains(y) implies self@.to_set().contains(
                    y,
                ) by {
                    if y == x {
                        assert(self@[p as int] == x);
                    } else {
                        let k = choose|k: int| 0 <= k < old_v.len() && old_v[k] == y;
                        if k < p {
                            assert(self@[k] == y);
                        } else {
                            assert(self@[k + 1] == y);
                        }
                    }
                }
            }
        }
    }

    /// The end of the run of paths from `i` that share the segment at depth
    /// `d` with the path at `i`, before `hi`.
    fn run_end_from(&self, lo: usize, i: usize, hi: usize, d: usize) -> (e: usize)
        requires
            lo <= i < hi <= self@.len(),
            common_prefix(self@, lo as int, hi as int, d as int),
        ensures
            i < e <= hi,
            e - i == run_end(self@.subrange(i as int, hi as int), d as int, 1),
            forall|k: int| i <= k < e ==> #[trigger] self@[k][d as int] == self@[i as int][d as int],
    {
        let ghost s = self@;
        let ghost t = s.subrange(i as int, hi as int);
        assert forall|k: int| lo <= k < hi implies #[trigger] self.paths@[k]@.len() > d by {
            assert(s[k] == views(self.paths@[k]@));
        }
        let mut e: usize = i + 1;
        while e < hi && self.paths[e][d] == self.paths[i][d]
            invariant
                s == self@,
                s == path_views(self.paths@),
                t == s.subrange(i as int, hi as int),
                lo <= i < e <= hi <= s.len(),
                forall|k: int| lo <= k < hi ==> #[trigger] self.paths@[k]@.len() > d,
                forall|k: int| i <= k < e ==> #[trigger] s[k][d as int] == s[i as int][d as int],
                run_end(t, d as int, 1) == run_end(t, d as int, e - i),
            decreases hi - e,
        {
            assert(s[e as int] == views(self.paths@[e as int]@));
            assert(s[e as int][d as int] == self.paths@[e as int]@[d as int]@);
            assert(s[i as int][d as int] == self.paths@[i as int]@[d as int]@);
            e = e + 1;
        }
        proof {
            if e < hi {
                assert(s[e as int] == views(self.paths@[e as int]@));
                assert(s[e as int][d as int] == self.paths@[e as int]@[d as int]@);
                assert(s[i as int][d as int] == self.paths@[i as int]@[d as int]@);
                assert(t[e - i] == s[e as int]);
            }
        }
        e
    }

    /// Appends to `out` the drawing of the paths from `lo` to `hi`, which
    /// share their first `d` segments, under the left margin `prefix`.
    pub fn render(
        &self,
        lo: usize,
        hi: usize,
        d: usize,
        prefix: &String,
        out: &mut String,
        fuel: usize,
    )
        requires
            self.wf(),
            lo <= hi <= self@.len(),
            common_prefix(self@, lo as int, hi as int, d as int),
        ensures
            final(out)@ == old(out)@ + tree_lines(
                self@.subrange(lo as int, hi as int),
                d as int,
                prefix@,
                fuel as nat,
            ),
        decreases fuel,
    {
        let ghost s = self@;
        let ghost whole = s.subrange(lo as int, hi as int);
        if fuel == 0 {
            assert(out@ =~= old(out)@ + tree_lines(whole, d as int, prefix@, fuel as nat));
            return;
        }
        let mut i: usize = lo;
        assert(out@ + tree_lines(whole, d as int, prefix@, fuel as nat) =~= old(out)@ + tree_lines(
            whole,
            d as int,
            prefix@,
            fuel as nat,
        ));
        while i < hi
            invariant
                self.wf(),
                s == self@,
                s == path_views(self.paths@),
                whole == s.subrange(lo as int, hi as int),
                lo <= i <= hi <= s.len(),
                fuel > 0,
                common_prefix(s, lo as int, hi as int, d as int),
                old(out)@ + tree_lines(whole, d as int, prefix@, fuel as nat) == out@ + tree_lines(
                    s.subrange(i as int, hi as int),
                    d as int,
                    prefix@,
                    fuel as nat,
                ),
            decreases hi - i,
        {
            let e = self.run_end_from(lo, i, hi, d);
            let last = e == hi;
            let kids_lo = if self.paths[i].len() == d + 1 {
                i + 1
            } else {
                i
            };
            proof {
                assert(s[i as int] == views(self.paths@[i as int]@));
                lemma_run_kids(s, lo as int, hi as int, i as int, e as int, d as int, kids_lo as int);
                lemma_tree_lines_step(s, i as int, e as int, hi as int, d as int, prefix@, fuel as nat);
            }
            let margin = self.draw_line(i, d, last, prefix, out);
            self.render(kids_lo, e, d + 1, &margin, out, fuel - 1);
            i = e;
        }
        assert(out@ =~= old(out)@ + tree_lines(whole, d as int, prefix@, fuel as nat));
    }

    /// Appends the line of the entry named by segment `d` of path `i`, and
    /// returns the left margin of its children.
    fn draw_line(&self, i: usize, d: usize, last: bool, prefix: &String, out: &mut String) -> (margin: String)
        requires
            i < self@.len(),
            d < self@[i as int].len(),
        ensures
            final(out)@ == old(out)@ + (prefix@ + branch(last) + self@[i as int][d as int] + seq!['\n']),
            margin@ == prefix@ + indent(last),
    {
        assert(self@[i as int] == views(self.paths@[i as int]@));
        let name = &self.paths[i][d];
        assert(name@ == self@[i as int][d as int]);
        out.append(prefix.as_str());
        let mut margin = prefix.clone();
        if last {
            out.append("\u{2514}\u{2500}\u{2500}\u{2500}");
            margin.append("    ");
            proof {
                reveal_strlit("\u{2514}\u{2500}\u{2500}\u{2500}");
                reveal_strlit("    ");
            }
        } else {
            out.append("\u{251c}\u{2500}\u{2500}\u{2500}");
            margin.append("\u{2502}   ");
            proof {
                reveal_strlit("\u{251c}\u{2500}\u{2500}\u{2500}");
                reveal_strlit("\u{2502}   ");
            }
        }
        out.append(name.as_str());
        out.append("\n");
        proof {
            reveal_strlit("\n");
        }
        assert(out@ =~= old(out)@ + (prefix@ + branch(last) + self@[i as int][d as int] + seq!['\n']));
        assert(margin@ =~= prefix@ + indent(last));
        margin
    }
}

/// The children of the run from `i` to `e` share one more segment and have
/// more segments than that.
proof fn lemma_run_kids(
    s: Seq<Seq<Seq<char>>>,
    lo: int,
    hi: int,
    i: int,
    e: int,
    d: int,
    kids_lo: int,
)
    requires
        strictly_sorted(s),
        0 <= lo <= i < e <= hi <= s.len(),
        0 <= d,
        common_prefix(s, lo, hi, d),
        forall|k: int| i <= k < e ==> #[trigger] s[k][d] == s[i][d],
        kids_lo == if s[i].len() == d + 1 { i + 1 } else { i },
    ensures
        common_prefix(s, kids_lo, e, d + 1),
{
    assert forall|k: int| kids_lo <= k < e implies #[trigger] s[k].len() > d + 1 by {
        if k > i && s[k].len() == d + 1 {
            assert forall|u: int| 0 <= u < d + 1 implies s[i][u] == s[k][u] by {
                if u < d {
                    assert(s[k][u] == s[lo][u]);
                    assert(s[i][u] == s[lo][u]);
                }
            }
            assert(s[i].subrange(0, s[k].len() as int) =~= s[k]);
            lemma_prefix_not_after(s[i], s[k]);
            assert(path_lt(s[i], s[k]));
        }
    }
    assert forall|k: int, u: int| kids_lo <= k < e && 0 <= u < d + 1 implies #[trigger] s[k][u]
        == s[kids_lo][u] by {
        if u < d {
            assert(s[k][u] == s[lo][u]);
            assert(s[kids_lo][u] == s[lo][u]);
        } else {
            assert(s[k][u] == s[i][u]);
            assert(s[kids_lo][u] == s[i][u]);
        }
    }
}

/// One step of the drawing: the first run's line, its children, the rest.
proof fn lemma_tree_lines_step(
    s: Seq<Seq<Seq<char>>>,
    i: int,
    e: int,
    hi: int,
    d: int,
    prefix: Seq<char>,
    fuel: nat,
)
    requires
        0 <= i < e <= hi <= s.len(),
        fuel > 0,
        e - i == run_end(s.subrange(i, hi), d, 1),
    ensures
        tree_lines(s.subrange(i, hi), d, prefix, fuel) == (prefix + branch(e == hi) + s[i][d]
            + seq!['\n']) + tree_lines(
            if s[i].len() == d + 1 {
                s.subrange(i + 1, e)
            } else {
                s.subrange(i, e)
            },
            d + 1,
            prefix + indent(e == hi),
            (fuel - 1) as nat,
        ) + tree_lines(s.subrange(e, hi), d, prefix, fuel),
{
    let t = s.subrange(i, hi);
    assert(t[0] == s[i]);
    assert(t.subrange(1, e - i) =~= s.subrange(i + 1, e));
    assert(t.subrange(0, e - i) =~= s.subrange(i, e));
    assert(t.subrange(e - i, t.len() as int) =~= s.subrange(e, hi));
}

/// The listing of the files `paths` as a tree: each directory and file once,
/// children in the order of their names, without a final line feed.
pub fn build_file_list(paths: &Vec<Vec<String>>) -> (r: String)
    ensures
        exists|t: Seq<Seq<Seq<char>>>|
            {
                &&& strictly_sorted(t)
                &&& #[trigger] t.to_set() == nonempty_paths(path_views(paths@))
                &&& r@ == tree_text(t)
            },
{
    let mut tree = PathTree::new();
    let n = paths.len();
    let mut i: usize = 0;
    while i < n
        invariant
            n == paths@.len(),
            i <= n,
            tree.wf(),
            tree@.to_set() == nonempty_paths(path_views(paths@).subrange(0, i as int)),
        decreases n - i,
    {
        let ghost pre = path_views(paths@).subrange(0, i as int);
        let ghost x = views(paths@[i as int]@);
        tree.insert(&paths[i]);
        proof {
            assert(path_views(paths@).subrange(0, i + 1) =~= pre.push(x));
            pre.lemma_push_to_set_commute(x);
            assert(nonempty_paths(pre.push(x)) =~= if x.len() > 0 {
                nonempty_paths(pre).insert(x)
            } else {
                nonempty_paths(pre)
            });
        }
        i = i + 1;
    }
    assert(path_views(paths@).subrange(0, n as int) =~= path_views(paths@));
    let ghost t = tree@;
    let m = tree.paths.len();
    let mut fuel: usize = 0;
    let mut k: usize = 0;
    while k < m
        invariant
            m == tree.paths@.len(),
            t == tree@,
            k <= m,
            fuel == max_len(t.subrange(0, k as int)),
        decreases m - k,
    {
        assert(t.subrange(0, k + 1).drop_last() =~= t.subrange(0, k as int));
        assert(t[k as int] == views(tree.paths@[k as int]@));
        if tree.paths[k].len() > fuel {
            fuel = tree.paths[k].len();
        }
        k = k + 1;
    }
    assert(t.subrange(0, m as int) =~= t);
    let mut out = String::new();
    let margin = String::new();
    tree.render(0, m, 0, &margin, &mut out, fuel);
    assert(out@ =~= tree_lines(t, 0, seq![], max_len(t)));
    let len = out.unicode_len();
    let r = if len > 0 && out.get_char(len - 1) == '\n' {
        out.as_str().substring_char(0, len - 1).to_owned()
    } else {
        out
    };
    assert(r@ =~= tree_text(t));
    r
}

} // verus!
