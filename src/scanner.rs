//! Classification of the entries of a walk, the size of the reading pool, and
//! the assembly of a scan's result.

use vstd::prelude::*;

use crate::config::Config;
use crate::entry::{extension, extension_of, join_path, join_segments, PruneSet, WalkEntry};
use crate::order::{lemma_bytes_lt_irreflexive, lemma_bytes_lt_transitive, lemma_str_lt_total, str_less, str_lt};
use crate::text::{clone_strings, lower_of, views};
use crate::tree::{build_file_list, lemma_sorted_paths_determined, nonempty_paths, path_views, strictly_sorted, tree_text};

verus! {

/// A file accepted for reading: its position in the walk, its path segments,
/// and its relative path joined with `/`.
pub struct Candidate {
    pub index: usize,
    pub segments: Vec<String>,
    pub relative_path: String,
}

/// Whether a directory on the way from the root to an entry is in `prune`.
pub open spec fn under_pruned(segs: Seq<Seq<char>>, prune: Set<Seq<char>>) -> bool {
    exists|j: int| 0 <= j < segs.len() - 1 && prune.contains(#[trigger] segs[j])
}

/// Whether a walk entry is a file that the scan counts: not a directory, not
/// under a pruned directory, and not the output file.
pub open spec fn is_counted(e: WalkEntry, prune: Set<Seq<char>>, output: Seq<char>) -> bool {
    !e.is_dir && e.segs().len() > 0 && !under_pruned(e.segs(), prune) && join_path(e.segs())
        != output
}

/// Whether the policy excludes a file entry by the extension of its name.
pub open spec fn is_excluded(e: WalkEntry, policy: Set<Seq<char>>) -> bool {
    policy.contains(lower_of(extension(e.segs().last())))
}

/// The number of counted files among the first `n` entries.
pub open spec fn total_count(
    es: Seq<WalkEntry>,
    prune: Set<Seq<char>>,
    output: Seq<char>,
    n: nat,
) -> nat
    decreases n,
{
    if n == 0 || n > es.len() {
        0
    } else {
        total_count(es, prune, output, (n - 1) as nat) + if is_counted(es[n - 1], prune, output) {
            1nat
        } else {
            0nat
        }
    }
}

/// The number of counted files among the first `n` entries that the policy
/// excludes.
pub open spec fn excluded_count(
    es: Seq<WalkEntry>,
    policy: Set<Seq<char>>,
    prune: Set<Seq<char>>,
    output: Seq<char>,
    n: nat,
) -> nat
    decreases n,
{
    if n == 0 || n > es.len() {
        0
    } else {
        excluded_count(es, policy, prune, output, (n - 1) as nat) + if is_counted(
            es[n - 1],
            prune,
            output,
        ) && is_excluded(es[n - 1], policy) {
            1nat
        } else {
            0nat
        }
    }
}

/// The positions of the accepted files among the first `n` entries, in walk
/// order: counted and not excluded.
pub open spec fn accepted(
    es: Seq<WalkEntry>,
    policy: Set<Seq<char>>,
    prune: Set<Seq<char>>,
    output: Seq<char>,
    n: nat,
) -> Seq<int>
    decreases n,
{
    if n == 0 || n > es.len() {
        seq![]
    } else {
        let r = accepted(es, policy, prune, output, (n - 1) as nat);
        if is_counted(es[n - 1], prune, output) && !is_excluded(es[n - 1], policy) {
            r.push(n - 1)
        } else {
            r
        }
    }
}

/// The files of a walk that a scan reads, with its counters.
pub struct Selection {
    pub candidates: Vec<Candidate>,
    pub total_files: usize,
    pub files_excluded: usize,
}

/// What `classify` returns for the given walk, policy, prune set and output
/// path: the candidates are the accepted entries in walk order.
pub open spec fn selects(
    s: Selection,
    es: Seq<WalkEntry>,
    policy: Set<Seq<char>>,
    prune: Set<Seq<char>>,
    output: Seq<char>,
) -> bool {
    let acc = accepted(es, policy, prune, output, es.len());
    &&& s.total_files == total_count(es, prune, output, es.len())
    &&& s.files_excluded == excluded_count(es, policy, prune, output, es.len())
    &&& s.candidates@.len() == acc.len()
    &&& forall|k: int|
        0 <= k < acc.len() ==> {
            let c = #[trigger] s.candidates@[k];
            &&& c.index == acc[k]
            &&& views(c.segments@) == es[acc[k]].segs()
            &&& c.relative_path@ == join_path(es[acc[k]].segs())
        }
}

/// Whether a directory on the way to the entry is in the prune set.
fn in_pruned_directory(segments: &Vec<String>, prune: &PruneSet) -> (r: bool)
    ensures
        r == under_pruned(views(segments@), prune@),
{
    let n = segments.len();
    if n == 0 {
        return false;
    }
    let mut j: usize = 0;
    while j < n - 1
        invariant
            n == segments@.len(),
            n > 0,
            j <= n - 1,
            forall|k: int| 0 <= k < j ==> !prune@.contains(#[trigger] views(segments@)[k]),
        decreases n - 1 - j,
    {
        if prune.is_pruned(&segments[j]) {
            assert(prune@.contains(views(segments@)[j as int]));
            return true;
        }
        j = j + 1;
    }
    false
}

/// Sorts the entries of a walk: directories, the output file (`output_path`,
/// relative to the root) and whatever lies under a pruned directory are left
/// out; the other files are counted, and those whose extension the policy
/// excludes are counted as excluded; the rest become the candidates, in walk
/// order.
pub fn classify(
    entries: &Vec<WalkEntry>,
    config: &Config,
    prune: &PruneSet,
    output_path: &str,
) -> (r: Selection)
    ensures
        selects(r, entries@, config@, prune@, output_path@),
{
    let output = output_path.to_owned();
    let ghost es = entries@;
    let ghost policy = config@;
    let ghost pr = prune@;
    let ghost out = output_path@;
    let mut candidates: Vec<Candidate> = Vec::new();
    let mut total: usize = 0;
    let mut excluded: usize = 0;
    let n = entries.len();
    let mut i: usize = 0;
    while i < n
        invariant
            n == es.len(),
            es == entries@,
            policy == config@,
            pr == prune@,
            out == output@,
            i <= n,
            total == total_count(es, pr, out, i as nat),
            excluded == excluded_count(es, policy, pr, out, i as nat),
            total <= i,
            excluded <= total,
            candidates@.len() == accepted(es, policy, pr, out, i as nat).len(),
            forall|k: int|
                0 <= k < candidates@.len() ==> {
                    let acc = accepted(es, policy, pr, out, i as nat);
                    let c = #[trigger] candidates@[k];
                    &&& c.index == acc[k]
                    &&& views(c.segments@) == es[acc[k]].segs()
                    &&& c.relative_path@ == join_path(es[acc[k]].segs())
                },
        decreases n - i,
    {
        let e = &entries[i];
        let ghost acc0 = accepted(es, policy, pr, out, i as nat);
        if !e.is_dir && e.segments.len() > 0 && !in_pruned_directory(&e.segments, prune) {
            let rel = join_segments(&e.segments);
            if rel != output {
                total = total + 1;
                let last = e.segments.len() - 1;
                let ext = extension_of(e.segments[last].as_str());
                assert(views(e.segments@).last() == e.segments@[last as int]@);
                if config.should_exclude(ext.as_str()) {
                    excluded = excluded + 1;
                } else {
                    let c = Candidate { index: i, segments: clone_strings(&e.segments), relative_path: rel };
                    candidates.push(c);
                    assert(accepted(es, policy, pr, out, (i + 1) as nat) == acc0.push(i as int));
                }
            }
        }
        i = i + 1;
    }
    Selection { candidates, total_files: total, files_excluded: excluded }
}

/// Every position in `accepted` is that of a counted, not excluded entry, and
/// the counted files split into the excluded and the accepted ones.
proof fn lemma_accepted(
    es: Seq<WalkEntry>,
    policy: Set<Seq<char>>,
    prune: Set<Seq<char>>,
    output: Seq<char>,
    n: nat,
)
    requires
        n <= es.len(),
    ensures
        total_count(es, prune, output, n) == excluded_count(es, policy, prune, output, n)
            + accepted(es, policy, prune, output, n).len(),
        forall|k: int|
            0 <= k < accepted(es, policy, prune, output, n).len() ==> {
                let i = #[trigger] accepted(es, policy, prune, output, n)[k];
                &&& 0 <= i < n
                &&& is_counted(es[i], prune, output)
                &&& !is_excluded(es[i], policy)
            },
        forall|k1: int, k2: int|
            0 <= k1 < k2 < accepted(es, policy, prune, output, n).len() ==> #[trigger] accepted(
                es,
                policy,
                prune,
                output,
                n,
            )[k1] < #[trigger] accepted(es, policy, prune, output, n)[k2],
    decreases n,
{
    if n > 0 {
        lemma_accepted(es, policy, prune, output, (n - 1) as nat);
    }
}

/// Every counted file is either excluded by the policy or a candidate.
pub proof fn lemma_counters_add_up(
    s: Selection,
    es: Seq<WalkEntry>,
    policy: Set<Seq<char>>,
    prune: Set<Seq<char>>,
    output: Seq<char>,
)
    requires
        selects(s, es, policy, prune, output),
    ensures
        s.total_files == s.files_excluded + s.candidates@.len(),
{
    lemma_accepted(es, policy, prune, output, es.len());
}

/// No candidate lies under a directory whose name is in the prune set, nor is
/// a directory, nor the output file; and none has an excluded extension.
pub proof fn lemma_candidates_admitted(
    s: Selection,
    es: Seq<WalkEntry>,
    policy: Set<Seq<char>>,
    prune: Set<Seq<char>>,
    output: Seq<char>,
)
    requires
        selects(s, es, policy, prune, output),
    ensures
        forall|k: int, j: int|
            0 <= k < s.candidates@.len() && 0 <= j < s.candidates@[k].segments@.len() - 1
                ==> !prune.contains(#[trigger] s.candidates@[k].segments@[j]@),
        forall|k: int|
            0 <= k < s.candidates@.len() ==> {
                let e = es[#[trigger] s.candidates@[k].index as int];
                &&& s.candidates@[k].index < es.len()
                &&& !e.is_dir
                &&& join_path(e.segs()) != output
                &&& !policy.contains(lower_of(extension(e.segs().last())))
            },
{
    lemma_accepted(es, policy, prune, output, es.len());
    let acc = accepted(es, policy, prune, output, es.len());
    assert forall|k: int, j: int|
        0 <= k < s.candidates@.len() && 0 <= j < s.candidates@[k].segments@.len()
            - 1 implies !prune.contains(#[trigger] s.candidates@[k].segments@[j]@) by {
        let c = s.candidates@[k];
        let segs = es[acc[k]].segs();
        assert(views(c.segments@) == segs);
        assert(segs[j] == c.segments@[j]@);
        assert(!under_pruned(segs, prune));
    }
    assert forall|k: int| 0 <= k < s.candidates@.len() implies {
        let e = es[#[trigger] s.candidates@[k].index as int];
        &&& s.candidates@[k].index < es.len()
        &&& !e.is_dir
        &&& join_path(e.segs()) != output
        &&& !policy.contains(lower_of(extension(e.segs().last())))
    } by {
        assert(s.candidates@[k].index == acc[k]);
    }
}

/// One worker per ten candidates, rounded up, and at least one.
pub open spec fn workers_for(n: nat) -> nat {
    if n == 0 {
        1
    } else {
        ((n + 9) / 10) as nat
    }
}

/// The number of workers that read `n` candidates: one per ten, rounded up,
/// and at least one.
pub fn worker_count(n: usize) -> (r: usize)
    ensures
        r == workers_for(n as nat),
        r >= 1,
        n == 0 ==> r == 1,
        n > 0 ==> (r - 1) * 10 < n <= r * 10,
{
    if n == 0 {
        1
    } else if n % 10 == 0 {
        n / 10
    } else {
        n / 10 + 1
    }
}

/// A file that was read: its relative path and its text.
pub struct FileEntry {
    pub relative_path: String,
    pub content: String,
}

/// A file record as a pair of character sequences: path and content.
pub open spec fn record(f: FileEntry) -> (Seq<char>, Seq<char>) {
    (f.relative_path@, f.content@)
}

/// The records of a sequence of files.
pub open spec fn records(s: Seq<FileEntry>) -> Seq<(Seq<char>, Seq<char>)> {
    s.map_values(|f: FileEntry| record(f))
}

/// No file comes after one whose path comes later in the order of strings.
pub open spec fn sorted_by_path(s: Seq<FileEntry>) -> bool {
    forall|i: int, j: int|
        0 <= i < j < s.len() ==> !str_lt(
            #[trigger] s[j].relative_path@,
            #[trigger] s[i].relative_path@,
        )
}

/// No two records share a path.
pub open spec fn distinct_paths(s: Seq<(Seq<char>, Seq<char>)>) -> bool {
    forall|i: int, j: int| 0 <= i < s.len() && 0 <= j < s.len() && i != j ==> #[trigger] s[i].0
        != #[trigger] s[j].0
}

/// In sorted files, a path that does not come before the file at `mid` does
/// not come before any earlier one.
proof fn lemma_not_before_sorted(v: Seq<FileEntry>, x: Seq<char>, mid: int, k: int)
    requires
        sorted_by_path(v),
        0 <= k <= mid < v.len(),
        !str_lt(x, v[mid].relative_path@),
    ensures
        !str_lt(x, v[k].relative_path@),
{
    let a = v[k].relative_path@;
    let b = v[mid].relative_path@;
    if k < mid && str_lt(x, a) && a != b {
        lemma_str_lt_total(a, b);
        lemma_bytes_lt_transitive(crate::order::key(x), crate::order::key(a), crate::order::key(b));
    }
}

/// In sorted files, a path that comes before the file at `mid` comes before
/// every later one.
proof fn lemma_before_sorted(v: Seq<FileEntry>, x: Seq<char>, mid: int, k: int)
    requires
        sorted_by_path(v),
        0 <= mid <= k < v.len(),
        str_lt(x, v[mid].relative_path@),
    ensures
        str_lt(x, v[k].relative_path@),
{
    let a = v[mid].relative_path@;
    let b = v[k].relative_path@;
    if mid < k && a != b {
        lemma_str_lt_total(a, b);
        lemma_bytes_lt_transitive(crate::order::key(x), crate::order::key(a), crate::order::key(b));
    }
}

/// Puts `x` into the sorted files `v`, after those whose path does not come
/// later than its own.
fn insert_by_path(v: &mut Vec<FileEntry>, x: FileEntry)
    requires
        sorted_by_path(old(v)@),
    ensures
        sorted_by_path(final(v)@),
        final(v)@.len() == old(v)@.len() + 1,
        records(final(v)@).to_multiset() == records(old(v)@).to_multiset().insert(record(x)),
{
    let n = v.len();
    let mut lo: usize = 0;
    let mut hi: usize = n;
    while lo < hi
        invariant
            n == v@.len(),
            sorted_by_path(v@),
            lo <= hi <= n,
            forall|k: int| 0 <= k < lo ==> !str_lt(x.relative_path@, #[trigger] v@[k].relative_path@),
            forall|k: int| hi <= k < n ==> str_lt(x.relative_path@, #[trigger] v@[k].relative_path@),
        decreases hi - lo,
    {
        let mid = lo + (hi - lo) / 2;
        if str_less(x.relative_path.as_str(), v[mid].relative_path.as_str()) {
            proof {
                assert forall|k: int| mid <= k < n implies str_lt(
                    x.relative_path@,
                    #[trigger] v@[k].relative_path@,
                ) by {
                    lemma_before_sorted(v@, x.relative_path@, mid as int, k);
                }
            }
            hi = mid;
        } else {
            proof {
                assert forall|k: int| 0 <= k <= mid implies !str_lt(
                    x.relative_path@,
                    #[trigger] v@[k].relative_path@,
                ) by {
                    lemma_not_before_sorted(v@, x.relative_path@, mid as int, k);
                }
            }
            lo = mid + 1;
        }
    }
    let p = lo;
    let ghost old_v = v@;
    let ghost xr = record(x);
    let ghost xp = x.relative_path@;
    v.insert(p, x);
    proof {
        assert(records(v@) =~= records(old_v).insert(p as int, xr));
        broadcast use vstd::seq_lib::group_to_multiset_ensures;

        assert forall|i: int, j: int| 0 <= i < j < v@.len() implies !str_lt(
            #[trigger] v@[j].relative_path@,
            #[trigger] v@[i].relative_path@,
        ) by {
            if j == p {
                assert(v@[i] == old_v[i]);
            } else if i == p {
                let y = old_v[j - 1].relative_path@;
                assert(v@[j] == old_v[j - 1]);
                if str_lt(y, xp) {
                    assert(p < n);
                    assert(str_lt(xp, old_v[p as int].relative_path@));
                    lemma_bytes_lt_transitive(
                        crate::order::key(y),
                        crate::order::key(xp),
                        crate::order::key(old_v[p as int].relative_path@),
                    );
                    if j - 1 == p {
                        lemma_bytes_lt_irreflexive(crate::order::key(y));
                    }
                }
            } else {
                let oi = if i < p { i } else { i - 1 };
                let oj = if j < p { j } else { j - 1 };
                assert(v@[i] == old_v[oi]);
                assert(v@[j] == old_v[oj]);
            }
        }
    }
}

/// Files sorted by path, with the same records in any order, are the same
/// records in the same order where no two share a path: the order of the
/// result does not depend on the order in which the files were read.
pub proof fn lemma_sorted_records_determined(a: Seq<FileEntry>, b: Seq<FileEntry>)
    requires
        sorted_by_path(a),
        sorted_by_path(b),
        records(a).to_multiset() == records(b).to_multiset(),
        distinct_paths(records(a)),
    ensures
        records(a) == records(b),
    decreases a.len(),
{
    broadcast use vstd::seq_lib::group_to_multiset_ensures;

    let ra = records(a);
    let rb = records(b);
    assert(ra.len() == ra.to_multiset().len());
    assert(rb.len() == rb.to_multiset().len());
    if ra.len() == 0 {
        assert(ra =~= rb);
    } else {
        let x = ra[0];
        let y = rb[0];
        assert(rb.contains(y));
        assert(rb.to_multiset().count(y) > 0);
        assert(ra.to_multiset().count(y) > 0);
        assert(ra.contains(y));
        let i = choose|i: int| 0 <= i < ra.len() && ra[i] == y;
        assert(ra.contains(x));
        assert(ra.to_multiset().count(x) > 0);
        assert(rb.to_multiset().count(x) > 0);
        assert(rb.contains(x));
        let j = choose|j: int| 0 <= j < rb.len() && rb[j] == x;
        assert(a[i].relative_path@ == y.0);
        assert(b[j].relative_path@ == x.0);
        if x.0 != y.0 {
            lemma_str_lt_total(x.0, y.0);
            if str_lt(y.0, x.0) {
                assert(i != 0);
                assert(!str_lt(a[i].relative_path@, a[0].relative_path@));
            } else {
                assert(j != 0);
                assert(!str_lt(b[j].relative_path@, b[0].relative_path@));
            }
        }
        assert(i == 0);
        assert(x == y);
        let a1 = a.drop_first();
        let b1 = b.drop_first();
        assert(records(a1) =~= ra.remove(0));
        assert(records(b1) =~= rb.remove(0));
        assert forall|p: int, q: int| 0 <= p < q < a1.len() implies !str_lt(
            #[trigger] a1[q].relative_path@,
            #[trigger] a1[p].relative_path@,
        ) by {
            assert(a1[q] == a[q + 1] && a1[p] == a[p + 1]);
        }
        assert forall|p: int, q: int| 0 <= p < q < b1.len() implies !str_lt(
            #[trigger] b1[q].relative_path@,
            #[trigger] b1[p].relative_path@,
        ) by {
            assert(b1[q] == b[q + 1] && b1[p] == b[p + 1]);
        }
        assert forall|p: int, q: int|
            0 <= p < records(a1).len() && 0 <= q < records(a1).len() && p != q implies #[trigger] records(
            a1)[p].0 != #[trigger] records(a1)[q].0 by {
            assert(records(a1)[p] == ra[p + 1] && records(a1)[q] == ra[q + 1]);
        }
        lemma_sorted_records_determined(a1, b1);
        assert(ra =~= seq![x] + records(a1));
        assert(rb =~= seq![y] + records(b1));
    }
}

/// The counters of a scan.
pub struct ScanStats {
    pub total_files: usize,
    pub files_processed: usize,
    pub files_excluded: usize,
    pub worker_count: usize,
}

/// What a scan hands to the writer: the files read, sorted by path, the
/// listing of the accepted files, and the counters.
pub struct ScanResult {
    pub files: Vec<FileEntry>,
    pub file_list: String,
    pub stats: ScanStats,
}

/// The records of the candidates among the first `n` whose text was read,
/// in candidate order.
pub open spec fn read_records(
    cands: Seq<Candidate>,
    contents: Seq<Option<String>>,
    n: nat,
) -> Seq<(Seq<char>, Seq<char>)>
    decreases n,
{
    if n == 0 || n > cands.len() || n > contents.len() {
        seq![]
    } else {
        let r = read_records(cands, contents, (n - 1) as nat);
        match contents[n - 1] {
            Some(c) => r.push((cands[n - 1].relative_path@, c@)),
            None => r,
        }
    }
}

/// The path segments of the candidates.
pub open spec fn candidate_paths(cands: Seq<Candidate>) -> Seq<Seq<Seq<char>>> {
    cands.map_values(|c: Candidate| views(c.segments@))
}

/// What `finish_scan` returns for a selection and the outcome of reading
/// each of its candidates.
pub open spec fn finishes(r: ScanResult, sel: Selection, contents: Seq<Option<String>>) -> bool {
    let cands = sel.candidates@;
    &&& sorted_by_path(r.files@)
    &&& records(r.files@).to_multiset() == read_records(
        cands,
        contents,
        cands.len(),
    ).to_multiset()
    &&& r.stats.total_files == sel.total_files
    &&& r.stats.files_excluded == sel.files_excluded
    &&& r.stats.files_processed == r.files@.len()
    &&& r.stats.files_processed == read_records(cands, contents, cands.len()).len()
    &&& r.stats.files_processed <= cands.len()
    &&& r.stats.worker_count == workers_for(cands.len())
    &&& exists|t: Seq<Seq<Seq<char>>>|
        {
            &&& strictly_sorted(t)
            &&& #[trigger] t.to_set() == nonempty_paths(candidate_paths(cands))
            &&& r.file_list@ == tree_text(t)
        }
}

proof fn lemma_read_records_len(cands: Seq<Candidate>, contents: Seq<Option<String>>, n: nat)
    ensures
        read_records(cands, contents, n).len() <= n,
    decreases n,
{
    if n > 0 {
        lemma_read_records_len(cands, contents, (n - 1) as nat);
    }
}

/// Completes a scan: `contents[i]` is the text of candidate `i`, or `None`
/// where it could not be read. The files read are sorted by path; the
/// listing draws every candidate.
pub fn finish_scan(selection: Selection, contents: Vec<Option<String>>) -> (r: ScanResult)
    requires
        contents@.len() == selection.candidates@.len(),
    ensures
        finishes(r, selection, contents@),
{
    let ghost orig = contents@;
    let ghost cands = selection.candidates@;
    let mut contents = contents;
    let n = selection.candidates.len();
    let mut files: Vec<FileEntry> = Vec::new();
    let mut paths: Vec<Vec<String>> = Vec::new();
    let mut i: usize = 0;
    assert(records(files@) =~= read_records(cands, orig, 0));
    while i < n
        invariant
            n == cands.len(),
            cands == selection.candidates@,
            contents@.len() == n,
            orig.len() == n,
            i <= n,
            forall|k: int| i <= k < n ==> contents@[k] == orig[k],
            sorted_by_path(files@),
            records(files@).to_multiset() == read_records(cands, orig, i as nat).to_multiset(),
            files@.len() == read_records(cands, orig, i as nat).len(),
            path_views(paths@) == candidate_paths(cands).subrange(0, i as int),
        decreases n - i,
    {
        let c = &selection.candidates[i];
        let slot = contents[i].take();
        let ghost pre = read_records(cands, orig, i as nat);
        match slot {
            Some(text) => {
                let entry = FileEntry { relative_path: c.relative_path.clone(), content: text };
                insert_by_path(&mut files, entry);
                proof {
                    broadcast use vstd::seq_lib::group_to_multiset_ensures;

                    assert(read_records(cands, orig, (i + 1) as nat) == pre.push(record(entry)));
                }
            },
            None => {},
        }
        let ghost before = paths@;
        paths.push(clone_strings(&c.segments));
        assert(path_views(paths@) =~= candidate_paths(cands).subrange(0, i + 1)) by {
            assert(path_views(paths@) =~= path_views(before).push(views(c.segments@)));
        }
        i = i + 1;
    }
    assert(candidate_paths(cands).subrange(0, n as int) =~= candidate_paths(cands));
    proof {
        lemma_read_records_len(cands, orig, n as nat);
    }
    let file_list = build_file_list(&paths);
    let processed = files.len();
    let stats = ScanStats {
        total_files: selection.total_files,
        files_processed: processed,
        files_excluded: selection.files_excluded,
        worker_count: worker_count(n),
    };
    ScanResult { files, file_list, stats }
}

/// Whether no two candidates share a relative path, as within one walk.
pub open spec fn distinct_candidates(cands: Seq<Candidate>) -> bool {
    forall|i: int, j: int|
        0 <= i < cands.len() && 0 <= j < cands.len() && i != j ==> #[trigger] cands[i].relative_path@
            != #[trigger] cands[j].relative_path@
}

proof fn lemma_read_records_paths(cands: Seq<Candidate>, contents: Seq<Option<String>>, n: nat)
    requires
        distinct_candidates(cands),
        n <= cands.len(),
        n <= contents.len(),
    ensures
        distinct_paths(read_records(cands, contents, n)),
        forall|m: int|
            0 <= m < read_records(cands, contents, n).len() ==> exists|k: int|
                0 <= k < n && #[trigger] read_records(cands, contents, n)[m].0
                    == cands[k].relative_path@,
    decreases n,
{
    if n > 0 {
        lemma_read_records_paths(cands, contents, (n - 1) as nat);
        let r = read_records(cands, contents, (n - 1) as nat);
        assert forall|m: int| 0 <= m < r.len() implies #[trigger] r[m].0 != cands[n
            - 1].relative_path@ by {
            let k = choose|k: int| 0 <= k < n - 1 && r[m].0 == cands[k].relative_path@;
            assert(cands[k].relative_path@ != cands[n - 1].relative_path@);
        }
        let rn = read_records(cands, contents, n);
        assert forall|m: int| 0 <= m < rn.len() implies exists|k: int|
            0 <= k < n && #[trigger] rn[m].0 == cands[k].relative_path@ by {
            if m < r.len() {
                assert(rn[m] == r[m]);
                let k = choose|k: int| 0 <= k < n - 1 && r[m].0 == cands[k].relative_path@;
                assert(0 <= k < n && rn[m].0 == cands[k].relative_path@);
            } else {
                assert(rn[m].0 == cands[n - 1].relative_path@);
            }
        }
    }
}

proof fn lemma_distinct_paths_transfer(x: Seq<(Seq<char>, Seq<char>)>, y: Seq<(Seq<char>, Seq<char>)>)
    requires
        x.to_multiset() == y.to_multiset(),
        distinct_paths(x),
    ensures
        distinct_paths(y),
{
    broadcast use vstd::seq_lib::group_to_multiset_ensures;

    assert forall|i: int, j: int|
        0 <= i < y.len() && 0 <= j < y.len() && i != j implies #[trigger] y[i].0 != #[trigger] y[j].0 by {
        if y[i].0 == y[j].0 {
            assert(y.contains(y[i]) && y.to_multiset().count(y[i]) > 0);
            assert(y.contains(y[j]) && y.to_multiset().count(y[j]) > 0);
            assert(x.to_multiset().count(y[i]) > 0 && x.contains(y[i]));
            assert(x.to_multiset().count(y[j]) > 0 && x.contains(y[j]));
            let k = choose|k: int| 0 <= k < x.len() && x[k] == y[i];
            let l = choose|l: int| 0 <= l < x.len() && x[l] == y[j];
            if y[i] == y[j] {
                let yr = y.remove(i);
                assert(yr[if j < i { j } else { j - 1 }] == y[j]);
                assert(yr.contains(y[j]));
                assert(yr.to_multiset().count(y[j]) > 0);
                assert(y.to_multiset().count(y[i]) >= 2);
                let xr = x.remove(k);
                assert(xr.to_multiset().count(y[i]) > 0);
                assert(xr.contains(y[i]));
                let q = choose|q: int| 0 <= q < xr.len() && xr[q] == y[i];
                let q2 = if q < k { q } else { q + 1 };
                assert(x[q2] == y[i]);
            } else {
                assert(k != l);
            }
        }
    }
}

/// The files of a scan are in the order of their paths: where one path comes
/// before another, its file comes first, whatever order they were read in.
pub proof fn lemma_records_in_path_order(r: ScanResult, sel: Selection, contents: Seq<Option<String>>)
    requires
        finishes(r, sel, contents),
    ensures
        forall|i: int, j: int|
            0 <= i < r.files@.len() && 0 <= j < r.files@.len() && str_lt(
                #[trigger] r.files@[i].relative_path@,
                #[trigger] r.files@[j].relative_path@,
            ) ==> i < j,
{
    assert forall|i: int, j: int|
        0 <= i < r.files@.len() && 0 <= j < r.files@.len() && str_lt(
            #[trigger] r.files@[i].relative_path@,
            #[trigger] r.files@[j].relative_path@,
        ) implies i < j by {
        if i == j {
            lemma_bytes_lt_irreflexive(crate::order::key(r.files@[i].relative_path@));
        }
    }
}

/// Whether no two entries of a walk share a relative path, as within one
/// walk of a directory tree.
pub open spec fn distinct_walk(es: Seq<WalkEntry>) -> bool {
    forall|i: int, j: int|
        0 <= i < es.len() && 0 <= j < es.len() && i != j ==> join_path(#[trigger] es[i].segs())
            != join_path(#[trigger] es[j].segs())
}

/// A walk whose entries have distinct relative paths gives candidates with
/// distinct paths.
pub proof fn lemma_distinct_walk_distinct_candidates(
    s: Selection,
    es: Seq<WalkEntry>,
    policy: Set<Seq<char>>,
    prune: Set<Seq<char>>,
    output: Seq<char>,
)
    requires
        selects(s, es, policy, prune, output),
        distinct_walk(es),
    ensures
        distinct_candidates(s.candidates@),
{
    lemma_accepted(es, policy, prune, output, es.len());
    let acc = accepted(es, policy, prune, output, es.len());
    assert forall|i: int, j: int|
        0 <= i < s.candidates@.len() && 0 <= j < s.candidates@.len() && i != j implies #[trigger] s.candidates@[i].relative_path@
        != #[trigger] s.candidates@[j].relative_path@ by {
        assert(s.candidates@[i].relative_path@ == join_path(es[acc[i]].segs()));
        assert(s.candidates@[j].relative_path@ == join_path(es[acc[j]].segs()));
        if i < j {
            assert(acc[i] < acc[j]);
        } else {
            assert(acc[j] < acc[i]);
        }
    }
}

/// The files of a scan of a walk with distinct relative paths are in strictly
/// increasing order of their paths, whatever order they were read in.
pub proof fn lemma_records_strictly_ordered(
    r: ScanResult,
    sel: Selection,
    contents: Seq<Option<String>>,
    es: Seq<WalkEntry>,
    policy: Set<Seq<char>>,
    prune: Set<Seq<char>>,
    output: Seq<char>,
)
    requires
        selects(sel, es, policy, prune, output),
        distinct_walk(es),
        contents.len() == sel.candidates@.len(),
        finishes(r, sel, contents),
    ensures
        forall|i: int, j: int|
            0 <= i < j < r.files@.len() ==> str_lt(
                #[trigger] r.files@[i].relative_path@,
                #[trigger] r.files@[j].relative_path@,
            ),
{
    let cands = sel.candidates@;
    lemma_distinct_walk_distinct_candidates(sel, es, policy, prune, output);
    lemma_read_records_paths(cands, contents, cands.len());
    lemma_distinct_paths_transfer(read_records(cands, contents, cands.len()), records(r.files@));
    assert forall|i: int, j: int| 0 <= i < j < r.files@.len() implies str_lt(
        #[trigger] r.files@[i].relative_path@,
        #[trigger] r.files@[j].relative_path@,
    ) by {
        assert(records(r.files@)[i].0 == r.files@[i].relative_path@);
        assert(records(r.files@)[j].0 == r.files@[j].relative_path@);
        lemma_str_lt_total(r.files@[i].relative_path@, r.files@[j].relative_path@);
    }
}

proof fn lemma_read_records_same_paths(
    c1: Seq<Candidate>,
    c2: Seq<Candidate>,
    contents: Seq<Option<String>>,
    n: nat,
)
    requires
        c1.len() == c2.len(),
        forall|k: int| 0 <= k < c1.len() ==> #[trigger] c1[k].relative_path@ == c2[k].relative_path@,
    ensures
        read_records(c1, contents, n) == read_records(c2, contents, n),
    decreases n,
{
    if n > 0 {
        lemma_read_records_same_paths(c1, c2, contents, (n - 1) as nat);
        if n <= c1.len() {
            assert(c1[n - 1].relative_path@ == c2[n - 1].relative_path@);
        }
    }
}

/// Two scans of the same walk under the same policy, prune set and output
/// path, with the same outcome of each read, give the same files in the same
/// order, the same listing and the same counters, where the entries of the
/// walk have distinct relative paths.
pub proof fn lemma_scan_repeatable(
    sel1: Selection,
    sel2: Selection,
    r1: ScanResult,
    r2: ScanResult,
    contents: Seq<Option<String>>,
    es: Seq<WalkEntry>,
    policy: Set<Seq<char>>,
    prune: Set<Seq<char>>,
    output: Seq<char>,
)
    requires
        selects(sel1, es, policy, prune, output),
        selects(sel2, es, policy, prune, output),
        distinct_walk(es),
        contents.len() == sel1.candidates@.len(),
        finishes(r1, sel1, contents),
        finishes(r2, sel2, contents),
    ensures
        records(r1.files@) == records(r2.files@),
        r1.file_list@ == r2.file_list@,
        r1.stats == r2.stats,
{
    let c1 = sel1.candidates@;
    let c2 = sel2.candidates@;
    let acc = accepted(es, policy, prune, output, es.len());
    assert forall|k: int| 0 <= k < c1.len() implies #[trigger] c1[k].relative_path@
        == c2[k].relative_path@ by {
        assert(c1[k].relative_path@ == join_path(es[acc[k]].segs()));
        assert(c2[k].relative_path@ == join_path(es[acc[k]].segs()));
    }
    lemma_read_records_same_paths(c1, c2, contents, c1.len());
    assert(candidate_paths(c1) =~= candidate_paths(c2)) by {
        assert forall|k: int| 0 <= k < c1.len() implies #[trigger] candidate_paths(c1)[k]
            == candidate_paths(c2)[k] by {
            assert(views(c1[k].segments@) == es[acc[k]].segs());
            assert(views(c2[k].segments@) == es[acc[k]].segs());
        }
    }
    let rr = read_records(c1, contents, c1.len());
    lemma_distinct_walk_distinct_candidates(sel1, es, policy, prune, output);
    lemma_read_records_paths(c1, contents, c1.len());
    lemma_distinct_paths_transfer(rr, records(r1.files@));
    lemma_sorted_records_determined(r1.files@, r2.files@);
    let t1 = choose|t: Seq<Seq<Seq<char>>>|
        {
            &&& strictly_sorted(t)
            &&& #[trigger] t.to_set() == nonempty_paths(candidate_paths(c1))
            &&& r1.file_list@ == tree_text(t)
        };
    let t2 = choose|t: Seq<Seq<Seq<char>>>|
        {
            &&& strictly_sorted(t)
            &&& #[trigger] t.to_set() == nonempty_paths(candidate_paths(c2))
            &&& r2.file_list@ == tree_text(t)
        };
    lemma_sorted_paths_determined(t1, t2);
}

} // verus!
