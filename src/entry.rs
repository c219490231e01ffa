//! Entries of a directory walk, their relative paths and extensions, and the
//! set of directory names whose subtrees a walk leaves out.

use vstd::prelude::*;

use crate::text::{clone_strings, contains_string, views};

verus! {

/// One entry of a directory walk: the path segments from the scan root to the
/// entry, and whether it is a directory.
pub struct WalkEntry {
    pub segments: Vec<String>,
    pub is_dir: bool,
}

impl WalkEntry {
    /// The segments as character sequences.
    pub open spec fn segs(&self) -> Seq<Seq<char>> {
        views(self.segments@)
    }
}

/// Segments joined with `/`.
pub open spec fn join_path(segs: Seq<Seq<char>>) -> Seq<char>
    decreases segs.len(),
{
    if segs.len() == 0 {
        seq![]
    } else if segs.len() == 1 {
        segs[0]
    } else {
        join_path(segs.drop_last()) + seq!['/'] + segs.last()
    }
}

/// Position of the last `.` among the first `n` characters of `s`, or -1.
pub open spec fn last_dot(s: Seq<char>, n: int) -> int
    decreases n,
{
    if n <= 0 || n > s.len() {
        -1
    } else if s[n - 1] == '.' {
        n - 1
    } else {
        last_dot(s, n - 1)
    }
}

/// The extension of a file name, dot included: what follows its last dot,
/// where that dot is not the name's first character; empty otherwise.
pub open spec fn extension(name: Seq<char>) -> Seq<char> {
    let k = last_dot(name, name.len() as int);
    if k <= 0 || name == seq!['.', '.'] {
        seq![]
    } else {
        name.subrange(k, name.len() as int)
    }
}

/// The extension of a file name, dot included, or empty where it has none.
pub fn extension_of(name: &str) -> (r: String)
    ensures
        r@ == extension(name@),
{
    let n = name.unicode_len();
    let mut i: usize = n;
    while i > 0 && name.get_char(i - 1) != '.'
        invariant
            n == name@.len(),
            i <= n,
            last_dot(name@, n as int) == last_dot(name@, i as int),
        decreases i,
    {
        i = i - 1;
    }
    if i <= 1 {
        return String::new();
    }
    if n == 2 {
        assert(name@ =~= seq![name@[0], name@[1]]);
        if name.get_char(0) == '.' {
            return String::new();
        }
    }
    assert(name@ != seq!['.', '.']) by {
        if n == 2 && name@ == seq!['.', '.'] {
            assert(name@[0] == '.');
        }
    }
    name.substring_char(i - 1, n).to_owned()
}

/// The relative path of `segments`, joined with `/`.
pub fn join_segments(segments: &Vec<String>) -> (r: String)
    ensures
        r@ == join_path(views(segments@)),
{
    let n = segments.len();
    if n == 0 {
        return String::new();
    }
    let mut r = segments[0].clone();
    let mut i: usize = 1;
    assert(views(segments@).subrange(0, 1).drop_last() =~= seq![]);
    while i < n
        invariant
            n == segments@.len(),
            1 <= i <= n,
            r@ == join_path(views(segments@).subrange(0, i as int)),
        decreases n - i,
    {
        let ghost sub = views(segments@).subrange(0, i + 1);
        assert(sub.drop_last() =~= views(segments@).subrange(0, i as int));
        r.append("/");
        r.append(segments[i].as_str());
        proof {
            reveal_strlit("/");
        }
        assert(r@ =~= join_path(sub));
        i = i + 1;
    }
    assert(views(segments@).subrange(0, n as int) =~= views(segments@));
    r
}

/// Directory names whose subtrees a walk does not enter.
pub struct PruneSet {
    pub names: Vec<String>,
}

impl View for PruneSet {
    type V = Set<Seq<char>>;

    open spec fn view(&self) -> Set<Seq<char>> {
        views(self.names@).to_set()
    }
}

/// The names that the standard prune set holds: version control metadata,
/// build output and dependency caches.
pub open spec fn standard_prune_names() -> Seq<Seq<char>> {
    seq![".git"@, ".hg"@, ".svn"@, "target"@, "node_modules"@, "__pycache__"@]
}

impl PruneSet {
    /// A prune set of the given names.
    pub fn new(names: &Vec<String>) -> (r: PruneSet)
        ensures
            r@ == views(names@).to_set(),
    {
        PruneSet { names: clone_strings(names) }
    }

    /// The standard prune set.
    pub fn standard() -> (r: PruneSet)
        ensures
            r@ == standard_prune_names().to_set(),
    {
        let names = vec![
            ".git".to_owned(),
            ".hg".to_owned(),
            ".svn".to_owned(),
            "target".to_owned(),
            "node_modules".to_owned(),
            "__pycache__".to_owned(),
        ];
        assert(views(names@) =~= standard_prune_names());
        PruneSet { names }
    }

    /// Whether a directory named `name` is left out with its subtree.
    pub fn is_pruned(&self, name: &String) -> (r: bool)
        ensures
            r == self@.contains(name@),
    {
        contains_string(&self.names, name)
    }
}

} // verus!
