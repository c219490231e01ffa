//! The exclusion policy: the set of file extensions left out of a scan.

use vstd::prelude::*;

use crate::text::{contains_string, lower_of, lowercase, trim, trimmed, views};

verus! {

/// The built-in deny-list, in groups: each with its title comment and its
/// extensions. Media, executable, archive, database, document, font and other
/// binary files.
pub open spec fn default_groups() -> Seq<(Seq<char>, Seq<Seq<char>>)> {
    seq![
        ("# Video files"@, seq![".mp4"@, ".mkv"@, ".avi"@, ".mov"@, ".webm"@, ".wmv"@, ".flv"@, ".m4v"@, ".mpg"@, ".mpeg"@, ".3gp"@]),
        ("# Image files"@, seq![".png"@, ".jpg"@, ".jpeg"@, ".gif"@, ".bmp"@, ".ico"@, ".webp"@, ".tiff"@, ".tif"@, ".psd"@, ".raw"@, ".svg"@]),
        ("# Audio files"@, seq![".mp3"@, ".wav"@, ".flac"@, ".aac"@, ".ogg"@, ".wma"@, ".m4a"@]),
        ("# Binary/Executable files"@, seq![".exe"@, ".dll"@, ".so"@, ".dylib"@, ".bin"@, ".o"@, ".obj"@, ".lib"@, ".a"@, ".pyc"@, ".pyo"@, ".class"@]),
        ("# Archive files"@, seq![".zip"@, ".tar"@, ".gz"@, ".7z"@, ".rar"@, ".bz2"@, ".xz"@, ".iso"@]),
        ("# Database files"@, seq![".db"@, ".sqlite"@, ".sqlite3"@, ".mdb"@]),
        ("# Document files (often binary)"@, seq![".pdf"@, ".doc"@, ".docx"@, ".xls"@, ".xlsx"@, ".ppt"@, ".pptx"@]),
        ("# Font files"@, seq![".ttf"@, ".otf"@, ".woff"@, ".woff2"@, ".eot"@]),
        ("# Other binary files"@, seq![".dat"@, ".pak"@, ".cache"@]),
    ]
}

/// The extensions of the first `n` groups, in order.
pub open spec fn group_extensions(gs: Seq<(Seq<char>, Seq<Seq<char>>)>, n: nat) -> Seq<Seq<char>>
    decreases n,
{
    if n == 0 || n > gs.len() {
        seq![]
    } else {
        group_extensions(gs, (n - 1) as nat) + gs[n - 1].1
    }
}

/// The built-in deny-list: the extensions of all groups, in order.
pub open spec fn default_extensions() -> Seq<Seq<char>> {
    group_extensions(default_groups(), default_groups().len())
}

/// Groups of string slices as character sequences.
pub open spec fn group_views(gs: Seq<(&str, Vec<&str>)>) -> Seq<(Seq<char>, Seq<Seq<char>>)> {
    gs.map_values(|g: (&str, Vec<&str>)| (g.0@, g.1@.map_values(|e: &str| e@)))
}

/// The built-in deny-list in its groups, as string slices.
fn default_extension_groups() -> (r: Vec<(&'static str, Vec<&'static str>)>)
    ensures
        group_views(r@) == default_groups(),
{
    let r = vec![
        ("# Video files", vec![".mp4", ".mkv", ".avi", ".mov", ".webm", ".wmv", ".flv", ".m4v", ".mpg", ".mpeg", ".3gp"]),
        ("# Image files", vec![".png", ".jpg", ".jpeg", ".gif", ".bmp", ".ico", ".webp", ".tiff", ".tif", ".psd", ".raw", ".svg"]),
        ("# Audio files", vec![".mp3", ".wav", ".flac", ".aac", ".ogg", ".wma", ".m4a"]),
        ("# Binary/Executable files", vec![".exe", ".dll", ".so", ".dylib", ".bin", ".o", ".obj", ".lib", ".a", ".pyc", ".pyo", ".class"]),
        ("# Archive files", vec![".zip", ".tar", ".gz", ".7z", ".rar", ".bz2", ".xz", ".iso"]),
        ("# Database files", vec![".db", ".sqlite", ".sqlite3", ".mdb"]),
        ("# Document files (often binary)", vec![".pdf", ".doc", ".docx", ".xls", ".xlsx", ".ppt", ".pptx"]),
        ("# Font files", vec![".ttf", ".otf", ".woff", ".woff2", ".eot"]),
        ("# Other binary files", vec![".dat", ".pak", ".cache"]),
    ];
    assert(group_views(r@) =~~= default_groups());
    r
}

/// The built-in deny-list as string slices, group after group.
fn default_extension_list() -> (r: Vec<&'static str>)
    ensures
        r@.map_values(|e: &str| e@) == default_extensions(),
{
    let groups = default_extension_groups();
    let ghost gs = default_groups();
    let mut r: Vec<&'static str> = Vec::new();
    let n = groups.len();
    let mut g: usize = 0;
    while g < n
        invariant
            n == groups@.len(),
            gs == default_groups(),
            group_views(groups@) == gs,
            g <= n,
            r@.map_values(|e: &str| e@) == group_extensions(gs, g as nat),
        decreases n - g,
    {
        let exts = &groups[g].1;
        let ghost want = gs[g as int].1;
        assert(exts@.map_values(|e: &str| e@) == want);
        let m = exts.len();
        let mut k: usize = 0;
        assert(want.subrange(0, 0) =~= Seq::<Seq<char>>::empty());
        assert(group_extensions(gs, g as nat) + want.subrange(0, 0) =~= group_extensions(gs, g as nat));
        while k < m
            invariant
                m == exts@.len(),
                exts@.map_values(|e: &str| e@) == want,
                k <= m,
                r@.map_values(|e: &str| e@) == group_extensions(gs, g as nat) + want.subrange(0, k as int),
            decreases m - k,
        {
            let ghost before = r@;
            r.push(exts[k]);
            assert(r@.map_values(|e: &str| e@) =~= group_extensions(gs, g as nat) + want.subrange(
                0,
                k + 1,
            )) by {
                assert(r@ == before.push(exts@[k as int]));
                assert(want[k as int] == exts@[k as int]@);
                assert(r@.map_values(|e: &str| e@) =~= before.map_values(|e: &str| e@).push(
                    exts@[k as int]@,
                ));
                assert(want.subrange(0, k + 1) =~= want.subrange(0, k as int).push(want[k as int]));
            }
            k = k + 1;
        }
        assert(want.subrange(0, m as int) =~= want);
        assert(group_extensions(gs, (g + 1) as nat) == group_extensions(gs, g as nat) + want);
        g = g + 1;
    }
    r
}

/// The opening comment of a policy file: a title and how the file is read.
pub open spec fn file_header() -> Seq<char> {
    "# FileAssetBuilder Configuration\n# List file extensions to EXCLUDE from processing (one per line)\n# Lines starting with # are comments\n# Extensions must include the dot (.)\n"@
}

/// The entries of the first `n` extensions of `exts`, one per line.
pub open spec fn entry_lines(exts: Seq<Seq<char>>, n: nat) -> Seq<char>
    decreases n,
{
    if n == 0 || n > exts.len() {
        seq![]
    } else {
        entry_lines(exts, (n - 1) as nat) + exts[n - 1] + seq!['\n']
    }
}

/// The first `n` groups as policy file text: each after a blank line, its
/// title comment on a line, then its extensions one per line.
pub open spec fn group_blocks(gs: Seq<(Seq<char>, Seq<Seq<char>>)>, n: nat) -> Seq<char>
    decreases n,
{
    if n == 0 || n > gs.len() {
        seq![]
    } else {
        group_blocks(gs, (n - 1) as nat) + seq!['\n'] + gs[n - 1].0 + seq!['\n'] + entry_lines(
            gs[n - 1].1,
            gs[n - 1].1.len(),
        )
    }
}

/// The policy file written where none exists: the opening comment, then the
/// groups of the built-in deny-list.
pub fn default_file_text() -> (r: String)
    ensures
        r@ == file_header() + group_blocks(default_groups(), default_groups().len()),
{
    let groups = default_extension_groups();
    let ghost gs = default_groups();
    let mut r = "# FileAssetBuilder Configuration\n# List file extensions to EXCLUDE from processing (one per line)\n# Lines starting with # are comments\n# Extensions must include the dot (.)\n".to_owned();
    proof {
        reveal_strlit("\n");
    }
    let n = groups.len();
    let mut g: usize = 0;
    while g < n
        invariant
            n == groups@.len(),
            gs == default_groups(),
            group_views(groups@) == gs,
            g <= n,
            r@ == file_header() + group_blocks(gs, g as nat),
        decreases n - g,
    {
        let title = groups[g].0;
        let exts = &groups[g].1;
        let ghost want = gs[g as int].1;
        assert(exts@.map_values(|e: &str| e@) == want);
        assert(title@ == gs[g as int].0);
        let ghost start = r@;
        r.append("\n");
        r.append(title);
        r.append("\n");
        proof {
            reveal_strlit("\n");
        }
        let m = exts.len();
        let mut k: usize = 0;
        assert(r@ =~= start + seq!['\n'] + gs[g as int].0 + seq!['\n'] + entry_lines(want, 0));
        while k < m
            invariant
                m == exts@.len(),
                exts@.map_values(|e: &str| e@) == want,
                k <= m,
                r@ == start + seq!['\n'] + gs[g as int].0 + seq!['\n'] + entry_lines(want, k as nat),
            decreases m - k,
        {
            r.append(exts[k]);
            r.append("\n");
            proof {
                reveal_strlit("\n");
                assert(want[k as int] == exts@[k as int]@);
            }
            assert(r@ =~= start + seq!['\n'] + gs[g as int].0 + seq!['\n'] + entry_lines(
                want,
                (k + 1) as nat,
            ));
            k = k + 1;
        }
        assert(r@ =~= file_header() + group_blocks(gs, (g + 1) as nat));
        g = g + 1;
    }
    r
}

/// A line of the policy file that names an extension: after trimming it starts
/// with a dot.
pub open spec fn is_entry_line(line: Seq<char>) -> bool {
    trimmed(line).len() > 0 && trimmed(line)[0] == '.'
}

/// A line of the policy file that is neither blank, a comment nor an entry.
pub open spec fn is_rejected_line(line: Seq<char>) -> bool {
    trimmed(line).len() > 0 && trimmed(line)[0] != '#' && trimmed(line)[0] != '.'
}

/// The extensions that the entry lines of a policy file name, lower-cased.
pub open spec fn entries_of(lines: Seq<Seq<char>>) -> Set<Seq<char>> {
    Set::new(
        |e: Seq<char>|
            exists|i: int|
                0 <= i < lines.len() && is_entry_line(#[trigger] lines[i]) && e == lower_of(
                    trimmed(lines[i]),
                ),
    )
}

/// The rejected lines of a policy file, trimmed, in file order.
pub open spec fn rejected_of(lines: Seq<Seq<char>>) -> Seq<Seq<char>> {
    lines.filter(|l: Seq<char>| is_rejected_line(l)).map_values(|l: Seq<char>| trimmed(l))
}

/// A rejected line of a policy file adds no extension, and is reported among
/// the rejected lines: the policy is that of the other lines.
pub proof fn lemma_rejected_line_skipped(lines: Seq<Seq<char>>, i: int)
    requires
        0 <= i < lines.len(),
        is_rejected_line(lines[i]),
    ensures
        entries_of(lines) == entries_of(lines.remove(i)),
        rejected_of(lines).contains(trimmed(lines[i])),
{
    let rest = lines.remove(i);
    assert forall|e: Seq<char>| entries_of(lines).contains(e) implies entries_of(rest).contains(
        e,
    ) by {
        let k = choose|k: int|
            0 <= k < lines.len() && is_entry_line(#[trigger] lines[k]) && e == lower_of(
                trimmed(lines[k]),
            );
        assert(k != i);
        let k2 = if k < i { k } else { k - 1 };
        assert(rest[k2] == lines[k]);
    }
    assert forall|e: Seq<char>| entries_of(rest).contains(e) implies entries_of(lines).contains(
        e,
    ) by {
        let k = choose|k: int|
            0 <= k < rest.len() && is_entry_line(#[trigger] rest[k]) && e == lower_of(trimmed(rest[k]));
        let k2 = if k < i { k } else { k + 1 };
        assert(lines[k2] == rest[k]);
    }
    assert(entries_of(lines) =~= entries_of(rest));
    let f = |l: Seq<char>| is_rejected_line(l);
    assert(lines.contains(lines[i]));
    lines.lemma_filter_contains_rev(f, lines[i]);
    let fl = lines.filter(f);
    let j = choose|j: int| 0 <= j < fl.len() && fl[j] == lines[i];
    assert(rejected_of(lines)[j] == trimmed(lines[i]));
}

/// The exclusion test ignores case: extensions with the same lower-case form,
/// such as `.PNG`, `.Png` and `.png`, are excluded alike.
pub proof fn lemma_exclusion_ignores_case(c: Config, a: Seq<char>, b: Seq<char>)
    requires
        lower_of(a) == lower_of(b),
    ensures
        c@.contains(lower_of(a)) == c@.contains(lower_of(b)),
{
}

/// The set of excluded extensions, each stored once.
pub struct Config {
    pub excluded_extensions: Vec<String>,
}

impl View for Config {
    type V = Set<Seq<char>>;

    open spec fn view(&self) -> Set<Seq<char>> {
        views(self.excluded_extensions@).to_set()
    }
}

impl Config {
    /// Each extension is stored once.
    pub open spec fn wf(&self) -> bool {
        views(self.excluded_extensions@).no_duplicates()
    }

    /// An empty policy.
    pub fn new() -> (r: Config)
        ensures
            r.wf(),
            r@ == Set::<Seq<char>>::empty(),
    {
        let r = Config { excluded_extensions: Vec::new() };
        assert(r@ =~= Set::<Seq<char>>::empty());
        r
    }

    /// Whether `ext` is stored, compared exactly.
    pub fn contains(&self, ext: &String) -> (r: bool)
        ensures
            r == self@.contains(ext@),
    {
        contains_string(&self.excluded_extensions, ext)
    }

    /// Stores `ext` unless it is stored already.
    pub fn add(&mut self, ext: String)
        requires
            old(self).wf(),
        ensures
            final(self).wf(),
            final(self)@ == old(self)@.insert(ext@),
    {
        if !self.contains(&ext) {
            let ghost before = views(self.excluded_extensions@);
            let ghost e = ext@;
            self.excluded_extensions.push(ext);
            assert(views(self.excluded_extensions@) =~= before.push(e));
            proof { before.lemma_push_to_set_commute(e); }
            assert(self@ =~= old(self)@.insert(e));
        } else {
            assert(self@ =~= old(self)@.insert(ext@));
        }
    }

    /// The number of excluded extensions.
    pub fn len(&self) -> (r: usize)
        requires
            self.wf(),
        ensures
            r == self@.len(),
    {
        proof {
            views(self.excluded_extensions@).unique_seq_to_set();
        }
        self.excluded_extensions.len()
    }

    /// The policy of the built-in deny-list.
    pub fn with_defaults() -> (r: Config)
        ensures
            r.wf(),
            r@ == default_extensions().to_set(),
    {
        let list = default_extension_list();
        let mut r = Config::new();
        let n = list.len();
        let mut i: usize = 0;
        while i < n
            invariant
                n == list@.len(),
                i <= n,
                list@.map_values(|e: &str| e@) == default_extensions(),
                r.wf(),
                r@ == default_extensions().subrange(0, i as int).to_set(),
            decreases n - i,
        {
            let e = list[i].to_owned();
            r.add(e);
            proof {
                default_extensions().subrange(0, i as int).lemma_push_to_set_commute(
                    list@[i as int]@,
                );
            }
            assert(default_extensions().subrange(0, i + 1) =~= default_extensions().subrange(
                0,
                i as int,
            ).push(list@[i as int]@));
            i = i + 1;
        }
        assert(default_extensions().subrange(0, n as int) =~= default_extensions());
        r
    }

    /// The policy that the lines of a policy file give: blank lines and lines
    /// that start with `#` are ignored, a line that starts with `.` names an
    /// extension (stored lower-cased), and any other line is rejected. Lines
    /// are trimmed first. Returns the policy and the rejected lines, trimmed.
    pub fn from_lines(lines: &Vec<String>) -> (r: (Config, Vec<String>))
        ensures
            r.0.wf(),
            r.0@ == entries_of(views(lines@)),
            views(r.1@) == rejected_of(views(lines@)),
    {
        let mut config = Config::new();
        let mut rejected: Vec<String> = Vec::new();
        let n = lines.len();
        let mut i: usize = 0;
        proof {
            assert(entries_of(views(lines@).subrange(0, 0)) =~= Set::<Seq<char>>::empty());
            assert(views(rejected@) =~= rejected_of(views(lines@).subrange(0, 0)));
        }
        while i < n
            invariant
                n == lines@.len(),
                i <= n,
                config.wf(),
                config@ == entries_of(views(lines@).subrange(0, i as int)),
                views(rejected@) == rejected_of(views(lines@).subrange(0, i as int)),
            decreases n - i,
        {
            let ghost pre = views(lines@).subrange(0, i as int);
            let ghost line = lines@[i as int]@;
            let ghost next = views(lines@).subrange(0, i + 1);
            assert(next =~= pre.push(line));
            let t = trim(lines[i].as_str());
            let len = t.unicode_len();
            proof {
                pre.lemma_filter_push(line, |l: Seq<char>| is_rejected_line(l));
            }
            if len == 0 || t.get_char(0) == '#' {
                assert(!is_entry_line(line) && !is_rejected_line(line));
                assert(pre.push(line).filter(|l: Seq<char>| is_rejected_line(l)) == pre.filter(
                    |l: Seq<char>| is_rejected_line(l),
                ));
                assert(entries_of(next) =~= entries_of(pre)) by {
                    assert forall|e: Seq<char>| entries_of(next).contains(e) implies entries_of(
                        pre,
                    ).contains(e) by {
                        let k = choose|k: int|
                            0 <= k < next.len() && is_entry_line(#[trigger] next[k]) && e
                                == lower_of(trimmed(next[k]));
                        assert(k < pre.len());
                        assert(pre[k] == next[k]);
                    }
                    assert forall|e: Seq<char>| entries_of(pre).contains(e) implies entries_of(
                        next,
                    ).contains(e) by {
                        let k = choose|k: int|
                            0 <= k < pre.len() && is_entry_line(#[trigger] pre[k]) && e
                                == lower_of(trimmed(pre[k]));
                        assert(pre[k] == next[k]);
                    }
                }
            } else if t.get_char(0) != '.' {
                assert(!is_entry_line(line) && is_rejected_line(line));
                let ghost before = views(rejected@);
                rejected.push(t.to_owned());
                assert(views(rejected@) =~= before.push(trimmed(line)));
                assert(rejected_of(next) =~= rejected_of(pre).push(trimmed(line)));
                assert(entries_of(next) =~= entries_of(pre)) by {
                    assert forall|e: Seq<char>| entries_of(next).contains(e) implies entries_of(
                        pre,
                    ).contains(e) by {
                        let k = choose|k: int|
                            0 <= k < next.len() && is_entry_line(#[trigger] next[k]) && e
                                == lower_of(trimmed(next[k]));
                        assert(k < pre.len());
                        assert(pre[k] == next[k]);
                    }
                    assert forall|e: Seq<char>| entries_of(pre).contains(e) implies entries_of(
                        next,
                    ).contains(e) by {
                        let k = choose|k: int|
                            0 <= k < pre.len() && is_entry_line(#[trigger] pre[k]) && e
                                == lower_of(trimmed(pre[k]));
                        assert(pre[k] == next[k]);
                    }
                }
            } else {
                assert(is_entry_line(line) && !is_rejected_line(line));
                assert(pre.push(line).filter(|l: Seq<char>| is_rejected_line(l)) == pre.filter(
                    |l: Seq<char>| is_rejected_line(l),
                ));
                let lower = lowercase(t);
                config.add(lower);
                assert(entries_of(next) =~= entries_of(pre).insert(lower_of(trimmed(line)))) by {
                    assert forall|e: Seq<char>| entries_of(next).contains(e) implies entries_of(
                        pre,
                    ).insert(lower_of(trimmed(line))).contains(e) by {
                        let k = choose|k: int|
                            0 <= k < next.len() && is_entry_line(#[trigger] next[k]) && e
                                == lower_of(trimmed(next[k]));
                        if k < pre.len() {
                            assert(pre[k] == next[k]);
                        }
                    }
                    assert forall|e: Seq<char>|
                        entries_of(pre).insert(lower_of(trimmed(line))).contains(
                            e,
                        ) implies entries_of(next).contains(e) by {
                        if e == lower_of(trimmed(line)) {
                            assert(next[i as int] == line);
                        } else {
                            let k = choose|k: int|
                                0 <= k < pre.len() && is_entry_line(#[trigger] pre[k]) && e
                                    == lower_of(trimmed(pre[k]));
                            assert(pre[k] == next[k]);
                        }
                    }
                }
            }
            i = i + 1;
        }
        assert(views(lines@).subrange(0, n as int) =~= views(lines@));
        (config, rejected)
    }

    /// The policy for a run: that of the policy file's lines where they could
    /// be read and name at least one extension, else the built-in deny-list.
    /// Returns the policy and the rejected lines.
    pub fn from_loaded(lines: Option<Vec<String>>) -> (r: (Config, Vec<String>))
        ensures
            r.0.wf(),
            lines is None ==> r.0@ == default_extensions().to_set() && r.1@.len() == 0,
            lines is Some ==> views(r.1@) == rejected_of(views(lines->Some_0@)),
            lines is Some && entries_of(views(lines->Some_0@)).len() > 0 ==> r.0@ == entries_of(
                views(lines->Some_0@),
            ),
            lines is Some && entries_of(views(lines->Some_0@)).len() == 0 ==> r.0@
                == default_extensions().to_set(),
    {
        match lines {
            None => (Config::with_defaults(), Vec::new()),
            Some(ls) => {
                let (config, rejected) = Config::from_lines(&ls);
                if config.len() == 0 {
                    (Config::with_defaults(), rejected)
                } else {
                    (config, rejected)
                }
            },
        }
    }

    /// Whether files with extension `extension` (dot included, empty for none)
    /// are excluded; the test ignores case.
    pub fn should_exclude(&self, extension: &str) -> (r: bool)
        ensures
            r == self@.contains(lower_of(extension@)),
            extension@.len() == 0 ==> r == self@.contains(Seq::<char>::empty()),
    {
        let lower = lowercase(extension);
        proof {
            if extension@.len() == 0 {
                assert(lower@ =~= Seq::<char>::empty());
            }
        }
        self.contains(&lower)
    }
}

} // verus!
