//! Process descriptors: what is known of one live process, which program it
//! really runs, and the short label and path entropy derived from that.
use vstd::prelude::*;
use crate::known::{
    base_paths, is_base, is_python_path, is_shell_path, python_paths, shell_paths, triplet_list,
    triplets, views,
};
use crate::text::{
    cut, cut_out, decimal_i32, file_name, find, find_from, find_word_end, last_index,
    lemma_file_name_of_join, lemma_file_name_plain, lemma_find_from_occurs, no_char, lemma_last_index_bounds, lemma_pieces_nonempty, lemma_scan_bounds,
    parse_decimal, pieces, rfind, skip_space, skip_spaces, split, string_views, word_end,
};

verus! {

/// The bit pattern of the largest finite single-precision value: the
/// entropy of a path that has no segment to measure.
pub const ENTROPY_MAX: u32 = 0x7f7f_ffff;

/// The metric entropy of a string's UTF-8 bytes, as the bit pattern of the
/// single-precision value that the `entropy` crate computes. The values are
/// never negative, and for those the order of the bit patterns is the order
/// of the numbers.
pub uninterp spec fn metric_entropy_bits(s: Seq<char>) -> u32;

/// Relies on `entropy::metric_entropy`: the result depends on the bytes alone.
#[verifier::external_body]
fn metric_entropy(s: &str) -> (r: u32)
    ensures
        r == metric_entropy_bits(s@),
{
    entropy::metric_entropy(s).to_bits()
}

/// Relies on `std::path::Path::is_file`: whether a regular file is found at
/// `p` at the moment of the call; nothing is known of the answer beforehand.
#[verifier::external_body]
fn is_file(p: &str) -> (r: bool) {
    std::path::Path::new(p).is_file()
}

/// The view of an optional string.
pub open spec fn opt_view(o: Option<String>) -> Option<Seq<char>> {
    match o {
        Some(s) => Some(s@),
        None => None,
    }
}

/// The view of an optional string slice.
pub open spec fn opt_str_view(o: Option<&str>) -> Option<Seq<char>> {
    match o {
        Some(s) => Some(s@),
        None => None,
    }
}

/// Whether an executable path is a known shell or language runtime.
pub open spec fn interpreter(exe: Option<Seq<char>>) -> bool {
    match exe {
        Some(e) => shell_paths().contains(e) || python_paths().contains(e),
        None => false,
    }
}

/// `name` with the first of `pats` that occurs in it taken out, at its first
/// occurrence, where that leaves something; `name` unchanged if none does.
pub open spec fn strip_from(name: Seq<char>, pats: Seq<Seq<char>>) -> Seq<char>
    decreases pats.len(),
{
    if pats.len() == 0 {
        name
    } else {
        match find_from(name, pats[0], 0) {
            Some(i) => if name.len() > pats[0].len() {
                cut(name, i, pats[0].len() as int)
            } else {
                strip_from(name, pats.drop_first())
            },
            None => strip_from(name, pats.drop_first()),
        }
    }
}

proof fn lemma_strip_from_none(name: Seq<char>, pats: Seq<Seq<char>>)
    requires
        forall|i: int| 0 <= i < pats.len() ==> find_from(name, #[trigger] pats[i], 0) is None,
    ensures
        strip_from(name, pats) == name,
    decreases pats.len(),
{
    if pats.len() > 0 {
        assert(find_from(name, pats[0], 0) is None);
        assert forall|i: int| 0 <= i < pats.drop_first().len() implies find_from(
            name,
            #[trigger] pats.drop_first()[i],
            0,
        ) is None by {
            assert(pats.drop_first()[i] == pats[i + 1]);
        }
        lemma_strip_from_none(name, pats.drop_first());
    }
}

proof fn lemma_strip_from_at(name: Seq<char>, pats: Seq<Seq<char>>, j: int, k: int)
    requires
        0 <= j < pats.len(),
        forall|i: int| 0 <= i < j ==> find_from(name, #[trigger] pats[i], 0) is None,
        find_from(name, pats[j], 0) == Some(k),
        name.len() > pats[j].len(),
    ensures
        strip_from(name, pats) == cut(name, k, pats[j].len() as int),
    decreases j,
{
    if j > 0 {
        assert(find_from(name, pats[0], 0) is None);
        assert forall|i: int| 0 <= i < j - 1 implies find_from(
            name,
            #[trigger] pats.drop_first()[i],
            0,
        ) is None by {
            assert(pats.drop_first()[i] == pats[i + 1]);
        }
        assert(pats.drop_first()[j - 1] == pats[j]);
        lemma_strip_from_at(name, pats.drop_first(), j - 1, k);
    }
}

/// A toolchain binary whose name holds an architecture triplet gets the
/// label of the same binary named without it: where `t` is the first known
/// triplet found in `pre + t + post`, found first where it was put, and no
/// known triplet occurs in `pre + post`, the two paths in `dir` share a label.
pub proof fn lemma_triplet_label(dir: Seq<char>, pre: Seq<char>, post: Seq<char>, j: int)
    requires
        0 <= j < triplets().len(),
        pre.len() + post.len() > 0,
        forall|m: int| 0 <= m < pre.len() ==> pre[m] != '/',
        forall|m: int| 0 <= m < post.len() ==> post[m] != '/',
        forall|m: int| 0 <= m < triplets()[j].len() ==> triplets()[j][m] != '/',
        forall|i: int|
            0 <= i < j ==> find_from(pre + triplets()[j] + post, #[trigger] triplets()[i], 0) is None,
        find_from(pre + triplets()[j] + post, triplets()[j], 0) == Some(pre.len() as int),
        forall|i: int|
            0 <= i < triplets().len() ==> find_from(pre + post, #[trigger] triplets()[i], 0) is None,
        !base_paths().contains(dir + seq!['/'] + (pre + triplets()[j] + post)),
        !base_paths().contains(dir + seq!['/'] + (pre + post)),
    ensures
        label_of(Some(dir + seq!['/'] + (pre + triplets()[j] + post))) == label_of(
            Some(dir + seq!['/'] + (pre + post)),
        ),
        label_of(Some(dir + seq!['/'] + (pre + post))) == pre + post,
{
    let t = triplets()[j];
    let f = pre + t + post;
    let g = pre + post;
    assert forall|m: int| 0 <= m < f.len() implies f[m] != '/' by {
        if m < pre.len() {
            assert(f[m] == pre[m]);
        } else if m < pre.len() + t.len() {
            assert(f[m] == t[m - pre.len()]);
        } else {
            assert(f[m] == post[m - pre.len() - t.len()]);
        }
    }
    assert forall|m: int| 0 <= m < g.len() implies g[m] != '/' by {
        if m < pre.len() {
            assert(g[m] == pre[m]);
        } else {
            assert(g[m] == post[m - pre.len()]);
        }
    }
    lemma_file_name_of_join(dir, f);
    lemma_file_name_of_join(dir, g);
    lemma_strip_from_at(f, triplets(), j, pre.len() as int);
    assert(cut(f, pre.len() as int, t.len() as int) =~= g);
    lemma_strip_from_none(g, triplets());
}

proof fn lemma_strip_from_plain(name: Seq<char>, pats: Seq<Seq<char>>)
    requires
        no_char(name, '/'),
    ensures
        no_char(strip_from(name, pats), '/'),
    decreases pats.len(),
{
    if pats.len() > 0 {
        lemma_strip_from_plain(name, pats.drop_first());
        lemma_find_from_occurs(name, pats[0], 0);
        match find_from(name, pats[0], 0) {
            Some(i) => {
                let c = cut(name, i, pats[0].len() as int);
                assert forall|m: int| 0 <= m < c.len() implies c[m] != '/' by {
                    if m < i {
                        assert(c[m] == name[m]);
                    } else {
                        assert(c[m] == name[m + pats[0].len()]);
                    }
                }
            },
            None => {},
        }
    }
}

/// No label holds `/`.
pub proof fn lemma_label_plain(runnable: Option<Seq<char>>)
    ensures
        no_char(label_of(runnable), '/'),
{
    reveal_strlit("unknown");
    reveal_strlit("base");
    if let Some(p) = runnable {
        lemma_file_name_plain(p);
        lemma_strip_from_plain(file_name(p), triplets());
    }
}

/// A file name without its architecture triplet.
pub open spec fn stripped(name: Seq<char>) -> Seq<char> {
    strip_from(name, triplets())
}

/// The label of a runnable path: `base` for a binary of the base system,
/// else its file name without architecture triplet; `unknown` where the path
/// is not text or leaves no name.
pub open spec fn label_of(runnable: Option<Seq<char>>) -> Seq<char> {
    match runnable {
        None => "unknown"@,
        Some(p) => if base_paths().contains(p) {
            "base"@
        } else if stripped(file_name(p)).len() == 0 {
            "unknown"@
        } else {
            stripped(file_name(p))
        },
    }
}

/// Every runnable path, text or not, has a non-empty label.
pub proof fn lemma_label_nonempty(runnable: Option<Seq<char>>)
    ensures
        label_of(runnable).len() > 0,
{
    reveal_strlit("unknown");
    reveal_strlit("base");
}

/// The least entropy among the non-empty segments, `ENTROPY_MAX` if none.
pub open spec fn min_entropy(segs: Seq<Seq<char>>) -> u32
    decreases segs.len(),
{
    if segs.len() == 0 {
        ENTROPY_MAX
    } else {
        let rest = min_entropy(segs.drop_last());
        let seg = segs.last();
        if seg.len() > 0 && metric_entropy_bits(seg) < rest {
            metric_entropy_bits(seg)
        } else {
            rest
        }
    }
}

/// The entropy of a runnable path: the least over its segments.
pub open spec fn path_entropy(runnable: Option<Seq<char>>) -> u32 {
    match runnable {
        Some(p) => min_entropy(pieces(p, '/')),
        None => ENTROPY_MAX,
    }
}

/// The start of the white-space-separated field of `s` that follows the one
/// starting at `i`.
pub open spec fn next_field(s: Seq<char>, i: int) -> int {
    skip_space(s, word_end(s, i))
}

/// Whether `s` has at least four white-space-separated fields.
pub open spec fn four_fields(s: Seq<char>) -> bool {
    next_field(s, next_field(s, next_field(s, skip_space(s, 0)))) < s.len()
}

/// The parent pid in the text of a process's stat record: 0 where the record
/// has fewer than four white-space-separated fields. Otherwise, as the
/// command name stands in parentheses and may itself hold spaces or `)`, the
/// fields are read after the last `)`: the state, then the parent pid; 0
/// where that field is missing, `None` where it is not a decimal `i32`.
pub open spec fn stat_ppid(stat: Seq<char>) -> Option<i32> {
    let state = skip_space(stat, last_index(stat, ')') + 1);
    let field = next_field(stat, state);
    if !four_fields(stat) || field >= stat.len() {
        Some(0)
    } else {
        decimal_i32(stat.subrange(field, word_end(stat, field)))
    }
}

/// One live process as the table knows it.
pub struct Process {
    pub pid: i32,
    /// The parent's pid; 0 for none.
    pub ppid: i32,
    pub argv: Vec<String>,
    /// The resolved executable path; `None` where it is not text.
    pub exe: Option<String>,
    /// Monotonic time, in nanoseconds, at which the descriptor was made.
    pub start: u64,
    /// The owning user's name; `None` where it could not be resolved.
    pub owner: Option<String>,
    /// Whether, when the descriptor was made, the process ran a shell or a
    /// language runtime whose first argument named an existing regular file.
    pub script: bool,
}

/// Whether the first argument of an interpreter names a file on disk now.
fn names_script(exe: &Option<String>, argv: &Vec<String>) -> (r: bool)
    ensures
        r ==> interpreter(opt_view(*exe)) && argv@.len() > 1,
{
    match exe {
        Some(e) => {
            let interp = is_shell_path(e.as_str()) || is_python_path(e.as_str());
            if interp && argv.len() > 1 {
                is_file(argv[1].as_str())
            } else {
                false
            }
        },
        None => false,
    }
}

/// The parent pid read from a process's stat record.
pub fn parse_ppid(stat: &str) -> (r: Option<i32>)
    ensures
        r == stat_ppid(stat@),
{
    let n = stat.unicode_len();
    let f0 = skip_spaces(stat, 0);
    proof {
        lemma_scan_bounds(stat@, 0);
        lemma_scan_bounds(stat@, f0 as int);
    }
    let f1 = skip_spaces(stat, find_word_end(stat, f0));
    proof {
        lemma_scan_bounds(stat@, word_end(stat@, f0 as int));
        lemma_scan_bounds(stat@, f1 as int);
    }
    let f2 = skip_spaces(stat, find_word_end(stat, f1));
    proof {
        lemma_scan_bounds(stat@, word_end(stat@, f1 as int));
        lemma_scan_bounds(stat@, f2 as int);
    }
    let f3 = skip_spaces(stat, find_word_end(stat, f2));
    if f3 >= n {
        return Some(0);
    }
    assert(stat@.subrange(0, n as int) =~= stat@);
    proof {
        lemma_last_index_bounds(stat@, ')');
    }
    let after = match rfind(stat, ')', n) {
        Some(k) => k + 1,
        None => 0,
    };
    let state = skip_spaces(stat, after);
    proof {
        lemma_scan_bounds(stat@, after as int);
        lemma_scan_bounds(stat@, state as int);
        lemma_scan_bounds(stat@, word_end(stat@, state as int));
    }
    let field = skip_spaces(stat, find_word_end(stat, state));
    if field >= n {
        Some(0)
    } else {
        proof {
            lemma_scan_bounds(stat@, field as int);
        }
        let end = find_word_end(stat, field);
        parse_decimal(stat.substring_char(field, end))
    }
}

/// The argument vector held in a process's NUL-separated command line.
pub fn parse_cmdline(buf: &str) -> (r: Vec<String>)
    ensures
        string_views(r@) == pieces(buf@, '\0'),
{
    split(buf, '\0')
}

/// Removes the first known architecture triplet from a file name.
pub fn strip_triplet(name: &str) -> (r: String)
    ensures
        r@ == stripped(name@),
{
    let pats = triplet_list();
    let n = name.unicode_len();
    let mut k: usize = 0;
    assert(triplets().subrange(0, triplets().len() as int) =~= triplets());
    while k < pats.len()
        invariant
            views(pats@) == triplets(),
            k <= pats@.len(),
            n == name@.len(),
            stripped(name@) == strip_from(name@, triplets().subrange(k as int, triplets().len() as int)),
        decreases pats@.len() - k,
    {
        let p = pats[k];
        let m = p.unicode_len();
        let ghost rest = triplets().subrange(k as int, triplets().len() as int);
        assert(rest[0] == p@);
        assert(rest.drop_first() =~= triplets().subrange(k + 1, triplets().len() as int));
        proof {
            lemma_find_from_occurs(name@, p@, 0);
        }
        match find(name, p) {
            Some(i) => {
                if n > m {
                    return cut_out(name, i, m);
                }
            },
            None => {},
        }
        k = k + 1;
    }
    String::from_str(name)
}

impl Process {
    pub open spec fn exe_view(&self) -> Option<Seq<char>> {
        opt_view(self.exe)
    }

    /// Which program the process really runs: the script that a shell or a
    /// language runtime was handed, where it named a file, else the executable.
    pub open spec fn runnable(&self) -> Option<Seq<char>> {
        if interpreter(self.exe_view()) && self.argv@.len() > 1 && self.script {
            Some(self.argv@[1]@)
        } else {
            self.exe_view()
        }
    }

    /// The script flag is only ever set for an interpreter that was handed
    /// an argument.
    pub open spec fn wf(&self) -> bool {
        self.script ==> interpreter(self.exe_view()) && self.argv@.len() > 1
    }

    pub open spec fn spec_label(&self) -> Seq<char> {
        label_of(self.runnable())
    }

    pub open spec fn spec_entropy(&self) -> u32 {
        path_entropy(self.runnable())
    }

    pub open spec fn spec_user(&self) -> Seq<char> {
        match self.owner {
            Some(u) => u@,
            None => "unknown"@,
        }
    }

    /// A descriptor from values read about process `pid`: its command line,
    /// its stat record, its resolved executable path and its owner's name.
    /// `None` where the stat record holds no readable parent pid.
    pub fn new(
        pid: i32,
        cmdline: &str,
        stat: &str,
        exe: Option<String>,
        owner: Option<String>,
        start: u64,
    ) -> (r: Option<Process>)
        ensures
            r is Some <==> stat_ppid(stat@) is Some,
            r matches Some(p) ==> {
                &&& p.pid == pid
                &&& Some(p.ppid) == stat_ppid(stat@)
                &&& string_views(p.argv@) == pieces(cmdline@, '\0')
                &&& p.exe_view() == opt_view(exe)
                &&& opt_view(p.owner) == opt_view(owner)
                &&& p.start == start
                &&& p.wf()
            },
    {
        let ppid = match parse_ppid(stat) {
            Some(v) => v,
            None => {
                return None;
            },
        };
        let argv = parse_cmdline(cmdline);
        let script = names_script(&exe, &argv);
        Some(Process { pid, ppid, argv, exe, start, owner, script })
    }

    /// A descriptor from given values, with no known owner.
    pub fn from(pid: i32, ppid: i32, exe: &str, argv: Vec<String>) -> (r: Process)
        ensures
            r.pid == pid,
            r.ppid == ppid,
            r.argv@ == argv@,
            r.exe_view() == Some(exe@),
            r.owner is None,
            r.start == 0,
            r.wf(),
    {
        let exe = Some(String::from_str(exe));
        let script = names_script(&exe, &argv);
        Process { pid, ppid, argv, exe, start: 0, owner: None, script }
    }

    /// Whether the executable is a known shell.
    pub fn is_shell(&self) -> (r: bool)
        ensures
            r == (self.exe_view() matches Some(e) && shell_paths().contains(e)),
    {
        match &self.exe {
            Some(e) => is_shell_path(e.as_str()),
            None => false,
        }
    }

    /// Whether the executable is a known language runtime.
    pub fn is_python(&self) -> (r: bool)
        ensures
            r == (self.exe_view() matches Some(e) && python_paths().contains(e)),
    {
        match &self.exe {
            Some(e) => is_python_path(e.as_str()),
            None => false,
        }
    }

    /// Determines the actual runnable file: binary or script.
    pub fn actual_runnable(&self) -> (r: Option<&str>)
        ensures
            opt_str_view(r) == self.runnable(),
    {
        let sh = self.is_shell();
        let py = self.is_python();
        if (sh || py) && self.argv.len() > 1 && self.script {
            return Some(self.argv[1].as_str());
        }
        match &self.exe {
            Some(e) => Some(e.as_str()),
            None => None,
        }
    }

    /// The short label of this process in a tree.
    pub fn label(&self) -> (r: String)
        ensures
            r@ == self.spec_label(),
    {
        match self.actual_runnable() {
            None => String::from_str("unknown"),
            Some(path) => {
                if is_base(path) {
                    return String::from_str("base");
                }
                let segs = split(path, '/');
                proof {
                    lemma_pieces_nonempty(path@, '/');
                }
                let last = segs.len() - 1;
                assert(string_views(segs@)[last as int] == segs@[last as int]@);
                let name = strip_triplet(segs[last].as_str());
                if name.unicode_len() == 0 {
                    String::from_str("unknown")
                } else {
                    name
                }
            },
        }
    }

    /// The least metric entropy of any segment of the runnable path, as a
    /// bit pattern (see `metric_entropy_bits`).
    pub fn entropy(&self) -> (r: u32)
        ensures
            r == self.spec_entropy(),
    {
        match self.actual_runnable() {
            None => ENTROPY_MAX,
            Some(path) => {
                let segs = split(path, '/');
                let ghost sv = string_views(segs@);
                let mut m: u32 = ENTROPY_MAX;
                let mut i: usize = 0;
                assert(sv.subrange(0, 0).len() == 0);
                while i < segs.len()
                    invariant
                        sv == string_views(segs@),
                        sv == pieces(path@, '/'),
                        i <= segs@.len(),
                        m == min_entropy(sv.subrange(0, i as int)),
                    decreases segs@.len() - i,
                {
                    let seg = segs[i].as_str();
                    assert(sv[i as int] == seg@);
                    assert(sv.subrange(0, i + 1).drop_last() =~= sv.subrange(0, i as int));
                    if seg.unicode_len() > 0 {
                        let e = metric_entropy(seg);
                        if e < m {
                            m = e;
                        }
                    }
                    i = i + 1;
                }
                assert(sv.subrange(0, segs@.len() as int) =~= sv);
                m
            },
        }
    }

    /// The owning user's name, `unknown` where it could not be resolved.
    pub fn user(&self) -> (r: &str)
        ensures
            r@ == self.spec_user(),
    {
        match &self.owner {
            Some(u) => u.as_str(),
            None => "unknown",
        }
    }
}

} // verus!
