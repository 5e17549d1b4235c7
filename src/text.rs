//! Character-level helpers on paths and labels.
use vstd::prelude::*;

verus! {

/// Index of the last `c` in `p`, or -1 when `p` holds none.
pub open spec fn last_index(p: Seq<char>, c: char) -> int
    decreases p.len(),
{
    if p.len() == 0 {
        -1
    } else if p.last() == c {
        p.len() - 1
    } else {
        last_index(p.drop_last(), c)
    }
}

/// The pieces of `s` between occurrences of `sep`, in order: one more piece
/// than `s` holds separators, empty pieces included.
pub open spec fn pieces(s: Seq<char>, sep: char) -> Seq<Seq<char>>
    decreases s.len(),
{
    let k = last_index(s, sep);
    if k < 0 || k >= s.len() {
        seq![s]
    } else {
        pieces(s.subrange(0, k), sep).push(s.subrange(k + 1, s.len() as int))
    }
}

/// The final segment of a path: everything after its last `/`.
pub open spec fn file_name(p: Seq<char>) -> Seq<char> {
    pieces(p, '/').last()
}

pub proof fn lemma_last_index_bounds(p: Seq<char>, c: char)
    ensures
        -1 <= last_index(p, c) < p.len(),
        last_index(p, c) >= 0 ==> p[last_index(p, c)] == c,
        forall|j: int| last_index(p, c) < j < p.len() ==> p[j] != c,
    decreases p.len(),
{
    if p.len() > 0 && p.last() != c {
        lemma_last_index_bounds(p.drop_last(), c);
        assert forall|j: int| last_index(p, c) < j < p.len() implies p[j] != c by {
            if j < p.len() - 1 {
                assert(p.drop_last()[j] == p[j]);
            }
        }
    }
}

/// Whether `s` holds no `c`.
pub open spec fn no_char(s: Seq<char>, c: char) -> bool {
    forall|m: int| 0 <= m < s.len() ==> s[m] != c
}

/// A file name holds no `/`.
pub proof fn lemma_file_name_plain(p: Seq<char>)
    ensures
        no_char(file_name(p), '/'),
{
    lemma_last_index_bounds(p, '/');
    let k = last_index(p, '/');
    if k >= 0 {
        let tail = p.subrange(k + 1, p.len() as int);
        assert(file_name(p) == tail);
        assert forall|m: int| 0 <= m < tail.len() implies tail[m] != '/' by {
            assert(tail[m] == p[k + 1 + m]);
        }
    }
}

pub proof fn lemma_pieces_nonempty(s: Seq<char>, sep: char)
    ensures
        pieces(s, sep).len() >= 1,
    decreases s.len(),
{
    lemma_last_index_bounds(s, sep);
    let k = last_index(s, sep);
    if 0 <= k < s.len() {
        lemma_pieces_nonempty(s.subrange(0, k), sep);
    }
}

/// The file name of `dir/f`, for a name `f` without `/`, is `f`.
pub proof fn lemma_file_name_of_join(dir: Seq<char>, f: Seq<char>)
    requires
        forall|j: int| 0 <= j < f.len() ==> f[j] != '/',
    ensures
        file_name(dir + seq!['/'] + f) == f,
{
    let p = dir + seq!['/'] + f;
    lemma_last_index_after(dir + seq!['/'], f, '/');
    assert(p.subrange((dir.len() + 1) as int, p.len() as int) =~= f);
}

pub proof fn lemma_last_index_after(a: Seq<char>, f: Seq<char>, c: char)
    requires
        a.len() > 0,
        a.last() == c,
        forall|j: int| 0 <= j < f.len() ==> f[j] != c,
    ensures
        last_index(a + f, c) == a.len() - 1,
    decreases f.len(),
{
    if f.len() > 0 {
        assert((a + f).drop_last() =~= a + f.drop_last());
        lemma_last_index_after(a, f.drop_last(), c);
    } else {
        assert(a + f =~= a);
    }
}

/// The strings' views.
pub open spec fn string_views(v: Seq<String>) -> Seq<Seq<char>> {
    v.map_values(|x: String| x@)
}

/// Whether `p` occurs in `s` starting at index `i`.
pub open spec fn occurs_at(s: Seq<char>, p: Seq<char>, i: int) -> bool {
    0 <= i && i + p.len() <= s.len() && s.subrange(i, i + p.len()) == p
}

/// The first index at or after `i` where `p` occurs in `s`.
pub open spec fn find_from(s: Seq<char>, p: Seq<char>, i: int) -> Option<int>
    decreases s.len() + 1 - i,
{
    if i < 0 || i + p.len() > s.len() {
        None
    } else if occurs_at(s, p, i) {
        Some(i)
    } else {
        find_from(s, p, i + 1)
    }
}

pub proof fn lemma_find_from_occurs(s: Seq<char>, p: Seq<char>, i: int)
    ensures
        find_from(s, p, i) matches Some(k) ==> occurs_at(s, p, k) && i <= k,
    decreases s.len() + 1 - i,
{
    if !(i < 0 || i + p.len() > s.len()) && !occurs_at(s, p, i) {
        lemma_find_from_occurs(s, p, i + 1);
    }
}

/// `s` with the characters from `i` to `i + n` taken out.
pub open spec fn cut(s: Seq<char>, i: int, n: int) -> Seq<char> {
    s.subrange(0, i) + s.subrange(i + n, s.len() as int)
}

/// Whether two strings hold the same characters.
pub fn str_eq(a: &str, b: &str) -> (r: bool)
    ensures
        r == (a@ == b@),
{
    let n = a.unicode_len();
    if n != b.unicode_len() {
        return false;
    }
    let mut i: usize = 0;
    while i < n
        invariant
            n == a@.len(),
            n == b@.len(),
            i <= n,
            forall|j: int| 0 <= j < i ==> a@[j] == b@[j],
        decreases n - i,
    {
        if a.get_char(i) != b.get_char(i) {
            return false;
        }
        i = i + 1;
    }
    assert(a@ =~= b@);
    true
}

/// Position of the last `c` among the first `end` characters of `s`.
pub fn rfind(s: &str, c: char, end: usize) -> (r: Option<usize>)
    requires
        end <= s@.len(),
    ensures
        match r {
            Some(k) => k as int == last_index(s@.subrange(0, end as int), c),
            None => last_index(s@.subrange(0, end as int), c) == -1,
        },
{
    let mut i: usize = end;
    while i > 0
        invariant
            i <= end <= s@.len(),
            last_index(s@.subrange(0, end as int), c) == last_index(s@.subrange(0, i as int), c),
        decreases i,
    {
        if s.get_char(i - 1) == c {
            return Some(i - 1);
        }
        assert(s@.subrange(0, i as int).drop_last() =~= s@.subrange(0, i - 1));
        i = i - 1;
    }
    None
}

/// Splits `s` at every `sep`.
pub fn split(s: &str, sep: char) -> (r: Vec<String>)
    ensures
        string_views(r@) == pieces(s@, sep),
{
    let n = s.unicode_len();
    let mut out: Vec<String> = Vec::new();
    let mut end: usize = n;
    assert(s@.subrange(0, n as int) =~= s@);
    assert(pieces(s@, sep) + string_views(out@) =~= pieces(s@, sep));
    loop
        invariant
            n == s@.len(),
            end <= n,
            pieces(s@, sep) == pieces(s@.subrange(0, end as int), sep) + string_views(out@),
        decreases end,
    {
        let ghost pre = s@.subrange(0, end as int);
        proof {
            lemma_last_index_bounds(pre, sep);
        }
        match rfind(s, sep, end) {
            Some(k) => {
                let piece = String::from_str(s.substring_char(k + 1, end));
                let ghost old_out = out@;
                out.insert(0, piece);
                proof {
                    assert(pre.subrange(0, k as int) =~= s@.subrange(0, k as int));
                    assert(pre.subrange(k + 1, pre.len() as int) =~= piece@);
                    assert(string_views(out@) =~= seq![piece@] + string_views(old_out));
                    assert(pieces(pre, sep) == pieces(s@.subrange(0, k as int), sep).push(piece@));
                    assert(pieces(s@.subrange(0, k as int), sep).push(piece@) + string_views(old_out)
                        =~= pieces(s@.subrange(0, k as int), sep) + string_views(out@));
                }
                end = k;
            },
            None => {
                let piece = String::from_str(s.substring_char(0, end));
                let ghost old_out = out@;
                out.insert(0, piece);
                proof {
                    assert(pre =~= piece@);
                    assert(string_views(out@) =~= seq![piece@] + string_views(old_out));
                }
                return out;
            },
        }
    }
}

/// Whether `p` occurs in `s` at index `i`.
fn matches_at(s: &str, p: &str, i: usize) -> (r: bool)
    requires
        i + p@.len() <= s@.len(),
        s@.len() <= usize::MAX,
    ensures
        r == occurs_at(s@, p@, i as int),
{
    let m = p.unicode_len();
    let mut j: usize = 0;
    while j < m
        invariant
            m == p@.len(),
            i + m <= s@.len(),
            s@.len() <= usize::MAX,
            j <= m,
            forall|k: int| 0 <= k < j ==> s@[i + k] == p@[k],
        decreases m - j,
    {
        if s.get_char(i + j) != p.get_char(j) {
            assert(s@.subrange(i as int, i + m)[j as int] != p@[j as int]);
            return false;
        }
        j = j + 1;
    }
    assert(s@.subrange(i as int, i + m) =~= p@);
    true
}

/// The first index where `p` occurs in `s`.
pub fn find(s: &str, p: &str) -> (r: Option<usize>)
    ensures
        r matches Some(k) ==> find_from(s@, p@, 0) == Some(k as int),
        r is None ==> find_from(s@, p@, 0) is None,
{
    let n = s.unicode_len();
    let m = p.unicode_len();
    if m > n {
        return None;
    }
    if m == 0 {
        assert(s@.subrange(0, 0) =~= p@);
        return Some(0);
    }
    let mut i: usize = 0;
    while i <= n - m
        invariant
            n == s@.len(),
            m == p@.len(),
            1 <= m <= n,
            i <= n - m + 1,
            find_from(s@, p@, 0) == find_from(s@, p@, i as int),
        decreases n - i,
    {
        if matches_at(s, p, i) {
            return Some(i);
        }
        i = i + 1;
    }
    None
}

/// `s` with `n` characters taken out at index `i`.
pub fn cut_out(s: &str, i: usize, n: usize) -> (r: String)
    requires
        i + n <= s@.len(),
    ensures
        r@ == cut(s@, i as int, n as int),
{
    let len = s.unicode_len();
    let mut out = String::from_str(s.substring_char(0, i));
    out.append(s.substring_char(i + n, len));
    out
}

/// Whether `c` is ASCII white space.
pub open spec fn is_space(c: char) -> bool {
    c == ' ' || c == '\t' || c == '\n' || c == '\r' || c == '\u{b}' || c == '\u{c}'
}

/// The first index at or after `i` that holds no white space (the length
/// where none does).
pub open spec fn skip_space(s: Seq<char>, i: int) -> int
    decreases s.len() - i,
{
    if i >= s.len() {
        s.len() as int
    } else if is_space(s[i]) {
        skip_space(s, i + 1)
    } else {
        i
    }
}

/// The first index at or after `i` that holds white space (the length where
/// none does).
pub open spec fn word_end(s: Seq<char>, i: int) -> int
    decreases s.len() - i,
{
    if i >= s.len() {
        s.len() as int
    } else if is_space(s[i]) {
        i
    } else {
        word_end(s, i + 1)
    }
}

pub proof fn lemma_scan_bounds(s: Seq<char>, i: int)
    requires
        0 <= i,
    ensures
        i <= skip_space(s, i) <= s.len() || (i > s.len() && skip_space(s, i) == s.len()),
        i <= word_end(s, i) <= s.len() || (i > s.len() && word_end(s, i) == s.len()),
    decreases s.len() - i,
{
    if i < s.len() {
        lemma_scan_bounds(s, i + 1);
    }
}

fn space(c: char) -> (r: bool)
    ensures
        r == is_space(c),
{
    c == ' ' || c == '\t' || c == '\n' || c == '\r' || c == '\u{b}' || c == '\u{c}'
}

/// Index of the first character at or after `i` that is not white space.
pub fn skip_spaces(s: &str, i: usize) -> (r: usize)
    requires
        i <= s@.len(),
        s@.len() <= usize::MAX,
    ensures
        r as int == skip_space(s@, i as int),
{
    let n = s.unicode_len();
    let mut j: usize = i;
    while j < n && space(s.get_char(j))
        invariant
            n == s@.len(),
            i <= j <= n,
            skip_space(s@, i as int) == skip_space(s@, j as int),
        decreases n - j,
    {
        j = j + 1;
    }
    j
}

/// Index of the first white-space character at or after `i`.
pub fn find_word_end(s: &str, i: usize) -> (r: usize)
    requires
        i <= s@.len(),
        s@.len() <= usize::MAX,
    ensures
        r as int == word_end(s@, i as int),
{
    let n = s.unicode_len();
    let mut j: usize = i;
    while j < n && !space(s.get_char(j))
        invariant
            n == s@.len(),
            i <= j <= n,
            word_end(s@, i as int) == word_end(s@, j as int),
        decreases n - j,
    {
        j = j + 1;
    }
    j
}

/// Whether `c` is an ASCII decimal digit.
pub open spec fn is_digit(c: char) -> bool {
    '0' <= c && c <= '9'
}

/// Whether `s` is a non-empty run of decimal digits.
pub open spec fn all_digits(s: Seq<char>) -> bool {
    s.len() > 0 && forall|j: int| 0 <= j < s.len() ==> is_digit(#[trigger] s[j])
}

/// The number that a run of decimal digits writes.
pub open spec fn decimal_value(s: Seq<char>) -> int
    decreases s.len(),
{
    if s.len() == 0 {
        0
    } else {
        decimal_value(s.drop_last()) * 10 + (s.last() as int - '0' as int)
    }
}

/// The value of `s` as a non-negative `i32`, if it is one written in decimal.
pub open spec fn decimal_i32(s: Seq<char>) -> Option<i32> {
    if all_digits(s) && decimal_value(s) <= i32::MAX {
        Some(decimal_value(s) as i32)
    } else {
        None
    }
}

proof fn lemma_decimal_prefix(s: Seq<char>, i: int)
    requires
        0 <= i <= s.len(),
        forall|j: int| 0 <= j < s.len() ==> is_digit(#[trigger] s[j]),
    ensures
        0 <= decimal_value(s.subrange(0, i)) <= decimal_value(s),
    decreases s.len(),
{
    if s.len() > 0 {
        if i == s.len() {
            assert(s.subrange(0, i) =~= s);
            lemma_decimal_prefix(s.drop_last(), i - 1);
            assert(s.drop_last().subrange(0, i - 1) =~= s.drop_last());
        } else {
            lemma_decimal_prefix(s.drop_last(), i);
            assert(s.drop_last().subrange(0, i) =~= s.subrange(0, i));
            lemma_decimal_prefix(s.drop_last(), s.len() - 1);
            assert(s.drop_last().subrange(0, s.len() - 1) =~= s.drop_last());
        }
    } else {
        assert(s.subrange(0, i) =~= s);
    }
}

/// Reads a non-negative decimal `i32`.
pub fn parse_decimal(s: &str) -> (r: Option<i32>)
    ensures
        r == decimal_i32(s@),
{
    let n = s.unicode_len();
    if n == 0 {
        return None;
    }
    let mut acc: i64 = 0;
    let mut i: usize = 0;
    while i < n
        invariant
            n == s@.len(),
            i <= n,
            forall|j: int| 0 <= j < i ==> is_digit(#[trigger] s@[j]),
            acc as int == decimal_value(s@.subrange(0, i as int)),
            0 <= acc <= i32::MAX,
        decreases n - i,
    {
        let c = s.get_char(i);
        if !('0' <= c && c <= '9') {
            return None;
        }
        let d = (c as u32 - '0' as u32) as i64;
        assert(s@.subrange(0, i + 1).drop_last() =~= s@.subrange(0, i as int));
        acc = acc * 10 + d;
        i = i + 1;
        if acc > i32::MAX as i64 {
            proof {
                if all_digits(s@) {
                    lemma_decimal_prefix(s@, i as int);
                }
            }
            return None;
        }
    }
    assert(s@.subrange(0, n as int) =~= s@);
    Some(acc as i32)
}

} // verus!
