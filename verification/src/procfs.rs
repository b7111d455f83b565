//! Readings of the kernel's process and system statistics files: memory
//! use from `/proc/self/status`, CPU times from `/proc/stat`, and sectors
//! moved from `/proc/diskstats`. The files are read by the caller; these
//! functions take their text.

use vstd::prelude::*;
use crate::harness::{parse_u64_from, parse_u64_spec};
use crate::text::{chars_of, starts_with};

verus! {

/// Whether `c` is white space (`char::is_whitespace`: the Unicode
/// `White_Space` characters).
pub open spec fn is_ws(c: char) -> bool {
    ||| c == '\t' || c == '\n' || c == '\u{0B}' || c == '\u{0C}' || c == '\r' || c == ' '
    ||| c == '\u{85}' || c == '\u{A0}' || c == '\u{1680}'
    ||| ('\u{2000}' <= c && c <= '\u{200A}')
    ||| c == '\u{2028}' || c == '\u{2029}' || c == '\u{202F}' || c == '\u{205F}' || c == '\u{3000}'
}

fn is_whitespace(c: char) -> (res: bool)
    ensures
        res == is_ws(c),
{
    c == '\t' || c == '\n' || c == '\u{0B}' || c == '\u{0C}' || c == '\r' || c == ' ' || c == '\u{85}' || c == '\u{A0}'
        || c == '\u{1680}' || ('\u{2000}' <= c && c <= '\u{200A}') || c == '\u{2028}' || c == '\u{2029}'
        || c == '\u{202F}' || c == '\u{205F}' || c == '\u{3000}'
}

/// How many characters `s` starts with before its first white space.
pub open spec fn word_len(s: Seq<char>) -> nat
    decreases s.len(),
{
    if s.len() == 0 || is_ws(s[0]) {
        0
    } else {
        1 + word_len(s.drop_first())
    }
}

/// The words of `s`: its maximal runs of characters that are not white
/// space, in order (`str::split_whitespace`).
pub open spec fn words_of(s: Seq<char>) -> Seq<Seq<char>>
    decreases s.len(),
{
    if s.len() == 0 {
        Seq::empty()
    } else if is_ws(s[0]) {
        words_of(s.drop_first())
    } else {
        let n = word_len(s);
        proof {
            lemma_word_len_bound(s);
        }
        seq![s.take(n as int)] + words_of(s.skip(n as int))
    }
}

/// How many characters `s` starts with before its first `'\n'`.
pub open spec fn line_len(s: Seq<char>) -> nat
    decreases s.len(),
{
    if s.len() == 0 || s[0] == '\n' {
        0
    } else {
        1 + line_len(s.drop_first())
    }
}

/// The lines of `s` (`str::lines`): split at each `'\n'`, a `'\r'` right
/// before a `'\n'` dropped, and no empty line after a final `'\n'`.
pub open spec fn lines_of(s: Seq<char>) -> Seq<Seq<char>>
    decreases s.len(),
{
    if s.len() == 0 {
        Seq::empty()
    } else {
        let n = line_len(s);
        proof {
            lemma_line_len_bound(s);
        }
        if n == s.len() {
            seq![s]
        } else {
            let line = if n > 0 && s[n - 1] == '\r' { s.take(n - 1) } else { s.take(n as int) };
            seq![line] + lines_of(s.skip(n + 1int))
        }
    }
}

pub proof fn lemma_word_len_bound(s: Seq<char>)
    ensures
        word_len(s) <= s.len(),
        forall|j: int| 0 <= j < word_len(s) ==> !is_ws(#[trigger] s[j]),
        word_len(s) < s.len() ==> is_ws(s[word_len(s) as int]),
    decreases s.len(),
{
    if s.len() > 0 && !is_ws(s[0]) {
        lemma_word_len_bound(s.drop_first());
        assert forall|j: int| 0 <= j < word_len(s) implies !is_ws(#[trigger] s[j]) by {
            if j > 0 {
                assert(s[j] == s.drop_first()[j - 1]);
            }
        }
    }
}

proof fn lemma_word_len_of_run(s: Seq<char>, n: int)
    requires
        0 <= n <= s.len(),
        forall|j: int| 0 <= j < n ==> !is_ws(#[trigger] s[j]),
        n == s.len() || is_ws(s[n]),
    ensures
        word_len(s) == n,
    decreases n,
{
    if n > 0 {
        let t = s.drop_first();
        assert forall|j: int| 0 <= j < n - 1 implies !is_ws(#[trigger] t[j]) by {
            assert(t[j] == s[j + 1]);
        }
        if n < s.len() {
            assert(t[n - 1] == s[n]);
        }
        lemma_word_len_of_run(t, n - 1);
    }
}

pub proof fn lemma_line_len_bound(s: Seq<char>)
    ensures
        line_len(s) <= s.len(),
        forall|j: int| 0 <= j < line_len(s) ==> #[trigger] s[j] != '\n',
        line_len(s) < s.len() ==> s[line_len(s) as int] == '\n',
    decreases s.len(),
{
    if s.len() > 0 && s[0] != '\n' {
        lemma_line_len_bound(s.drop_first());
        assert forall|j: int| 0 <= j < line_len(s) implies #[trigger] s[j] != '\n' by {
            if j > 0 {
                assert(s[j] == s.drop_first()[j - 1]);
            }
        }
    }
}

proof fn lemma_line_len_of_run(s: Seq<char>, n: int)
    requires
        0 <= n <= s.len(),
        forall|j: int| 0 <= j < n ==> #[trigger] s[j] != '\n',
        n == s.len() || s[n] == '\n',
    ensures
        line_len(s) == n,
    decreases n,
{
    if n > 0 {
        let t = s.drop_first();
        assert forall|j: int| 0 <= j < n - 1 implies #[trigger] t[j] != '\n' by {
            assert(t[j] == s[j + 1]);
        }
        if n < s.len() {
            assert(t[n - 1] == s[n]);
        }
        lemma_line_len_of_run(t, n - 1);
    }
}

/// The views of a list of character vectors.
pub open spec fn views_of(v: Seq<Vec<char>>) -> Seq<Seq<char>> {
    Seq::new(v.len(), |i: int| v[i]@)
}

proof fn lemma_views_push(v: Seq<Vec<char>>, x: Vec<char>)
    ensures
        views_of(v.push(x)) == views_of(v) + seq![x@],
{
    assert(views_of(v.push(x)) =~= views_of(v) + seq![x@]);
}

/// The words of `s` (see `words_of`).
pub fn split_words(s: &Vec<char>) -> (res: Vec<Vec<char>>)
    ensures
        views_of(res@) == words_of(s@),
{
    let mut out: Vec<Vec<char>> = Vec::new();
    let mut i: usize = 0;
    proof {
        assert(s@.skip(0) =~= s@);
        assert(views_of(out@) =~= Seq::<Seq<char>>::empty());
    }
    while i < s.len()
        invariant
            i <= s@.len(),
            words_of(s@) == views_of(out@) + words_of(s@.skip(i as int)),
        decreases s@.len() - i,
    {
        let ghost rest = s@.skip(i as int);
        if is_whitespace(s[i]) {
            proof {
                assert(rest.drop_first() =~= s@.skip(i + 1));
            }
            i = i + 1;
        } else {
            let mut word: Vec<char> = Vec::new();
            let start = i;
            while i < s.len() && !is_whitespace(s[i])
                invariant
                    start <= i <= s@.len(),
                    word@ == s@.subrange(start as int, i as int),
                    forall|j: int| start <= j < i ==> !is_ws(#[trigger] s@[j]),
                decreases s@.len() - i,
            {
                word.push(s[i]);
                proof {
                    assert(s@.subrange(start as int, i + 1) =~= s@.subrange(start as int, i as int).push(s@[i as int]));
                }
                i = i + 1;
            }
            proof {
                let n = i - start;
                assert forall|j: int| 0 <= j < n implies !is_ws(#[trigger] rest[j]) by {
                    assert(rest[j] == s@[start + j]);
                }
                if i < s@.len() {
                    assert(rest[n] == s@[i as int]);
                }
                lemma_word_len_of_run(rest, n);
                assert(rest.take(n) =~= word@);
                assert(rest.skip(n) =~= s@.skip(i as int));
                assert(!is_ws(rest[0]));
                lemma_views_push(out@, word);
            }
            out.push(word);
        }
    }
    proof {
        assert(s@.skip(i as int) =~= Seq::<char>::empty());
        assert(views_of(out@) + Seq::<Seq<char>>::empty() =~= views_of(out@));
    }
    out
}

/// The lines of `s` (see `lines_of`).
pub fn split_lines(s: &Vec<char>) -> (res: Vec<Vec<char>>)
    ensures
        views_of(res@) == lines_of(s@),
{
    let mut out: Vec<Vec<char>> = Vec::new();
    let mut i: usize = 0;
    proof {
        assert(s@.skip(0) =~= s@);
        assert(views_of(out@) =~= Seq::<Seq<char>>::empty());
    }
    while i < s.len()
        invariant
            i <= s@.len(),
            lines_of(s@) == views_of(out@) + lines_of(s@.skip(i as int)),
        decreases s@.len() - i,
    {
        let ghost rest = s@.skip(i as int);
        let mut line: Vec<char> = Vec::new();
        let start = i;
        while i < s.len() && s[i] != '\n'
            invariant
                start <= i <= s@.len(),
                line@ == s@.subrange(start as int, i as int),
                forall|j: int| start <= j < i ==> #[trigger] s@[j] != '\n',
            decreases s@.len() - i,
        {
            line.push(s[i]);
            proof {
                assert(s@.subrange(start as int, i + 1) =~= s@.subrange(start as int, i as int).push(s@[i as int]));
            }
            i = i + 1;
        }
        let n = i - start;
        proof {
            assert forall|j: int| 0 <= j < n implies #[trigger] rest[j] != '\n' by {
                assert(rest[j] == s@[start + j]);
            }
            if i < s@.len() {
                assert(rest[n as int] == s@[i as int]);
            }
            lemma_line_len_of_run(rest, n as int);
            assert(rest.take(n as int) =~= line@);
        }
        if i == s.len() {
            proof {
                assert(rest =~= line@);
                assert(lines_of(rest) == seq![line@]);
                lemma_views_push(out@, line);
                assert(s@.skip(i as int) =~= Seq::<char>::empty());
            }
            out.push(line);
        } else {
            if n > 0 && line[n - 1] == '\r' {
                line.pop();
                proof {
                    assert(line@ =~= rest.take(n - 1));
                }
            }
            proof {
                assert(rest.skip(n + 1) =~= s@.skip(i + 1));
                lemma_views_push(out@, line);
            }
            out.push(line);
            i = i + 1;
        }
    }
    proof {
        assert(s@.skip(i as int) =~= Seq::<char>::empty());
        assert(views_of(out@) + Seq::<Seq<char>>::empty() =~= views_of(out@));
    }
    out
}


/// The number written by the second word of `line`, if it has one and it
/// is a number.
pub open spec fn second_word_value(line: Seq<char>) -> Option<u64> {
    let w = words_of(line);
    if w.len() >= 2 { parse_u64_spec(w[1]) } else { None }
}

/// What the last of `lines` that starts with `key` gives (see
/// `second_word_value`); `None` when no line starts with `key`.
pub open spec fn keyed_value(lines: Seq<Seq<char>>, key: Seq<char>) -> Option<u64>
    decreases lines.len(),
{
    if lines.len() == 0 {
        None
    } else if starts_with(lines.last(), key) {
        second_word_value(lines.last())
    } else {
        keyed_value(lines.drop_last(), key)
    }
}

/// Memory use of the process, in KiB.
#[derive(Debug, Clone, Copy, PartialEq, Eq)]
pub struct ProcMemSample {
    pub rss_kb: u64,
    pub swap_kb: u64,
    pub rss_anon_kb: u64,
    pub rss_file_kb: u64,
    pub rss_shmem_kb: u64,
}

/// What `/proc/self/status` with text `text` gives: the `VmRSS:`,
/// `VmSwap:`, `RssAnon:`, `RssFile:` and `RssShmem:` values (0 where
/// absent), or `None` when none of them is there.
pub open spec fn proc_status_spec(text: Seq<char>) -> Option<ProcMemSample> {
    let ls = lines_of(text);
    let rss = keyed_value(ls, "VmRSS:"@);
    let swap = keyed_value(ls, "VmSwap:"@);
    let anon = keyed_value(ls, "RssAnon:"@);
    let file = keyed_value(ls, "RssFile:"@);
    let shmem = keyed_value(ls, "RssShmem:"@);
    if rss is None && swap is None && anon is None && file is None && shmem is None {
        None
    } else {
        Some(ProcMemSample {
            rss_kb: match rss { Some(v) => v, None => 0 },
            swap_kb: match swap { Some(v) => v, None => 0 },
            rss_anon_kb: match anon { Some(v) => v, None => 0 },
            rss_file_kb: match file { Some(v) => v, None => 0 },
            rss_shmem_kb: match shmem { Some(v) => v, None => 0 },
        })
    }
}

fn line_value(line: &Vec<char>) -> (res: Option<u64>)
    ensures
        res == second_word_value(line@),
{
    let words = split_words(line);
    if words.len() >= 2 {
        assert(views_of(words@)[1] == words@[1]@);
        proof {
            assert(words@[1]@.subrange(0, words@[1]@.len() as int) =~= words@[1]@);
        }
        parse_u64_from(&words[1], 0)
    } else {
        None
    }
}

/// Reads the memory use of the process from the text of
/// `/proc/self/status` (see `proc_status_spec`).
pub fn parse_proc_status(text: &str) -> (res: Option<ProcMemSample>)
    ensures
        res == proc_status_spec(text@),
{
    let chars = chars_of(text);
    let lines = split_lines(&chars);
    let ghost ls = views_of(lines@);
    let k_rss = chars_of("VmRSS:");
    let k_swap = chars_of("VmSwap:");
    let k_anon = chars_of("RssAnon:");
    let k_file = chars_of("RssFile:");
    let k_shmem = chars_of("RssShmem:");
    proof {
        reveal_strlit("VmRSS:");
        reveal_strlit("VmSwap:");
        reveal_strlit("RssAnon:");
        reveal_strlit("RssFile:");
        reveal_strlit("RssShmem:");
    }
    let mut rss: Option<u64> = None;
    let mut swap: Option<u64> = None;
    let mut anon: Option<u64> = None;
    let mut file: Option<u64> = None;
    let mut shmem: Option<u64> = None;
    let mut i: usize = 0;
    proof {
        assert(ls.take(0) =~= Seq::<Seq<char>>::empty());
    }
    while i < lines.len()
        invariant
            i <= lines@.len(),
            ls == views_of(lines@),
            ls == lines_of(chars@),
            k_rss@ == "VmRSS:"@,
            k_swap@ == "VmSwap:"@,
            k_anon@ == "RssAnon:"@,
            k_file@ == "RssFile:"@,
            k_shmem@ == "RssShmem:"@,
            rss == keyed_value(ls.take(i as int), "VmRSS:"@),
            swap == keyed_value(ls.take(i as int), "VmSwap:"@),
            anon == keyed_value(ls.take(i as int), "RssAnon:"@),
            file == keyed_value(ls.take(i as int), "RssFile:"@),
            shmem == keyed_value(ls.take(i as int), "RssShmem:"@),
        decreases lines@.len() - i,
    {
        let line = &lines[i];
        proof {
            assert(ls.take(i + 1).drop_last() =~= ls.take(i as int));
            assert(ls.take(i + 1).last() == line@);
        }
        if crate::text::chars_start_with(line.as_slice(), k_rss.as_slice()) {
            rss = line_value(line);
        } else if crate::text::chars_start_with(line.as_slice(), k_swap.as_slice()) {
            swap = line_value(line);
        } else if crate::text::chars_start_with(line.as_slice(), k_anon.as_slice()) {
            anon = line_value(line);
        } else if crate::text::chars_start_with(line.as_slice(), k_file.as_slice()) {
            file = line_value(line);
        } else if crate::text::chars_start_with(line.as_slice(), k_shmem.as_slice()) {
            shmem = line_value(line);
        }
        proof {
            lemma_keys_exclusive(line@);
        }
        i = i + 1;
    }
    proof {
        assert(ls.take(lines@.len() as int) =~= ls);
    }
    if rss.is_none() && swap.is_none() && anon.is_none() && file.is_none() && shmem.is_none() {
        return None;
    }
    Some(ProcMemSample {
        rss_kb: rss.unwrap_or(0),
        swap_kb: swap.unwrap_or(0),
        rss_anon_kb: anon.unwrap_or(0),
        rss_file_kb: file.unwrap_or(0),
        rss_shmem_kb: shmem.unwrap_or(0),
    })
}

/// A line starts with at most one of the keys of `/proc/self/status` that
/// are read.
proof fn lemma_keys_exclusive(line: Seq<char>)
    ensures
        starts_with(line, "VmRSS:"@) ==> !starts_with(line, "VmSwap:"@) && !starts_with(line, "RssAnon:"@)
            && !starts_with(line, "RssFile:"@) && !starts_with(line, "RssShmem:"@),
        starts_with(line, "VmSwap:"@) ==> !starts_with(line, "RssAnon:"@) && !starts_with(line, "RssFile:"@)
            && !starts_with(line, "RssShmem:"@),
        starts_with(line, "RssAnon:"@) ==> !starts_with(line, "RssFile:"@) && !starts_with(line, "RssShmem:"@),
        starts_with(line, "RssFile:"@) ==> !starts_with(line, "RssShmem:"@),
{
    reveal_strlit("VmRSS:");
    reveal_strlit("VmSwap:");
    reveal_strlit("RssAnon:");
    reveal_strlit("RssFile:");
    reveal_strlit("RssShmem:");
    if starts_with(line, "VmRSS:"@) {
        lemma_prefix_char(line, "VmRSS:"@, 0);
        lemma_prefix_char(line, "VmRSS:"@, 2);
    }
    if starts_with(line, "VmSwap:"@) {
        lemma_prefix_char(line, "VmSwap:"@, 0);
        lemma_prefix_char(line, "VmSwap:"@, 2);
    }
    if starts_with(line, "RssAnon:"@) {
        lemma_prefix_char(line, "RssAnon:"@, 3);
    }
    if starts_with(line, "RssFile:"@) {
        lemma_prefix_char(line, "RssFile:"@, 3);
    }
    if starts_with(line, "RssShmem:"@) {
        lemma_prefix_char(line, "RssShmem:"@, 0);
        lemma_prefix_char(line, "RssShmem:"@, 3);
    }
    if starts_with(line, "RssAnon:"@) || starts_with(line, "RssFile:"@) {
        lemma_prefix_char(line, if starts_with(line, "RssAnon:"@) { "RssAnon:"@ } else { "RssFile:"@ }, 0);
    }
}

proof fn lemma_prefix_char(line: Seq<char>, key: Seq<char>, k: int)
    requires
        starts_with(line, key),
        0 <= k < key.len(),
    ensures
        line[k] == key[k],
{
    assert(line.subrange(0, key.len() as int)[k] == line[k]);
}


/// The numbers written by `w[from..to]`, or `None` when one of them is no
/// number.
pub open spec fn numbers_of(w: Seq<Seq<char>>, from: int, to: int) -> Option<Seq<u64>>
    decreases to - from,
{
    if to <= from {
        Some(Seq::empty())
    } else {
        match numbers_of(w, from, to - 1) {
            None => None,
            Some(prev) => match parse_u64_spec(w[to - 1]) {
                None => None,
                Some(v) => Some(prev.push(v)),
            },
        }
    }
}

/// What `/proc/stat` with text `text` gives: the eight CPU time counters
/// of its first line (user, nice, system, idle, iowait, irq, softirq,
/// steal), which must start with `cpu `; `None` otherwise, or when a
/// counter is missing or no number.
pub open spec fn cpu_times_spec(text: Seq<char>) -> Option<Seq<u64>> {
    let ls = lines_of(text);
    if ls.len() == 0 || !starts_with(ls[0], "cpu "@) {
        None
    } else {
        let w = words_of(ls[0]);
        if w.len() < 9 {
            None
        } else {
            numbers_of(w, 1, 9)
        }
    }
}

/// Reads the CPU time counters from the text of `/proc/stat` (see
/// `cpu_times_spec`).
pub fn parse_cpu_times(text: &str) -> (res: Option<Vec<u64>>)
    ensures
        match cpu_times_spec(text@) {
            None => res is None,
            Some(vs) => res matches Some(v) && v@ == vs,
        },
{
    let chars = chars_of(text);
    let lines = split_lines(&chars);
    if lines.len() == 0 {
        return None;
    }
    let key = chars_of("cpu ");
    proof {
        reveal_strlit("cpu ");
        assert(views_of(lines@)[0] == lines@[0]@);
    }
    if !crate::text::chars_start_with(lines[0].as_slice(), key.as_slice()) {
        return None;
    }
    let words = split_words(&lines[0]);
    let ghost w = views_of(words@);
    if words.len() < 9 {
        return None;
    }
    let mut values: Vec<u64> = Vec::new();
    let mut k: usize = 1;
    let ghost ls = lines_of(text@);
    proof {
        assert(ls.len() > 0 && starts_with(ls[0], "cpu "@));
        assert(w == words_of(ls[0]));
        assert(numbers_of(w, 1, 1) =~= Some(values@));
    }
    while k < 9
        invariant
            1 <= k <= 9,
            words@.len() >= 9,
            w == views_of(words@),
            ls == lines_of(text@),
            ls.len() > 0,
            starts_with(ls[0], "cpu "@),
            w == words_of(ls[0]),
            numbers_of(w, 1, k as int) == Some(values@),
        decreases 9 - k,
    {
        proof {
            assert(w[k as int] == words@[k as int]@);
            assert(words@[k as int]@.subrange(0, words@[k as int]@.len() as int) =~= words@[k as int]@);
        }
        match parse_u64_from(&words[k], 0) {
            Some(v) => {
                values.push(v);
            },
            None => {
                proof {
                    lemma_numbers_of_fail(w, 1, k as int + 1, 9);
                }
                return None;
            },
        }
        k = k + 1;
    }
    Some(values)
}

proof fn lemma_numbers_of_fail(w: Seq<Seq<char>>, from: int, k: int, to: int)
    requires
        from <= k <= to,
        numbers_of(w, from, k) is None,
    ensures
        numbers_of(w, from, to) is None,
    decreases to - k,
{
    if k < to {
        lemma_numbers_of_fail(w, from, k + 1, to);
    }
}

/// CPU time totals: all time, idle time (idle and iowait), and iowait.
#[derive(Debug, Clone, Copy, PartialEq, Eq)]
pub struct CpuSample {
    pub total: u64,
    pub idle: u64,
    pub iowait: u64,
}

/// The totals of the eight CPU time counters of `/proc/stat`.
pub fn cpu_sample(values: &Vec<u64>) -> (res: CpuSample)
    requires
        values@.len() == 8,
        values@[0] + values@[1] + values@[2] + values@[3] + values@[4] + values@[5] + values@[6] + values@[7] <= u64::MAX,
    ensures
        res.total == values@[0] + values@[1] + values@[2] + values@[3] + values@[4] + values@[5] + values@[6] + values@[7],
        res.idle == values@[3] + values@[4],
        res.iowait == values@[4],
{
    let total = values[0] + values[1] + values[2] + values[3] + values[4] + values[5] + values[6] + values[7];
    CpuSample { total, idle: values[3] + values[4], iowait: values[4] }
}

/// Whether `c` is an ASCII digit.
pub open spec fn is_digit(c: char) -> bool {
    '0' <= c && c <= '9'
}

/// Whether `/proc/diskstats` names a whole disk (not a partition, loop,
/// RAM or device-mapper device): NVMe names without a `p`, `sd`/`vd`/`xvd`
/// names not ending in a digit, and any other name.
pub open spec fn disk_device_spec(name: Seq<char>) -> bool {
    if starts_with(name, "loop"@) || starts_with(name, "ram"@) {
        false
    } else if starts_with(name, "dm-"@) {
        false
    } else if starts_with(name, "nvme"@) {
        !name.contains('p')
    } else if starts_with(name, "sd"@) || starts_with(name, "vd"@) || starts_with(name, "xvd"@) {
        name.len() > 0 && !is_digit(name.last())
    } else {
        true
    }
}

fn contains_char(s: &Vec<char>, c: char) -> (res: bool)
    ensures
        res == s@.contains(c),
{
    let mut i: usize = 0;
    while i < s.len()
        invariant
            i <= s@.len(),
            forall|j: int| 0 <= j < i ==> s@[j] != c,
        decreases s@.len() - i,
    {
        if s[i] == c {
            proof {
                assert(s@[i as int] == c);
            }
            return true;
        }
        i = i + 1;
    }
    false
}

/// Whether a device of `/proc/diskstats` is a whole disk (see
/// `disk_device_spec`).
pub fn is_disk_device(name: &str) -> (res: bool)
    ensures
        res == disk_device_spec(name@),
{
    let n = chars_of(name);
    let loop_ = chars_of("loop");
    let ram = chars_of("ram");
    let dm = chars_of("dm-");
    let nvme = chars_of("nvme");
    let sd = chars_of("sd");
    let vd = chars_of("vd");
    let xvd = chars_of("xvd");
    if crate::text::chars_start_with(n.as_slice(), loop_.as_slice()) || crate::text::chars_start_with(n.as_slice(), ram.as_slice()) {
        return false;
    }
    if crate::text::chars_start_with(n.as_slice(), dm.as_slice()) {
        return false;
    }
    if crate::text::chars_start_with(n.as_slice(), nvme.as_slice()) {
        let mut i: usize = 0;
        return !contains_char(&n, 'p');
    }
    if crate::text::chars_start_with(n.as_slice(), sd.as_slice()) || crate::text::chars_start_with(n.as_slice(), vd.as_slice())
        || crate::text::chars_start_with(n.as_slice(), xvd.as_slice()) {
        if n.len() == 0 {
            return false;
        }
        let last = n[n.len() - 1];
        return !('0' <= last && last <= '9');
    }
    true
}

/// Sectors read and written, summed over the whole disks.
#[derive(Debug, Clone, Copy, PartialEq, Eq)]
pub struct DiskSample {
    pub read_sectors: u64,
    pub write_sectors: u64,
}

/// `a + b`, saturating at `u64::MAX`.
pub open spec fn sat_add(a: u64, b: u64) -> u64 {
    if a + b > u64::MAX { u64::MAX } else { (a + b) as u64 }
}

/// The sectors read and written by the whole disks of the first `n` lines
/// of `/proc/diskstats` (sums saturate), and whether any line counted. A
/// line counts when its third word names a whole disk, it has at least ten
/// words, and its sixth and tenth words are numbers.
pub open spec fn disk_fold(ls: Seq<Seq<char>>, n: int) -> (u64, u64, bool)
    decreases n,
{
    if n <= 0 {
        (0, 0, false)
    } else {
        let (r, w, found) = disk_fold(ls, n - 1);
        let words = words_of(ls[n - 1]);
        if words.len() < 3 || !disk_device_spec(words[2]) || words.len() < 10 {
            (r, w, found)
        } else {
            match (parse_u64_spec(words[5]), parse_u64_spec(words[9])) {
                (Some(a), Some(b)) => (sat_add(r, a), sat_add(w, b), true),
                _ => (r, w, found),
            }
        }
    }
}

/// What `/proc/diskstats` with text `text` gives (see `disk_fold`): `None`
/// when no line counted.
pub open spec fn disk_sample_spec(text: Seq<char>) -> Option<DiskSample> {
    let ls = lines_of(text);
    let (r, w, found) = disk_fold(ls, ls.len() as int);
    if found { Some(DiskSample { read_sectors: r, write_sectors: w }) } else { None }
}

/// Reads the sectors moved from the text of `/proc/diskstats` (see
/// `disk_sample_spec`).
pub fn parse_disk_sample(text: &str) -> (res: Option<DiskSample>)
    ensures
        res == disk_sample_spec(text@),
{
    let chars = chars_of(text);
    let lines = split_lines(&chars);
    let ghost ls = views_of(lines@);
    let mut read: u64 = 0;
    let mut written: u64 = 0;
    let mut found = false;
    let mut i: usize = 0;
    while i < lines.len()
        invariant
            i <= lines@.len(),
            ls == views_of(lines@),
            ls == lines_of(chars@),
            chars@ == text@,
            (read, written, found) == disk_fold(ls, i as int),
        decreases lines@.len() - i,
    {
        let words = split_words(&lines[i]);
        let ghost w = views_of(words@);
        proof {
            assert(ls[i as int] == lines@[i as int]@);
        }
        if words.len() >= 10 {
            let name: String = crate::text::string_from_chars(words[2].as_slice());
            proof {
                assert(w[2] == words@[2]@);
            }
            if is_disk_device(name.as_str()) {
                proof {
                    assert(w[5] == words@[5]@);
                    assert(w[9] == words@[9]@);
                    assert(words@[5]@.subrange(0, words@[5]@.len() as int) =~= words@[5]@);
                    assert(words@[9]@.subrange(0, words@[9]@.len() as int) =~= words@[9]@);
                }
                let a = parse_u64_from(&words[5], 0);
                let b = parse_u64_from(&words[9], 0);
                if let (Some(a), Some(b)) = (a, b) {
                    read = read.saturating_add(a);
                    written = written.saturating_add(b);
                    found = true;
                }
            }
        }
        i = i + 1;
    }
    if found {
        Some(DiskSample { read_sectors: read, write_sectors: written })
    } else {
        None
    }
}

} // verus!
