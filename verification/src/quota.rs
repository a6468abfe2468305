//! Reading disk usage out of the text that `quota` and `df` print.
use vstd::prelude::*;

use crate::text::{
    chars_of, has_prefix, lines, parse_u64, parse_u64_chars, split_lines, split_words, starts_with,
    texts, trim_chars, trim_end_char, trim_end_char_chars, trimmed, words, is_ws,
    lemma_words_word_then_text, lemma_words_single, lemma_trimmed_unchanged, lemma_trimmed_ends,
    string_from_chars, lemma_lines_concat,
};

verus! {

/// What one line of `quota` output contributes.
pub enum QuotaStep {
    /// Nothing yet; the flag tells whether the line named only a file system
    /// (so that its figures follow on the next line).
    Skip(bool),
    /// A usage line whose figures do not parse: the whole reading fails.
    Fail,
    /// Used kilobytes and the limit in kilobytes.
    Found(u64, u64),
}

pub open spec fn disk_word() -> Seq<char> {
    seq!['D', 'i', 's', 'k']
}

pub open spec fn file_word() -> Seq<char> {
    seq!['F', 'i', 'l', 'e']
}

pub open spec fn slash() -> Seq<char> {
    seq!['/']
}

/// The hard limit when it is a positive number, else the soft limit when it
/// is one.
pub open spec fn limit_kb(soft: Seq<char>, hard: Seq<char>) -> Option<u64> {
    if parse_u64(hard) is Some && parse_u64(hard)->0 > 0 {
        parse_u64(hard)
    } else if parse_u64(soft) is Some && parse_u64(soft)->0 > 0 {
        parse_u64(soft)
    } else {
        None
    }
}

/// The figures of a usage line: used (a trailing `*` marks it over the soft
/// limit), soft limit, hard limit, and possibly more.
pub open spec fn quota_data(d: Seq<Seq<char>>) -> QuotaStep {
    if d.len() >= 3 {
        match parse_u64(trim_end_char(d[0], '*')) {
            None => QuotaStep::Fail,
            Some(used) => match limit_kb(d[1], d[2]) {
                None => QuotaStep::Fail,
                Some(l) => QuotaStep::Found(used, l),
            },
        }
    } else {
        QuotaStep::Skip(false)
    }
}

/// One trimmed line of `quota` output, read after a line that named only a
/// file system (`prev`) or not.
pub open spec fn quota_line(t: Seq<char>, prev: bool) -> QuotaStep {
    if t.len() == 0 || starts_with(t, disk_word()) || starts_with(t, file_word()) {
        QuotaStep::Skip(false)
    } else {
        let parts = words(t);
        if prev {
            quota_data(parts)
        } else if parts.len() >= 4 && starts_with(parts[0], slash()) {
            quota_data(parts.drop_first())
        } else {
            QuotaStep::Skip(parts.len() == 1 && starts_with(parts[0], slash()))
        }
    }
}

/// The first usage found in `lines`, unless a usage line before it fails.
pub open spec fn quota_scan(lines: Seq<Seq<char>>, prev: bool) -> Option<(u64, u64)>
    decreases lines.len(),
{
    if lines.len() == 0 {
        None
    } else {
        match quota_line(trimmed(lines[0]), prev) {
            QuotaStep::Skip(p) => quota_scan(lines.drop_first(), p),
            QuotaStep::Fail => None,
            QuotaStep::Found(u, l) => Some((u, l)),
        }
    }
}

/// Used space and limit, in kilobytes, as `quota` reports them.
pub open spec fn quota_kb(output: Seq<char>) -> Option<(u64, u64)> {
    quota_scan(lines(output), false)
}

/// Both figures of the reading stay within `u64` once turned into bytes.
pub open spec fn quota_fits(output: Seq<char>) -> bool {
    match quota_kb(output) {
        Some((u, l)) => u * 1024 <= u64::MAX && l * 1024 <= u64::MAX,
        None => true,
    }
}

/// Used space and limit in bytes.
pub open spec fn quota_bytes(output: Seq<char>) -> Option<(u64, u64)> {
    match quota_kb(output) {
        Some((u, l)) => Some(((u * 1024) as u64, (l * 1024) as u64)),
        None => None,
    }
}

/// Used and total bytes from the last line of `df -B1`: the second field is
/// the size, the third the space used.
pub open spec fn df_usage(output: Seq<char>) -> Option<(u64, u64)> {
    let p = words(output);
    if p.len() >= 3 && parse_u64(p[1]) is Some && parse_u64(p[2]) is Some {
        Some((parse_u64(p[2])->0, parse_u64(p[1])->0))
    } else {
        None
    }
}

fn word_disk() -> (r: Vec<char>)
    ensures
        r@ == disk_word(),
{
    let r = vec!['D', 'i', 's', 'k'];
    assert(r@ =~= disk_word());
    r
}

fn word_file() -> (r: Vec<char>)
    ensures
        r@ == file_word(),
{
    let r = vec!['F', 'i', 'l', 'e'];
    assert(r@ =~= file_word());
    r
}

fn word_slash() -> (r: Vec<char>)
    ensures
        r@ == slash(),
{
    let r = vec!['/'];
    assert(r@ =~= slash());
    r
}

fn read_limit(soft: &Vec<char>, hard: &Vec<char>) -> (r: Option<u64>)
    ensures
        r == limit_kb(soft@, hard@),
{
    match parse_u64_chars(hard) {
        Some(h) if h > 0 => Some(h),
        _ => match parse_u64_chars(soft) {
            Some(s) if s > 0 => Some(s),
            _ => None,
        },
    }
}

fn read_data(parts: &Vec<Vec<char>>, off: usize) -> (r: QuotaStep)
    requires
        off <= parts.len(),
    ensures
        r == quota_data(texts(parts@).skip(off as int)),
{
    let ghost d = texts(parts@).skip(off as int);
    if parts.len() - off >= 3 {
        assert(d[0] == parts@[off as int]@);
        assert(d[1] == parts@[off + 1]@);
        assert(d[2] == parts@[off + 2]@);
        let used = trim_end_char_chars(&parts[off], '*');
        match parse_u64_chars(&used) {
            None => QuotaStep::Fail,
            Some(u) => match read_limit(&parts[off + 1], &parts[off + 2]) {
                None => QuotaStep::Fail,
                Some(l) => QuotaStep::Found(u, l),
            },
        }
    } else {
        QuotaStep::Skip(false)
    }
}

fn read_line(t: &Vec<char>, prev: bool) -> (r: QuotaStep)
    ensures
        r == quota_line(t@, prev),
{
    if t.len() == 0 || has_prefix(t, &word_disk()) || has_prefix(t, &word_file()) {
        return QuotaStep::Skip(false);
    }
    let parts = split_words(t);
    assert(texts(parts@).len() == parts@.len());
    if prev {
        assert(texts(parts@).skip(0) =~= texts(parts@));
        read_data(&parts, 0)
    } else if parts.len() >= 4 && has_prefix(&parts[0], &word_slash()) {
        assert(texts(parts@).skip(1) =~= texts(parts@).drop_first());
        read_data(&parts, 1)
    } else {
        let only = parts.len() == 1 && has_prefix(&parts[0], &word_slash());
        QuotaStep::Skip(only)
    }
}

/// Used space and limit in kilobytes from the output of `quota`.
///
/// Lines that are blank or start with `Disk` or `File` are headers. A usage
/// line names the file system in its first field and has at least three more
/// (used, soft, hard); or it follows a line that held nothing but the file
/// system. The first usage line decides; if its used figure or both limits
/// fail to parse the result is `None`.
pub fn parse_quota_kb(output: &str) -> (r: Option<(u64, u64)>)
    ensures
        r == quota_kb(output@),
{
    let cs = chars_of(output);
    let ls = split_lines(&cs);
    let mut prev = false;
    let mut k: usize = 0;
    assert(texts(ls@).skip(0) =~= texts(ls@));
    while k < ls.len()
        invariant
            k <= ls.len(),
            texts(ls@) == lines(output@),
            quota_scan(texts(ls@).skip(k as int), prev) == quota_kb(output@),
        decreases ls.len() - k,
    {
        let ghost rest = texts(ls@).skip(k as int);
        assert(rest[0] == ls@[k as int]@);
        assert(rest.drop_first() =~= texts(ls@).skip(k + 1));
        let t = trim_chars(&ls[k]);
        match read_line(&t, prev) {
            QuotaStep::Skip(p) => {
                prev = p;
            },
            QuotaStep::Fail => {
                return None;
            },
            QuotaStep::Found(u, l) => {
                return Some((u, l));
            },
        }
        k = k + 1;
    }
    None
}

/// Used space and limit in bytes from the output of `quota`, which counts in
/// kilobytes.
pub fn parse_quota_output(output: &str) -> (r: Option<(u64, u64)>)
    requires
        quota_fits(output@),
    ensures
        r == quota_bytes(output@),
{
    match parse_quota_kb(output) {
        Some((u, l)) => Some((u * 1024, l * 1024)),
        None => None,
    }
}

/// Used and total bytes from the last line of `df -B1` output.
pub fn parse_df_output(output: &str) -> (r: Option<(u64, u64)>)
    ensures
        r == df_usage(output@),
{
    let cs = chars_of(output);
    let parts = split_words(&cs);
    if parts.len() >= 3 {
        let total = match parse_u64_chars(&parts[1]) {
            Some(t) => t,
            None => {
                return None;
            },
        };
        let used = match parse_u64_chars(&parts[2]) {
            Some(u) => u,
            None => {
                return None;
            },
        };
        Some((used, total))
    } else {
        None
    }
}


/// `quota` prints a usage either on one line, file system first, or on two
/// lines, the file system alone and then the figures. Both layouts give the
/// same reading, whatever lines follow.
pub proof fn quota_layouts_agree(fs: Seq<char>, figures: Seq<char>, rest: Seq<Seq<char>>)
    requires
        fs.len() > 0,
        fs[0] == '/',
        forall|m: int| 0 <= m < fs.len() ==> !is_ws(#[trigger] fs[m]),
        trimmed(figures) == figures,
        words(figures).len() >= 3,
        !starts_with(figures, disk_word()),
        !starts_with(figures, file_word()),
    ensures
        quota_scan(seq![fs + seq![' '] + figures] + rest, false) == quota_scan(
            seq![fs, figures] + rest,
            false,
        ),
{
    assert(figures.len() > 0) by {
        if figures.len() == 0 {
            assert(words(figures) =~= Seq::<Seq<char>>::empty());
        }
    }
    lemma_trimmed_ends(figures);
    let one = fs + seq![' '] + figures;
    assert(one[0] == fs[0]);
    assert(one.last() == figures.last());
    lemma_trimmed_unchanged(one);
    lemma_trimmed_unchanged(fs);
    lemma_words_word_then_text(fs, figures);
    lemma_words_single(fs);
    assert(!starts_with(one, disk_word())) by {
        if one.len() >= 4 {
            assert(one.subrange(0, 4)[0] == '/');
        }
    }
    assert(!starts_with(one, file_word())) by {
        if one.len() >= 4 {
            assert(one.subrange(0, 4)[0] == '/');
        }
    }
    assert(!starts_with(fs, disk_word())) by {
        if fs.len() >= 4 {
            assert(fs.subrange(0, 4)[0] == '/');
        }
    }
    assert(!starts_with(fs, file_word())) by {
        if fs.len() >= 4 {
            assert(fs.subrange(0, 4)[0] == '/');
        }
    }
    assert(starts_with(fs, slash())) by {
        assert(fs.subrange(0, 1) =~= slash());
    }
    let parts = words(one);
    assert(parts.drop_first() =~= words(figures));
    let a = seq![one] + rest;
    let b = seq![fs, figures] + rest;
    assert(a[0] == one);
    assert(a.drop_first() =~= rest);
    assert(b[0] == fs);
    assert(b.drop_first() =~= seq![figures] + rest);
    assert((seq![figures] + rest)[0] == figures);
    assert((seq![figures] + rest).drop_first() =~= rest);
    assert(parts.len() >= 4);
    assert(parts[0] == fs);
    assert(quota_line(trimmed(one), false) == quota_data(words(figures)));
    assert(quota_line(trimmed(fs), false) == QuotaStep::Skip(true));
    assert(quota_line(trimmed(figures), true) == quota_data(words(figures)));
    let c = seq![figures] + rest;
    assert(quota_scan(b, false) == quota_scan(c, true));
    match quota_data(words(figures)) {
        QuotaStep::Skip(p) => {
            assert(!p);
            assert(quota_scan(a, false) == quota_scan(rest, false));
            assert(quota_scan(c, true) == quota_scan(rest, false));
        },
        _ => {},
    }
}


/// Space used and available on a storage box, and its home directory.
#[derive(Debug)]
pub struct StorageStats {
    pub used_bytes: u64,
    pub total_bytes: u64,
    pub home_dir: String,
}

/// The home directory as reported, trimmed; `.` when nothing is left.
pub open spec fn home_dir_text(raw: Seq<char>) -> Seq<char> {
    if trimmed(raw).len() == 0 {
        "."@
    } else {
        trimmed(raw)
    }
}

impl StorageStats {
    /// The figures of a storage box whose home directory was reported as
    /// `home_raw` and whose usage (used, total) was read as `usage`, if it
    /// could be read at all.
    pub fn from_probe(home_raw: &str, usage: Option<(u64, u64)>) -> (s: Self)
        ensures
            s.home_dir@ == home_dir_text(home_raw@),
            (s.used_bytes, s.total_bytes) == match usage {
                Some(p) => p,
                None => (0u64, 0u64),
            },
    {
        let t = trim_chars(&chars_of(home_raw));
        let home_dir = if t.len() == 0 {
            String::from_str(".")
        } else {
            string_from_chars(&t)
        };
        let (used_bytes, total_bytes) = match usage {
            Some(p) => p,
            None => (0, 0),
        };
        StorageStats { used_bytes, total_bytes, home_dir }
    }
}

/// The decimal digit for `d` (below ten).
pub open spec fn digit_char(d: nat) -> char {
    (d + 48) as u8 as char
}

/// `n` written in decimal, without leading zeros.
pub open spec fn decimal(n: nat) -> Seq<char>
    decreases n,
{
    if n < 10 {
        seq![digit_char(n)]
    } else {
        decimal(n / 10).push(digit_char(n % 10))
    }
}

fn push_decimal(n: u16, out: &mut Vec<char>)
    ensures
        final(out)@ == old(out)@ + decimal(n as nat),
    decreases n,
{
    if n >= 10 {
        push_decimal(n / 10, out);
    }
    let d = (n % 10) as u8;
    out.push((d + 48) as char);
    assert(((d as nat) + 48) as u8 as char == (d + 48) as char);
    if n >= 10 {
        assert(decimal(n as nat) == decimal((n / 10) as nat).push(digit_char((n % 10) as nat)));
    }
}

/// The `host:port` address to connect to.
pub fn socket_address(host: &str, port: u16) -> (r: String)
    ensures
        r@ == host@ + ":"@ + decimal(port as nat),
{
    let mut cs: Vec<char> = Vec::new();
    push_decimal(port, &mut cs);
    assert(cs@ =~= decimal(port as nat));
    let mut r = String::from_str(host);
    r.append(":");
    r.append(string_from_chars(&cs).as_str());
    r
}


/// A trimmed line that carries no usage: blank, or a `Disk`/`File` header.
pub open spec fn quota_header(t: Seq<char>) -> bool {
    t.len() == 0 || starts_with(t, disk_word()) || starts_with(t, file_word())
}

proof fn lemma_headers_skipped(hs: Seq<Seq<char>>, rest: Seq<Seq<char>>, prev: bool)
    requires
        forall|k: int| 0 <= k < hs.len() ==> quota_header(trimmed(#[trigger] hs[k])),
    ensures
        quota_scan(hs + rest, prev) == quota_scan(rest, if hs.len() == 0 {
            prev
        } else {
            false
        }),
    decreases hs.len(),
{
    if hs.len() > 0 {
        let all = hs + rest;
        assert(all[0] == hs[0]);
        assert(quota_header(trimmed(hs[0])));
        assert(all.drop_first() =~= hs.drop_first() + rest);
        let t = hs.drop_first();
        assert forall|k: int| 0 <= k < t.len() implies quota_header(trimmed(#[trigger] t[k])) by {
            assert(t[k] == hs[k + 1]);
        }
        lemma_headers_skipped(t, rest, false);
    } else {
        assert(hs + rest =~= rest);
    }
}

/// Header lines in front of `quota` output (blank lines, and lines that
/// start with `Disk` or `File`) never change the reading.
pub proof fn quota_headers_do_not_matter(h: Seq<char>, output: Seq<char>)
    requires
        h.len() == 0 || h.last() == '\n',
        forall|k: int| 0 <= k < lines(h).len() ==> quota_header(trimmed(#[trigger] lines(h)[k])),
    ensures
        quota_kb(h + output) == quota_kb(output),
        quota_bytes(h + output) == quota_bytes(output),
        quota_fits(h + output) == quota_fits(output),
{
    lemma_lines_concat(h, output);
    lemma_headers_skipped(lines(h), lines(output), false);
}


proof fn lemma_scan_decided_prefix(a: Seq<Seq<char>>, b: Seq<Seq<char>>, prev: bool)
    requires
        quota_scan(a, prev) is Some,
    ensures
        quota_scan(a + b, prev) == quota_scan(a, prev),
    decreases a.len(),
{
    let ab = a + b;
    assert(ab[0] == a[0]);
    assert(ab.drop_first() =~= a.drop_first() + b);
    match quota_line(trimmed(a[0]), prev) {
        QuotaStep::Skip(p) => {
            lemma_scan_decided_prefix(a.drop_first(), b, p);
        },
        _ => {},
    }
}

/// The first usage line decides the reading: once a line gives figures
/// (or figures that do not parse), no later line matters.
pub proof fn first_usage_line_decides(l: Seq<char>, rest: Seq<Seq<char>>, prev: bool)
    ensures
        quota_line(trimmed(l), prev) matches QuotaStep::Found(u, v) ==> quota_scan(
            seq![l] + rest,
            prev,
        ) == Some((u, v)),
        quota_line(trimmed(l), prev) is Fail ==> quota_scan(seq![l] + rest, prev) is None,
{
    let a = seq![l] + rest;
    assert(a[0] == l);
}

/// Text after a complete `quota` output that already gives a reading never
/// changes that reading.
pub proof fn quota_reading_ignores_later_text(h: Seq<char>, o: Seq<char>)
    requires
        h.len() > 0,
        h.last() == '\n',
        quota_kb(h) is Some,
    ensures
        quota_kb(h + o) == quota_kb(h),
{
    lemma_lines_concat(h, o);
    lemma_scan_decided_prefix(lines(h), lines(o), false);
}

/// The `df` reading takes used space from the third field and the total
/// from the second: whenever it gives a reading, those two fields parse to
/// exactly its figures.
pub proof fn df_reads_second_and_third_fields(output: Seq<char>)
    ensures
        df_usage(output) matches Some((used, total)) ==> {
            &&& words(output).len() >= 3
            &&& parse_u64(words(output)[2]) == Some(used)
            &&& parse_u64(words(output)[1]) == Some(total)
        },
        words(output).len() >= 3 && parse_u64(words(output)[1]) is Some && parse_u64(
            words(output)[2],
        ) is Some ==> df_usage(output) is Some,
{
}

/// Fields after the third never change the `df` reading, nor does the first.
pub proof fn df_ignores_other_fields(a: Seq<char>, b: Seq<char>)
    requires
        words(a).len() >= 3,
        words(b).len() >= 3,
        words(a)[1] == words(b)[1],
        words(a)[2] == words(b)[2],
    ensures
        df_usage(a) == df_usage(b),
{
}

} // verus!
