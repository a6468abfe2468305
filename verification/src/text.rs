//! Character-level text handling used by the parsers: line splitting,
//! whitespace trimming, word splitting and decimal number parsing, each
//! stated over `Seq<char>` and implemented on `Vec<char>`.
use vstd::prelude::*;

verus! {

/// Unicode `White_Space`, the set that `char::is_whitespace` tests.
pub open spec fn is_ws(c: char) -> bool {
    let u = c as u32;
    ||| 0x09 <= u <= 0x0D
    ||| u == 0x20
    ||| u == 0x85
    ||| u == 0xA0
    ||| u == 0x1680
    ||| 0x2000 <= u <= 0x200A
    ||| u == 0x2028
    ||| u == 0x2029
    ||| u == 0x202F
    ||| u == 0x205F
    ||| u == 0x3000
}

/// `s` with its leading whitespace removed.
pub open spec fn trim_start(s: Seq<char>) -> Seq<char>
    decreases s.len(),
{
    if s.len() > 0 && is_ws(s[0]) {
        trim_start(s.drop_first())
    } else {
        s
    }
}

/// `s` with its trailing whitespace removed.
pub open spec fn trim_end(s: Seq<char>) -> Seq<char>
    decreases s.len(),
{
    if s.len() > 0 && is_ws(s.last()) {
        trim_end(s.drop_last())
    } else {
        s
    }
}

/// `s` with leading and trailing whitespace removed (`str::trim`).
pub open spec fn trimmed(s: Seq<char>) -> Seq<char> {
    trim_end(trim_start(s))
}

/// `s` with every trailing `c` removed (`str::trim_end_matches` with a char).
pub open spec fn trim_end_char(s: Seq<char>, c: char) -> Seq<char>
    decreases s.len(),
{
    if s.len() > 0 && s.last() == c {
        trim_end_char(s.drop_last(), c)
    } else {
        s
    }
}

/// `p` is a prefix of `s`.
pub open spec fn starts_with(s: Seq<char>, p: Seq<char>) -> bool {
    p.len() <= s.len() && s.subrange(0, p.len() as int) == p
}

/// The line that runs from `a` up to the line break at `i` (or up to the end
/// of the text when `nl` is false); a `\r` right before a `\n` is part of the
/// break, not of the line.
pub open spec fn line_piece(s: Seq<char>, a: int, i: int, nl: bool) -> Seq<char> {
    if nl && i > a && s[i - 1] == '\r' {
        s.subrange(a, i - 1)
    } else {
        s.subrange(a, i)
    }
}

/// The lines of `s` from position `i` on, where the current line began at
/// `start`.
pub open spec fn lines_acc(s: Seq<char>, i: int, start: int) -> Seq<Seq<char>>
    decreases s.len() - i,
{
    if i >= s.len() {
        if start < s.len() {
            seq![line_piece(s, start, s.len() as int, false)]
        } else {
            seq![]
        }
    } else if s[i] == '\n' {
        seq![line_piece(s, start, i, true)] + lines_acc(s, i + 1, i + 1)
    } else {
        lines_acc(s, i + 1, start)
    }
}

/// The lines of `s` as `str::lines` yields them: split after each `\n`, the
/// break (`\n` or `\r\n`) removed, and no empty line after a final break.
pub open spec fn lines(s: Seq<char>) -> Seq<Seq<char>> {
    lines_acc(s, 0, 0)
}

/// The words of `s` from position `i` on, where `start` is the beginning of
/// the word under way, if any.
pub open spec fn words_acc(s: Seq<char>, i: int, start: Option<int>) -> Seq<Seq<char>>
    decreases s.len() - i,
{
    if i >= s.len() {
        match start {
            Some(a) => seq![s.subrange(a, s.len() as int)],
            None => seq![],
        }
    } else if is_ws(s[i]) {
        match start {
            Some(a) => seq![s.subrange(a, i)] + words_acc(s, i + 1, None),
            None => words_acc(s, i + 1, None),
        }
    } else {
        match start {
            Some(a) => words_acc(s, i + 1, Some(a)),
            None => words_acc(s, i + 1, Some(i)),
        }
    }
}

/// The maximal runs of non-whitespace characters of `s`, in order
/// (`str::split_whitespace`).
pub open spec fn words(s: Seq<char>) -> Seq<Seq<char>> {
    words_acc(s, 0, None)
}

pub open spec fn is_digit(c: char) -> bool {
    '0' <= c && c <= '9'
}

pub open spec fn all_digits(d: Seq<char>) -> bool {
    forall|i: int| 0 <= i < d.len() ==> #[trigger] is_digit(d[i])
}

/// The value of a string of decimal digits.
pub open spec fn digits_value(d: Seq<char>) -> nat
    decreases d.len(),
{
    if d.len() == 0 {
        0
    } else {
        digits_value(d.drop_last()) * 10 + ((d.last() as u32) - ('0' as u32)) as nat
    }
}

/// `u64::from_str`: an optional `+`, then at least one ASCII digit, and a
/// value that fits in a `u64`.
pub open spec fn parse_u64(s: Seq<char>) -> Option<u64> {
    let d = if s.len() > 0 && s[0] == '+' {
        s.drop_first()
    } else {
        s
    };
    if d.len() > 0 && all_digits(d) && digits_value(d) <= u64::MAX {
        Some(digits_value(d) as u64)
    } else {
        None
    }
}

/// The position of the first `c` in `s`.
pub open spec fn find_first(s: Seq<char>, c: char) -> Option<int>
    decreases s.len(),
{
    if s.len() == 0 {
        None
    } else if s[0] == c {
        Some(0)
    } else {
        match find_first(s.drop_first(), c) {
            Some(k) => Some(k + 1),
            None => None,
        }
    }
}

/// What follows the last `c` in `s` (all of `s` when it holds no `c`), the
/// last item of `str::split(c)`.
pub open spec fn after_last(s: Seq<char>, c: char) -> Seq<char>
    decreases s.len(),
{
    if s.len() == 0 {
        s
    } else if s.last() == c {
        seq![]
    } else {
        after_last(s.drop_last(), c).push(s.last())
    }
}

pub fn is_space(c: char) -> (r: bool)
    ensures
        r == is_ws(c),
{
    let u = c as u32;
    (0x09 <= u && u <= 0x0D) || u == 0x20 || u == 0x85 || u == 0xA0 || u == 0x1680 || (0x2000
        <= u && u <= 0x200A) || u == 0x2028 || u == 0x2029 || u == 0x202F || u == 0x205F || u
        == 0x3000
}

/// The contents of a sequence of character vectors.
pub open spec fn texts(v: Seq<Vec<char>>) -> Seq<Seq<char>> {
    v.map_values(|x: Vec<char>| x@)
}

/// The characters of `s`, in order.
pub fn chars_of(s: &str) -> (v: Vec<char>)
    ensures
        v@ == s@,
{
    let mut v: Vec<char> = Vec::new();
    for c in it: s.chars()
        invariant
            v@ == it.seq().take(it.index() as int),
    {
        v.push(c);
    }
    v
}

/// A copy of `v[a..b]`.
pub fn slice_vec(v: &Vec<char>, a: usize, b: usize) -> (r: Vec<char>)
    requires
        a <= b <= v.len(),
    ensures
        r@ == v@.subrange(a as int, b as int),
{
    let mut r: Vec<char> = Vec::new();
    let mut i = a;
    while i < b
        invariant
            a <= i <= b <= v.len(),
            r@ == v@.subrange(a as int, i as int),
        decreases b - i,
    {
        r.push(v[i]);
        i = i + 1;
        assert(r@ =~= v@.subrange(a as int, i as int));
    }
    r
}

pub fn trim_chars(v: &Vec<char>) -> (r: Vec<char>)
    ensures
        r@ == trimmed(v@),
{
    let n = v.len();
    let mut a: usize = 0;
    assert(v@.subrange(0, n as int) =~= v@);
    while a < n && is_space(v[a])
        invariant
            a <= n == v.len(),
            trim_start(v@.subrange(a as int, n as int)) == trim_start(v@),
        decreases n - a,
    {
        assert(v@.subrange(a as int, n as int).drop_first() =~= v@.subrange(a + 1, n as int));
        a = a + 1;
    }
    let mut b: usize = n;
    while b > a && is_space(v[b - 1])
        invariant
            a <= b <= n == v.len(),
            trim_start(v@) == v@.subrange(a as int, n as int),
            trim_end(v@.subrange(a as int, b as int)) == trimmed(v@),
        decreases b - a,
    {
        assert(v@.subrange(a as int, b as int).drop_last() =~= v@.subrange(a as int, b - 1));
        b = b - 1;
    }
    slice_vec(v, a, b)
}


/// The lines of `v`, each as its own vector.
pub fn split_lines(v: &Vec<char>) -> (r: Vec<Vec<char>>)
    ensures
        texts(r@) == lines(v@),
{
    let n = v.len();
    let mut out: Vec<Vec<char>> = Vec::new();
    let mut start: usize = 0;
    let mut i: usize = 0;
    while i < n
        invariant
            start <= i <= n == v.len(),
            texts(out@) + lines_acc(v@, i as int, start as int) == lines(v@),
        decreases n - i,
    {
        if v[i] == '\n' {
            let end = if i > start && v[i - 1] == '\r' {
                i - 1
            } else {
                i
            };
            let piece = slice_vec(v, start, end);
            let ghost before = texts(out@);
            out.push(piece);
            assert(texts(out@) =~= before.push(line_piece(v@, start as int, i as int, true)));
            assert(texts(out@) + lines_acc(v@, i + 1, i + 1) =~= before + lines_acc(
                v@,
                i as int,
                start as int,
            ));
            start = i + 1;
        }
        i = i + 1;
    }
    if start < n {
        let piece = slice_vec(v, start, n);
        let ghost before = texts(out@);
        out.push(piece);
        assert(texts(out@) =~= before + lines_acc(v@, i as int, start as int));
    } else {
        assert(texts(out@) =~= texts(out@) + lines_acc(v@, i as int, start as int));
    }
    out
}

/// The words of `v`, each as its own vector.
pub fn split_words(v: &Vec<char>) -> (r: Vec<Vec<char>>)
    ensures
        texts(r@) == words(v@),
{
    let n = v.len();
    let mut out: Vec<Vec<char>> = Vec::new();
    let mut in_word = false;
    let mut start: usize = 0;
    let mut i: usize = 0;
    while i < n
        invariant
            start <= i <= n == v.len(),
            texts(out@) + words_acc(
                v@,
                i as int,
                if in_word {
                    Some(start as int)
                } else {
                    None
                },
            ) == words(v@),
        decreases n - i,
    {
        if is_space(v[i]) {
            if in_word {
                let w = slice_vec(v, start, i);
                let ghost before = texts(out@);
                out.push(w);
                assert(texts(out@) + words_acc(v@, i + 1, None) =~= before + words_acc(
                    v@,
                    i as int,
                    Some(start as int),
                ));
                in_word = false;
            }
        } else if !in_word {
            in_word = true;
            start = i;
        }
        i = i + 1;
    }
    if in_word {
        let w = slice_vec(v, start, n);
        let ghost before = texts(out@);
        out.push(w);
        assert(texts(out@) =~= before + words_acc(v@, i as int, Some(start as int)));
    } else {
        assert(texts(out@) =~= texts(out@) + words_acc(v@, i as int, None));
    }
    out
}

/// `p` is a prefix of `v`.
pub fn has_prefix(v: &Vec<char>, p: &Vec<char>) -> (r: bool)
    ensures
        r == starts_with(v@, p@),
{
    if p.len() > v.len() {
        return false;
    }
    let mut i: usize = 0;
    while i < p.len()
        invariant
            i <= p.len() <= v.len(),
            forall|j: int| 0 <= j < i ==> v@[j] == p@[j],
        decreases p.len() - i,
    {
        if v[i] != p[i] {
            assert(v@.subrange(0, p.len() as int)[i as int] != p@[i as int]);
            return false;
        }
        i = i + 1;
    }
    assert(v@.subrange(0, p.len() as int) =~= p@);
    true
}

/// `v` with every trailing `c` removed.
pub fn trim_end_char_chars(v: &Vec<char>, c: char) -> (r: Vec<char>)
    ensures
        r@ == trim_end_char(v@, c),
{
    let n = v.len();
    let mut b: usize = n;
    assert(v@.subrange(0, n as int) =~= v@);
    while b > 0 && v[b - 1] == c
        invariant
            b <= n == v.len(),
            trim_end_char(v@.subrange(0, b as int), c) == trim_end_char(v@, c),
        decreases b,
    {
        assert(v@.subrange(0, b as int).drop_last() =~= v@.subrange(0, b - 1));
        b = b - 1;
    }
    slice_vec(v, 0, b)
}

proof fn lemma_find_first_none(s: Seq<char>, c: char)
    requires
        forall|j: int| 0 <= j < s.len() ==> s[j] != c,
    ensures
        find_first(s, c) is None,
    decreases s.len(),
{
    if s.len() > 0 {
        lemma_find_first_none(s.drop_first(), c);
    }
}

proof fn lemma_find_first_some(s: Seq<char>, c: char, k: int)
    requires
        0 <= k < s.len(),
        s[k] == c,
        forall|j: int| 0 <= j < k ==> s[j] != c,
    ensures
        find_first(s, c) == Some(k),
    decreases k,
{
    if k > 0 {
        lemma_find_first_some(s.drop_first(), c, k - 1);
    }
}

/// The position of the first `c` in `v`.
pub fn find_first_char(v: &Vec<char>, c: char) -> (r: Option<usize>)
    ensures
        match r {
            Some(k) => find_first(v@, c) == Some(k as int) && k < v.len() && v@[k as int] == c,
            None => find_first(v@, c) is None,
        },
{
    let mut i: usize = 0;
    while i < v.len()
        invariant
            i <= v.len(),
            forall|j: int| 0 <= j < i ==> v@[j] != c,
        decreases v.len() - i,
    {
        if v[i] == c {
            proof {
                lemma_find_first_some(v@, c, i as int);
            }
            return Some(i);
        }
        i = i + 1;
    }
    proof {
        lemma_find_first_none(v@, c);
    }
    None
}

proof fn lemma_after_last_step(v: Seq<char>, c: char, j: int)
    requires
        0 < j <= v.len(),
        v[j - 1] != c,
    ensures
        after_last(v.subrange(0, j), c) + v.subrange(j, v.len() as int) == after_last(
            v.subrange(0, j - 1),
            c,
        ) + v.subrange(j - 1, v.len() as int),
{
    let s = v.subrange(0, j);
    assert(s.drop_last() =~= v.subrange(0, j - 1));
    assert(after_last(s, c) == after_last(v.subrange(0, j - 1), c).push(v[j - 1]));
    assert(after_last(v.subrange(0, j - 1), c).push(v[j - 1]) + v.subrange(j, v.len() as int)
        =~= after_last(v.subrange(0, j - 1), c) + v.subrange(j - 1, v.len() as int));
}

proof fn lemma_after_last_start(v: Seq<char>, c: char)
    ensures
        after_last(v, c) == after_last(v.subrange(0, v.len() as int), c) + v.subrange(
            v.len() as int,
            v.len() as int,
        ),
{
    assert(v.subrange(0, v.len() as int) =~= v);
    assert(after_last(v, c) + v.subrange(v.len() as int, v.len() as int) =~= after_last(v, c));
}

proof fn lemma_after_last_end(v: Seq<char>, c: char, j: int)
    requires
        0 <= j <= v.len(),
        j == 0 || v[j - 1] == c,
    ensures
        after_last(v.subrange(0, j), c) + v.subrange(j, v.len() as int) == v.subrange(
            j,
            v.len() as int,
        ),
{
    let s = v.subrange(0, j);
    if j > 0 {
        assert(s.last() == c);
    }
    assert(after_last(s, c) =~= Seq::<char>::empty());
    assert(Seq::<char>::empty() + v.subrange(j, v.len() as int) =~= v.subrange(
        j,
        v.len() as int,
    ));
}

/// What follows the last `c` in `v`.
pub fn after_last_char(v: &Vec<char>, c: char) -> (r: Vec<char>)
    ensures
        r@ == after_last(v@, c),
{
    let n = v.len();
    let mut j: usize = n;
    proof {
        lemma_after_last_start(v@, c);
    }
    while j > 0 && v[j - 1] != c
        invariant
            j <= n == v.len(),
            after_last(v@, c) == after_last(v@.subrange(0, j as int), c) + v@.subrange(
                j as int,
                n as int,
            ),
        decreases j,
    {
        proof {
            lemma_after_last_step(v@, c, j as int);
        }
        j = j - 1;
    }
    proof {
        lemma_after_last_end(v@, c, j as int);
    }
    slice_vec(v, j, n)
}

proof fn lemma_digits_value_prefix(d: Seq<char>, k: int)
    requires
        0 <= k <= d.len(),
        all_digits(d),
    ensures
        digits_value(d.take(k)) <= digits_value(d),
    decreases d.len(),
{
    if k < d.len() {
        let e = d.drop_last();
        assert(all_digits(e)) by {
            assert forall|i: int| 0 <= i < e.len() implies #[trigger] is_digit(e[i]) by {
                assert(is_digit(d[i]));
            }
        }
        lemma_digits_value_prefix(e, k);
        assert(e.take(k) =~= d.take(k));
    } else {
        assert(d.take(k) =~= d);
    }
}

/// `u64::from_str` on the characters of `v`.
pub fn parse_u64_chars(v: &Vec<char>) -> (r: Option<u64>)
    ensures
        r == parse_u64(v@),
{
    let n = v.len();
    let mut i: usize = 0;
    if n > 0 && v[0] == '+' {
        i = 1;
    }
    let ghost d = if v@.len() > 0 && v@[0] == '+' {
        v@.drop_first()
    } else {
        v@
    };
    assert(d =~= v@.subrange(i as int, n as int));
    if i >= n {
        return None;
    }
    let first = i;
    let mut acc: u64 = 0;
    while i < n
        invariant
            first <= i <= n == v.len(),
            first < n,
            d == v@.subrange(first as int, n as int),
            d == (if v@.len() > 0 && v@[0] == '+' {
                v@.drop_first()
            } else {
                v@
            }),
            all_digits(d.take(i - first)),
            acc as nat == digits_value(d.take(i - first)),
        decreases n - i,
    {
        let c = v[i];
        let ghost k = i - first;
        assert(d.take(k + 1).drop_last() =~= d.take(k));
        assert(d.take(k + 1).last() == c);
        if !('0' <= c && c <= '9') {
            assert(!is_digit(d[k]));
            assert(!all_digits(d));
            return None;
        }
        let dig = (c as u32 - '0' as u32) as u64;
        if acc > (u64::MAX - dig) / 10 {
            proof {
                assert(all_digits(d.take(k + 1))) by {
                    assert forall|j: int| 0 <= j < k + 1 implies #[trigger] is_digit(
                        d.take(k + 1)[j],
                    ) by {
                        if j < k {
                            assert(d.take(k + 1)[j] == d.take(k)[j]);
                            assert(is_digit(d.take(k)[j]));
                        }
                    }
                }
                assert(digits_value(d.take(k + 1)) == digits_value(d.take(k)) * 10 + dig);
                assert(acc * 10 + dig > u64::MAX) by (nonlinear_arith)
                    requires
                        acc > (u64::MAX - dig) / 10,
                        dig <= 9,
                ;
                if all_digits(d) {
                    lemma_digits_value_prefix(d, k + 1);
                }
            }
            return None;
        }
        acc = acc * 10 + dig;
        i = i + 1;
        proof {
            assert forall|j: int| 0 <= j < k + 1 implies #[trigger] is_digit(d.take(k + 1)[j]) by {
                if j < k {
                    assert(d.take(k + 1)[j] == d.take(k)[j]);
                    assert(is_digit(d.take(k)[j]));
                }
            }
        }
    }
    assert(d.take(n - first) =~= d);
    Some(acc)
}


/// Scanning words of `pre + q` past `pre` is scanning the words of `q`.
pub proof fn lemma_words_acc_shift(pre: Seq<char>, q: Seq<char>, i: int, start: Option<int>)
    requires
        0 <= i <= q.len(),
        start matches Some(a) ==> 0 <= a <= i,
    ensures
        words_acc(
            pre + q,
            pre.len() + i,
            match start {
                Some(a) => Some(pre.len() + a),
                None => None,
            },
        ) == words_acc(q, i, start),
    decreases q.len() - i,
{
    let s = pre + q;
    let k = pre.len() as int;
    let sh = match start {
        Some(a) => Some(k + a),
        None => None,
    };
    if i >= q.len() {
        if let Some(a) = start {
            assert(s.subrange(k + a, s.len() as int) =~= q.subrange(a, q.len() as int));
        }
    } else {
        assert(s[k + i] == q[i]);
        if is_ws(q[i]) {
            lemma_words_acc_shift(pre, q, i + 1, None);
            if let Some(a) = start {
                assert(s.subrange(k + a, k + i) =~= q.subrange(a, i));
            }
        } else {
            match start {
                Some(a) => lemma_words_acc_shift(pre, q, i + 1, Some(a)),
                None => lemma_words_acc_shift(pre, q, i + 1, Some(i)),
            }
        }
    }
}

/// A word under way runs on over non-whitespace characters.
proof fn lemma_words_acc_run(s: Seq<char>, i: int, j: int, a: int)
    requires
        0 <= a <= i <= j <= s.len(),
        forall|m: int| i <= m < j ==> !is_ws(#[trigger] s[m]),
    ensures
        words_acc(s, i, Some(a)) == words_acc(s, j, Some(a)),
    decreases j - i,
{
    if i < j {
        lemma_words_acc_run(s, i + 1, j, a);
    }
}

/// The words of a word, a blank and a text: that word, then the words of
/// the text.
pub proof fn lemma_words_word_then_text(w: Seq<char>, q: Seq<char>)
    requires
        w.len() > 0,
        forall|m: int| 0 <= m < w.len() ==> !is_ws(#[trigger] w[m]),
    ensures
        words(w + seq![' '] + q) == seq![w] + words(q),
{
    let pre = w + seq![' '];
    let s = pre + q;
    assert(w + seq![' '] + q == s);
    let n = w.len() as int;
    assert forall|m: int| 1 <= m < n implies !is_ws(#[trigger] s[m]) by {
        assert(s[m] == w[m]);
    }
    assert(s[0] == w[0]);
    lemma_words_acc_run(s, 1, n, 0);
    assert(s[n] == ' ');
    assert(s.subrange(0, n) =~= w);
    lemma_words_acc_shift(pre, q, 0, None);
}

/// The words of a text without whitespace: the text itself.
pub proof fn lemma_words_single(w: Seq<char>)
    requires
        w.len() > 0,
        forall|m: int| 0 <= m < w.len() ==> !is_ws(#[trigger] w[m]),
    ensures
        words(w) == seq![w],
{
    lemma_words_acc_run(w, 1, w.len() as int, 0);
    assert(w.subrange(0, w.len() as int) =~= w);
}

/// Trimming changes nothing when the text begins and ends with something
/// other than whitespace.
pub proof fn lemma_trimmed_unchanged(s: Seq<char>)
    requires
        s.len() > 0,
        !is_ws(s[0]),
        !is_ws(s.last()),
    ensures
        trimmed(s) == s,
{
}

/// A trimmed text that is not empty begins and ends with something other
/// than whitespace.
pub proof fn lemma_trimmed_ends(s: Seq<char>)
    ensures
        trimmed(s).len() > 0 ==> !is_ws(trimmed(s)[0]) && !is_ws(trimmed(s).last()),
    decreases s.len(),
{
    lemma_trim_start_first(s);
    lemma_trim_end_last(trim_start(s));
    lemma_trim_end_prefix(trim_start(s));
}

proof fn lemma_trim_start_first(s: Seq<char>)
    ensures
        trim_start(s).len() > 0 ==> !is_ws(trim_start(s)[0]),
    decreases s.len(),
{
    if s.len() > 0 && is_ws(s[0]) {
        lemma_trim_start_first(s.drop_first());
    }
}

proof fn lemma_trim_end_last(s: Seq<char>)
    ensures
        trim_end(s).len() > 0 ==> !is_ws(trim_end(s).last()),
    decreases s.len(),
{
    if s.len() > 0 && is_ws(s.last()) {
        lemma_trim_end_last(s.drop_last());
    }
}

/// Trimming the end keeps a prefix of the text.
proof fn lemma_trim_end_prefix(s: Seq<char>)
    ensures
        trim_end(s).len() <= s.len(),
        trim_end(s) == s.subrange(0, trim_end(s).len() as int),
    decreases s.len(),
{
    if s.len() > 0 && is_ws(s.last()) {
        lemma_trim_end_prefix(s.drop_last());
        assert(s.drop_last().subrange(0, trim_end(s).len() as int) =~= s.subrange(
            0,
            trim_end(s).len() as int,
        ));
    } else {
        assert(s.subrange(0, s.len() as int) =~= s);
    }
}

/// Trimming twice is trimming once.
pub proof fn lemma_trimmed_idempotent(s: Seq<char>)
    ensures
        trimmed(trimmed(s)) == trimmed(s),
{
    lemma_trimmed_ends(s);
    let t = trimmed(s);
    if t.len() > 0 {
        lemma_trimmed_unchanged(t);
    }
}


/// Code-point order, extended lexicographically to strings: the order of
/// `str` comparison (UTF-8 preserves code-point order).
pub open spec fn lex_le(a: Seq<char>, b: Seq<char>) -> bool
    decreases a.len(),
{
    if a.len() == 0 {
        true
    } else if b.len() == 0 {
        false
    } else if a[0] != b[0] {
        (a[0] as int) < (b[0] as int)
    } else {
        lex_le(a.drop_first(), b.drop_first())
    }
}

pub proof fn lemma_lex_total(a: Seq<char>, b: Seq<char>)
    ensures
        lex_le(a, b) || lex_le(b, a),
    decreases a.len(),
{
    if a.len() > 0 && b.len() > 0 {
        if a[0] == b[0] {
            lemma_lex_total(a.drop_first(), b.drop_first());
        } else {
            assert((a[0] as int) != (b[0] as int));
        }
    }
}

pub proof fn lemma_lex_trans(a: Seq<char>, b: Seq<char>, c: Seq<char>)
    requires
        lex_le(a, b),
        lex_le(b, c),
    ensures
        lex_le(a, c),
    decreases a.len(),
{
    if a.len() > 0 && b.len() > 0 && c.len() > 0 && a[0] == b[0] && b[0] == c[0] {
        lemma_lex_trans(a.drop_first(), b.drop_first(), c.drop_first());
    }
}

pub proof fn lemma_lex_antisym(a: Seq<char>, b: Seq<char>)
    requires
        lex_le(a, b),
        lex_le(b, a),
    ensures
        a == b,
    decreases a.len(),
{
    if a.len() > 0 && b.len() > 0 {
        lemma_lex_antisym(a.drop_first(), b.drop_first());
        assert(a =~= seq![a[0]] + a.drop_first());
        assert(b =~= seq![b[0]] + b.drop_first());
    } else {
        assert(a =~= b);
    }
}

/// `a` comes at or before `b` in string order.
pub fn lex_le_chars(a: &Vec<char>, b: &Vec<char>) -> (r: bool)
    ensures
        r == lex_le(a@, b@),
{
    let mut i: usize = 0;
    assert(a@.skip(0) =~= a@);
    assert(b@.skip(0) =~= b@);
    while i < a.len() && i < b.len() && a[i] == b[i]
        invariant
            i <= a.len(),
            i <= b.len(),
            lex_le(a@.skip(i as int), b@.skip(i as int)) == lex_le(a@, b@),
        decreases a.len() - i,
    {
        assert(a@.skip(i as int).drop_first() =~= a@.skip(i + 1));
        assert(b@.skip(i as int).drop_first() =~= b@.skip(i + 1));
        i = i + 1;
    }
    if i == a.len() {
        true
    } else if i == b.len() {
        false
    } else {
        a[i] < b[i]
    }
}

/// The two vectors hold the same characters.
pub fn same_chars(a: &Vec<char>, b: &Vec<char>) -> (r: bool)
    ensures
        r == (a@ == b@),
{
    if a.len() != b.len() {
        return false;
    }
    let mut i: usize = 0;
    while i < a.len()
        invariant
            i <= a.len() == b.len(),
            forall|j: int| 0 <= j < i ==> a@[j] == b@[j],
        decreases a.len() - i,
    {
        if a[i] != b[i] {
            return false;
        }
        i = i + 1;
    }
    assert(a@ =~= b@);
    true
}

/// The string made of the characters of `v`, in order (`String`'s
/// `FromIterator<&char>`, which collects the characters it is given).
#[verifier::external_body]
pub fn string_from_chars(v: &Vec<char>) -> (s: String)
    ensures
        s@ == v@,
{
    v.iter().collect()
}

/// The characters of a `String`.
pub fn string_chars(s: &String) -> (v: Vec<char>)
    ensures
        v@ == s@,
{
    chars_of(s.as_str())
}


/// What follows the last `c` holds no `c`.
pub proof fn lemma_after_last_has_no(s: Seq<char>, c: char)
    ensures
        !after_last(s, c).contains(c),
    decreases s.len(),
{
    if s.len() > 0 && s.last() != c {
        lemma_after_last_has_no(s.drop_last(), c);
        let t = after_last(s.drop_last(), c);
        assert forall|i: int| 0 <= i < t.push(s.last()).len() implies t.push(s.last())[i] != c by {
            if i < t.len() {
                assert(t.push(s.last())[i] == t[i]);
            }
        }
    }
}


/// Splitting lines past a text `h` that ends in a line break is splitting
/// the lines of what follows it.
proof fn lemma_lines_acc_shift(h: Seq<char>, o: Seq<char>, i: int, start: int)
    requires
        0 <= start <= i <= o.len(),
    ensures
        lines_acc(h + o, h.len() + i, h.len() + start) == lines_acc(o, i, start),
    decreases o.len() - i,
{
    let s = h + o;
    let n = h.len() as int;
    if i >= o.len() {
        if start < o.len() {
            assert(s.subrange(n + start, s.len() as int) =~= o.subrange(start, o.len() as int));
        }
    } else {
        assert(s[n + i] == o[i]);
        if o[i] == '\n' {
            lemma_lines_acc_shift(h, o, i + 1, i + 1);
            if i > start {
                assert(s[n + i - 1] == o[i - 1]);
                assert(s.subrange(n + start, n + i - 1) =~= o.subrange(start, i - 1));
            }
            assert(s.subrange(n + start, n + i) =~= o.subrange(start, i));
            assert(line_piece(s, n + start, n + i, true) == line_piece(o, start, i, true));
        } else {
            lemma_lines_acc_shift(h, o, i + 1, start);
        }
    }
}

proof fn lemma_lines_acc_prefix(h: Seq<char>, o: Seq<char>, i: int, start: int)
    requires
        h.len() > 0,
        h.last() == '\n',
        0 <= start <= i < h.len(),
    ensures
        lines_acc(h + o, i, start) == lines_acc(h, i, start) + lines_acc(
            h + o,
            h.len() as int,
            h.len() as int,
        ),
    decreases h.len() - i,
{
    let s = h + o;
    let n = h.len() as int;
    assert(s[i] == h[i]);
    if i > start {
        assert(s[i - 1] == h[i - 1]);
    }
    assert(s.subrange(start, i) =~= h.subrange(start, i));
    if i > start {
        assert(s.subrange(start, i - 1) =~= h.subrange(start, i - 1));
    }
    assert(line_piece(s, start, i, true) == line_piece(h, start, i, true));
    if h[i] == '\n' {
        if i + 1 < n {
            lemma_lines_acc_prefix(h, o, i + 1, i + 1);
            assert(seq![line_piece(h, start, i, true)] + (lines_acc(h, i + 1, i + 1) + lines_acc(
                s,
                n,
                n,
            )) =~= (seq![line_piece(h, start, i, true)] + lines_acc(h, i + 1, i + 1))
                + lines_acc(s, n, n));
        } else {
            assert(lines_acc(h, i + 1, i + 1) =~= Seq::<Seq<char>>::empty());
            assert(seq![line_piece(h, start, i, true)] + Seq::<Seq<char>>::empty() =~= seq![
                line_piece(h, start, i, true),
            ]);
        }
    } else {
        assert(i + 1 < n);
        lemma_lines_acc_prefix(h, o, i + 1, start);
    }
}

/// The lines of a text that follows a complete line-broken text `h` come
/// after the lines of `h`.
pub proof fn lemma_lines_concat(h: Seq<char>, o: Seq<char>)
    requires
        h.len() == 0 || h.last() == '\n',
    ensures
        lines(h + o) == lines(h) + lines(o),
{
    if h.len() == 0 {
        assert(h + o =~= o);
        assert(lines(h) =~= Seq::<Seq<char>>::empty());
        assert(lines(h) + lines(o) =~= lines(o));
    } else {
        lemma_lines_acc_prefix(h, o, 0, 0);
        lemma_lines_acc_shift(h, o, 0, 0);
    }
}


/// `a` comes strictly before `b` in string order: `a` is a proper prefix of
/// `b`, or at the first position where they differ `a` holds the smaller
/// character.
pub open spec fn str_before(a: Seq<char>, b: Seq<char>) -> bool {
    ||| (a.len() < b.len() && b.take(a.len() as int) == a)
    ||| exists|k: int|
        0 <= k < a.len() && k < b.len() && #[trigger] a.take(k) == b.take(k) && (a[k] as int) < (
        b[k] as int)
}

/// The order the listing uses on names is string order: `a` is at or before
/// `b` exactly when they are equal or `a` comes first as a string.
pub proof fn lex_le_is_string_order(a: Seq<char>, b: Seq<char>)
    ensures
        lex_le(a, b) <==> (a == b || str_before(a, b)),
    decreases a.len(),
{
    if a.len() == 0 {
        if b.len() > 0 {
            assert(b.take(0) =~= a);
        } else {
            assert(a =~= b);
        }
    } else if b.len() == 0 {
        if str_before(a, b) {
            let k = choose|k: int|
                0 <= k < a.len() && k < b.len() && #[trigger] a.take(k) == b.take(k) && (
                a[k] as int) < (b[k] as int);
        }
    } else if a[0] != b[0] {
        if a.len() < b.len() && b.take(a.len() as int) == a {
            assert(b.take(a.len() as int)[0] == b[0]);
        }
        if exists|k: int|
            0 <= k < a.len() && k < b.len() && #[trigger] a.take(k) == b.take(k) && (
            a[k] as int) < (b[k] as int) {
            let k = choose|k: int|
                0 <= k < a.len() && k < b.len() && #[trigger] a.take(k) == b.take(k) && (
                a[k] as int) < (b[k] as int);
            if k > 0 {
                assert(a.take(k)[0] == b.take(k)[0]);
            }
        }
        if (a[0] as int) < (b[0] as int) {
            assert(a.take(0) =~= b.take(0));
        }
        assert((a[0] as int) != (b[0] as int));
    } else {
        let a1 = a.drop_first();
        let b1 = b.drop_first();
        lex_le_is_string_order(a1, b1);
        assert(a == b <==> a1 == b1) by {
            if a1 == b1 {
                assert(a =~= seq![a[0]] + a1);
                assert(b =~= seq![b[0]] + b1);
            }
            if a == b {
                assert(a1 =~= b1);
            }
        }
        // prefix case
        assert((a.len() < b.len() && b.take(a.len() as int) == a) <==> (a1.len() < b1.len()
            && b1.take(a1.len() as int) == a1)) by {
            if a.len() < b.len() && b.take(a.len() as int) == a {
                assert(b1.take(a1.len() as int) =~= a1) by {
                    assert forall|i: int| 0 <= i < a1.len() implies #[trigger] b1.take(
                        a1.len() as int,
                    )[i] == a1[i] by {
                        assert(b.take(a.len() as int)[i + 1] == a[i + 1]);
                    }
                }
            }
            if a1.len() < b1.len() && b1.take(a1.len() as int) == a1 {
                assert(b.take(a.len() as int) =~= a) by {
                    assert forall|i: int| 0 <= i < a.len() implies #[trigger] b.take(
                        a.len() as int,
                    )[i] == a[i] by {
                        if i > 0 {
                            assert(b1.take(a1.len() as int)[i - 1] == a1[i - 1]);
                        }
                    }
                }
            }
        }
        // first-difference case
        let ea = exists|k: int|
            0 <= k < a.len() && k < b.len() && #[trigger] a.take(k) == b.take(k) && (
            a[k] as int) < (b[k] as int);
        let eb = exists|k: int|
            0 <= k < a1.len() && k < b1.len() && #[trigger] a1.take(k) == b1.take(k) && (
            a1[k] as int) < (b1[k] as int);
        if ea {
            let k = choose|k: int|
                0 <= k < a.len() && k < b.len() && #[trigger] a.take(k) == b.take(k) && (
                a[k] as int) < (b[k] as int);
            assert(k > 0);
            assert(a1.take(k - 1) =~= b1.take(k - 1)) by {
                assert forall|i: int| 0 <= i < k - 1 implies #[trigger] a1.take(k - 1)[i] == b1.take(k - 1)[i] by {
                    assert(a.take(k)[i + 1] == b.take(k)[i + 1]);
                }
            }
            assert(eb);
        }
        if eb {
            let k = choose|k: int|
                0 <= k < a1.len() && k < b1.len() && #[trigger] a1.take(k) == b1.take(k) && (
                a1[k] as int) < (b1[k] as int);
            assert(a.take(k + 1) =~= b.take(k + 1)) by {
                assert forall|i: int| 0 <= i < k + 1 implies #[trigger] a.take(k + 1)[i] == b.take(k + 1)[i] by {
                    if i > 0 {
                        assert(a1.take(k)[i - 1] == b1.take(k)[i - 1]);
                    }
                }
            }
            assert(ea);
        }
    }
}

/// What follows the last `c` is the end of the text, and right before it
/// stands a `c` unless it is the whole text.
pub proof fn lemma_after_last_is_tail(s: Seq<char>, c: char)
    ensures
        after_last(s, c).len() <= s.len(),
        s.subrange(s.len() - after_last(s, c).len(), s.len() as int) == after_last(s, c),
        after_last(s, c).len() == s.len() || s[s.len() - after_last(s, c).len() - 1] == c,
    decreases s.len(),
{
    if s.len() > 0 {
        if s.last() == c {
            assert(s.subrange(s.len() as int, s.len() as int) =~= after_last(s, c));
        } else {
            let t = s.drop_last();
            lemma_after_last_is_tail(t, c);
            let n = after_last(t, c);
            assert(s.subrange(s.len() - n.len() - 1, s.len() as int) =~= n.push(s.last())) by {
                assert(s.subrange(s.len() - n.len() - 1, s.len() - 1) =~= t.subrange(
                    t.len() - n.len(),
                    t.len() as int,
                ));
            }
            if n.len() < t.len() {
                assert(s[s.len() - n.len() - 2] == t[t.len() - n.len() - 1]);
            }
        }
    }
}


/// The first `c` of `s` is at `k` when `s[k]` is `c` and none comes before.
pub proof fn lemma_find_first_at(s: Seq<char>, c: char, k: int)
    requires
        0 <= k < s.len(),
        s[k] == c,
        forall|j: int| 0 <= j < k ==> s[j] != c,
    ensures
        find_first(s, c) == Some(k),
{
    lemma_find_first_some(s, c, k);
}

} // verus!
