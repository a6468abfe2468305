//! Remote directory listings: paths inside a directory, the sorted listing
//! built from what the server returns, and the sizes that `du` reports.
use vstd::prelude::*;

use crate::order::{
    lemma_stable_insert, lemma_stable_sorted_empty, stable_sort_keeps_items,
    stable_sorted, total_preorder,
};
use crate::text::{
    after_last, after_last_char, chars_of, lemma_after_last_has_no, lemma_lex_antisym,
    lemma_after_last_is_tail, lex_le_is_string_order, str_before, find_first, find_first_char, lemma_lex_total,
    lemma_lex_trans, lex_le, lex_le_chars, lines, parse_u64, parse_u64_chars, same_chars,
    slice_vec, split_lines, string_chars, string_from_chars, texts, trim_chars, trim_end_char,
    trim_end_char_chars, trimmed,
};

verus! {

/// An entry of a remote directory.
#[derive(Debug)]
pub struct FileEntry {
    pub name: String,
    pub path: String,
    pub is_dir: bool,
    pub size: u64,
}

/// What the server reports for one directory entry: its file name when the
/// path has one, whether it is a directory, and its size when known.
#[derive(Debug)]
pub struct RawEntry {
    pub name: Option<String>,
    pub is_dir: bool,
    pub size: Option<u64>,
}

/// A directory entry as plain values.
pub struct EntryView {
    pub name: Seq<char>,
    pub path: Seq<char>,
    pub is_dir: bool,
    pub size: u64,
}

impl FileEntry {
    pub open spec fn view(&self) -> EntryView {
        EntryView { name: self.name@, path: self.path@, is_dir: self.is_dir, size: self.size }
    }
}

pub open spec fn entry_views(s: Seq<FileEntry>) -> Seq<EntryView> {
    s.map_values(|e: FileEntry| e.view())
}

/// `name` inside the directory `dir`: the directory's trailing slashes are
/// dropped and a single one separates the two.
pub open spec fn remote_join(dir: Seq<char>, name: Seq<char>) -> Seq<char> {
    trim_end_char(dir, '/') + seq!['/'] + name
}

/// Directories before files; within each, names in string order.
pub open spec fn entry_le(a: EntryView, b: EntryView) -> bool {
    (a.is_dir && !b.is_dir) || (a.is_dir == b.is_dir && lex_le(a.name, b.name))
}

pub open spec fn entry_order() -> spec_fn(EntryView, EntryView) -> bool {
    |a: EntryView, b: EntryView| entry_le(a, b)
}

/// The entry listed for what the server reported, if any: entries without
/// a file name, and `.` and `..`, are left out; an unknown size counts as 0.
pub open spec fn listed_entry(dir: Seq<char>, r: RawEntry) -> Option<EntryView> {
    match r.name {
        Some(n) => if n@ == seq!['.'] || n@ == seq!['.', '.'] {
            None
        } else {
            Some(
                EntryView {
                    name: n@,
                    path: remote_join(dir, n@),
                    is_dir: r.is_dir,
                    size: match r.size {
                        Some(s) => s,
                        None => 0,
                    },
                },
            )
        },
        None => None,
    }
}

/// The listed entries, in the order the server reported them.
pub open spec fn listed_entries(dir: Seq<char>, raws: Seq<RawEntry>) -> Seq<EntryView>
    decreases raws.len(),
{
    if raws.len() == 0 {
        seq![]
    } else {
        let rest = listed_entries(dir, raws.drop_last());
        match listed_entry(dir, raws.last()) {
            Some(e) => rest.push(e),
            None => rest,
        }
    }
}

pub proof fn lemma_entry_order_total()
    ensures
        total_preorder(entry_order()),
{
    let le = entry_order();
    assert forall|a: EntryView, b: EntryView| #[trigger] le(a, b) || le(b, a) by {
        lemma_lex_total(a.name, b.name);
    }
    assert forall|a: EntryView, b: EntryView, c: EntryView| #[trigger]
        le(a, b) && #[trigger] le(b, c) implies le(a, c) by {
        if a.is_dir == b.is_dir && b.is_dir == c.is_dir {
            lemma_lex_trans(a.name, b.name, c.name);
        }
    }
}

/// The path of `name` inside the remote directory `dir`.
pub fn join_remote(dir: &str, name: &str) -> (r: String)
    ensures
        r@ == remote_join(dir@, name@),
{
    let d = chars_of(dir);
    let mut cs = trim_end_char_chars(&d, '/');
    cs.push('/');
    let n = chars_of(name);
    let mut i: usize = 0;
    let ghost base = cs@;
    while i < n.len()
        invariant
            i <= n.len(),
            cs@ == base + n@.take(i as int),
        decreases n.len() - i,
    {
        cs.push(n[i]);
        i = i + 1;
        assert(cs@ =~= base + n@.take(i as int));
    }
    assert(n@.take(n.len() as int) =~= n@);
    string_from_chars(&cs)
}

fn is_dot_name(n: &Vec<char>) -> (r: bool)
    ensures
        r == (n@ == seq!['.'] || n@ == seq!['.', '.']),
{
    if n.len() == 1 {
        let r = n[0] == '.';
        assert(r ==> n@ =~= seq!['.']);
        assert(!r ==> n@[0] != seq!['.'][0]);
        r
    } else if n.len() == 2 {
        let r = n[0] == '.' && n[1] == '.';
        assert(r ==> n@ =~= seq!['.', '.']);
        assert(!r ==> (n@[0] != seq!['.', '.'][0] || n@[1] != seq!['.', '.'][1]));
        r
    } else {
        false
    }
}

fn entry_le_exec(a: &FileEntry, an: &Vec<char>, b: &FileEntry, bn: &Vec<char>) -> (r: bool)
    requires
        an@ == a.name@,
        bn@ == b.name@,
    ensures
        r == entry_le(a.view(), b.view()),
{
    (a.is_dir && !b.is_dir) || (a.is_dir == b.is_dir && lex_le_chars(an, bn))
}

/// The listing of the remote directory `dir`: every entry the server
/// reported that has a file name other than `.` or `..`, with its path inside
/// `dir` and its size (0 when unknown); directories first, then files, each
/// group by name, equally ranked entries in the order reported.
pub fn build_listing(dir: &str, raws: &Vec<RawEntry>) -> (r: Vec<FileEntry>)
    ensures
        stable_sorted(entry_views(r@), listed_entries(dir@, raws@), entry_order()),
{
    let mut out: Vec<FileEntry> = Vec::new();
    let mut names: Vec<Vec<char>> = Vec::new();
    proof {
        lemma_entry_order_total();
        lemma_stable_sorted_empty(entry_order());
        assert(entry_views(out@) =~= Seq::<EntryView>::empty());
        assert(raws@.take(0) =~= Seq::<RawEntry>::empty());
        assert(listed_entries(dir@, raws@.take(0)) =~= Seq::<EntryView>::empty());
    }
    let mut i: usize = 0;
    while i < raws.len()
        invariant
            i <= raws.len(),
            names.len() == out.len(),
            forall|k: int| 0 <= k < out.len() ==> #[trigger] names@[k]@ == out@[k].name@,
            total_preorder(entry_order()),
            stable_sorted(entry_views(out@), listed_entries(dir@, raws@.take(i as int)), entry_order()),
        decreases raws.len() - i,
    {
        let ghost prefix = raws@.take(i as int);
        assert(raws@.take(i + 1).drop_last() =~= prefix);
        assert(raws@.take(i + 1).last() == raws@[i as int]);
        let raw = &raws[i];
        match &raw.name {
            Some(n) => {
                let nc = string_chars(n);
                if !is_dot_name(&nc) {
                    let size = match raw.size {
                        Some(s) => s,
                        None => 0,
                    };
                    let e = FileEntry {
                        name: n.clone(),
                        path: join_remote(dir, n.as_str()),
                        is_dir: raw.is_dir,
                        size,
                    };
                    let mut p: usize = 0;
                    while p < out.len() && entry_le_exec(&out[p], &names[p], &e, &nc)
                        invariant
                            p <= out.len(),
                            names.len() == out.len(),
                            forall|k: int| 0 <= k < out.len() ==> #[trigger] names@[k]@ == out@[k].name@,
                            nc@ == e.name@,
                            forall|k: int| 0 <= k < p ==> entry_le(#[trigger] out@[k].view(), e.view()),
                        decreases out.len() - p,
                    {
                        p = p + 1;
                    }
                    proof {
                        let v = entry_views(out@);
                        let le = entry_order();
                        assert forall|k: int| 0 <= k < p implies le(#[trigger] v[k], e.view()) by {
                            assert(entry_le(out@[k].view(), e.view()));
                        }
                        assert forall|k: int| p <= k < v.len() implies !le(#[trigger] v[k], e.view()) by {
                            if p < out.len() {
                                assert(!entry_le(out@[p as int].view(), e.view()));
                                if k > p {
                                    assert(le(v[p as int], v[k]));
                                    if le(v[k], e.view()) {
                                        assert(le(v[p as int], e.view()));
                                    }
                                }
                            }
                        }
                        lemma_stable_insert(v, listed_entries(dir@, prefix), e.view(), p as int, le);
                        assert(listed_entry(dir@, raws@[i as int]) == Some(e.view()));
                    }
                    let ghost old_out = out@;
                    let ghost old_names = names@;
                    out.insert(p, e);
                    names.insert(p, nc);
                    proof {
                        assert(entry_views(out@) =~= entry_views(old_out).insert(p as int, out@[p as int].view()));
                        assert forall|k: int| 0 <= k < out.len() implies #[trigger] names@[k]@ == out@[k].name@ by {
                            if k > p {
                                assert(names@[k] == old_names[k - 1]);
                            }
                        }
                    }
                } else {
                    assert(listed_entry(dir@, raws@[i as int]) is None);
                }
            },
            None => {},
        }
        i = i + 1;
    }
    assert(raws@.take(raws.len() as int) =~= raws@);
    out
}


/// The command that asks `du` for the size in bytes of each entry of `dir`.
pub open spec fn du_command_text(dir: Seq<char>) -> Seq<char> {
    "du -sb \""@ + trim_end_char(dir, '/') + "\"/* 2>/dev/null || true"@
}

/// The shell command that prints the size of each entry of the remote
/// directory `dir`.
pub fn du_command(dir: &str) -> (r: String)
    ensures
        r@ == du_command_text(dir@),
{
    let d = chars_of(dir);
    let trimmed_dir = string_from_chars(&trim_end_char_chars(&d, '/'));
    let mut cmd = String::from_str("du -sb \"");
    cmd.append(trimmed_dir.as_str());
    cmd.append("\"/* 2>/dev/null || true");
    cmd
}

/// One line of `du -sb` output: the size, a tab, the path. The entry's name is
/// what follows the last `/` of the path; a size that does not parse counts
/// as 0; a line without a tab or with an empty name gives nothing.
pub open spec fn du_line(l: Seq<char>) -> Option<(Seq<char>, u64)> {
    match find_first(l, '\t') {
        None => None,
        Some(k) => {
            let name = after_last(trimmed(l.subrange(k + 1, l.len() as int)), '/');
            if name.len() == 0 {
                None
            } else {
                Some(
                    (
                        name,
                        match parse_u64(trimmed(l.subrange(0, k))) {
                            Some(v) => v,
                            None => 0,
                        },
                    ),
                )
            }
        },
    }
}

/// The size of each name that `du` reports; a later line for a name replaces
/// an earlier one.
pub open spec fn du_sizes(ls: Seq<Seq<char>>) -> Map<Seq<char>, u64>
    decreases ls.len(),
{
    if ls.len() == 0 {
        Map::empty()
    } else {
        let m = du_sizes(ls.drop_last());
        match du_line(ls.last()) {
            Some((n, v)) => m.insert(n, v),
            None => m,
        }
    }
}

/// `pairs` lists the map `m`: each name once, with its size, and nothing else.
pub open spec fn lists_map(pairs: Seq<(String, u64)>, m: Map<Seq<char>, u64>) -> bool {
    &&& forall|i: int, j: int|
        0 <= i < j < pairs.len() ==> (#[trigger] pairs[i]).0@ != (#[trigger] pairs[j]).0@
    &&& forall|i: int|
        0 <= i < pairs.len() ==> m.contains_key((#[trigger] pairs[i]).0@) && m[pairs[i].0@]
            == pairs[i].1
    &&& forall|k: Seq<char>|
        #[trigger] m.contains_key(k) ==> exists|i: int| 0 <= i < pairs.len() && (#[trigger] pairs[i]).0@ == k
}

fn du_line_exec(l: &Vec<char>) -> (r: Option<(Vec<char>, u64)>)
    ensures
        match r {
            Some((n, v)) => du_line(l@) == Some((n@, v)),
            None => du_line(l@) is None,
        },
{
    match find_first_char(l, '\t') {
        None => None,
        Some(t) => {
            let before = slice_vec(l, 0, t);
            let after = slice_vec(l, t + 1, l.len());
            let name = after_last_char(&trim_chars(&after), '/');
            if name.len() == 0 {
                None
            } else {
                let size = match parse_u64_chars(&trim_chars(&before)) {
                    Some(v) => v,
                    None => 0,
                };
                Some((name, size))
            }
        },
    }
}

/// The size in bytes of each entry that `du -sb` reported, by name.
pub fn parse_dir_sizes(output: &str) -> (r: Vec<(String, u64)>)
    ensures
        lists_map(r@, du_sizes(lines(output@))),
{
    let cs = chars_of(output);
    let ls = split_lines(&cs);
    let mut names: Vec<Vec<char>> = Vec::new();
    let mut sizes: Vec<u64> = Vec::new();
    let mut k: usize = 0;
    assert(texts(ls@).take(0) =~= Seq::<Seq<char>>::empty());
    while k < ls.len()
        invariant
            k <= ls.len(),
            texts(ls@) == lines(output@),
            names.len() == sizes.len(),
            forall|i: int, j: int|
                0 <= i < j < names.len() ==> (#[trigger] names@[i])@ != (#[trigger] names@[j])@,
            forall|i: int|
                0 <= i < names.len() ==> du_sizes(texts(ls@).take(k as int)).contains_key(
                    (#[trigger] names@[i])@,
                ) && du_sizes(texts(ls@).take(k as int))[names@[i]@] == sizes@[i],
            forall|key: Seq<char>|
                #[trigger] du_sizes(texts(ls@).take(k as int)).contains_key(key) ==> exists|i: int|
                    0 <= i < names.len() && (#[trigger] names@[i])@ == key,
        decreases ls.len() - k,
    {
        let ghost before = texts(ls@).take(k as int);
        let ghost m = du_sizes(before);
        assert(texts(ls@).take(k + 1).drop_last() =~= before);
        assert(texts(ls@).take(k + 1).last() == ls@[k as int]@);
        match du_line_exec(&ls[k]) {
            None => {},
            Some((n, v)) => {
                let ghost m2 = m.insert(n@, v);
                let mut j: usize = 0;
                let mut found = false;
                while j < names.len()
                    invariant_except_break
                        !found,
                    invariant
                        j <= names.len(),
                        forall|i: int| 0 <= i < j ==> (#[trigger] names@[i])@ != n@,
                    ensures
                        found ==> j < names.len() && names@[j as int]@ == n@,
                        !found ==> forall|i: int| 0 <= i < names.len() ==> (#[trigger] names@[i])@ != n@,
                    decreases names.len() - j,
                {
                    if same_chars(&names[j], &n) {
                        found = true;
                        break;
                    }
                    j = j + 1;
                }
                if found {
                    sizes.set(j, v);
                    assert forall|key: Seq<char>| #[trigger] m2.contains_key(key) implies exists|i: int|
                        0 <= i < names.len() && (#[trigger] names@[i])@ == key by {
                        if key == n@ {
                            assert(names@[j as int]@ == key);
                        } else {
                            assert(m.contains_key(key));
                        }
                    }
                } else {
                    let ghost old_names = names@;
                    names.push(n);
                    sizes.push(v);
                    assert forall|key: Seq<char>| #[trigger] m2.contains_key(key) implies exists|i: int|
                        0 <= i < names.len() && (#[trigger] names@[i])@ == key by {
                        if key == n@ {
                            assert(names@[old_names.len() as int]@ == key);
                        } else {
                            assert(m.contains_key(key));
                            let i = choose|i: int| 0 <= i < old_names.len() && (#[trigger] old_names[i])@ == key;
                            assert(names@[i] == old_names[i]);
                        }
                    }
                }
            },
        }
        k = k + 1;
    }
    assert(texts(ls@).take(ls.len() as int) =~= texts(ls@));
    let ghost m = du_sizes(lines(output@));
    let mut out: Vec<(String, u64)> = Vec::new();
    let mut i: usize = 0;
    while i < names.len()
        invariant
            i <= names.len() == sizes.len(),
            out.len() == i,
            forall|a: int| 0 <= a < i ==> (#[trigger] out@[a]).0@ == names@[a]@ && out@[a].1 == sizes@[a],
        decreases names.len() - i,
    {
        out.push((string_from_chars(&names[i]), sizes[i]));
        i = i + 1;
    }
    assert forall|a: int, b: int| 0 <= a < b < out.len() implies (#[trigger] out@[a]).0@ != (#[trigger] out@[b]).0@ by {
        assert(names@[a]@ != names@[b]@);
    }
    assert forall|a: int| 0 <= a < out.len() implies m.contains_key((#[trigger] out@[a]).0@) && m[out@[a].0@] == out@[a].1 by {
        assert(m.contains_key(names@[a]@));
    }
    assert forall|key: Seq<char>| #[trigger] m.contains_key(key) implies exists|a: int| 0 <= a < out.len() && (#[trigger] out@[a]).0@ == key by {
        let a = choose|a: int| 0 <= a < names.len() && (#[trigger] names@[a])@ == key;
        assert(out@[a].0@ == key);
    }
    out
}


/// Trailing slashes on the directory do not change the joined path.
pub proof fn join_ignores_trailing_slash(dir: Seq<char>, name: Seq<char>)
    ensures
        remote_join(dir.push('/'), name) == remote_join(dir, name),
{
    assert(dir.push('/').drop_last() =~= dir);
}

/// In a listing every directory comes before every file.
pub proof fn listing_puts_directories_first(out: Seq<EntryView>, inp: Seq<EntryView>)
    requires
        stable_sorted(out, inp, entry_order()),
    ensures
        forall|i: int, j: int| 0 <= i < j < out.len() && (#[trigger] out[j]).is_dir ==> (
        #[trigger] out[i]).is_dir,
{
    assert forall|i: int, j: int| 0 <= i < j < out.len() && (#[trigger] out[j]).is_dir implies (
    #[trigger] out[i]).is_dir by {
        assert(entry_order()(out[i], out[j]));
    }
}

/// A listing holds exactly the entries listed for what the server reported,
/// each under its own path.
pub proof fn listing_keeps_reported_entries(
    out: Seq<EntryView>,
    dir: Seq<char>,
    raws: Seq<RawEntry>,
    e: EntryView,
)
    requires
        stable_sorted(out, listed_entries(dir, raws), entry_order()),
    ensures
        out.contains(e) <==> listed_entries(dir, raws).contains(e),
{
    lemma_entry_order_total();
    stable_sort_keeps_items(out, listed_entries(dir, raws), entry_order(), e);
}


/// Every name in the sizes read from `du` is a plain entry name: not empty,
/// and without a `/`.
pub proof fn du_names_are_plain(ls: Seq<Seq<char>>, k: Seq<char>)
    ensures
        du_sizes(ls).contains_key(k) ==> k.len() > 0 && !k.contains('/'),
    decreases ls.len(),
{
    if ls.len() > 0 {
        du_names_are_plain(ls.drop_last(), k);
        if let Some(j) = find_first(ls.last(), '\t') {
            let l = ls.last();
            lemma_after_last_has_no(trimmed(l.subrange(j + 1, l.len() as int)), '/');
        }
    }
}


/// Two entries rank the same in a listing exactly when both are
/// directories or both files, and their names are equal.
pub proof fn listing_ranks_by_kind_and_name(a: EntryView, b: EntryView)
    ensures
        (entry_le(a, b) && entry_le(b, a)) <==> (a.is_dir == b.is_dir && a.name == b.name),
{
    if entry_le(a, b) && entry_le(b, a) {
        lemma_lex_antisym(a.name, b.name);
    }
    if a.name == b.name {
        lemma_lex_total(a.name, b.name);
    }
}


/// Among directories, and among files, a listing is in string order of the
/// names: an earlier entry's name is equal to a later one's, a proper prefix
/// of it, or smaller at the first position where they differ.
pub proof fn listing_names_in_string_order(out: Seq<EntryView>, inp: Seq<EntryView>)
    requires
        stable_sorted(out, inp, entry_order()),
    ensures
        forall|i: int, j: int|
            0 <= i < j < out.len() && (#[trigger] out[i]).is_dir == (#[trigger] out[j]).is_dir
                ==> out[i].name == out[j].name || str_before(out[i].name, out[j].name),
{
    assert forall|i: int, j: int|
        0 <= i < j < out.len() && (#[trigger] out[i]).is_dir == (#[trigger] out[j]).is_dir implies out[i].name
        == out[j].name || str_before(out[i].name, out[j].name) by {
        assert(entry_order()(out[i], out[j]));
        lex_le_is_string_order(out[i].name, out[j].name);
    }
}

/// The name read from a `du` line is the whole tail of its trimmed path
/// after the last `/`: the path ends with it, a `/` stands right before it
/// (unless it is the whole path), it holds no `/`, and the size is the
/// number before the first tab (0 when that does not parse). A line whose
/// path ends in `/`, or is empty, gives nothing.
pub proof fn du_line_reads_tail_of_path(l: Seq<char>, k: int)
    requires
        0 <= k < l.len(),
        l[k] == '\t',
        forall|j: int| 0 <= j < k ==> l[j] != '\t',
    ensures
        ({
            let t = trimmed(l.subrange(k + 1, l.len() as int));
            match du_line(l) {
                Some((n, v)) => {
                    &&& n.len() > 0
                    &&& n.len() <= t.len()
                    &&& t.subrange(t.len() - n.len(), t.len() as int) == n
                    &&& (n.len() == t.len() || t[t.len() - n.len() - 1] == '/')
                    &&& !n.contains('/')
                    &&& v == match parse_u64(trimmed(l.subrange(0, k))) {
                        Some(x) => x,
                        None => 0,
                    }
                },
                None => t.len() == 0 || t.last() == '/',
            }
        }),
{
    crate::text::lemma_find_first_at(l, '\t', k);
    let t = trimmed(l.subrange(k + 1, l.len() as int));
    lemma_after_last_is_tail(t, '/');
    lemma_after_last_has_no(t, '/');
    if t.len() > 0 && t.last() != '/' {
        assert(after_last(t, '/').len() > 0);
    }
}

} // verus!
