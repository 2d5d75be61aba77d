//! The files of a store: snapshots and logs, named after the moment at which they were begun.
use crate::decimal::{decimal, lemma_decimal_number, lemma_decimal_parsed, parse_u64, parsed, to_decimal};
use crate::query::{some_text, texts};
use crate::text::same;
use vstd::prelude::*;

verus! {

/// The place of the last `c`, or -1.
pub open spec fn last_at(s: Seq<char>, c: char) -> int
    decreases s.len(),
{
    if s.len() == 0 {
        -1
    } else if s.last() == c {
        s.len() - 1
    } else {
        last_at(s.drop_last(), c)
    }
}

/// What comes after the last `c`: all of the text where there is none.
pub open spec fn after_last(s: Seq<char>, c: char) -> Seq<char> {
    s.skip(last_at(s, c) + 1)
}

/// The last component of a path, where it names a file: slashes at the end and components `.` do
/// not count.
pub open spec fn file_name(path: Seq<char>) -> Option<Seq<char>>
    decreases path.len(),
{
    if path.len() == 0 {
        None
    } else if path.last() == '/' {
        file_name(path.drop_last())
    } else {
        let i = last_at(path, '/');
        let name = after_last(path, '/');
        if name == "."@ {
            if 0 <= i < path.len() {
                file_name(path.take(i))
            } else {
                None
            }
        } else if name == ".."@ {
            None
        } else {
            Some(name)
        }
    }
}

/// A file name without its extension. A dot at the beginning begins no extension.
pub open spec fn stem_of(name: Seq<char>) -> Seq<char> {
    if last_at(name, '.') > 0 {
        name.take(last_at(name, '.'))
    } else {
        name
    }
}

/// The moment that a path ends with, after the last underscore of its file name.
pub open spec fn ts_of_path(path: Seq<char>) -> Option<u64> {
    match file_name(path) {
        Some(name) => parsed(after_last(stem_of(name), '_')),
        None => None,
    }
}

/// The moment in the name of a file of a kind: the kind, an underscore, the moment and the
/// extension.
pub open spec fn ts_of_name(name: Seq<char>, kind: Seq<char>) -> Option<u64> {
    let ext = ".msgpack"@;
    let stem = name.take(name.len() - ext.len());
    if kind.is_prefix_of(name) && ext.len() < name.len() && name.skip(name.len() - ext.len()) == ext {
        parsed(
            if kind.push('_').is_prefix_of(stem) {
                stem.skip(kind.len() as int + 1)
            } else {
                stem
            },
        )
    } else {
        None
    }
}

/// The path of the file of a kind that was begun at a moment.
pub open spec fn path_of(dir: Seq<char>, kind: Seq<char>, ts: u64) -> Seq<char> {
    dir + "/"@ + kind + "_"@ + decimal(ts as nat) + ".msgpack"@
}

proof fn lemma_last_at(s: Seq<char>, c: char)
    ensures
        -1 <= last_at(s, c) < s.len(),
        last_at(s, c) >= 0 ==> s[last_at(s, c)] == c,
        forall|j: int| last_at(s, c) < j < s.len() ==> s[j] != c,
    decreases s.len(),
{
    if s.len() > 0 && s.last() != c {
        let t = s.drop_last();
        lemma_last_at(t, c);
        assert forall|j: int| last_at(s, c) < j < s.len() implies s[j] != c by {
            if j < t.len() {
                assert(t[j] == s[j]);
            }
        }
    }
}

/// The last place of `c` is the one after which there is none.
proof fn lemma_last_at_is(s: Seq<char>, c: char, i: int)
    requires
        0 <= i < s.len(),
        s[i] == c,
        forall|j: int| i < j < s.len() ==> s[j] != c,
    ensures
        last_at(s, c) == i,
{
    lemma_last_at(s, c);
    if last_at(s, c) < i {
        assert(s[i] != c);
    }
}

/// No digit is a slash, a dot or an underscore.
proof fn lemma_decimal_plain(n: nat)
    ensures
        forall|j: int| 0 <= j < decimal(n).len() ==> decimal(n)[j] != '/' && decimal(n)[j] != '.' && decimal(n)[j] != '_',
{
    lemma_decimal_number(n);
    let d = decimal(n);
    assert forall|j: int| 0 <= j < d.len() implies d[j] != '/' && d[j] != '.' && d[j] != '_' by {
        assert(crate::decimal::digit_of(d[j]) is Some);
    }
}

/// The moment at which a file was begun can be read from its path.
pub proof fn lemma_path_keeps_ts(dir: Seq<char>, kind: Seq<char>, ts: u64)
    requires
        !kind.contains('/'),
    ensures
        ts_of_path(path_of(dir, kind, ts)) == Some(ts),
        ts_of_name(kind + "_"@ + decimal(ts as nat) + ".msgpack"@, kind) == Some(ts),
        file_name(path_of(dir, kind, ts)) == Some(kind + "_"@ + decimal(ts as nat) + ".msgpack"@),
{
    reveal_strlit("/");
    reveal_strlit("_");
    reveal_strlit(".msgpack");
    reveal_strlit(".");
    reveal_strlit("..");
    let d = decimal(ts as nat);
    let ext = ".msgpack"@;
    let name = kind + "_"@ + d + ext;
    let path = path_of(dir, kind, ts);
    lemma_decimal_plain(ts as nat);
    lemma_decimal_number(ts as nat);
    lemma_decimal_parsed(ts);
    assert(path =~= dir + "/"@ + name);
    let k = kind.len() as int;
    let n = d.len() as int;
    assert forall|j: int| 0 <= j < name.len() implies name[j] != '/' by {
        if j < k {
            assert(name[j] == kind[j]);
        } else if j == k {
            assert(name[j] == '_');
        } else if j < k + 1 + n {
            assert(name[j] == d[j - k - 1]);
        } else {
            assert(name[j] == ext[j - k - 1 - n]);
        }
    }
    lemma_last_at_is(path, '/', dir.len() as int);
    assert(after_last(path, '/') =~= name);
    assert(path.last() == 'k');
    assert(name.len() > 2);
    // The last dot begins the extension.
    lemma_last_at_is(name, '.', k + 1 + n);
    let stem = stem_of(name);
    assert(stem =~= kind + "_"@ + d);
    lemma_last_at_is(stem, '_', k);
    assert(after_last(stem, '_') =~= d);
    // The same by the kind.
    assert(name.take(name.len() - ext.len()) =~= stem);
    assert(name.skip(name.len() - ext.len()) =~= ext);
    assert(kind.is_prefix_of(name));
    assert(kind.push('_').is_prefix_of(stem));
    assert(stem.skip(k + 1) =~= d);
}

/// Finds the last place of `c` before `end`.
fn find_last(s: &str, c: char, end: usize) -> (r: Option<usize>)
    requires
        end <= s@.len(),
    ensures
        match r {
            Some(i) => last_at(s@.take(end as int), c) == i && i < end,
            None => last_at(s@.take(end as int), c) == -1,
        },
{
    let mut i: usize = end;
    while i > 0
        invariant
            i <= end,
            end <= s@.len(),
            last_at(s@.take(end as int), c) == last_at(s@.take(i as int), c),
        decreases i,
    {
        assert(s@.take(i as int).drop_last() =~= s@.take(i - 1));
        assert(s@.take(i as int).last() == s@[i - 1]);
        if s.get_char(i - 1) == c {
            return Some(i - 1);
        }
        i = i - 1;
    }
    None
}

/// The last component of a path, where it names a file.
fn name_in(path: &str) -> (r: Option<&str>)
    ensures
        match r {
            Some(name) => file_name(path@) == Some(name@),
            None => file_name(path@) is None,
        },
{
    let mut end: usize = path.unicode_len();
    assert(path@.take(end as int) =~= path@);
    while end > 0
        invariant
            end <= path@.len(),
            file_name(path@) == file_name(path@.take(end as int)),
        decreases end,
    {
        let ghost p = path@.take(end as int);
        assert(p.last() == path@[end - 1]);
        assert(p.drop_last() =~= path@.take(end - 1));
        if path.get_char(end - 1) == '/' {
            end = end - 1;
        } else {
            let slash = find_last(path, '/', end);
            let start: usize = match slash {
                Some(i) => i + 1,
                None => 0,
            };
            let name = path.substring_char(start, end);
            assert(name@ =~= after_last(p, '/'));
            if same(name, ".") {
                match slash {
                    Some(i) => {
                        assert(p.take(i as int) =~= path@.take(i as int));
                        end = i;
                    },
                    None => {
                        return None;
                    },
                }
            } else if same(name, "..") {
                return None;
            } else {
                return Some(name);
            }
        }
    }
    None
}

/// The moment that a path ends with.
pub fn ts_from_path(path: &str) -> (r: Option<u64>)
    ensures
        r == ts_of_path(path@),
{
    match name_in(path) {
        None => None,
        Some(name) => {
            let n: usize = name.unicode_len();
            assert(name@.take(n as int) =~= name@);
            let stem = match find_last(name, '.', n) {
                Some(i) => if i > 0 {
                    name.substring_char(0, i)
                } else {
                    name
                },
                None => name,
            };
            assert(stem@ =~= stem_of(name@));
            let m: usize = stem.unicode_len();
            assert(stem@.take(m as int) =~= stem@);
            let start: usize = match find_last(stem, '_', m) {
                Some(i) => i + 1,
                None => 0,
            };
            let last = stem.substring_char(start, m);
            assert(last@ =~= after_last(stem@, '_'));
            parse_u64(last)
        },
    }
}

/// Whether a text begins with another.
fn begins_with(s: &str, prefix: &str) -> (r: bool)
    ensures
        r == prefix@.is_prefix_of(s@),
{
    let n: usize = prefix.unicode_len();
    if s.unicode_len() < n {
        false
    } else {
        let head = s.substring_char(0, n);
        assert(head@ =~= s@.subrange(0, prefix@.len() as int));
        same(head, prefix)
    }
}

/// The moment in the name of a file of a kind.
pub fn ts_from_name(name: &str, kind: &str) -> (r: Option<u64>)
    ensures
        r == ts_of_name(name@, kind@),
{
    let ext = ".msgpack";
    let n: usize = name.unicode_len();
    let e: usize = ext.unicode_len();
    if !begins_with(name, kind) || n <= e {
        return None;
    }
    let tail = name.substring_char(n - e, n);
    assert(tail@ =~= name@.skip(n - e));
    if !same(tail, ext) {
        return None;
    }
    let stem = name.substring_char(0, n - e);
    assert(stem@ =~= name@.take(n - e));
    let mut head = kind.to_owned();
    head.append("_");
    proof {
        reveal_strlit("_");
        assert(head@ =~= kind@.push('_'));
    }
    if begins_with(stem, head.as_str()) {
        let m: usize = stem.unicode_len();
        let rest = stem.substring_char(head.as_str().unicode_len(), m);
        assert(rest@ =~= stem@.skip(kind@.len() as int + 1));
        parse_u64(rest)
    } else {
        parse_u64(stem)
    }
}

/// The path of the file of a kind that was begun at a moment.
pub fn segment_path(dir: &str, kind: &str, ts: u64) -> (r: String)
    ensures
        r@ == path_of(dir@, kind@, ts),
{
    let mut s = dir.to_owned();
    s.append("/");
    s.append(kind);
    s.append("_");
    s.append(to_decimal(ts).as_str());
    s.append(".msgpack");
    s
}

/// A file in the directory of the store.
pub struct FileEntry {
    pub name: String,
    pub path: String,
}

/// A file in the directory of the store.
pub struct FileView {
    pub name: Seq<char>,
    pub path: Seq<char>,
}

impl View for FileEntry {
    type V = FileView;

    open spec fn view(&self) -> FileView {
        FileView { name: self.name@, path: self.path@ }
    }
}

/// What the files of a list are.
pub open spec fn files_of(a: Seq<FileEntry>) -> Seq<FileView> {
    a.map_values(|f: FileEntry| f@)
}

/// A path with the moment at which its file was begun.
pub struct Dated {
    pub ts: u64,
    pub path: Seq<char>,
}

/// The list with `x` put in after all that are not later.
pub open spec fn put_by_time(s: Seq<Dated>, x: Dated) -> Seq<Dated>
    decreases s.len(),
{
    if s.len() == 0 || s.last().ts <= x.ts {
        s.push(x)
    } else {
        put_by_time(s.drop_last(), x).push(s.last())
    }
}

/// The files of a kind that were begun after `since`, in order of when that was. Files of one
/// moment stay as they come.
pub open spec fn dated_since(files: Seq<FileView>, kind: Seq<char>, since: u64) -> Seq<Dated>
    decreases files.len(),
{
    if files.len() == 0 {
        Seq::empty()
    } else {
        let rest = dated_since(files.drop_last(), kind, since);
        let f = files.last();
        match ts_of_name(f.name, kind) {
            Some(ts) if ts > since => put_by_time(rest, Dated { ts, path: f.path }),
            _ => rest,
        }
    }
}

/// The paths alone.
pub open spec fn paths_of(s: Seq<Dated>) -> Seq<Seq<char>> {
    s.map_values(|d: Dated| d.path)
}

/// The list is in order of time.
pub open spec fn by_time(s: Seq<Dated>) -> bool {
    forall|i: int, j: int| 0 <= i < j < s.len() ==> (#[trigger] s[i]).ts <= (#[trigger] s[j]).ts
}

proof fn lemma_put_by_time(s: Seq<Dated>, x: Dated)
    requires
        by_time(s),
    ensures
        by_time(put_by_time(s, x)),
        put_by_time(s, x).len() == s.len() + 1,
        forall|y: Dated| #[trigger] put_by_time(s, x).contains(y) <==> s.contains(y) || y == x,
    decreases s.len(),
{
    let t = put_by_time(s, x);
    if s.len() == 0 || s.last().ts <= x.ts {
        assert(t[s.len() as int] == x);
        assert forall|y: Dated| #[trigger] t.contains(y) <==> s.contains(y) || y == x by {
            if s.contains(y) {
                let i = choose|i: int| 0 <= i < s.len() && s[i] == y;
                assert(t[i] == y);
            }
        }
    } else {
        let u = s.drop_last();
        let v = put_by_time(u, x);
        lemma_put_by_time(u, x);
        assert forall|i: int| 0 <= i < v.len() implies (#[trigger] v[i]).ts <= s.last().ts by {
            assert(v.contains(v[i]));
            if u.contains(v[i]) {
                let j = choose|j: int| 0 <= j < u.len() && u[j] == v[i];
                assert(s[j] == v[i]);
            }
        }
        assert(t[v.len() as int] == s.last());
        assert forall|y: Dated| #[trigger] t.contains(y) <==> s.contains(y) || y == x by {
            if t.contains(y) {
                let i = choose|i: int| 0 <= i < t.len() && t[i] == y;
                if i < v.len() {
                    assert(v[i] == y);
                    assert(v.contains(y));
                    if u.contains(y) {
                        let j = choose|j: int| 0 <= j < u.len() && u[j] == y;
                        assert(s[j] == y);
                    }
                } else {
                    assert(s[s.len() - 1] == y);
                }
            }
            if s.contains(y) {
                let i = choose|i: int| 0 <= i < s.len() && s[i] == y;
                if i < u.len() {
                    assert(u[i] == y);
                    assert(v.contains(y));
                    let j = choose|j: int| 0 <= j < v.len() && v[j] == y;
                    assert(t[j] == y);
                }
            }
            if y == x {
                assert(v.contains(x));
                let j = choose|j: int| 0 <= j < v.len() && v[j] == x;
                assert(t[j] == x);
            }
        }
    }
}

/// The files that are picked come in order of time, and are those of the kind that were begun after
/// `since`.
pub proof fn lemma_dated_since(files: Seq<FileView>, kind: Seq<char>, since: u64)
    ensures
        by_time(dated_since(files, kind, since)),
        forall|d: Dated| #[trigger] dated_since(files, kind, since).contains(d) <==> d.ts > since && exists|i: int|
            0 <= i < files.len() && (#[trigger] files[i]).path == d.path && ts_of_name(files[i].name, kind) == Some(d.ts),
    decreases files.len(),
{
    let t = dated_since(files, kind, since);
    if files.len() > 0 {
        let less = files.drop_last();
        let rest = dated_since(less, kind, since);
        let f = files.last();
        lemma_dated_since(less, kind, since);
        if ts_of_name(f.name, kind) matches Some(ts) && ts > since {
            lemma_put_by_time(rest, Dated { ts: ts_of_name(f.name, kind)->Some_0, path: f.path });
        }
        assert forall|d: Dated| #[trigger] t.contains(d) <==> d.ts > since && exists|i: int|
            0 <= i < files.len() && (#[trigger] files[i]).path == d.path && ts_of_name(files[i].name, kind) == Some(d.ts) by {
            if rest.contains(d) {
                let i = choose|i: int|
                    0 <= i < less.len() && (#[trigger] less[i]).path == d.path && ts_of_name(less[i].name, kind) == Some(d.ts);
                assert(files[i] == less[i]);
            }
            if d.ts > since && exists|i: int|
                0 <= i < files.len() && (#[trigger] files[i]).path == d.path && ts_of_name(files[i].name, kind) == Some(d.ts) {
                let i = choose|i: int|
                    0 <= i < files.len() && (#[trigger] files[i]).path == d.path && ts_of_name(files[i].name, kind) == Some(
                        d.ts,
                    );
                if i < less.len() {
                    assert(less[i] == files[i]);
                    assert(rest.contains(d));
                } else {
                    assert(files[i] == f);
                }
            }
            if t.contains(d) && !rest.contains(d) {
                assert(files[files.len() - 1] == f);
            }
        }
    }
}

/// A file that was begun at a moment after `since` is found by its name, whatever else is there. One
/// that was begun at `since` or before is not.
pub proof fn lemma_file_found(files: Seq<FileView>, kind: Seq<char>, ts: u64, since: u64, i: int)
    requires
        !kind.contains('/'),
        0 <= i < files.len(),
        files[i].name == kind + "_"@ + decimal(ts as nat) + ".msgpack"@,
    ensures
        dated_since(files, kind, since).contains(Dated { ts, path: files[i].path }) <==> ts > since,
{
    lemma_path_keeps_ts(Seq::empty(), kind, ts);
    lemma_dated_since(files, kind, since);
}

/// A path with the moment at which its file was begun.
struct DatedPath {
    ts: u64,
    path: String,
}

spec fn dated_of(a: Seq<DatedPath>) -> Seq<Dated> {
    a.map_values(|d: DatedPath| Dated { ts: d.ts, path: d.path@ })
}

/// Puts a path in after all that are not later.
fn put(list: &mut Vec<DatedPath>, x: DatedPath)
    ensures
        dated_of(final(list)@) == put_by_time(dated_of(old(list)@), Dated { ts: x.ts, path: x.path@ }),
{
    let ghost all = dated_of(list@);
    let ghost d = Dated { ts: x.ts, path: x.path@ };
    let mut at: usize = list.len();
    assert(all.take(at as int) =~= all);
    assert(put_by_time(all, d) =~= put_by_time(all.take(at as int), d) + all.skip(at as int));
    while at > 0 && list[at - 1].ts > x.ts
        invariant
            at <= list@.len(),
            all == dated_of(list@),
            d == (Dated { ts: x.ts, path: x.path@ }),
            put_by_time(all, d) == put_by_time(all.take(at as int), d) + all.skip(at as int),
        decreases at,
    {
        proof {
            let head = all.take(at as int);
            assert(head.last() == all[at - 1]);
            assert(head.drop_last() =~= all.take(at - 1));
            assert(put_by_time(head, d) + all.skip(at as int) =~= put_by_time(all.take(at - 1), d) + all.skip(at - 1));
        }
        at = at - 1;
    }
    proof {
        if at > 0 {
            assert(all.take(at as int).last() == all[at - 1]);
        }
        assert(put_by_time(all.take(at as int), d) == all.take(at as int).push(d));
        assert(put_by_time(all, d) =~= all.insert(at as int, d));
    }
    list.insert(at, x);
    assert(dated_of(list@) =~= all.insert(at as int, d));
}

/// The paths of the files of a kind that were begun after `since`, in order of when that was.
pub fn sorted_files_since(files: &Vec<FileEntry>, kind: &str, since: u64) -> (r: Vec<String>)
    ensures
        texts(r@) == paths_of(dated_since(files_of(files@), kind@, since)),
{
    let ghost all = files_of(files@);
    let mut list: Vec<DatedPath> = Vec::new();
    let mut i: usize = 0;
    assert(dated_of(list@) =~= dated_since(all.take(0), kind@, since));
    while i < files.len()
        invariant
            i <= files.len(),
            all == files_of(files@),
            dated_of(list@) == dated_since(all.take(i as int), kind@, since),
        decreases files.len() - i,
    {
        let f = &files[i];
        assert(all.take(i + 1).drop_last() =~= all.take(i as int));
        assert(all.take(i + 1).last() == f@);
        if let Some(ts) = ts_from_name(f.name.as_str(), kind) {
            if ts > since {
                put(&mut list, DatedPath { ts, path: f.path.clone() });
            }
        }
        i = i + 1;
    }
    assert(all.take(i as int) =~= all);
    let mut out: Vec<String> = Vec::new();
    let mut k: usize = 0;
    while k < list.len()
        invariant
            k <= list.len(),
            out@.len() == k,
            forall|j: int| 0 <= j < k ==> (#[trigger] out@[j])@ == list@[j].path@,
        decreases list.len() - k,
    {
        out.push(list[k].path.clone());
        k = k + 1;
    }
    assert(texts(out@) =~= paths_of(dated_of(list@)));
    out
}

/// The path of the last file of a kind, where there is one. A file begun at moment zero does not
/// count.
pub open spec fn latest(files: Seq<FileView>, kind: Seq<char>) -> Option<Seq<char>> {
    let s = dated_since(files, kind, 0);
    if s.len() == 0 {
        None
    } else {
        Some(s.last().path)
    }
}

/// The path of the last file of a kind.
pub fn latest_file(files: &Vec<FileEntry>, kind: &str) -> (r: Option<String>)
    ensures
        some_text(r) == latest(files_of(files@), kind@),
{
    let mut list = sorted_files_since(files, kind, 0);
    let ghost s = dated_since(files_of(files@), kind@, 0);
    assert(texts(list@).len() == s.len());
    if list.len() == 0 {
        None
    } else {
        assert(texts(list@)[list@.len() - 1] == s.last().path);
        list.pop()
    }
}

/// The files with other names than that of a path.
pub open spec fn others(files: Seq<FileView>, path: Seq<char>) -> Seq<FileView> {
    files.filter(|f: FileView| file_name(path) != Some(f.name))
}

/// The snapshots that the one at a path takes the place of.
pub open spec fn outdated(files: Seq<FileView>, path: Seq<char>) -> Seq<Seq<char>> {
    paths_of(dated_since(others(files, path), "snap"@, 0))
}

/// The paths of the snapshots that the one at a path takes the place of.
pub fn outdated_files(files: &Vec<FileEntry>, path: &str) -> (r: Vec<String>)
    ensures
        texts(r@) == outdated(files_of(files@), path@),
{
    let name = name_in(path);
    let ghost all = files_of(files@);
    let ghost keep = |f: FileView| file_name(path@) != Some(f.name);
    let mut rest: Vec<FileEntry> = Vec::new();
    let mut i: usize = 0;
    proof {
        reveal(Seq::filter);
        assert(all.take(0) =~= Seq::<FileView>::empty());
        assert(files_of(rest@) =~= all.take(0).filter(keep));
    }
    while i < files.len()
        invariant
            i <= files.len(),
            all == files_of(files@),
            keep == (|f: FileView| file_name(path@) != Some(f.name)),
            match name {
                Some(n) => file_name(path@) == Some(n@),
                None => file_name(path@) is None,
            },
            files_of(rest@) == all.take(i as int).filter(keep),
        decreases files.len() - i,
    {
        let f = &files[i];
        proof {
            reveal(Seq::filter);
            assert(all.take(i + 1).drop_last() =~= all.take(i as int));
            assert(all.take(i + 1).last() == f@);
        }
        let other = match name {
            Some(n) => !same(f.name.as_str(), n),
            None => true,
        };
        if other {
            let ghost before = rest@;
            let g = FileEntry { name: f.name.clone(), path: f.path.clone() };
            rest.push(g);
            assert(files_of(rest@) =~= files_of(before).push(g@));
        }
        i = i + 1;
    }
    assert(all.take(i as int) =~= all);
    sorted_files_since(&rest, "snap", 0)
}

/// A snapshot does not take its own place: no file with its name is removed once it has been
/// written, and each other snapshot is.
pub proof fn lemma_snapshot_stays(files: Seq<FileView>, path: Seq<char>, i: int)
    requires
        0 <= i < files.len(),
        forall|j: int| 0 <= j < files.len() && (#[trigger] files[j]).path == files[i].path ==> files[j].name == files[i].name,
    ensures
        outdated(files, path).contains(files[i].path) <==> file_name(path) != Some(files[i].name) && (ts_of_name(
            files[i].name,
            "snap"@,
        ) matches Some(ts) && ts > 0),
{
    let keep = |f: FileView| file_name(path) != Some(f.name);
    let rest = others(files, path);
    let found = dated_since(rest, "snap"@, 0);
    let all = paths_of(found);
    lemma_dated_since(rest, "snap"@, 0);
    if all.contains(files[i].path) {
        let k = choose|k: int| 0 <= k < all.len() && all[k] == files[i].path;
        assert(found.contains(found[k]));
        let m = choose|m: int|
            0 <= m < rest.len() && (#[trigger] rest[m]).path == found[k].path && ts_of_name(rest[m].name, "snap"@) == Some(
                found[k].ts,
            );
        files.lemma_filter_pred(keep, m);
        lemma_kept_file(files, keep, m);
        let j = choose|j: int| 0 <= j < files.len() && files[j] == rest[m];
        assert(files[j].path == files[i].path);
    }
    if keep(files[i]) {
        if let Some(ts) = ts_of_name(files[i].name, "snap"@) {
            if ts > 0 {
                files.lemma_filter_contains(keep, i);
                let m = choose|m: int| 0 <= m < rest.len() && rest[m] == files[i];
                let d = Dated { ts, path: files[i].path };
                assert(rest[m].path == d.path);
                assert(found.contains(d));
                let k = choose|k: int| 0 <= k < found.len() && found[k] == d;
                assert(all[k] == files[i].path);
            }
        }
    }
}

/// What is picked from a list is in it.
proof fn lemma_kept_file(files: Seq<FileView>, keep: spec_fn(FileView) -> bool, i: int)
    requires
        0 <= i < files.filter(keep).len(),
    ensures
        files.contains(files.filter(keep)[i]),
    decreases files.len(),
{
    reveal(Seq::filter);
    if files.len() > 0 {
        let less = files.drop_last();
        if i < less.filter(keep).len() {
            lemma_kept_file(less, keep, i);
            let j = choose|j: int| 0 <= j < less.len() && less[j] == less.filter(keep)[i];
            assert(files[j] == files.filter(keep)[i]);
        } else {
            assert(files[files.len() - 1] == files.filter(keep)[i]);
        }
    }
}

/// The file that a path names: what comes after the last slash. A slash at the end does not matter, nor
/// does a last component that is a dot; two dots name no file.
pub proof fn lemma_file_named(dir: Seq<char>, name: Seq<char>)
    requires
        name.len() > 0,
        !name.contains('/'),
    ensures
        name != "."@ && name != ".."@ ==> file_name(dir + seq!['/'] + name) == Some(name) && file_name(name) == Some(name),
        file_name(dir.push('/')) == file_name(dir),
        file_name(dir + seq!['/', '.']) == file_name(dir),
        file_name(dir + seq!['/', '.', '.']) is None,
        file_name(Seq::empty()) is None,
{
    reveal_strlit(".");
    reveal_strlit("..");
    assert forall|j: int| 0 <= j < name.len() implies name[j] != '/' by {
        assert(name.contains(name[j]));
    }
    let path = dir + seq!['/'] + name;
    let n = dir.len() as int;
    assert(path.last() == name.last());
    assert(name.last() == name[name.len() - 1]);
    assert(path[n] == '/');
    assert forall|j: int| n < j < path.len() implies path[j] != '/' by {
        assert(path[j] == name[j - n - 1]);
    }
    lemma_last_at_is(path, '/', n);
    assert(after_last(path, '/') =~= name);
    lemma_last_at(name, '/');
    if last_at(name, '/') >= 0 {
        assert(name[last_at(name, '/')] == '/');
    }
    assert(after_last(name, '/') =~= name);
    let slash = dir.push('/');
    assert(slash.drop_last() =~= dir);
    let dot = dir + seq!['/', '.'];
    lemma_last_at_is(dot, '/', n);
    assert(after_last(dot, '/') =~= "."@);
    assert(dot.take(n) =~= dir);
    assert(dot.last() == '.');
    let dots = dir + seq!['/', '.', '.'];
    lemma_last_at_is(dots, '/', n);
    assert(after_last(dots, '/') =~= ".."@);
    assert("."@.len() == 1 && ".."@.len() == 2);
    assert(dots.last() == '.');
}

/// The moment in a path is that after the last underscore of its file name, up to the last dot where there
/// is one, whatever comes before the underscore and after the dot.
pub proof fn lemma_moment_in_path(dir: Seq<char>, before: Seq<char>, digits: Seq<char>, ext: Seq<char>)
    requires
        !before.contains('/'),
        !digits.contains('/') && !digits.contains('_') && !digits.contains('.'),
        !ext.contains('/') && !ext.contains('.'),
    ensures
        ts_of_path(dir + seq!['/'] + (before + seq!['_'] + digits + seq!['.'] + ext)) == parsed(digits),
{
    reveal_strlit(".");
    reveal_strlit("..");
    let name = before + seq!['_'] + digits + seq!['.'] + ext;
    let (k, n) = (before.len() as int, digits.len() as int);
    assert forall|j: int| 0 <= j < name.len() implies #[trigger] name[j] != '/' by {
        if j < k {
            assert(before.contains(before[j]));
        } else if k < j < k + 1 + n {
            assert(digits.contains(digits[j - k - 1]));
        } else if j > k + 1 + n {
            assert(ext.contains(ext[j - k - n - 2]));
        }
    }
    assert(name[k] == '_' && name[k + 1 + n] == '.');
    assert(name != "."@ && name != ".."@) by {
        assert("."@.len() == 1 && ".."@.len() == 2);
        assert(".."@[0] == '.');
        if name == ".."@ {
            assert(k == 0);
        }
    }
    lemma_file_named(dir, name);
    assert forall|j: int| k + 1 + n < j < name.len() implies #[trigger] name[j] != '.' by {
        assert(ext.contains(ext[j - k - n - 2]));
    }
    lemma_last_at_is(name, '.', k + 1 + n);
    let stem = stem_of(name);
    assert(stem =~= before + seq!['_'] + digits);
    assert forall|j: int| k < j < stem.len() implies #[trigger] stem[j] != '_' by {
        assert(digits.contains(digits[j - k - 1]));
    }
    lemma_last_at_is(stem, '_', k);
    assert(after_last(stem, '_') =~= digits);
}

/// A name that does not begin with the kind, or does not end with the extension of a file of the node, has
/// no moment.
pub proof fn lemma_no_moment(name: Seq<char>, kind: Seq<char>)
    ensures
        !kind.is_prefix_of(name) ==> ts_of_name(name, kind) is None,
        name.len() <= 8 ==> ts_of_name(name, kind) is None,
        name.len() > 8 && name.skip(name.len() - 8) != ".msgpack"@ ==> ts_of_name(name, kind) is None,
{
    reveal_strlit(".msgpack");
    assert(".msgpack"@.len() == 8);
}

} // verus!
