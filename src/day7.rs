//! No space left on device: directory sizes from a terminal session.
use vstd::prelude::*;
use vstd::string::StringSliceAdditionalSpecFns;
use crate::AOCSolutions;
use crate::text::{lines, trim, split, span, spans_of, is_nat_text, int_value, line_spans, trim_span,
    split_spans, parse_nat, span_is};

verus! {

/// A directory by its full path, with the sizes of the files below it and
/// whether its listing has been read.
pub struct DirEntry {
    pub path: Vec<u8>,
    pub size: u64,
    pub evaluated: bool,
}

/// What a directory entry is, in the session's terms.
pub type EntryView = (Seq<u8>, int, bool);

pub open spec fn entry_view(e: DirEntry) -> EntryView {
    (e.path@, e.size as int, e.evaluated)
}

pub open spec fn entries_view(es: Seq<DirEntry>) -> Seq<EntryView> {
    es.map_values(|e: DirEntry| entry_view(e))
}

/// Where the directory `p` stands in the table, or -1.
pub open spec fn find(ds: Seq<EntryView>, p: Seq<u8>) -> int
    decreases ds.len(),
{
    if ds.len() == 0 {
        -1
    } else if ds.last().0 == p {
        ds.len() - 1
    } else {
        find(ds.drop_last(), p)
    }
}

pub open spec fn root() -> Seq<u8> {
    seq![47u8]
}

/// The directory `d` holds the working directory `cwd` (or is it): the
/// root holds all, and any other directory its own path and what lies below.
pub open spec fn holds_dir(d: Seq<u8>, cwd: Seq<u8>) -> bool {
    d == root() || (d.len() > 0 && d.len() <= cwd.len() && cwd.subrange(0, d.len() as int) == d && (d.len() == cwd.len() || cwd[d.len() as int] == 47u8))
}

/// The last place of `/` in `s`, or -1.
pub open spec fn last_slash(s: Seq<u8>) -> int
    decreases s.len(),
{
    if s.len() == 0 {
        -1
    } else if s.last() == 47u8 {
        s.len() - 1
    } else {
        last_slash(s.drop_last())
    }
}

/// The session's state: the working directory and the table of directories.
pub type Session = (Seq<u8>, Seq<EntryView>);

pub open spec fn mark_evaluated(ds: Seq<EntryView>, cwd: Seq<u8>) -> Seq<EntryView> {
    let i = find(ds, cwd);
    if i >= 0 {
        ds.update(i, (ds[i].0, ds[i].1, true))
    } else {
        ds
    }
}

pub open spec fn add_size(ds: Seq<EntryView>, cwd: Seq<u8>, n: int) -> Seq<EntryView> {
    Seq::new(ds.len(), |i: int| if holds_dir(ds[i].0, cwd) { (ds[i].0, ds[i].1 + n, ds[i].2) } else { ds[i] })
}

pub open spec fn words(l: Seq<u8>) -> Seq<Seq<u8>> {
    split(trim(l), 32u8)
}

pub open spec fn is_command(l: Seq<u8>) -> bool {
    l.len() > 0 && l[0] == 36u8
}

pub open spec fn cd_word() -> Seq<u8> {
    seq![99u8, 100u8]
}

pub open spec fn ls_word() -> Seq<u8> {
    seq![108u8, 115u8]
}

pub open spec fn up_word() -> Seq<u8> {
    seq![46u8, 46u8]
}

pub open spec fn dir_word() -> Seq<u8> {
    seq![100u8, 105u8, 114u8]
}

/// A line that the session can take in the state `st`: `$ cd ..` (not at
/// the top), `$ cd /`, `$ cd name`, `$ ls`; or, while the working directory
/// is in the table, `dir name` or `size name` (no `$` anywhere).
pub open spec fn line_ok(st: Session, l: Seq<u8>) -> bool {
    let w = words(l);
    if is_command(l) {
        w.len() >= 2 && ((w[1] == cd_word() && w.len() >= 3 && (w[2] == up_word() ==> (st.0 != root() ==> last_slash(st.0) >= 0))) || (w[1] == ls_word() && w.len() == 2))
    } else {
        &&& forall|i: int| 0 <= i < l.len() ==> l[i] != 36u8
        &&& find(st.1, st.0) >= 0
        &&& (!st.1[find(st.1, st.0)].2 ==> (w[0] == dir_word() || (is_nat_text(w[0]) && int_value(w[0]) <= u64::MAX)))
    }
}

/// The state after one line.
pub open spec fn step(st: Session, l: Seq<u8>) -> Session {
    let (cwd, ds) = st;
    let w = words(l);
    if is_command(l) {
        let ds1 = mark_evaluated(ds, cwd);
        if w[1] == cd_word() {
            if w[2] == up_word() {
                (if cwd != root() { cwd.subrange(0, last_slash(cwd)) } else { cwd }, ds1)
            } else if w[2] == root() {
                (root(), ds1)
            } else {
                (if cwd != root() { cwd.push(47u8) + w[2] } else { cwd + w[2] }, ds1)
            }
        } else {
            (cwd, if find(ds1, cwd) >= 0 { ds1 } else { ds1.push((cwd, 0, false)) })
        }
    } else if !ds[find(ds, cwd)].2 && w[0] != dir_word() {
        (cwd, add_size(ds, cwd, int_value(w[0])))
    } else {
        st
    }
}

/// The session run over `ls`; `None` where a line cannot be taken.
pub open spec fn run(st: Session, ls: Seq<Seq<u8>>) -> Option<Session>
    decreases ls.len(),
{
    if ls.len() == 0 {
        Some(st)
    } else if !line_ok(st, ls[0]) {
        None
    } else {
        run(step(st, ls[0]), ls.drop_first())
    }
}

/// The table after the whole session: it starts with the empty path, and
/// the working directory is marked read at the end.
pub open spec fn table(s: Seq<u8>) -> Option<Seq<EntryView>> {
    match run((seq![], seq![(seq![], 0, false)]), lines(s)) {
        Some(st) => Some(mark_evaluated(st.1, st.0)),
        None => None,
    }
}

/// The sum of the numbers that start the lines without `$`, a bound on every size.
pub open spec fn listed_total(ls: Seq<Seq<u8>>) -> int
    decreases ls.len(),
{
    if ls.len() == 0 {
        0
    } else {
        listed_total(ls.drop_last()) + if !is_command(ls.last()) && is_nat_text(words(ls.last())[0]) {
            int_value(words(ls.last())[0])
        } else {
            0
        }
    }
}

/// Where the directory `p` stands in the table (the last such place).
fn find_entry(ds: &Vec<DirEntry>, p: &Vec<u8>) -> (r: Option<usize>)
    ensures
        match r {
            Some(i) => find(entries_view(ds@), p@) == i,
            None => find(entries_view(ds@), p@) == -1,
        },
        r matches Some(i) ==> i < ds@.len(),
{
    let mut i = ds.len();
    proof {
        assert(entries_view(ds@).subrange(0, ds@.len() as int) =~= entries_view(ds@));
    }
    while i > 0
        invariant
            0 <= i <= ds@.len(),
            find(entries_view(ds@), p@) == find(entries_view(ds@).subrange(0, i as int), p@),
        decreases i,
    {
        let ghost pre = entries_view(ds@).subrange(0, i as int);
        proof {
            assert(pre.drop_last() =~= entries_view(ds@).subrange(0, i - 1));
        }
        if bytes_eq(&ds[i - 1].path, p) {
            return Some(i - 1);
        }
        i = i - 1;
    }
    None
}

fn bytes_eq(a: &Vec<u8>, b: &Vec<u8>) -> (r: bool)
    ensures
        r == (a@ == b@),
{
    if a.len() != b.len() {
        return false;
    }
    let mut i: usize = 0;
    while i < a.len()
        invariant
            a@.len() == b@.len(),
            0 <= i <= a@.len(),
            forall|j: int| 0 <= j < i ==> a@[j] == b@[j],
        decreases a@.len() - i,
    {
        if a[i] != b[i] {
            return false;
        }
        i = i + 1;
    }
    assert(a@ =~= b@);
    true
}

/// Whether the directory `d` holds the working directory `cwd`.
fn holds_dir_exec(d: &Vec<u8>, cwd: &Vec<u8>) -> (r: bool)
    ensures
        r == holds_dir(d@, cwd@),
{
    if d.len() == 1 && d[0] == 47u8 {
        assert(d@ =~= root());
        return true;
    }
    proof {
        if d@ == root() {
            assert(d@.len() == 1 && d@[0] == 47u8);
            assert(false);
        }
        assert(d@ != root());
    }
    if d.len() == 0 || d.len() > cwd.len() {
        return false;
    }
    let mut i: usize = 0;
    while i < d.len()
        invariant
            0 < d@.len() <= cwd@.len(),
            d@ != root(),
            0 <= i <= d@.len(),
            forall|j: int| 0 <= j < i ==> d@[j] == cwd@[j],
        decreases d@.len() - i,
    {
        if d[i] != cwd[i] {
            assert(cwd@.subrange(0, d@.len() as int)[i as int] != d@[i as int]);
            return false;
        }
        i = i + 1;
    }
    assert(cwd@.subrange(0, d@.len() as int) =~= d@);
    d.len() == cwd.len() || cwd[d.len()] == 47u8
}

fn mark_evaluated_exec(ds: &mut Vec<DirEntry>, cwd: &Vec<u8>)
    ensures
        entries_view(final(ds)@) == mark_evaluated(entries_view(old(ds)@), cwd@),
{
    match find_entry(ds, cwd) {
        Some(i) => {
            let mut e = DirEntry { path: Vec::new(), size: 0, evaluated: false };
            ds.set_and_swap(i, &mut e);
            e.evaluated = true;
            ds.set_and_swap(i, &mut e);
            proof {
                assert(entries_view(ds@) =~= mark_evaluated(entries_view(old(ds)@), cwd@));
            }
        },
        None => {},
    }
}

pub struct Day7;

impl Day7 {
    /// The directory table of a session; see `table`.
    pub fn parse(input: &[u8]) -> (r: Vec<DirEntry>)
        requires
            table(input@) is Some,
            listed_total(lines(input@)) <= 0x4_0000_0000_0000,
        ensures
            entries_view(r@) == table(input@).unwrap(),
            forall|k: int| 0 <= k < r@.len() ==> (#[trigger] r@[k]).size <= 0x4_0000_0000_0000,
            distinct_paths(entries_view(r@)),
    {
        let ghost ls = lines(input@);
        let spans = line_spans(input);
        let mut cwd: Vec<u8> = Vec::new();
        let mut fs: Vec<DirEntry> = Vec::new();
        fs.push(DirEntry { path: Vec::new(), size: 0, evaluated: false });
        let ghost init: Session = (seq![], seq![(seq![], 0, false)]);
        proof {
            assert(cwd@ =~= Seq::<u8>::empty());
            assert(entries_view(fs@) =~= seq![(Seq::<u8>::empty(), 0int, false)]);
            assert(ls.subrange(0, ls.len() as int) =~= ls);
            assert(ls.subrange(0, 0) =~= Seq::<Seq<u8>>::empty());
        }
        let cd: Vec<u8> = vec![99u8, 100u8];
        let lsw: Vec<u8> = vec![108u8, 115u8];
        let up: Vec<u8> = vec![46u8, 46u8];
        let rootw: Vec<u8> = vec![47u8];
        let dirw: Vec<u8> = vec![100u8, 105u8, 114u8];
        proof {
            assert(cd@ =~= cd_word());
            assert(lsw@ =~= ls_word());
            assert(up@ =~= up_word());
            assert(rootw@ =~= root());
            assert(dirw@ =~= dir_word());
        }
        let mut k: usize = 0;
        while k < spans.len()
            invariant
                ls == lines(input@),
                spans_of(input@, spans@, ls),
                cd@ == cd_word() && lsw@ == ls_word() && up@ == up_word() && rootw@ == root() && dirw@ == dir_word(),
                0 <= k <= ls.len(),
                run(init, ls) == run((cwd@, entries_view(fs@)), ls.subrange(k as int, ls.len() as int)),
                run(init, ls) is Some,
                listed_total(ls) <= 0x4_0000_0000_0000,
                forall|j: int| 0 <= j < fs@.len() ==> (#[trigger] entries_view(fs@)[j]).1 <= listed_total(ls.subrange(0, k as int)),
                distinct_paths(entries_view(fs@)),
            decreases spans@.len() - k,
        {
            let (a, b) = spans[k];
            let ghost l = ls[k as int];
            let ghost st: Session = (cwd@, entries_view(fs@));
            let ghost rest = ls.subrange(k as int, ls.len() as int);
            proof {
                assert(span(input@, a, b) == l);
                assert(rest[0] == l);
                assert(rest.drop_first() =~= ls.subrange(k + 1, ls.len() as int));
                assert(line_ok(st, l));
                lemma_listed_prefix(ls, k + 1);
                assert(ls.subrange(0, k + 1).drop_last() =~= ls.subrange(0, k as int));
                assert(ls.subrange(0, k + 1).last() == l);
            }
            let (x, y) = trim_span(input, a, b);
            let w = split_spans(input, x, y, 32u8);
            proof {
                assert(spans_of(input@, w@, words(l)));
                crate::text::lemma_split_nonempty(trim(l), 32u8, 32u8);
            }
            proof {
                assert(listed_total(ls.subrange(0, k as int)) <= listed_total(ls.subrange(0, k + 1)));
            }
            if b > a && input[a] == 36u8 {
                proof {
                    assert(l[0] == input@[a as int]);
                    lemma_mark_sizes(entries_view(fs@), cwd@);
                    lemma_mark_paths(entries_view(fs@), cwd@);
                }
                let ghost before_mark = entries_view(fs@);
                mark_evaluated_exec(&mut fs, &cwd);
                proof {
                    assert forall|x: int, y: int| 0 <= x < y < fs@.len() implies (#[trigger] entries_view(fs@)[x]).0 != (#[trigger] entries_view(fs@)[y]).0 by {
                        assert(before_mark[x].0 != before_mark[y].0);
                    }
                }
                if span_is(input, w[1].0, w[1].1, &cd) {
                    if span_is(input, w[2].0, w[2].1, &up) {
                        if !bytes_eq(&cwd, &rootw) {
                            let cut = last_slash_exec(&cwd);
                            let mut nc: Vec<u8> = Vec::new();
                            let mut i: usize = 0;
                            while i < cut
                                invariant
                                    0 <= i <= cut < cwd@.len(),
                                    nc@ == cwd@.subrange(0, i as int),
                                decreases cut - i,
                            {
                                nc.push(cwd[i]);
                                proof {
                                    assert(nc@ =~= cwd@.subrange(0, i + 1));
                                }
                                i = i + 1;
                            }
                            cwd = nc;
                        }
                    } else if span_is(input, w[2].0, w[2].1, &rootw) {
                        cwd = vec![47u8];
                        proof {
                            assert(cwd@ =~= root());
                        }
                    } else {
                        let ghost old_cwd = cwd@;
                        if !bytes_eq(&cwd, &rootw) {
                            cwd.push(47u8);
                        }
                        let (n0, n1) = w[2];
                        let mut i = n0;
                        let ghost base = cwd@;
                        proof {
                            assert(span(input@, n0, n0) =~= Seq::<u8>::empty());
                            assert(cwd@ =~= base + span(input@, n0, n0));
                        }
                        while i < n1
                            invariant
                                n0 <= i <= n1 <= input@.len(),
                                cwd@ == base + span(input@, n0, i),
                            decreases n1 - i,
                        {
                            cwd.push(input[i]);
                            proof {
                                assert(cwd@ =~= base + span(input@, n0, (i + 1) as usize));
                            }
                            i = i + 1;
                        }
                    }
                } else {
                    let found = find_entry(&fs, &cwd);
                    proof {
                        if found is None {
                            lemma_find_absent(entries_view(fs@), cwd@);
                        }
                    }
                    if found.is_none() {
                        let mut p: Vec<u8> = Vec::new();
                        let mut i: usize = 0;
                        while i < cwd.len()
                            invariant
                                0 <= i <= cwd@.len(),
                                p@ == cwd@.subrange(0, i as int),
                            decreases cwd@.len() - i,
                        {
                            p.push(cwd[i]);
                            proof {
                                assert(p@ =~= cwd@.subrange(0, i + 1));
                            }
                            i = i + 1;
                        }
                        proof {
                            assert(p@ =~= cwd@);
                        }
                        let ghost pre = entries_view(fs@);
                        fs.push(DirEntry { path: p, size: 0, evaluated: false });
                        proof {
                            assert(entries_view(fs@) =~= pre.push((cwd@, 0, false)));
                        assert forall|x: int, y: int| 0 <= x < y < fs@.len() implies (#[trigger] entries_view(fs@)[x]).0 != (#[trigger] entries_view(fs@)[y]).0 by {
                            if y == pre.len() {
                                assert(entries_view(fs@)[x] == pre[x]);
                            } else {
                                assert(entries_view(fs@)[x] == pre[x] && entries_view(fs@)[y] == pre[y]);
                            }
                        }
                            assert forall|j: int| 0 <= j < fs@.len() implies (#[trigger] entries_view(fs@)[j]).1 <= listed_total(ls.subrange(0, k + 1)) by {
                                if j < pre.len() {
                                    assert(entries_view(fs@)[j] == pre[j]);
                                }
                            }
                        }
                    }
                }
            } else {
                proof {
                    if b > a {
                        assert(l[0] == input@[a as int]);
                    }
                }
                let i = find_entry(&fs, &cwd).unwrap();
                if !fs[i].evaluated && !span_is(input, w[0].0, w[0].1, &dirw) {
                    let n = parse_nat(input, w[0].0, w[0].1).unwrap();
                    let ghost before = entries_view(fs@);
                    proof {
                        assert(n as int + listed_total(ls.subrange(0, k as int)) == listed_total(ls.subrange(0, k + 1)));
                        assert forall|q: int| 0 <= q < fs@.len() implies (#[trigger] fs@[q]).size + n <= u64::MAX by {
                            assert(entries_view(fs@)[q].1 == fs@[q].size);
                        }
                    }
                    Day7::update_all_sizes(n, &cwd, &mut fs);
                    proof {
                        assert(entries_view(fs@) == add_size(before, cwd@, n as int));
                        assert(entries_view(fs@).len() == before.len());
                        assert forall|x: int, y: int| 0 <= x < y < fs@.len() implies (#[trigger] entries_view(fs@)[x]).0 != (#[trigger] entries_view(fs@)[y]).0 by {
                            assert(entries_view(fs@)[x].0 == before[x].0);
                            assert(entries_view(fs@)[y].0 == before[y].0);
                            assert(before[x].0 != before[y].0);
                        }
                    }
                    proof {
                        assert(entries_view(fs@) =~= add_size(before, cwd@, n as int));
                        assert forall|q: int| 0 <= q < fs@.len() implies #[trigger] entries_view(fs@)[q].1 <= listed_total(ls.subrange(0, k + 1)) by {
                            assert(before[q].1 <= listed_total(ls.subrange(0, k as int)));
                        }
                    }
                }
            }
            proof {
                assert((cwd@, entries_view(fs@)) == step(st, l));
            }
            k = k + 1;
        }
        let ghost pre = entries_view(fs@);
        proof {
            lemma_mark_sizes(pre, cwd@);
            lemma_mark_paths(pre, cwd@);
        }
        mark_evaluated_exec(&mut fs, &cwd);
        proof {
            assert forall|x: int, y: int| 0 <= x < y < fs@.len() implies (#[trigger] entries_view(fs@)[x]).0 != (#[trigger] entries_view(fs@)[y]).0 by {
                assert(pre[x].0 != pre[y].0);
            }
        }
        proof {
            assert(ls.subrange(k as int, ls.len() as int).len() == 0);
            lemma_listed_prefix(ls, k as int);
            assert forall|j: int| 0 <= j < fs@.len() implies (#[trigger] fs@[j]).size <= 0x4_0000_0000_0000 by {
                assert(entries_view(fs@)[j].1 == pre[j].1);
                assert(fs@[j].size == entries_view(fs@)[j].1);
            }
        }
        fs
    }

    /// Adds `delta` to the size of every directory that holds the working directory `cwd`.
    pub fn update_all_sizes(delta: u64, cwd: &Vec<u8>, fs: &mut Vec<DirEntry>)
        requires
            forall|q: int| 0 <= q < old(fs)@.len() ==> (#[trigger] old(fs)@[q]).size + delta <= u64::MAX,
        ensures
            entries_view(final(fs)@) == add_size(entries_view(old(fs)@), cwd@, delta as int),
    {
        let ghost before = entries_view(fs@);
        let mut j: usize = 0;
        while j < fs.len()
            invariant
                0 <= j <= fs@.len(),
                before.len() == fs@.len(),
                before == entries_view(old(fs)@),
                forall|q: int| 0 <= q < j ==> (#[trigger] entries_view(fs@)[q]) == if holds_dir(before[q].0, cwd@) { (before[q].0, before[q].1 + delta, before[q].2) } else { before[q] },
                forall|q: int| j <= q < fs@.len() ==> (#[trigger] entries_view(fs@)[q]) == before[q],
                forall|q: int| 0 <= q < before.len() ==> (#[trigger] before[q]).1 + delta <= u64::MAX,
            decreases fs@.len() - j,
        {
            let ghost pre = fs@;
            proof {
                assert(entries_view(pre)[j as int] == before[j as int]);
                assert(old(fs)@[j as int].size == before[j as int].1);
            }
            if holds_dir_exec(&fs[j].path, cwd) {
                let mut e = DirEntry { path: Vec::new(), size: 0, evaluated: false };
                fs.set_and_swap(j, &mut e);
                e.size = e.size + delta;
                fs.set_and_swap(j, &mut e);
                proof {
                    assert forall|q: int| 0 <= q < fs@.len() && q != j implies fs@[q] == pre[q] by {}
                    assert(entries_view(fs@)[j as int] == (before[j as int].0, before[j as int].1 + delta, before[j as int].2));
                    assert forall|q: int| 0 <= q < fs@.len() && q != j implies #[trigger] entries_view(fs@)[q] == entries_view(pre)[q] by {}
                }
            }
            j = j + 1;
        }
        proof {
            assert(entries_view(fs@) =~= add_size(before, cwd@, delta as int));
        }
    }
}

fn last_slash_exec(s: &Vec<u8>) -> (r: usize)
    requires
        last_slash(s@) >= 0,
    ensures
        r == last_slash(s@),
        r < s@.len(),
{
    let mut i = s.len();
    proof {
        assert(s@.subrange(0, s@.len() as int) =~= s@);
    }
    while i > 0
        invariant
            0 <= i <= s@.len(),
            last_slash(s@) == last_slash(s@.subrange(0, i as int)),
        decreases i,
    {
        proof {
            assert(s@.subrange(0, i as int).drop_last() =~= s@.subrange(0, i - 1));
        }
        if s[i - 1] == 47u8 {
            return i - 1;
        }
        i = i - 1;
    }
    proof {
        assert(s@.subrange(0, 0).len() == 0);
    }
    0
}

/// No path stands twice in the table.
pub open spec fn distinct_paths(ds: Seq<EntryView>) -> bool {
    forall|a: int, b: int| 0 <= a < b < ds.len() ==> (#[trigger] ds[a]).0 != (#[trigger] ds[b]).0
}

pub proof fn lemma_find_absent(ds: Seq<EntryView>, p: Seq<u8>)
    requires
        find(ds, p) == -1,
    ensures
        forall|k: int| 0 <= k < ds.len() ==> (#[trigger] ds[k]).0 != p,
    decreases ds.len(),
{
    if ds.len() > 0 {
        lemma_find_absent(ds.drop_last(), p);
        assert forall|k: int| 0 <= k < ds.len() implies (#[trigger] ds[k]).0 != p by {
            if k < ds.len() - 1 {
                assert(ds[k] == ds.drop_last()[k]);
            }
        }
    }
}

pub proof fn lemma_mark_paths(ds: Seq<EntryView>, cwd: Seq<u8>)
    ensures
        forall|j: int| 0 <= j < ds.len() ==> (#[trigger] mark_evaluated(ds, cwd)[j]).0 == ds[j].0,
{
    lemma_find_range(ds, cwd);
}

pub proof fn lemma_step_len(st: Session, l: Seq<u8>)
    ensures
        step(st, l).1.len() <= st.1.len() + 1,
{
    lemma_mark_sizes(st.1, st.0);
}

pub proof fn lemma_run_len(st: Session, ls: Seq<Seq<u8>>)
    ensures
        run(st, ls) matches Some(e) ==> e.1.len() <= st.1.len() + ls.len(),
    decreases ls.len(),
{
    if ls.len() > 0 && line_ok(st, ls[0]) {
        lemma_step_len(st, ls[0]);
        lemma_run_len(step(st, ls[0]), ls.drop_first());
    }
}

pub proof fn lemma_table_len(s: Seq<u8>)
    ensures
        table(s) matches Some(t) ==> t.len() <= lines(s).len() + 1,
{
    let init: Session = (seq![], seq![(seq![], 0, false)]);
    lemma_run_len(init, lines(s));
    if let Some(e) = run(init, lines(s)) {
        lemma_mark_sizes(e.1, e.0);
    }
}

pub proof fn lemma_mark_sizes(ds: Seq<EntryView>, cwd: Seq<u8>)
    ensures
        mark_evaluated(ds, cwd).len() == ds.len(),
        forall|j: int| 0 <= j < ds.len() ==> (#[trigger] mark_evaluated(ds, cwd)[j]).1 == ds[j].1,
{
    lemma_find_range(ds, cwd);
}

pub proof fn lemma_find_range(ds: Seq<EntryView>, p: Seq<u8>)
    ensures
        -1 <= find(ds, p) < ds.len(),
    decreases ds.len(),
{
    if ds.len() > 0 {
        lemma_find_range(ds.drop_last(), p);
    }
}

pub proof fn lemma_listed_prefix(ls: Seq<Seq<u8>>, i: int)
    requires
        0 <= i <= ls.len(),
    ensures
        listed_total(ls.subrange(0, i)) <= listed_total(ls),
        listed_total(ls.subrange(0, i)) >= 0,
    decreases ls.len() - i,
{
    if i < ls.len() {
        lemma_listed_prefix(ls, i + 1);
        assert(ls.subrange(0, i + 1).drop_last() =~= ls.subrange(0, i));
    } else {
        assert(ls.subrange(0, i) =~= ls);
    }
    lemma_listed_nonneg(ls.subrange(0, i));
}

pub proof fn lemma_listed_nonneg(ls: Seq<Seq<u8>>)
    ensures
        listed_total(ls) >= 0,
    decreases ls.len(),
{
    if ls.len() > 0 {
        lemma_listed_nonneg(ls.drop_last());
    }
}

/// The sum of the sizes of at most 100000.
pub open spec fn small_sum(ds: Seq<EntryView>) -> int
    decreases ds.len(),
{
    if ds.len() == 0 {
        0
    } else {
        small_sum(ds.drop_last()) + if ds.last().1 <= 100000 {
            ds.last().1
        } else {
            0
        }
    }
}

/// The smallest size of at least `t`, if any.
pub open spec fn smallest_at_least(ds: Seq<EntryView>, t: int) -> Option<int>
    decreases ds.len(),
{
    if ds.len() == 0 {
        None
    } else {
        let rest = smallest_at_least(ds.drop_last(), t);
        let x = ds.last().1;
        if x < t {
            rest
        } else {
            match rest {
                Some(m) => Some(if x < m { x } else { m }),
                None => Some(x),
            }
        }
    }
}

pub const DISK_SIZE: u64 = 70000000;
pub const UPDATE_SIZE: u64 = 30000000;

pub open spec fn session_ok(s: Seq<u8>) -> bool {
    table(s) is Some && listed_total(lines(s)) <= 0x4_0000_0000_0000 && lines(s).len() < 0x100_0000_0000
}

/// The size of the smallest directory whose removal frees enough space;
/// an error where enough is free already, or no directory is large enough.
pub open spec fn to_delete(ds: Seq<EntryView>) -> Result<i64, ()> {
    let used = ds[find(ds, root())].1;
    if DISK_SIZE - used >= UPDATE_SIZE {
        Err(())
    } else {
        match smallest_at_least(ds, UPDATE_SIZE - (DISK_SIZE - used)) {
            Some(m) => Ok(m as i64),
            None => Err(()),
        }
    }
}

impl AOCSolutions for Day7 {
    open spec fn accepts_1(input: Seq<u8>) -> bool {
        session_ok(input)
    }

    open spec fn accepts_2(input: Seq<u8>) -> bool {
        &&& session_ok(input)
        &&& find(table(input).unwrap(), root()) >= 0
        &&& table(input).unwrap()[find(table(input).unwrap(), root())].1 <= DISK_SIZE
    }

    open spec fn star_1(input: Seq<u8>, r: Result<i64, ()>) -> bool {
        r == Ok::<i64, ()>(small_sum(table(input).unwrap()) as i64)
    }

    open spec fn star_2(input: Seq<u8>, r: Result<i64, ()>) -> bool {
        r == to_delete(table(input).unwrap())
    }

    /// The sum of the sizes of the directories of at most 100000.
    fn get_star_1(input: &str) -> (r: Result<i64, ()>) {
        let fs = Day7::parse(input.as_bytes());
        let ghost ds = entries_view(fs@);
        proof {
            lemma_table_len(input.spec_bytes());
        }
        let mut sum: u64 = 0;
        let mut i: usize = 0;
        while i < fs.len()
            invariant
                ds == entries_view(fs@),
                0 <= i <= fs@.len(),
                sum == small_sum(ds.subrange(0, i as int)),
                sum <= 100000 * i,
                fs@.len() <= 0x100_0000_0000,
            decreases fs@.len() - i,
        {
            proof {
                assert(ds.subrange(0, i + 1).drop_last() =~= ds.subrange(0, i as int));
                assert(ds.subrange(0, i + 1).last() == ds[i as int]);
            }
            if fs[i].size <= 100000 {
                sum = sum + fs[i].size;
            }
            i = i + 1;
        }
        proof {
            assert(ds.subrange(0, i as int) =~= ds);
        }
        Ok(sum as i64)
    }

    /// The size of the smallest directory whose removal leaves 30000000 of
    /// the 70000000 free; an error where that much is free already.
    fn get_star_2(input: &str) -> (r: Result<i64, ()>) {
        let fs = Day7::parse(input.as_bytes());
        let ghost ds = entries_view(fs@);
        let rootw: Vec<u8> = vec![47u8];
        proof {
            assert(rootw@ =~= root());
        }
        let ri = find_entry(&fs, &rootw).unwrap();
        let total_usage = fs[ri].size;
        if DISK_SIZE - total_usage >= UPDATE_SIZE {
            return Err(());
        }
        let threshold = UPDATE_SIZE - (DISK_SIZE - total_usage);
        let mut best: Option<u64> = None;
        let mut i: usize = 0;
        while i < fs.len()
            invariant
                ds == entries_view(fs@),
                0 <= i <= fs@.len(),
                best == match smallest_at_least(ds.subrange(0, i as int), threshold as int) {
                    Some(m) => Some(m as u64),
                    None => None::<u64>,
                },
                forall|k: int| 0 <= k < fs@.len() ==> (#[trigger] fs@[k]).size <= 0x4_0000_0000_0000,
                smallest_at_least(ds.subrange(0, i as int), threshold as int) matches Some(m) ==> 0 <= m <= 0x4_0000_0000_0000,
            decreases fs@.len() - i,
        {
            proof {
                assert(ds.subrange(0, i + 1).drop_last() =~= ds.subrange(0, i as int));
                assert(ds.subrange(0, i + 1).last() == ds[i as int]);
            }
            let x = fs[i].size;
            if x >= threshold {
                best = match best {
                    Some(m) => Some(if x < m { x } else { m }),
                    None => Some(x),
                };
            }
            i = i + 1;
        }
        proof {
            assert(ds.subrange(0, i as int) =~= ds);
        }
        match best {
            Some(m) => Ok(m as i64),
            None => Err(()),
        }
    }
}

} // verus!
