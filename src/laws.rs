use vstd::prelude::*;

use crate::scan::{Entry, ScannedView};
use crate::sync::{under, wf, wf_in, entry_path, is_media, keeps, link_of, links, paths, planned, protected, pruned, pruned_in, select};

verus! {

proof fn lemma_contains_concat<A>(a: Seq<A>, b: Seq<A>, x: A)
    ensures
        (a + b).contains(x) <==> a.contains(x) || b.contains(x),
{
    if (a + b).contains(x) {
        let i = choose|i: int| 0 <= i < (a + b).len() && (a + b)[i] == x;
        if i >= a.len() {
            assert(b[i - a.len()] == x);
        }
    }
    if a.contains(x) {
        let i = choose|i: int| 0 <= i < a.len() && a[i] == x;
        assert((a + b)[i] == x);
    }
    if b.contains(x) {
        let i = choose|i: int| 0 <= i < b.len() && b[i] == x;
        assert((a + b)[a.len() + i] == x);
    }
}

/// The links that a run makes when it creates each link at once, so that a
/// later file sees the links of earlier ones on disk: `state` holds the paths
/// present when `fs[0]` is reached.
pub open spec fn live(root: Seq<char>, fs: Seq<ScannedView>, state: Seq<Seq<char>>) -> Seq<
    (Seq<char>, Seq<char>, Seq<char>),
>
    decreases fs.len(),
{
    if fs.len() == 0 {
        Seq::empty()
    } else {
        let rest = fs.subrange(1, fs.len() as int);
        match link_of(root, fs[0]) {
            Some((d, l)) => if state.contains(l) {
                live(root, rest, state)
            } else {
                seq![(fs[0].path, d, l)] + live(root, rest, state.push(l))
            },
            None => live(root, rest, state),
        }
    }
}

proof fn lemma_live_split(root: Seq<char>, fs: Seq<ScannedView>, ex: Seq<Seq<char>>, k: int)
    requires
        0 <= k <= fs.len(),
    ensures
        planned(root, fs, ex) == planned(root, fs.subrange(0, k), ex) + live(
            root,
            fs.subrange(k, fs.len() as int),
            ex + links(planned(root, fs.subrange(0, k), ex)),
        ),
    decreases fs.len() - k,
{
    let n = fs.len() as int;
    if k == n {
        assert(fs.subrange(0, k) =~= fs);
        assert(fs.subrange(k, n).len() == 0);
        let p = planned(root, fs, ex);
        assert(p + Seq::<(Seq<char>, Seq<char>, Seq<char>)>::empty() =~= p);
    } else {
        lemma_live_split(root, fs, ex, k + 1);
        let pk = planned(root, fs.subrange(0, k), ex);
        let pk1 = planned(root, fs.subrange(0, k + 1), ex);
        let s = ex + links(pk);
        assert(fs.subrange(0, k + 1).drop_last() =~= fs.subrange(0, k));
        assert(fs.subrange(0, k + 1).last() == fs[k]);
        let tail = fs.subrange(k, n);
        assert(tail[0] == fs[k]);
        assert(tail.subrange(1, tail.len() as int) =~= fs.subrange(k + 1, n));
        match link_of(root, fs[k]) {
            Some((d, l)) => {
                lemma_contains_concat(ex, links(pk), l);
                if !(ex.contains(l) || links(pk).contains(l)) {
                    let t = (fs[k].path, d, l);
                    assert(pk1 == pk.push(t));
                    assert(links(pk1) =~= links(pk).push(l));
                    assert(s.push(l) =~= ex + links(pk1));
                    let rest = live(root, fs.subrange(k + 1, n), ex + links(pk1));
                    assert(pk1 + rest =~= pk + (seq![t] + rest));
                }
            },
            None => {},
        }
    }
}

/// A dry run reports the links that a real run makes: planning every link
/// against the tree as it was gives the same links as making each one at
/// once and checking later files against the tree as it has become.
pub proof fn law_dry_run_matches_real_run(root: Seq<char>, fs: Seq<ScannedView>, existing: Seq<
    Seq<char>,
>)
    ensures
        planned(root, fs, existing) == live(root, fs, existing),
{
    lemma_live_split(root, fs, existing, 0);
    assert(fs.subrange(0, 0).len() == 0);
    assert(links(planned(root, fs.subrange(0, 0), existing)) =~= Seq::<Seq<char>>::empty());
    assert(existing + Seq::<Seq<char>>::empty() =~= existing);
    assert(fs.subrange(0, fs.len() as int) =~= fs);
    let l = live(root, fs, existing);
    assert(Seq::<(Seq<char>, Seq<char>, Seq<char>)>::empty() + l =~= l);
}


/// The link path of a source file that gets a link.
pub open spec fn link_at(root: Seq<char>, f: ScannedView) -> Seq<char> {
    match link_of(root, f) {
        Some((_, l)) => l,
        None => Seq::empty(),
    }
}

proof fn lemma_select_members(fs: Seq<ScannedView>, ts: Seq<(Seq<char>, u64)>, want: bool, e: (
    Seq<char>,
    u64,
))
    ensures
        select(fs, ts, want).contains(e) <==> ts.contains(e) && protected(fs, e.1) == want,
    decreases ts.len(),
{
    if ts.len() > 0 {
        let init = ts.drop_last();
        lemma_select_members(fs, init, want, e);
        lemma_contains_concat(init, seq![ts.last()], e);
        assert(init + seq![ts.last()] =~= ts);
        let prev = select(fs, init, want);
        lemma_contains_concat(prev, seq![ts.last()], e);
        assert(prev.push(ts.last()) =~= prev + seq![ts.last()]);
        if seq![ts.last()].contains(e) {
            assert(seq![ts.last()][0] == ts.last());
        }
    }
}

proof fn lemma_select_all(fs: Seq<ScannedView>, ts: Seq<(Seq<char>, u64)>)
    requires
        forall|k: int| 0 <= k < ts.len() ==> protected(fs, #[trigger] ts[k].1),
    ensures
        select(fs, ts, true) == ts,
        select(fs, ts, false).len() == 0,
    decreases ts.len(),
{
    if ts.len() > 0 {
        let init = ts.drop_last();
        assert forall|k: int| 0 <= k < init.len() implies protected(fs, #[trigger] init[k].1) by {
            assert(init[k] == ts[k]);
        }
        lemma_select_all(fs, init);
        assert(protected(fs, ts[ts.len() - 1].1));
        assert(init.push(ts.last()) =~= ts);
    }
}

proof fn lemma_planned_grows(root: Seq<char>, fs: Seq<ScannedView>, ex: Seq<Seq<char>>, l: Seq<char>)
    requires
        fs.len() > 0,
        links(planned(root, fs.drop_last(), ex)).contains(l),
    ensures
        links(planned(root, fs, ex)).contains(l),
{
    let prev = planned(root, fs.drop_last(), ex);
    let i = choose|i: int| 0 <= i < links(prev).len() && links(prev)[i] == l;
    assert(links(planned(root, fs, ex))[i] == l);
}

/// Each media file's link path is either in `ex` or among the links planned.
proof fn lemma_planned_covers(root: Seq<char>, fs: Seq<ScannedView>, ex: Seq<Seq<char>>, i: int)
    requires
        0 <= i < fs.len(),
        link_of(root, fs[i]) is Some,
    ensures
        ex.contains(link_at(root, fs[i])) || links(planned(root, fs, ex)).contains(
            link_at(root, fs[i]),
        ),
    decreases fs.len(),
{
    let l = link_at(root, fs[i]);
    let init = fs.drop_last();
    let prev = planned(root, init, ex);
    if i < fs.len() - 1 {
        assert(init[i] == fs[i]);
        lemma_planned_covers(root, init, ex, i);
        if links(prev).contains(l) {
            lemma_planned_grows(root, fs, ex, l);
        }
    } else {
        assert(fs.last() == fs[i]);
        if !ex.contains(l) && !links(prev).contains(l) {
            assert(links(planned(root, fs, ex))[prev.len() as int] == l);
        } else if links(prev).contains(l) {
            lemma_planned_grows(root, fs, ex, l);
        }
    }
}

proof fn lemma_planned_none(root: Seq<char>, fs: Seq<ScannedView>, ex: Seq<Seq<char>>)
    requires
        forall|i: int| 0 <= i < fs.len() && (#[trigger] link_of(root, fs[i])) is Some ==> ex.contains(
            link_at(root, fs[i]),
        ),
    ensures
        planned(root, fs, ex).len() == 0,
    decreases fs.len(),
{
    if fs.len() > 0 {
        let init = fs.drop_last();
        assert forall|i: int| 0 <= i < init.len() && (#[trigger] link_of(root, init[i])) is Some implies ex.contains(
            link_at(root, init[i]),
        ) by {
            assert(init[i] == fs[i]);
        }
        lemma_planned_none(root, init, ex);
        assert(fs.last() == fs[fs.len() - 1]);
    }
}

/// A second run against what a run left is quiet: where the target holds
/// the files that the first run kept and the links it made, and every file
/// there shares its inode with a media file of the inventory, the second
/// run removes nothing and links nothing.
pub proof fn law_second_run_is_quiet(
    root: Seq<char>,
    fs: Seq<ScannedView>,
    ts: Seq<(Seq<char>, u64)>,
    after: Seq<(Seq<char>, u64)>,
)
    requires
        forall|k: int| 0 <= k < after.len() ==> protected(fs, #[trigger] after[k].1),
        forall|p: Seq<char>| #[trigger]
            paths(select(fs, ts, true)).contains(p) ==> paths(after).contains(p),
        forall|l: Seq<char>| #[trigger]
            links(planned(root, fs, paths(select(fs, ts, true)))).contains(l) ==> paths(
                after,
            ).contains(l),
    ensures
        select(fs, after, false).len() == 0,
        planned(root, fs, paths(select(fs, after, true))).len() == 0,
{
    lemma_select_all(fs, after);
    let ex = paths(select(fs, ts, true));
    assert forall|i: int| 0 <= i < fs.len() && (#[trigger] link_of(root, fs[i])) is Some implies paths(
        after,
    ).contains(link_at(root, fs[i])) by {
        lemma_planned_covers(root, fs, ex, i);
    }
    lemma_planned_none(root, fs, paths(after));
}

/// Once a source file is gone, the next run removes exactly the target
/// files that share its inode: where every target file shares its inode
/// with a media file of the old inventory, and no other source file has
/// the removed file's inode, a target file is stale under the new
/// inventory if and only if it has that inode.
pub proof fn law_removed_source_is_reclaimed(
    fs: Seq<ScannedView>,
    i: int,
    ts: Seq<(Seq<char>, u64)>,
    e: (Seq<char>, u64),
)
    requires
        0 <= i < fs.len(),
        is_media(fs[i].media),
        forall|j: int| 0 <= j < fs.len() && j != i ==> (#[trigger] fs[j]).inode != fs[i].inode,
        forall|k: int| 0 <= k < ts.len() ==> protected(fs, #[trigger] ts[k].1),
    ensures
        select(fs.remove(i), ts, false).contains(e) <==> ts.contains(e) && e.1 == fs[i].inode,
{
    let fs2 = fs.remove(i);
    lemma_select_members(fs2, ts, false, e);
    if ts.contains(e) {
        let k = choose|k: int| 0 <= k < ts.len() && ts[k] == e;
        assert(protected(fs, ts[k].1));
        let j = choose|j: int|
            0 <= j < fs.len() && is_media(fs[j].media) && fs[j].inode == e.1;
        if e.1 != fs[i].inode {
            assert(j != i);
            if j < i {
                assert(fs2[j] == fs[j]);
            } else {
                assert(fs2[j - 1] == fs[j]);
            }
        } else if protected(fs2, e.1) {
            let m = choose|m: int|
                0 <= m < fs2.len() && is_media(fs2[m].media) && fs2[m].inode == e.1;
            if m < i {
                assert(fs2[m] == fs[m]);
            } else {
                assert(fs2[m] == fs[m + 1]);
            }
        }
    }
}

// ---------------------------------------------------------------------------
/// Every entry strictly below `e`, each before what lies below it.
pub open spec fn below(e: Entry) -> Seq<Entry>
    decreases e,
{
    match e {
        Entry::File(_) => Seq::empty(),
        Entry::Dir { children, .. } => below_in(children@),
    }
}

pub open spec fn below_in(cs: Seq<Entry>) -> Seq<Entry>
    decreases cs,
{
    if cs.len() == 0 {
        Seq::empty()
    } else {
        below_in(cs.drop_last()) + seq![cs.last()] + below(cs.last())
    }
}

proof fn lemma_pruned_covers(e: Entry, fs: Seq<ScannedView>, ls: Seq<Seq<char>>, d: Entry)
    requires
        below(e).contains(d),
        d is Dir,
        !keeps(d, fs, ls),
    ensures
        pruned(e, fs, ls).contains(entry_path(d)),
    decreases e,
{
    match e {
        Entry::File(_) => {},
        Entry::Dir { children, .. } => {
            lemma_pruned_covers_in(children@, fs, ls, d);
        },
    }
}

proof fn lemma_pruned_covers_in(cs: Seq<Entry>, fs: Seq<ScannedView>, ls: Seq<Seq<char>>, d: Entry)
    requires
        below_in(cs).contains(d),
        d is Dir,
        !keeps(d, fs, ls),
    ensures
        pruned_in(cs, fs, ls).contains(entry_path(d)),
    decreases cs,
{
    if cs.len() > 0 {
        let c = cs.last();
        let init = cs.drop_last();
        let mark: Seq<Seq<char>> = if c is Dir && !keeps(c, fs, ls) {
            seq![entry_path(c)]
        } else {
            Seq::empty()
        };
        let x = entry_path(d);
        lemma_contains_concat(below_in(init) + seq![c], below(c), d);
        lemma_contains_concat(below_in(init), seq![c], d);
        lemma_contains_concat(pruned_in(init, fs, ls) + pruned(c, fs, ls), mark, x);
        lemma_contains_concat(pruned_in(init, fs, ls), pruned(c, fs, ls), x);
        if below_in(init).contains(d) {
            lemma_pruned_covers_in(init, fs, ls, d);
        } else if below(c).contains(d) {
            lemma_pruned_covers(c, fs, ls, d);
        } else {
            assert(seq![c][0] == c);
            assert(mark[0] == x);
        }
    }
}

/// Every directory strictly below the target root that ends up empty is
/// removed: the one whose last file a run reclaims, and every ancestor left
/// with nothing in it.
pub proof fn law_empty_dirs_are_pruned(t: Entry, fs: Seq<ScannedView>, ls: Seq<Seq<char>>, d: Entry)
    requires
        below(t).contains(d),
        d is Dir,
        !keeps(d, fs, ls),
    ensures
        pruned(t, fs, ls).contains(entry_path(d)),
{
    lemma_pruned_covers(t, fs, ls, d);
}


proof fn lemma_under_trans(a: Seq<char>, b: Seq<char>, c: Seq<char>)
    requires
        under(a, b),
        under(b, c),
    ensures
        under(a, c),
{
    assert forall|k: int| 0 <= k < a.len() implies c.subrange(0, a.len() as int)[k] == a[k] by {
        assert(c.subrange(0, b.len() as int)[k] == c[k]);
        assert(b.subrange(0, a.len() as int)[k] == b[k]);
    }
    assert(c.subrange(0, a.len() as int) =~= a);
    assert(c.subrange(0, b.len() as int)[a.len() as int] == c[a.len() as int]);
}

proof fn lemma_pruned_below(e: Entry, fs: Seq<ScannedView>, ls: Seq<Seq<char>>, p: Seq<char>)
    requires
        wf(e),
        pruned(e, fs, ls).contains(p),
    ensures
        under(entry_path(e), p),
    decreases e,
{
    match e {
        Entry::File(_) => {},
        Entry::Dir { path, children } => {
            lemma_pruned_below_in(path@, children@, fs, ls, p);
        },
    }
}

proof fn lemma_pruned_below_in(
    parent: Seq<char>,
    cs: Seq<Entry>,
    fs: Seq<ScannedView>,
    ls: Seq<Seq<char>>,
    p: Seq<char>,
)
    requires
        wf_in(parent, cs),
        pruned_in(cs, fs, ls).contains(p),
    ensures
        under(parent, p),
    decreases cs,
{
    if cs.len() > 0 {
        let c = cs.last();
        let init = cs.drop_last();
        let mark: Seq<Seq<char>> = if c is Dir && !keeps(c, fs, ls) {
            seq![entry_path(c)]
        } else {
            Seq::empty()
        };
        lemma_contains_concat(pruned_in(init, fs, ls) + pruned(c, fs, ls), mark, p);
        lemma_contains_concat(pruned_in(init, fs, ls), pruned(c, fs, ls), p);
        if pruned_in(init, fs, ls).contains(p) {
            lemma_pruned_below_in(parent, init, fs, ls, p);
        } else if pruned(c, fs, ls).contains(p) {
            lemma_pruned_below(c, fs, ls, p);
            lemma_under_trans(parent, entry_path(c), p);
        } else {
            assert(mark[0] == p);
        }
    }
}

/// Pruning stops below the target root: in a well-formed tree every
/// directory removed lies strictly below the root, so the root itself is
/// never removed.
pub proof fn law_root_is_never_pruned(t: Entry, fs: Seq<ScannedView>, ls: Seq<Seq<char>>, p: Seq<char>)
    requires
        wf(t),
        pruned(t, fs, ls).contains(p),
    ensures
        under(entry_path(t), p),
        p != entry_path(t),
{
    lemma_pruned_below(t, fs, ls, p);
}


/// A run leaves every other link alone: where no two target files share a
/// path, a target file whose inode a media file of the inventory holds is
/// never among the files removed.
pub proof fn law_protected_files_stay(fs: Seq<ScannedView>, ts: Seq<(Seq<char>, u64)>, k: int)
    requires
        0 <= k < ts.len(),
        protected(fs, ts[k].1),
        forall|i: int, j: int|
            0 <= i < ts.len() && 0 <= j < ts.len() && (#[trigger] ts[i]).0 == (#[trigger] ts[j]).0
                ==> i == j,
    ensures
        !paths(select(fs, ts, false)).contains(ts[k].0),
{
    let sel = select(fs, ts, false);
    if paths(sel).contains(ts[k].0) {
        let m = choose|m: int| 0 <= m < paths(sel).len() && paths(sel)[m] == ts[k].0;
        let e = sel[m];
        assert(sel.contains(e));
        lemma_select_members(fs, ts, false, e);
        let j = choose|j: int| 0 <= j < ts.len() && ts[j] == e;
        assert(ts[j].0 == ts[k].0);
    }
}


/// At `a`, `s` holds the removals below the directory `d` followed by `d`
/// itself.
pub open spec fn block_at(s: Seq<Seq<char>>, a: int, d: Entry, fs: Seq<ScannedView>, ls: Seq<Seq<char>>) -> bool {
    let n = pruned(d, fs, ls).len() as int;
    0 <= a && a + n + 1 <= s.len() && s.subrange(a, a + n + 1) == pruned(d, fs, ls).push(
        entry_path(d),
    )
}

proof fn lemma_block_shift(
    x: Seq<Seq<char>>,
    s: Seq<Seq<char>>,
    y: Seq<Seq<char>>,
    a: int,
    d: Entry,
    fs: Seq<ScannedView>,
    ls: Seq<Seq<char>>,
)
    requires
        block_at(s, a, d, fs, ls),
    ensures
        block_at(x + s + y, x.len() + a, d, fs, ls),
{
    let n = pruned(d, fs, ls).len() as int;
    assert((x + s + y).subrange(x.len() + a, x.len() + a + n + 1) =~= s.subrange(a, a + n + 1));
}

proof fn lemma_block(e: Entry, fs: Seq<ScannedView>, ls: Seq<Seq<char>>, d: Entry)
    requires
        below(e).contains(d),
        d is Dir,
        !keeps(d, fs, ls),
    ensures
        exists|a: int| block_at(pruned(e, fs, ls), a, d, fs, ls),
    decreases e,
{
    match e {
        Entry::File(_) => {
            assert(below(e).len() == 0);
        },
        Entry::Dir { children, .. } => {
            lemma_block_in(children@, fs, ls, d);
            let a = choose|a: int| block_at(pruned_in(children@, fs, ls), a, d, fs, ls);
            assert(pruned(e, fs, ls) == pruned_in(children@, fs, ls));
            assert(block_at(pruned(e, fs, ls), a, d, fs, ls));
        },
    }
}

proof fn lemma_block_in(cs: Seq<Entry>, fs: Seq<ScannedView>, ls: Seq<Seq<char>>, d: Entry)
    requires
        below_in(cs).contains(d),
        d is Dir,
        !keeps(d, fs, ls),
    ensures
        exists|a: int| block_at(pruned_in(cs, fs, ls), a, d, fs, ls),
    decreases cs,
{
    if cs.len() > 0 {
        let c = cs.last();
        let init = cs.drop_last();
        let pi = pruned_in(init, fs, ls);
        let pc = pruned(c, fs, ls);
        let mark: Seq<Seq<char>> = if c is Dir && !keeps(c, fs, ls) {
            seq![entry_path(c)]
        } else {
            Seq::empty()
        };
        let whole = pruned_in(cs, fs, ls);
        assert(whole == pi + pc + mark);
        lemma_contains_concat(below_in(init) + seq![c], below(c), d);
        lemma_contains_concat(below_in(init), seq![c], d);
        if below_in(init).contains(d) {
            lemma_block_in(init, fs, ls, d);
            let a = choose|a: int| block_at(pi, a, d, fs, ls);
            lemma_block_shift(Seq::empty(), pi, pc + mark, a, d, fs, ls);
            assert(Seq::<Seq<char>>::empty() + pi + (pc + mark) =~= whole);
        } else if below(c).contains(d) {
            lemma_block(c, fs, ls, d);
            let a = choose|a: int| block_at(pc, a, d, fs, ls);
            lemma_block_shift(pi, pc, mark, a, d, fs, ls);
        } else {
            assert(seq![c][0] == d);
            let n = pc.len() as int;
            assert(whole.subrange(pi.len() as int, pi.len() + n + 1) =~= pc.push(entry_path(d)));
            assert(block_at(whole, pi.len() as int, d, fs, ls));
        }
    }
}

/// Pruning goes bottom-up: each directory below the target root that ends
/// up empty is removed right after the directories removed below it.
pub proof fn law_pruning_is_bottom_up(t: Entry, fs: Seq<ScannedView>, ls: Seq<Seq<char>>, d: Entry)
    requires
        below(t).contains(d),
        d is Dir,
        !keeps(d, fs, ls),
    ensures
        exists|a: int| block_at(pruned(t, fs, ls), a, d, fs, ls),
{
    lemma_block(t, fs, ls, d);
}


/// The files that the links of a run add to the target, as (link, inode):
/// each link shares the inode of the source file it was made for.
pub open spec fn made(root: Seq<char>, fs: Seq<ScannedView>, ex: Seq<Seq<char>>) -> Seq<
    (Seq<char>, u64),
>
    decreases fs.len(),
{
    if fs.len() == 0 {
        Seq::empty()
    } else {
        let prev = made(root, fs.drop_last(), ex);
        match link_of(root, fs.last()) {
            Some((_, l)) => if ex.contains(l) || links(planned(root, fs.drop_last(), ex)).contains(l) {
                prev
            } else {
                prev.push((l, fs.last().inode))
            },
            None => prev,
        }
    }
}

/// The target files after a run: the files it kept, then the links it made.
pub open spec fn after_run(root: Seq<char>, fs: Seq<ScannedView>, ts: Seq<(Seq<char>, u64)>) -> Seq<
    (Seq<char>, u64),
> {
    select(fs, ts, true) + made(root, fs, paths(select(fs, ts, true)))
}

proof fn lemma_made(root: Seq<char>, fs: Seq<ScannedView>, ex: Seq<Seq<char>>)
    ensures
        paths(made(root, fs, ex)) == links(planned(root, fs, ex)),
        forall|k: int|
            0 <= k < made(root, fs, ex).len() ==> protected(fs, #[trigger] made(root, fs, ex)[k].1),
    decreases fs.len(),
{
    if fs.len() > 0 {
        let init = fs.drop_last();
        lemma_made(root, init, ex);
        let prev = made(root, init, ex);
        let cur = made(root, fs, ex);
        let n = fs.len() - 1;
        assert(fs.last() == fs[n]);
        assert forall|k: int| 0 <= k < cur.len() implies protected(fs, #[trigger] cur[k].1) by {
            if k < prev.len() {
                assert(cur[k] == prev[k]);
                assert(protected(init, prev[k].1));
                let j = choose|j: int|
                    0 <= j < init.len() && is_media(init[j].media) && init[j].inode == prev[k].1;
                assert(fs[j] == init[j]);
            } else {
                assert(is_media(fs[n].media));
                assert(cur[k].1 == fs[n].inode);
            }
        }
        let pp = planned(root, init, ex);
        match link_of(root, fs.last()) {
            Some((d, l)) => {
                if !(ex.contains(l) || links(pp).contains(l)) {
                    assert(paths(prev.push((l, fs.last().inode))) =~= paths(prev).push(l));
                    assert(links(pp.push((fs.last().path, d, l))) =~= links(pp).push(l));
                }
            },
            None => {},
        }
        assert(paths(cur) =~= links(planned(root, fs, ex)));
    }
}

proof fn lemma_after_run_protected(root: Seq<char>, fs: Seq<ScannedView>, ts: Seq<(Seq<char>, u64)>)
    ensures
        forall|k: int|
            0 <= k < after_run(root, fs, ts).len() ==> protected(
                fs,
                #[trigger] after_run(root, fs, ts)[k].1,
            ),
{
    let kept = select(fs, ts, true);
    let mk = made(root, fs, paths(kept));
    let after = after_run(root, fs, ts);
    lemma_made(root, fs, paths(kept));
    assert forall|k: int| 0 <= k < after.len() implies protected(fs, #[trigger] after[k].1) by {
        if k < kept.len() {
            assert(after[k] == kept[k]);
            lemma_select_members(fs, ts, true, kept[k]);
            assert(kept.contains(kept[k]));
        } else {
            assert(after[k] == mk[k - kept.len()]);
        }
    }
}

/// Once a source file is gone, the run after the one that linked it
/// removes exactly the target files that share its inode, where no other
/// source file has that inode.
pub proof fn law_next_run_reclaims_removed_source(
    root: Seq<char>,
    fs: Seq<ScannedView>,
    ts: Seq<(Seq<char>, u64)>,
    i: int,
    e: (Seq<char>, u64),
)
    requires
        0 <= i < fs.len(),
        is_media(fs[i].media),
        forall|j: int| 0 <= j < fs.len() && j != i ==> (#[trigger] fs[j]).inode != fs[i].inode,
    ensures
        select(fs.remove(i), after_run(root, fs, ts), false).contains(e) <==> after_run(
            root,
            fs,
            ts,
        ).contains(e) && e.1 == fs[i].inode,
{
    lemma_after_run_protected(root, fs, ts);
    law_removed_source_is_reclaimed(fs, i, after_run(root, fs, ts), e);
}

/// A second run finds nothing to do: against the target as a run left it,
/// the same inventory gives no removal and no link.
pub proof fn law_rerun_is_quiet(root: Seq<char>, fs: Seq<ScannedView>, ts: Seq<(Seq<char>, u64)>)
    ensures
        select(fs, after_run(root, fs, ts), false).len() == 0,
        planned(root, fs, paths(select(fs, after_run(root, fs, ts), true))).len() == 0,
{
    let kept = select(fs, ts, true);
    let ex = paths(kept);
    let mk = made(root, fs, ex);
    let after = after_run(root, fs, ts);
    lemma_made(root, fs, ex);
    lemma_after_run_protected(root, fs, ts);
    assert(paths(after) =~= ex + paths(mk));
    assert forall|p: Seq<char>| #[trigger] ex.contains(p) implies paths(after).contains(p) by {
        lemma_contains_concat(ex, paths(mk), p);
    }
    assert forall|l: Seq<char>| #[trigger] links(planned(root, fs, ex)).contains(l) implies paths(
        after,
    ).contains(l) by {
        lemma_contains_concat(ex, paths(mk), l);
    }
    law_second_run_is_quiet(root, fs, ts, after);
}

} // verus!
