use vstd::prelude::*;

use crate::classify::{extension, has_extension, split_name, MediaData, MediaView};
use crate::scan::{files_of, find_all_files, views, Entry, FileEntry, ScannedFile, ScannedView};
use crate::text::{chars_of, decimal, push_decimal, text_of};

verus! {

/// A change to the target tree.
#[derive(Debug, PartialEq, Eq)]
pub enum Action {
    RemoveFile(String),
    RemoveDir(String),
    CreateDirAll(String),
    HardLink { original: String, link: String },
}

pub enum ActionView {
    RemoveFile(Seq<char>),
    RemoveDir(Seq<char>),
    CreateDirAll(Seq<char>),
    HardLink(Seq<char>, Seq<char>),
}

impl View for Action {
    type V = ActionView;

    open spec fn view(&self) -> ActionView {
        match self {
            Action::RemoveFile(p) => ActionView::RemoveFile(p@),
            Action::RemoveDir(p) => ActionView::RemoveDir(p@),
            Action::CreateDirAll(p) => ActionView::CreateDirAll(p@),
            Action::HardLink { original, link } => ActionView::HardLink(original@, link@),
        }
    }
}

pub open spec fn action_views(a: Seq<Action>) -> Seq<ActionView> {
    a.map_values(|x: Action| x@)
}

pub open spec fn is_media(m: Option<MediaView>) -> bool {
    match m {
        Some(MediaView::Movie { .. }) => true,
        Some(MediaView::ShowEpisode { .. }) => true,
        _ => false,
    }
}

/// Some media file of the source inventory has this inode.
pub open spec fn protected(fs: Seq<ScannedView>, inode: u64) -> bool {
    exists|i: int| 0 <= i < fs.len() && is_media(fs[i].media) && fs[i].inode == inode
}

/// The target files whose inode is protected (`want`) or not (`!want`), in
/// listing order.
pub open spec fn select(fs: Seq<ScannedView>, ts: Seq<(Seq<char>, u64)>, want: bool) -> Seq<
    (Seq<char>, u64),
>
    decreases ts.len(),
{
    if ts.len() == 0 {
        Seq::empty()
    } else {
        let prev = select(fs, ts.drop_last(), want);
        if protected(fs, ts.last().1) == want {
            prev.push(ts.last())
        } else {
            prev
        }
    }
}

pub open spec fn paths(ts: Seq<(Seq<char>, u64)>) -> Seq<Seq<char>> {
    ts.map_values(|t: (Seq<char>, u64)| t.0)
}

// ---------------------------------------------------------------------------
// Where a media file is linked in the library.
/// `root` ready to have a component appended: a `/` is added unless `root`
/// is empty or already ends in one.
pub open spec fn base(root: Seq<char>) -> Seq<char> {
    if root.len() == 0 || root.last() == '/' {
        root
    } else {
        root.push('/')
    }
}

pub open spec fn link_dir(root: Seq<char>, m: MediaView) -> Seq<char> {
    match m {
        MediaView::ShowEpisode { name, season, episode } => base(root) + "shows/"@ + name
            + "/Season "@ + decimal(season as nat),
        MediaView::Movie { title, year } => base(root) + "movies/"@ + title + match year {
            Some(y) => " ("@ + decimal(y as nat) + ")"@,
            None => Seq::empty(),
        },
        MediaView::Garbage => root,
    }
}

pub open spec fn link_file(m: MediaView, ext: Seq<char>) -> Seq<char> {
    match m {
        MediaView::ShowEpisode { episode, .. } => "episode "@ + decimal(episode as nat) + "."@
            + ext,
        _ => "movie."@ + ext,
    }
}

/// The directory and the path of the link for a source file, if it gets one.
pub open spec fn link_of(root: Seq<char>, f: ScannedView) -> Option<(Seq<char>, Seq<char>)> {
    if is_media(f.media) && has_extension(f.path) {
        let d = link_dir(root, f.media->0);
        Some((d, d + "/"@ + link_file(f.media->0, extension(f.path))))
    } else {
        None
    }
}

pub open spec fn links(ps: Seq<(Seq<char>, Seq<char>, Seq<char>)>) -> Seq<Seq<char>> {
    ps.map_values(|p: (Seq<char>, Seq<char>, Seq<char>)| p.2)
}

/// The links to create, as (source, directory, link): one for each media file
/// whose link path is neither in `existing` nor taken by an earlier file.
pub open spec fn planned(root: Seq<char>, fs: Seq<ScannedView>, existing: Seq<Seq<char>>) -> Seq<
    (Seq<char>, Seq<char>, Seq<char>),
>
    decreases fs.len(),
{
    if fs.len() == 0 {
        Seq::empty()
    } else {
        let prev = planned(root, fs.drop_last(), existing);
        match link_of(root, fs.last()) {
            Some((d, l)) => if existing.contains(l) || links(prev).contains(l) {
                prev
            } else {
                prev.push((fs.last().path, d, l))
            },
            None => prev,
        }
    }
}

// ---------------------------------------------------------------------------
fn push_all(out: &mut Vec<char>, s: &Vec<char>)
    ensures
        final(out)@ == old(out)@ + s@,
{
    let mut k: usize = 0;
    while k < s.len()
        invariant
            k <= s.len(),
            out@ == old(out)@ + s@.subrange(0, k as int),
        decreases s.len() - k,
    {
        out.push(s[k]);
        k = k + 1;
        assert(out@ =~= old(out)@ + s@.subrange(0, k as int));
    }
    assert(s@.subrange(0, k as int) =~= s@);
}

fn push_str(out: &mut Vec<char>, s: &str)
    ensures
        final(out)@ == old(out)@ + s@,
{
    push_all(out, &chars_of(s));
}

fn push_number(out: &mut Vec<char>, n: u32)
    ensures
        final(out)@ == old(out)@ + decimal(n as nat),
{
    push_decimal(out, n);
}

fn link_exec(root: &Vec<char>, f: &ScannedFile) -> (r: Option<(Vec<char>, Vec<char>)>)
    ensures
        r matches Some((d, l)) ==> link_of(root@, f@) == Some((d@, l@)),
        r is None ==> link_of(root@, f@) is None,
{
    let ext = match split_name(f.path.as_str()) {
        Some((_, e)) => e,
        None => {
            return None;
        },
    };
    let mut d: Vec<char> = Vec::new();
    let mut l: Vec<char> = Vec::new();
    push_all(&mut d, root);
    if root.len() > 0 && root[root.len() - 1] != '/' {
        d.push('/');
    }
    assert(d@ =~= base(root@));
    match &f.metadata {
        Some(MediaData::ShowEpisode { name, season, episode }) => {
            push_str(&mut d, "shows/");
            push_str(&mut d, name.as_str());
            push_str(&mut d, "/Season ");
            push_number(&mut d, *season);
            push_str(&mut l, "episode ");
            push_number(&mut l, *episode);
            push_str(&mut l, ".");
        },
        Some(MediaData::Movie { title, year }) => {
            push_str(&mut d, "movies/");
            push_str(&mut d, title.as_str());
            if let Some(y) = year {
                push_str(&mut d, " (");
                push_number(&mut d, *y);
                push_str(&mut d, ")");
            }
            push_str(&mut l, "movie.");
        },
        _ => {
            return None;
        },
    }
    push_all(&mut l, &ext);
    let mut link: Vec<char> = Vec::new();
    push_all(&mut link, &d);
    push_str(&mut link, "/");
    push_all(&mut link, &l);
    proof {
        let m = f@.media->0;
        assert(d@ =~= link_dir(root@, m));
        assert(l@ =~= link_file(m, extension(f.path@)));
    }
    Some((d, link))
}


/// A link to create: `link` in directory `dir`, to the data of `source`.
#[derive(Debug, PartialEq, Eq)]
pub struct Link {
    pub source: String,
    pub dir: String,
    pub link: String,
}

impl View for Link {
    type V = (Seq<char>, Seq<char>, Seq<char>);

    open spec fn view(&self) -> (Seq<char>, Seq<char>, Seq<char>) {
        (self.source@, self.dir@, self.link@)
    }
}

pub open spec fn link_views(v: Seq<Link>) -> Seq<(Seq<char>, Seq<char>, Seq<char>)> {
    v.map_values(|x: Link| x@)
}

pub open spec fn texts(v: Seq<String>) -> Seq<Seq<char>> {
    v.map_values(|x: String| x@)
}

fn listed(list: &Vec<String>, s: &String) -> (r: bool)
    ensures
        r == texts(list@).contains(s@),
{
    let mut k: usize = 0;
    while k < list.len()
        invariant
            k <= list.len(),
            forall|m: int| 0 <= m < k ==> list@[m]@ != s@,
        decreases list.len() - k,
    {
        if list[k] == *s {
            assert(texts(list@)[k as int] == s@);
            return true;
        }
        k = k + 1;
    }
    assert forall|m: int| 0 <= m < texts(list@).len() implies texts(list@)[m] != s@ by {
        assert(texts(list@)[m] == list@[m]@);
    }
    false
}

fn linked(ps: &Vec<Link>, s: &String) -> (r: bool)
    ensures
        r == links(link_views(ps@)).contains(s@),
{
    let mut k: usize = 0;
    while k < ps.len()
        invariant
            k <= ps.len(),
            forall|m: int| 0 <= m < k ==> ps@[m].link@ != s@,
        decreases ps.len() - k,
    {
        if ps[k].link == *s {
            assert(links(link_views(ps@))[k as int] == s@);
            return true;
        }
        k = k + 1;
    }
    assert forall|m: int| 0 <= m < links(link_views(ps@)).len() implies links(link_views(ps@))[m]
        != s@ by {
        assert(links(link_views(ps@))[m] == ps@[m].link@);
    }
    false
}

/// The links to create for the media files of `files` under `target_dir`,
/// where `existing` lists the files that the target tree holds. The first
/// file that maps to a link path takes it; later ones are skipped.
pub fn create_links(files: &Vec<ScannedFile>, target_dir: &str, existing: &Vec<String>) -> (r: Vec<
    Link,
>)
    ensures
        link_views(r@) == planned(target_dir@, views(files@), texts(existing@)),
{
    let root = chars_of(target_dir);
    let mut out: Vec<Link> = Vec::new();
    let mut k: usize = 0;
    assert(views(files@).subrange(0, 0).len() == 0);
    assert(link_views(out@) =~= Seq::<(Seq<char>, Seq<char>, Seq<char>)>::empty());
    while k < files.len()
        invariant
            k <= files.len(),
            root@ == target_dir@,
            link_views(out@) == planned(target_dir@, views(files@).subrange(0, k as int), texts(existing@)),
        decreases files.len() - k,
    {
        let ghost prev = link_views(out@);
        let ghost fs = views(files@).subrange(0, k + 1);
        assert(fs.drop_last() =~= views(files@).subrange(0, k as int));
        assert(fs.last() == files@[k as int]@);
        let f = &files[k];
        match link_exec(&root, f) {
            Some((d, l)) => {
                let dir = text_of(&d);
                let link = text_of(&l);
                if !listed(existing, &link) && !linked(&out, &link) {
                    out.push(Link { source: f.path.clone(), dir, link });
                    assert(link_views(out@) =~= prev.push((f.path@, d@, l@)));
                }
            },
            None => {},
        }
        k = k + 1;
    }
    assert(views(files@).subrange(0, k as int) =~= views(files@));
    out
}


// ---------------------------------------------------------------------------
// Reclaim.
fn is_media_exec(m: &Option<MediaData>) -> (r: bool)
    ensures
        r == is_media(crate::classify::view_opt(*m)),
{
    match m {
        Some(MediaData::Movie { .. }) => true,
        Some(MediaData::ShowEpisode { .. }) => true,
        _ => false,
    }
}

fn protected_exec(files: &Vec<ScannedFile>, inode: u64) -> (r: bool)
    ensures
        r == protected(views(files@), inode),
{
    let ghost fs = views(files@);
    let mut k: usize = 0;
    while k < files.len()
        invariant
            k <= files.len(),
            fs == views(files@),
            forall|m: int| 0 <= m < k ==> !(is_media(fs[m].media) && fs[m].inode == inode),
        decreases files.len() - k,
    {
        assert(fs[k as int] == files@[k as int]@);
        if is_media_exec(&files[k].metadata) && files[k].inode == inode {
            return true;
        }
        k = k + 1;
    }
    false
}

pub open spec fn file_views(v: Seq<FileEntry>) -> Seq<(Seq<char>, u64)> {
    v.map_values(|f: FileEntry| f@)
}

/// The files of `ts` whose inode is protected (`want`) or not (`!want`).
fn select_files(files: &Vec<ScannedFile>, ts: &Vec<FileEntry>, want: bool) -> (r: Vec<FileEntry>)
    ensures
        file_views(r@) == select(views(files@), file_views(ts@), want),
{
    let mut out: Vec<FileEntry> = Vec::new();
    let mut k: usize = 0;
    assert(file_views(ts@).subrange(0, 0).len() == 0);
    assert(file_views(out@) =~= Seq::<(Seq<char>, u64)>::empty());
    while k < ts.len()
        invariant
            k <= ts.len(),
            file_views(out@) == select(views(files@), file_views(ts@).subrange(0, k as int), want),
        decreases ts.len() - k,
    {
        let ghost prev = file_views(out@);
        let ghost sub = file_views(ts@).subrange(0, k + 1);
        assert(sub.drop_last() =~= file_views(ts@).subrange(0, k as int));
        assert(sub.last() == ts@[k as int]@);
        if protected_exec(files, ts[k].inode) == want {
            out.push(FileEntry { path: ts[k].path.clone(), inode: ts[k].inode });
            assert(file_views(out@) =~= prev.push(ts@[k as int]@));
        }
        k = k + 1;
    }
    assert(file_views(ts@).subrange(0, k as int) =~= file_views(ts@));
    out
}

pub open spec fn removals(ts: Seq<(Seq<char>, u64)>) -> Seq<ActionView> {
    ts.map_values(|t: (Seq<char>, u64)| ActionView::RemoveFile(t.0))
}

/// Removes every file under `target_dir` whose inode no media file of
/// `source` has: the link was made for a file that is gone.
pub fn remove_hardlinks(source: &Vec<ScannedFile>, target_dir: &Entry) -> (r: Vec<Action>)
    ensures
        action_views(r@) == removals(select(views(source@), files_of(*target_dir), false)),
{
    let all = find_all_files(target_dir);
    let stale = select_files(source, &all, false);
    let mut out: Vec<Action> = Vec::new();
    let mut k: usize = 0;
    while k < stale.len()
        invariant
            k <= stale.len(),
            action_views(out@) == removals(file_views(stale@).subrange(0, k as int)),
        decreases stale.len() - k,
    {
        let ghost prev = action_views(out@);
        let path = stale[k].path.clone();
        out.push(Action::RemoveFile(path));
        assert(action_views(out@) =~= prev.push(ActionView::RemoveFile(file_views(stale@)[k as int].0)));
        assert(file_views(stale@).subrange(0, k + 1).drop_last() =~= file_views(stale@).subrange(0, k as int));
        k = k + 1;
        assert(action_views(out@) =~= removals(file_views(stale@).subrange(0, k as int)));
    }
    assert(file_views(stale@).subrange(0, k as int) =~= file_views(stale@));
    assert(file_views(all@) == files_of(*target_dir));
    out
}


// ---------------------------------------------------------------------------
// Pruning.
pub open spec fn entry_path(e: Entry) -> Seq<char> {
    match e {
        Entry::File(f) => f.path@,
        Entry::Dir { path, .. } => path@,
    }
}

/// `l` lies below the directory `d`.
pub open spec fn under(d: Seq<char>, l: Seq<char>) -> bool {
    d.len() < l.len() && l.subrange(0, d.len() as int) == d && l[d.len() as int] == '/'
}

/// The tree is laid out as on disk: each entry's path lies below the path
/// of the directory that lists it.
pub open spec fn wf(e: Entry) -> bool
    decreases e,
{
    match e {
        Entry::File(_) => true,
        Entry::Dir { path, children } => wf_in(path@, children@),
    }
}

pub open spec fn wf_in(parent: Seq<char>, cs: Seq<Entry>) -> bool
    decreases cs,
{
    cs.len() == 0 || (wf_in(parent, cs.drop_last()) && under(parent, entry_path(cs.last())) && wf(
        cs.last(),
    ))
}

/// Something remains in `e` once the stale files are gone and the links `ls`
/// are made: a file whose inode is protected, or a link below it.
pub open spec fn keeps(e: Entry, fs: Seq<ScannedView>, ls: Seq<Seq<char>>) -> bool
    decreases e,
{
    match e {
        Entry::File(f) => protected(fs, f.inode),
        Entry::Dir { path, children } => keeps_in(children@, fs, ls) || exists|j: int|
            0 <= j < ls.len() && under(path@, ls[j]),
    }
}

pub open spec fn keeps_in(cs: Seq<Entry>, fs: Seq<ScannedView>, ls: Seq<Seq<char>>) -> bool
    decreases cs,
{
    cs.len() > 0 && (keeps_in(cs.drop_last(), fs, ls) || keeps(cs.last(), fs, ls))
}

/// The directories strictly below `e` that end up empty, children before
/// their parents.
pub open spec fn pruned(e: Entry, fs: Seq<ScannedView>, ls: Seq<Seq<char>>) -> Seq<Seq<char>>
    decreases e,
{
    match e {
        Entry::File(_) => Seq::empty(),
        Entry::Dir { children, .. } => pruned_in(children@, fs, ls),
    }
}

pub open spec fn pruned_in(cs: Seq<Entry>, fs: Seq<ScannedView>, ls: Seq<Seq<char>>) -> Seq<
    Seq<char>,
>
    decreases cs,
{
    if cs.len() == 0 {
        Seq::empty()
    } else {
        let c = cs.last();
        pruned_in(cs.drop_last(), fs, ls) + pruned(c, fs, ls) + if c is Dir && !keeps(c, fs, ls) {
            seq![entry_path(c)]
        } else {
            Seq::empty()
        }
    }
}

pub open spec fn dir_removals(ps: Seq<Seq<char>>) -> Seq<ActionView> {
    ps.map_values(|p: Seq<char>| ActionView::RemoveDir(p))
}

fn under_exec(d: &Vec<char>, l: &Vec<char>) -> (r: bool)
    ensures
        r == under(d@, l@),
{
    if d.len() >= l.len() || l[d.len()] != '/' {
        return false;
    }
    let mut k: usize = 0;
    while k < d.len()
        invariant
            d.len() < l.len(),
            k <= d.len(),
            forall|m: int| 0 <= m < k ==> l@[m] == d@[m],
        decreases d.len() - k,
    {
        if l[k] != d[k] {
            return false;
        }
        k = k + 1;
    }
    assert(l@.subrange(0, d.len() as int) =~= d@);
    true
}

fn any_under(d: &String, ls: &Vec<String>) -> (r: bool)
    ensures
        r == exists|j: int| 0 <= j < ls.len() && under(d@, #[trigger] ls@[j]@),
{
    let dc = chars_of(d.as_str());
    let mut k: usize = 0;
    while k < ls.len()
        invariant
            k <= ls.len(),
            dc@ == d@,
            forall|m: int| 0 <= m < k ==> !under(d@, #[trigger] ls@[m]@),
        decreases ls.len() - k,
    {
        if under_exec(&dc, &chars_of(ls[k].as_str())) {
            return true;
        }
        k = k + 1;
    }
    false
}

/// Appends a removal, children first, for each directory strictly below
/// `path` that nothing will remain in, given the files of `source` and the
/// new links `links`. Returns whether nothing remains in `path` itself.
pub fn remove_empty_directories(
    path: &Entry,
    source: &Vec<ScannedFile>,
    links: &Vec<String>,
    actions: &mut Vec<Action>,
) -> (r: bool)
    ensures
        r == !keeps(*path, views(source@), texts(links@)),
        action_views(final(actions)@) == action_views(old(actions)@) + dir_removals(
            pruned(*path, views(source@), texts(links@)),
        ),
    decreases path,
{
    let ghost fs = views(source@);
    let ghost ls = texts(links@);
    match path {
        Entry::File(f) => {
            assert(action_views(actions@) =~= action_views(old(actions)@) + dir_removals(
                pruned(*path, fs, ls),
            ));
            !protected_exec(source, f.inode)
        },
        Entry::Dir { path: dir, children } => {
            let mut is_empty = true;
            let mut k: usize = 0;
            assert(children@.subrange(0, 0) =~= Seq::<Entry>::empty());
            assert(action_views(actions@) =~= action_views(old(actions)@) + dir_removals(
                pruned_in(children@.subrange(0, 0), fs, ls),
            ));
            while k < children.len()
                invariant
                    k <= children.len(),
                    path is Dir && path->Dir_children == *children,
                    fs == views(source@),
                    ls == texts(links@),
                    is_empty == !keeps_in(children@.subrange(0, k as int), fs, ls),
                    action_views(actions@) == action_views(old(actions)@) + dir_removals(
                        pruned_in(children@.subrange(0, k as int), fs, ls),
                    ),
                decreases children.len() - k,
            {
                let ghost before = action_views(actions@);
                let ghost cs = children@.subrange(0, k + 1);
                assert(cs.drop_last() =~= children@.subrange(0, k as int));
                assert(cs.last() == children@[k as int]);
                proof {
                    broadcast use vstd::std_specs::vec::axiom_vec_index_decreases;
                    assert(decreases_to!(*children => children@[k as int]));
                    assert(decreases_to!(*path => path->Dir_children));
                    assert(decreases_to!(*path => children@[k as int]));
                }
                let child = &children[k];
                let sub_empty = remove_empty_directories(child, source, links, actions);
                let ghost mid = action_views(actions@);
                match child {
                    Entry::Dir { path: sub, .. } => {
                        if sub_empty {
                            actions.push(Action::RemoveDir(sub.clone()));
                            assert(action_views(actions@) =~= mid.push(
                                ActionView::RemoveDir(entry_path(*child)),
                            ));
                        } else {
                            is_empty = false;
                        }
                    },
                    Entry::File(_) => {
                        if !sub_empty {
                            is_empty = false;
                        }
                    },
                }
                assert(action_views(actions@) =~= action_views(old(actions)@) + dir_removals(
                    pruned_in(cs, fs, ls),
                ));
                k = k + 1;
            }
            assert(children@.subrange(0, k as int) =~= children@);
            let found = any_under(dir, links);
            proof {
                if found {
                    let j = choose|j: int| 0 <= j < links.len() && under(dir@, #[trigger] links@[j]@);
                    assert(ls[j] == links@[j]@);
                } else {
                    assert forall|j: int| 0 <= j < ls.len() implies !under(dir@, ls[j]) by {
                        assert(ls[j] == links@[j]@);
                    }
                }
            }
            if found {
                is_empty = false;
            }
            is_empty
        },
    }
}


// ---------------------------------------------------------------------------
// A whole run.
pub open spec fn creations(ps: Seq<(Seq<char>, Seq<char>, Seq<char>)>) -> Seq<ActionView>
    decreases ps.len(),
{
    if ps.len() == 0 {
        Seq::empty()
    } else {
        creations(ps.drop_last()) + seq![
            ActionView::CreateDirAll(ps.last().1),
            ActionView::HardLink(ps.last().0, ps.last().2),
        ]
    }
}

/// The links that a run against the target tree `t` makes.
pub open spec fn run_links(fs: Seq<ScannedView>, t: Entry) -> Seq<(Seq<char>, Seq<char>, Seq<char>)> {
    planned(entry_path(t), fs, paths(select(fs, files_of(t), true)))
}

/// Everything a run does, in order: stale files are removed, missing links
/// are made, then directories left empty are removed.
pub open spec fn plan(fs: Seq<ScannedView>, t: Entry) -> Seq<ActionView> {
    removals(select(fs, files_of(t), false)) + creations(run_links(fs, t)) + dir_removals(
        pruned(t, fs, links(run_links(fs, t))),
    )
}

fn entry_path_exec(e: &Entry) -> (r: String)
    ensures
        r@ == entry_path(*e),
{
    match e {
        Entry::File(f) => f.path.clone(),
        Entry::Dir { path, .. } => path.clone(),
    }
}

/// The actions that bring the target tree `target` in line with `files`.
/// The same list serves a real run, which performs it, and a dry run, which
/// reports it.
pub fn reconcile(files: &Vec<ScannedFile>, target: &Entry) -> (r: Vec<Action>)
    ensures
        action_views(r@) == plan(views(files@), *target),
{
    let ghost fs = views(files@);
    let mut actions = remove_hardlinks(files, target);
    let all = find_all_files(target);
    let kept = select_files(files, &all, true);
    let mut existing: Vec<String> = Vec::new();
    let mut k: usize = 0;
    while k < kept.len()
        invariant
            k <= kept.len(),
            texts(existing@) == paths(file_views(kept@).subrange(0, k as int)),
        decreases kept.len() - k,
    {
        let ghost prev = texts(existing@);
        let path = kept[k].path.clone();
        existing.push(path);
        assert(texts(existing@) =~= prev.push(file_views(kept@)[k as int].0));
        assert(file_views(kept@).subrange(0, k + 1).drop_last() =~= file_views(kept@).subrange(0, k as int));
        k = k + 1;
        assert(texts(existing@) =~= paths(file_views(kept@).subrange(0, k as int)));
    }
    assert(file_views(kept@).subrange(0, k as int) =~= file_views(kept@));
    let root = entry_path_exec(target);
    let made = create_links(files, root.as_str(), &existing);
    let ghost ps = link_views(made@);
    assert(ps == run_links(fs, *target));
    let ghost base = action_views(actions@);
    let mut link_paths: Vec<String> = Vec::new();
    let mut m: usize = 0;
    assert(ps.subrange(0, 0) =~= Seq::<(Seq<char>, Seq<char>, Seq<char>)>::empty());
    assert(action_views(actions@) =~= base + creations(ps.subrange(0, 0)));
    while m < made.len()
        invariant
            m <= made.len(),
            ps == link_views(made@),
            action_views(actions@) == base + creations(ps.subrange(0, m as int)),
            texts(link_paths@) == links(ps.subrange(0, m as int)),
        decreases made.len() - m,
    {
        let ghost before = action_views(actions@);
        let ghost prev_links = texts(link_paths@);
        let l = &made[m];
        let dir = l.dir.clone();
        let original = l.source.clone();
        let link = l.link.clone();
        let link_path = l.link.clone();
        actions.push(Action::CreateDirAll(dir));
        actions.push(Action::HardLink { original, link });
        link_paths.push(link_path);
        assert(action_views(actions@) =~= before.push(ActionView::CreateDirAll(l.dir@)).push(
            ActionView::HardLink(l.source@, l.link@),
        ));
        assert(texts(link_paths@) =~= prev_links.push(l.link@));
        assert(ps.subrange(0, m + 1).drop_last() =~= ps.subrange(0, m as int));
        assert(ps[m as int] == l@);
        m = m + 1;
        assert(action_views(actions@) =~= base + creations(ps.subrange(0, m as int)));
        assert(texts(link_paths@) =~= links(ps.subrange(0, m as int)));
    }
    assert(ps.subrange(0, m as int) =~= ps);
    let _ = remove_empty_directories(target, files, &link_paths, &mut actions);
    assert(action_views(actions@) =~= plan(fs, *target));
    actions
}

} // verus!
