use harvester::{
    create_links, find_all_files, reconcile, remove_empty_directories, remove_hardlinks, Action,
    Analyzer, Entry, FileEntry, MediaData, ScannedFile,
};

fn file(path: &str, inode: u64) -> Entry {
    Entry::File(FileEntry { path: path.to_string(), inode })
}

fn dir(path: &str, children: Vec<Entry>) -> Entry {
    Entry::Dir { path: path.to_string(), children }
}

fn episode(path: &str, name: &str, season: u32, ep: u32, inode: u64) -> ScannedFile {
    ScannedFile {
        path: path.to_string(),
        metadata: Some(MediaData::ShowEpisode { name: name.to_string(), season, episode: ep }),
        inode,
    }
}

fn film(path: &str, title: &str, year: Option<u32>, inode: u64) -> ScannedFile {
    ScannedFile {
        path: path.to_string(),
        metadata: Some(MediaData::Movie { title: title.to_string(), year }),
        inode,
    }
}

fn mkdir(p: &str) -> Action {
    Action::CreateDirAll(p.to_string())
}

fn link(o: &str, l: &str) -> Action {
    Action::HardLink { original: o.to_string(), link: l.to_string() }
}

fn source() -> Vec<ScannedFile> {
    vec![
        episode("/in/Show S01E02 x.mkv", "show", 1, 2, 10),
        film("/in/Film 2001 x.mp4", "film", Some(2001), 11),
        ScannedFile { path: "/in/a.srt".to_string(), metadata: Some(MediaData::Garbage), inode: 12 },
        ScannedFile { path: "/in/a.doc".to_string(), metadata: None, inode: 13 },
    ]
}

/// The target tree once the first run's actions are done.
fn synced_tree() -> Entry {
    dir(
        "/lib",
        vec![
            dir(
                "/lib/shows",
                vec![dir(
                    "/lib/shows/show",
                    vec![dir(
                        "/lib/shows/show/Season 1",
                        vec![file("/lib/shows/show/Season 1/episode 2.mkv", 10)],
                    )],
                )],
            ),
            dir("/lib/movies", vec![dir("/lib/movies/film (2001)", vec![file("/lib/movies/film (2001)/movie.mp4", 11)])]),
        ],
    )
}

#[test]
fn first_run_links_media_only() {
    let actions = reconcile(&source(), &dir("/lib", vec![]));
    assert_eq!(
        actions,
        vec![
            mkdir("/lib/shows/show/Season 1"),
            link("/in/Show S01E02 x.mkv", "/lib/shows/show/Season 1/episode 2.mkv"),
            mkdir("/lib/movies/film (2001)"),
            link("/in/Film 2001 x.mp4", "/lib/movies/film (2001)/movie.mp4"),
        ]
    );
}

#[test]
fn second_run_does_nothing() {
    assert_eq!(reconcile(&source(), &synced_tree()), vec![]);
}

#[test]
fn removed_source_is_reclaimed_and_its_dirs_pruned() {
    let mut files = source();
    files.remove(0);
    let actions = reconcile(&files, &synced_tree());
    assert_eq!(
        actions,
        vec![
            Action::RemoveFile("/lib/shows/show/Season 1/episode 2.mkv".to_string()),
            Action::RemoveDir("/lib/shows/show/Season 1".to_string()),
            Action::RemoveDir("/lib/shows/show".to_string()),
            Action::RemoveDir("/lib/shows".to_string()),
        ]
    );
}

#[test]
fn foreign_inode_is_reclaimed_and_garbage_is_not_protected() {
    let tree = dir("/lib", vec![file("/lib/stray.txt", 12), file("/lib/other", 99)]);
    let actions = remove_hardlinks(&source(), &tree);
    assert_eq!(
        actions,
        vec![
            Action::RemoveFile("/lib/stray.txt".to_string()),
            Action::RemoveFile("/lib/other".to_string()),
        ]
    );
}

#[test]
fn first_file_takes_a_shared_link_path() {
    let files = vec![
        episode("/in/a.mkv", "s", 2, 3, 1),
        episode("/in/b.mkv", "s", 2, 3, 2),
        episode("/in/c.mp4", "s", 2, 3, 3),
    ];
    let links = create_links(&files, "/lib", &vec![]);
    assert_eq!(links.len(), 2);
    assert_eq!(links[0].source, "/in/a.mkv");
    assert_eq!(links[0].dir, "/lib/shows/s/Season 2");
    assert_eq!(links[0].link, "/lib/shows/s/Season 2/episode 3.mkv");
    assert_eq!(links[1].source, "/in/c.mp4");
    assert_eq!(links[1].link, "/lib/shows/s/Season 2/episode 3.mp4");
}

#[test]
fn existing_link_path_is_skipped() {
    let files = vec![film("/in/m.mkv", "m", None, 5)];
    let links = create_links(&files, "/lib", &vec!["/lib/movies/m/movie.mkv".to_string()]);
    assert!(links.is_empty());
    let links = create_links(&files, "/lib", &vec![]);
    assert_eq!(links[0].link, "/lib/movies/m/movie.mkv");
    assert_eq!(links[0].dir, "/lib/movies/m");
}

#[test]
fn dry_run_plan_is_repeatable() {
    let mut files = source();
    files.push(episode("/in/dup.mkv", "show", 1, 2, 20));
    let tree = dir("/lib", vec![dir("/lib/empty", vec![])]);
    let first = reconcile(&files, &tree);
    let again = reconcile(&files, &tree);
    assert_eq!(first, again);
    assert_eq!(
        first,
        vec![
            mkdir("/lib/shows/show/Season 1"),
            link("/in/Show S01E02 x.mkv", "/lib/shows/show/Season 1/episode 2.mkv"),
            mkdir("/lib/movies/film (2001)"),
            link("/in/Film 2001 x.mp4", "/lib/movies/film (2001)/movie.mp4"),
            Action::RemoveDir("/lib/empty".to_string()),
        ]
    );
}

#[test]
fn directory_with_a_new_link_is_kept() {
    let tree = dir("/lib", vec![dir("/lib/shows", vec![dir("/lib/shows/x", vec![])])]);
    let mut actions = vec![];
    let empty = remove_empty_directories(&tree, &vec![], &vec!["/lib/shows/y/Season 1/episode 1.mkv".to_string()], &mut actions);
    assert!(!empty);
    assert_eq!(actions, vec![Action::RemoveDir("/lib/shows/x".to_string())]);
}

#[test]
fn root_is_never_removed() {
    let mut actions = vec![];
    let empty = remove_empty_directories(&dir("/lib", vec![dir("/lib/a", vec![dir("/lib/a/b", vec![])])]), &vec![], &vec![], &mut actions);
    assert!(empty);
    assert_eq!(
        actions,
        vec![Action::RemoveDir("/lib/a/b".to_string()), Action::RemoveDir("/lib/a".to_string())]
    );
}

#[test]
fn scan_lists_files_depth_first() {
    let tree = dir("/in", vec![file("/in/a.mkv", 1), dir("/in/d", vec![file("/in/d/b.srt", 2)]), file("/in/c", 3)]);
    let found = find_all_files(&tree);
    assert_eq!(
        found,
        vec![
            FileEntry { path: "/in/a.mkv".to_string(), inode: 1 },
            FileEntry { path: "/in/d/b.srt".to_string(), inode: 2 },
            FileEntry { path: "/in/c".to_string(), inode: 3 },
        ]
    );
    let scanned = Analyzer::new().analyze_directory(&tree);
    assert_eq!(scanned.len(), 3);
    assert_eq!(scanned[0].metadata, None);
    assert_eq!(scanned[1].metadata, Some(MediaData::Garbage));
    assert_eq!(scanned[2].inode, 3);
}

#[test]
fn root_with_trailing_slash_is_joined_once() {
    let files = vec![episode("/in/a.mkv", "s", 1, 4, 1), film("/in/b.mkv", "b", Some(1990), 2)];
    let links = create_links(&files, "lib/", &vec![]);
    assert_eq!(links[0].link, "lib/shows/s/Season 1/episode 4.mkv");
    assert_eq!(links[1].link, "lib/movies/b (1990)/movie.mkv");
    let links = create_links(&files, "lib", &vec![]);
    assert_eq!(links[0].link, "lib/shows/s/Season 1/episode 4.mkv");
    let links = create_links(&files, "", &vec![]);
    assert_eq!(links[0].dir, "shows/s/Season 1");
}

#[test]
fn numbers_in_link_paths_are_plain_decimal() {
    let files = vec![
        episode("/in/a.mkv", "s", 10, 0, 1),
        episode("/in/b.mkv", "s", 4294967295, 1203, 2),
    ];
    let links = create_links(&files, "/lib", &vec![]);
    assert_eq!(links[0].link, "/lib/shows/s/Season 10/episode 0.mkv");
    assert_eq!(links[1].link, "/lib/shows/s/Season 4294967295/episode 1203.mkv");
}
