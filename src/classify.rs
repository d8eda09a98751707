use vstd::prelude::*;

use crate::text::{chars_of, lower_of, lowercase, text_of};

verus! {

/// What a media file was recognised as.
#[derive(Clone, Debug, PartialEq, Eq, PartialOrd, Ord)]
pub enum MediaData {
    Movie { title: String, year: Option<u32> },
    ShowEpisode { name: String, season: u32, episode: u32 },
    Garbage,
}

/// `MediaData` with its strings seen as character sequences.
pub enum MediaView {
    Movie { title: Seq<char>, year: Option<u32> },
    ShowEpisode { name: Seq<char>, season: u32, episode: u32 },
    Garbage,
}

impl View for MediaData {
    type V = MediaView;

    open spec fn view(&self) -> MediaView {
        match self {
            MediaData::Movie { title, year } => MediaView::Movie { title: title@, year: *year },
            MediaData::ShowEpisode { name, season, episode } => MediaView::ShowEpisode {
                name: name@,
                season: *season,
                episode: *episode,
            },
            MediaData::Garbage => MediaView::Garbage,
        }
    }
}

pub open spec fn view_opt(m: Option<MediaData>) -> Option<MediaView> {
    match m {
        Some(d) => Some(d@),
        None => None,
    }
}

/// Kinds of character runs that the filename grammar scans over.
#[derive(Clone, Copy, PartialEq, Eq)]
pub enum Class {
    Digit,
    Separator,
    Unclosed,
}

pub open spec fn in_class(c: char, cl: Class) -> bool {
    match cl {
        Class::Digit => '0' <= c && c <= '9',
        Class::Separator => c == '.' || c == ' ' || c == '_',
        Class::Unclosed => c != ']',
    }
}

/// End of the longest run of `cl` characters starting at `i`.
pub open spec fn run_end(t: Seq<char>, i: int, cl: Class) -> int
    decreases t.len() - i,
{
    if 0 <= i < t.len() && in_class(t[i], cl) {
        run_end(t, i + 1, cl)
    } else {
        i
    }
}

pub open spec fn digits_end(t: Seq<char>, i: int) -> int {
    run_end(t, i, Class::Digit)
}

/// The number written by a sequence of decimal digits.
pub open spec fn value(d: Seq<char>) -> nat
    decreases d.len(),
{
    if d.len() == 0 {
        0
    } else {
        value(d.drop_last()) * 10 + ((d.last() as u32 - '0' as u32) as nat)
    }
}

// ---------------------------------------------------------------------------
// The bracketed release tags `[...]`, with the separators around them, that
// are removed from a name before it is matched.
/// End of the tag that starts at `p`, if one does.
pub open spec fn tag_end(t: Seq<char>, p: int) -> Option<int> {
    let q = run_end(t, p, Class::Separator);
    let r = run_end(t, q + 1, Class::Unclosed);
    if 0 <= p && q < t.len() && t[q] == '[' && r > q + 1 && r < t.len() {
        Some(run_end(t, r + 1, Class::Separator))
    } else {
        None
    }
}

/// `t` from `p` on, with every tag removed, scanning from the left.
pub open spec fn strip(t: Seq<char>, p: int) -> Seq<char>
    decreases t.len() - p,
{
    if p < 0 || p >= t.len() {
        Seq::empty()
    } else if tag_end(t, p).is_some() && p < tag_end(t, p).unwrap() <= t.len() {
        strip(t, tag_end(t, p).unwrap())
    } else {
        seq![t[p]] + strip(t, p + 1)
    }
}

/// `_` and `.` become spaces.
pub open spec fn spaced(t: Seq<char>) -> Seq<char> {
    t.map_values(|c: char| if c == '_' || c == '.' { ' ' } else { c })
}

/// A lower-cased stem as the rules see it.
pub open spec fn normalized(t: Seq<char>) -> Seq<char> {
    spaced(strip(t, 0))
}

// ---------------------------------------------------------------------------
// The rules, each at the position `i` where the name ends.
/// The rules, most specific first.
#[derive(Clone, Copy, PartialEq, Eq)]
pub enum Rule {
    /// `<name> s<season>e<episode> <rest>`
    Marker,
    /// `<name> - <episode>[v<d>][ <rest>]`
    Dash,
    /// `<name> e<episode> '<rest>`
    Quoted,
    /// `<name> <episode>[ (<rest>)][ v2]`
    Bare,
    /// `<name> <year>[ <rest>]`, the name not ending in `-`, the rest not
    /// starting with `-`
    Year,
}

pub open spec fn dash_tail(t: Seq<char>, j: int) -> bool {
    let m = t.len() - j;
    m == 0 || t[j] == ' ' || (m >= 2 && t[j] == 'v' && in_class(t[j + 1], Class::Digit) && (m
        == 2 || t[j + 2] == ' '))
}

pub open spec fn bare_tail(t: Seq<char>, j: int) -> bool {
    let n = t.len();
    let m = n - j;
    ||| m == 0
    ||| m == 3 && t[j] == ' ' && t[j + 1] == 'v' && t[j + 2] == '2'
    ||| m >= 3 && t[j] == ' ' && t[j + 1] == '(' && t[n - 1] == ')'
    ||| m >= 6 && t[j] == ' ' && t[j + 1] == '(' && t[n - 4] == ')' && t[n - 3] == ' ' && t[n
        - 2] == 'v' && t[n - 1] == '2'
}

pub open spec fn is_e(c: char) -> bool {
    c == 'e' || c == 'E'
}

pub open spec fn rule_holds(t: Seq<char>, rule: Rule, i: int) -> bool {
    let n = t.len();
    match rule {
        Rule::Marker => {
            let j = digits_end(t, i + 2);
            let k = digits_end(t, j + 1);
            &&& 0 <= i && i + 1 < n
            &&& t[i] == ' ' && (t[i + 1] == 's' || t[i + 1] == 'S')
            &&& i + 2 < j < n && is_e(t[j])
            &&& j + 1 < k < n && t[k] == ' '
        },
        Rule::Dash => {
            let j = digits_end(t, i + 3);
            &&& 0 <= i && i + 3 <= n
            &&& t[i] == ' ' && t[i + 1] == '-' && t[i + 2] == ' '
            &&& i + 3 < j && dash_tail(t, j)
        },
        Rule::Quoted => {
            let j = digits_end(t, i + 2);
            &&& 0 <= i && i + 1 < n
            &&& t[i] == ' ' && is_e(t[i + 1])
            &&& i + 2 < j && j + 1 < n && t[j] == ' ' && t[j + 1] == '\''
        },
        Rule::Bare => {
            let j = digits_end(t, i + 1);
            &&& 0 <= i && i < n && t[i] == ' '
            &&& i + 1 < j && bare_tail(t, j)
        },
        Rule::Year => {
            &&& 1 <= i && i + 5 <= n
            &&& t[i - 1] != '-' && t[i] == ' '
            &&& digits_end(t, i + 1) >= i + 5
            &&& (i + 5 == n || (i + 6 < n && t[i + 5] == ' ' && t[i + 6] != '-'))
        },
    }
}

/// The largest position `<= i` where `rule` holds: the name is as long as it
/// can be.
pub open spec fn latest(t: Seq<char>, rule: Rule, i: int) -> Option<int>
    decreases i + 1,
{
    if i < 0 {
        None
    } else if rule_holds(t, rule, i) {
        Some(i)
    } else {
        latest(t, rule, i - 1)
    }
}

pub open spec fn episode_of(name: Seq<char>, season: nat, episode: nat) -> Option<MediaView> {
    if 1 <= season <= u32::MAX && episode <= u32::MAX {
        Some(MediaView::ShowEpisode { name, season: season as u32, episode: episode as u32 })
    } else {
        None
    }
}

pub open spec fn movie_of(title: Seq<char>, year: nat) -> Option<MediaView> {
    if year <= u32::MAX {
        Some(MediaView::Movie { title, year: Some(year as u32) })
    } else {
        None
    }
}

/// What the first rule that matches `t` makes of it.
pub open spec fn classify_name(t: Seq<char>) -> Option<MediaView> {
    let n = t.len() as int;
    if let Some(i) = latest(t, Rule::Marker, n) {
        let j = digits_end(t, i + 2);
        let k = digits_end(t, j + 1);
        episode_of(t.subrange(0, i), value(t.subrange(i + 2, j)), value(t.subrange(j + 1, k)))
    } else if let Some(i) = latest(t, Rule::Dash, n) {
        episode_of(t.subrange(0, i), 1, value(t.subrange(i + 3, digits_end(t, i + 3))))
    } else if let Some(i) = latest(t, Rule::Quoted, n) {
        episode_of(t.subrange(0, i), 1, value(t.subrange(i + 2, digits_end(t, i + 2))))
    } else if let Some(i) = latest(t, Rule::Bare, n) {
        episode_of(t.subrange(0, i), 1, value(t.subrange(i + 1, digits_end(t, i + 1))))
    } else if let Some(i) = latest(t, Rule::Year, n) {
        movie_of(t.subrange(0, i), value(t.subrange(i + 1, i + 5)))
    } else {
        None
    }
}


// ---------------------------------------------------------------------------
fn in_class_exec(c: char, cl: Class) -> (r: bool)
    ensures
        r == in_class(c, cl),
{
    match cl {
        Class::Digit => '0' <= c && c <= '9',
        Class::Separator => c == '.' || c == ' ' || c == '_',
        Class::Unclosed => c != ']',
    }
}

fn scan(t: &Vec<char>, i: usize, cl: Class) -> (r: usize)
    requires
        i <= t.len(),
    ensures
        r == run_end(t@, i as int, cl),
        i <= r <= t.len(),
        forall|k: int| i <= k < r ==> in_class(#[trigger] t@[k], cl),
{
    let mut k: usize = i;
    while k < t.len() && in_class_exec(t[k], cl)
        invariant
            i <= k <= t.len(),
            run_end(t@, k as int, cl) == run_end(t@, i as int, cl),
            forall|m: int| i <= m < k ==> in_class(#[trigger] t@[m], cl),
        decreases t.len() - k,
    {
        k = k + 1;
    }
    k
}

proof fn lemma_run_end(t: Seq<char>, i: int, cl: Class)
    requires
        0 <= i <= t.len(),
    ensures
        i <= run_end(t, i, cl) <= t.len(),
        forall|k: int| i <= k < run_end(t, i, cl) ==> in_class(#[trigger] t[k], cl),
    decreases t.len() - i,
{
    if i < t.len() && in_class(t[i], cl) {
        lemma_run_end(t, i + 1, cl);
    }
}

proof fn lemma_value_prefix(s: Seq<char>, a: int)
    requires
        0 <= a <= s.len(),
        forall|k: int| 0 <= k < s.len() ==> in_class(#[trigger] s[k], Class::Digit),
    ensures
        value(s.subrange(0, a)) <= value(s),
    decreases s.len(),
{
    if a < s.len() {
        let d = s.drop_last();
        assert forall|k: int| 0 <= k < d.len() implies in_class(#[trigger] d[k], Class::Digit) by {
            assert(d[k] == s[k]);
        }
        lemma_value_prefix(d, a);
        assert(d.subrange(0, a) =~= s.subrange(0, a));
    } else {
        assert(s.subrange(0, a) =~= s);
    }
}

/// Reads the digits `t[lo..hi]` as a `u32`, or `None` where the number does
/// not fit.
fn parse_digits(t: &Vec<char>, lo: usize, hi: usize) -> (r: Option<u32>)
    requires
        lo <= hi <= t.len(),
        forall|k: int| lo <= k < hi ==> in_class(#[trigger] t@[k], Class::Digit),
    ensures
        r == (if value(t@.subrange(lo as int, hi as int)) <= u32::MAX {
            Some(value(t@.subrange(lo as int, hi as int)) as u32)
        } else {
            None::<u32>
        }),
{
    let ghost s = t@.subrange(lo as int, hi as int);
    let mut acc: u64 = 0;
    let mut k: usize = lo;
    assert(t@.subrange(lo as int, lo as int) =~= Seq::<char>::empty());
    while k < hi
        invariant
            lo <= k <= hi <= t.len(),
            s == t@.subrange(lo as int, hi as int),
            forall|m: int| lo <= m < hi ==> in_class(#[trigger] t@[m], Class::Digit),
            acc == value(t@.subrange(lo as int, k as int)),
            acc <= u32::MAX,
        decreases hi - k,
    {
        let d = (t[k] as u32 - '0' as u32) as u64;
        let ghost prev = t@.subrange(lo as int, k as int);
        let ghost next = t@.subrange(lo as int, k + 1);
        assert(next.drop_last() =~= prev);
        assert(in_class(t@[k as int], Class::Digit));
        acc = acc * 10 + d;
        if acc > u32::MAX as u64 {
            proof {
                assert forall|m: int| 0 <= m < s.len() implies in_class(#[trigger] s[m], Class::Digit) by {
                    assert(s[m] == t@[lo + m]);
                }
                lemma_value_prefix(s, k + 1 - lo);
                assert(s.subrange(0, k + 1 - lo) =~= next);
            }
            return None;
        }
        k = k + 1;
    }
    assert(t@.subrange(lo as int, k as int) =~= s);
    Some(acc as u32)
}

/// `t[lo..hi]`.
fn slice(t: &Vec<char>, lo: usize, hi: usize) -> (r: Vec<char>)
    requires
        lo <= hi <= t.len(),
    ensures
        r@ == t@.subrange(lo as int, hi as int),
{
    let mut r: Vec<char> = Vec::new();
    let mut k: usize = lo;
    while k < hi
        invariant
            lo <= k <= hi <= t.len(),
            r@ == t@.subrange(lo as int, k as int),
        decreases hi - k,
    {
        r.push(t[k]);
        k = k + 1;
        assert(r@ =~= t@.subrange(lo as int, k as int));
    }
    r
}


fn is_digit(c: char) -> (r: bool)
    ensures
        r == in_class(c, Class::Digit),
{
    '0' <= c && c <= '9'
}

fn rule_at(t: &Vec<char>, rule: Rule, i: usize) -> (r: bool)
    requires
        i <= t.len(),
    ensures
        r == rule_holds(t@, rule, i as int),
{
    let n = t.len();
    match rule {
        Rule::Marker => {
            if n - i < 2 || !(t[i] == ' ' && (t[i + 1] == 's' || t[i + 1] == 'S')) {
                return false;
            }
            let j = scan(t, i + 2, Class::Digit);
            if j == i + 2 || j >= n || !(t[j] == 'e' || t[j] == 'E') {
                return false;
            }
            let k = scan(t, j + 1, Class::Digit);
            k > j + 1 && k < n && t[k] == ' '
        },
        Rule::Dash => {
            if n - i < 3 || !(t[i] == ' ' && t[i + 1] == '-' && t[i + 2] == ' ') {
                return false;
            }
            let j = scan(t, i + 3, Class::Digit);
            let m = n - j;
            j > i + 3 && (m == 0 || t[j] == ' ' || (m >= 2 && t[j] == 'v' && is_digit(t[j + 1]) && (
            m == 2 || t[j + 2] == ' ')))
        },
        Rule::Quoted => {
            if n - i < 2 || !(t[i] == ' ' && (t[i + 1] == 'e' || t[i + 1] == 'E')) {
                return false;
            }
            let j = scan(t, i + 2, Class::Digit);
            j > i + 2 && n - j >= 2 && t[j] == ' ' && t[j + 1] == '\''
        },
        Rule::Bare => {
            if n - i < 1 || t[i] != ' ' {
                return false;
            }
            let j = scan(t, i + 1, Class::Digit);
            let m = n - j;
            j > i + 1 && (m == 0 || (m == 3 && t[j] == ' ' && t[j + 1] == 'v' && t[j + 2] == '2') || (
            m >= 3 && t[j] == ' ' && t[j + 1] == '(' && t[n - 1] == ')') || (m >= 6 && t[j] == ' '
                && t[j + 1] == '(' && t[n - 4] == ')' && t[n - 3] == ' ' && t[n - 2] == 'v' && t[n
                - 1] == '2'))
        },
        Rule::Year => {
            if i < 1 || n - i < 5 || t[i - 1] == '-' || t[i] != ' ' {
                return false;
            }
            let j = scan(t, i + 1, Class::Digit);
            j >= i + 5 && (n - i == 5 || (n - i > 6 && t[i + 5] == ' ' && t[i + 6] != '-'))
        },
    }
}

proof fn lemma_latest_skip(t: Seq<char>, rule: Rule, lo: int, hi: int)
    requires
        -1 <= lo <= hi,
        forall|k: int| lo < k <= hi ==> !rule_holds(t, rule, k),
    ensures
        latest(t, rule, hi) == latest(t, rule, lo),
    decreases hi - lo,
{
    if hi > lo {
        lemma_latest_skip(t, rule, lo, hi - 1);
    }
}

/// The largest position at which `rule` holds.
fn last_match(t: &Vec<char>, rule: Rule) -> (r: Option<usize>)
    ensures
        r matches Some(i) ==> latest(t@, rule, t.len() as int) == Some(i as int) && i <= t.len()
            && rule_holds(t@, rule, i as int),
        r is None ==> latest(t@, rule, t.len() as int) is None,
{
    let mut i: usize = t.len();
    loop
        invariant
            i <= t.len(),
            latest(t@, rule, t.len() as int) == latest(t@, rule, i as int),
        decreases i,
    {
        if rule_at(t, rule, i) {
            return Some(i);
        }
        if i == 0 {
            return None;
        }
        i = i - 1;
    }
}

fn tag_end_exec(t: &Vec<char>, p: usize) -> (r: Option<usize>)
    requires
        p <= t.len(),
    ensures
        r matches Some(e) ==> tag_end(t@, p as int) == Some(e as int) && e <= t.len(),
        r is None ==> tag_end(t@, p as int) is None,
{
    let q = scan(t, p, Class::Separator);
    if q >= t.len() || t[q] != '[' {
        return None;
    }
    let r = scan(t, q + 1, Class::Unclosed);
    if r > q + 1 && r < t.len() {
        Some(scan(t, r + 1, Class::Separator))
    } else {
        None
    }
}

fn strip_tags(t: &Vec<char>) -> (r: Vec<char>)
    ensures
        r@ == strip(t@, 0),
{
    let mut out: Vec<char> = Vec::new();
    let mut p: usize = 0;
    while p < t.len()
        invariant
            p <= t.len(),
            out@ + strip(t@, p as int) == strip(t@, 0),
        decreases t.len() - p,
    {
        match tag_end_exec(t, p) {
            Some(e) if e > p => {
                p = e;
            },
            _ => {
                assert(strip(t@, p as int) == seq![t@[p as int]] + strip(t@, p + 1));
                assert(out@.push(t@[p as int]) + strip(t@, p + 1) =~= out@ + strip(t@, p as int));
                out.push(t[p]);
                p = p + 1;
            },
        }
    }
    assert(strip(t@, p as int) =~= Seq::<char>::empty());
    assert(out@ =~= out@ + strip(t@, p as int));
    out
}

fn space_out(t: &Vec<char>) -> (r: Vec<char>)
    ensures
        r@ == spaced(t@),
{
    let mut out: Vec<char> = Vec::new();
    let mut k: usize = 0;
    while k < t.len()
        invariant
            k <= t.len(),
            out@ =~= spaced(t@.subrange(0, k as int)),
        decreases t.len() - k,
    {
        let c = t[k];
        out.push(if c == '_' || c == '.' { ' ' } else { c });
        k = k + 1;
        assert(out@ =~= spaced(t@.subrange(0, k as int)));
    }
    assert(t@.subrange(0, k as int) =~= t@);
    out
}

fn make_episode(t: &Vec<char>, i: usize, season: Option<u32>, episode: Option<u32>) -> (r: Option<
    MediaData,
>)
    requires
        i <= t.len(),
    ensures
        season.is_some() && season.unwrap() >= 1 && episode.is_some() ==> view_opt(r) == Some(
            MediaView::ShowEpisode {
                name: t@.subrange(0, i as int),
                season: season.unwrap(),
                episode: episode.unwrap(),
            },
        ),
        season is None || season.unwrap() == 0 || episode is None ==> r is None,
{
    match (season, episode) {
        (Some(s), Some(e)) if s >= 1 => Some(
            MediaData::ShowEpisode { name: text_of(&slice(t, 0, i)), season: s, episode: e },
        ),
        _ => None,
    }
}

/// Classifies a name that is already lower-cased: tags removed, `_` and `.`
/// spaced out, then the rules tried in order.
pub fn classify_lowered(name: &str) -> (r: Option<MediaData>)
    ensures
        view_opt(r) == classify_name(normalized(name@)),
{
    let raw = chars_of(name);
    let stripped = strip_tags(&raw);
    let t = space_out(&stripped);
    if let Some(i) = last_match(&t, Rule::Marker) {
        let j = scan(&t, i + 2, Class::Digit);
        let k = scan(&t, j + 1, Class::Digit);
        make_episode(&t, i, parse_digits(&t, i + 2, j), parse_digits(&t, j + 1, k))
    } else if let Some(i) = last_match(&t, Rule::Dash) {
        let j = scan(&t, i + 3, Class::Digit);
        make_episode(&t, i, Some(1), parse_digits(&t, i + 3, j))
    } else if let Some(i) = last_match(&t, Rule::Quoted) {
        let j = scan(&t, i + 2, Class::Digit);
        make_episode(&t, i, Some(1), parse_digits(&t, i + 2, j))
    } else if let Some(i) = last_match(&t, Rule::Bare) {
        let j = scan(&t, i + 1, Class::Digit);
        make_episode(&t, i, Some(1), parse_digits(&t, i + 1, j))
    } else if let Some(i) = last_match(&t, Rule::Year) {
        proof {
            lemma_run_end(t@, i + 1, Class::Digit);
        }
        match parse_digits(&t, i + 1, i + 5) {
            Some(y) => Some(MediaData::Movie { title: text_of(&slice(&t, 0, i)), year: Some(y) }),
            None => None,
        }
    } else {
        None
    }
}


// ---------------------------------------------------------------------------
// Paths: the file name follows the last `/`, its extension the last `.` that
// is not its first character.
/// Index of the last `c` in `s`, or -1.
pub open spec fn last_index_of(s: Seq<char>, c: char) -> int
    decreases s.len(),
{
    if s.len() == 0 {
        -1
    } else if s.last() == c {
        s.len() - 1
    } else {
        last_index_of(s.drop_last(), c)
    }
}

pub open spec fn file_name(p: Seq<char>) -> Seq<char> {
    p.subrange(last_index_of(p, '/') + 1, p.len() as int)
}

pub open spec fn video_ext(e: Seq<char>) -> bool {
    e == "mkv"@ || e == "mp4"@
}

/// Extensions of files that come with media but are not linked: subtitles,
/// audio, images, disc structure, and sidecar files.
pub open spec fn garbage_ext(e: Seq<char>) -> bool {
    ||| e == "srt"@ || e == "sub"@ || e == "idx"@
    ||| e == "ogg"@ || e == "mp3"@
    ||| e == "jpg"@ || e == "png"@
    ||| e == "ts"@ || e == "bdjo"@ || e == "clpi"@ || e == "mpls"@ || e == "m2ts"@ || e == "bdmv"@
    ||| e == "torrent"@ || e == "meta"@ || e == "exe"@ || e == "nfo"@ || e == "txt"@ || e == "md5"@
}

pub open spec fn dot_index(p: Seq<char>) -> int {
    last_index_of(file_name(p), '.')
}

pub open spec fn has_extension(p: Seq<char>) -> bool {
    dot_index(p) > 0
}

pub open spec fn extension(p: Seq<char>) -> Seq<char> {
    file_name(p).subrange(dot_index(p) + 1, file_name(p).len() as int)
}

pub open spec fn stem(p: Seq<char>) -> Seq<char> {
    file_name(p).subrange(0, dot_index(p))
}

/// What a path is recognised as.
pub open spec fn classify_path(p: Seq<char>) -> Option<MediaView> {
    if !has_extension(p) {
        None
    } else if video_ext(extension(p)) {
        classify_name(normalized(lower_of(stem(p))))
    } else if garbage_ext(extension(p)) {
        Some(MediaView::Garbage)
    } else {
        None
    }
}

fn last_index(t: &Vec<char>, c: char) -> (r: Option<usize>)
    ensures
        r matches Some(k) ==> last_index_of(t@, c) == k && k < t.len(),
        r is None ==> last_index_of(t@, c) == -1,
{
    let mut i: usize = t.len();
    assert(t@.subrange(0, i as int) =~= t@);
    while i > 0
        invariant
            i <= t.len(),
            last_index_of(t@, c) == last_index_of(t@.subrange(0, i as int), c),
        decreases i,
    {
        assert(t@.subrange(0, i as int).drop_last() =~= t@.subrange(0, i - 1));
        if t[i - 1] == c {
            return Some(i - 1);
        }
        i = i - 1;
    }
    None
}

fn same_chars(a: &Vec<char>, b: &Vec<char>) -> (r: bool)
    ensures
        r == (a@ == b@),
{
    if a.len() != b.len() {
        return false;
    }
    let mut k: usize = 0;
    while k < a.len()
        invariant
            a.len() == b.len(),
            k <= a.len(),
            forall|m: int| 0 <= m < k ==> a@[m] == b@[m],
        decreases a.len() - k,
    {
        if a[k] != b[k] {
            return false;
        }
        k = k + 1;
    }
    assert(a@ =~= b@);
    true
}

fn is_word(e: &Vec<char>, w: &str) -> (r: bool)
    ensures
        r == (e@ == w@),
{
    same_chars(e, &chars_of(w))
}

fn is_video(e: &Vec<char>) -> (r: bool)
    ensures
        r == video_ext(e@),
{
    is_word(e, "mkv") || is_word(e, "mp4")
}

fn is_garbage(e: &Vec<char>) -> (r: bool)
    ensures
        r == garbage_ext(e@),
{
    is_word(e, "srt") || is_word(e, "sub") || is_word(e, "idx") || is_word(e, "ogg") || is_word(
        e,
        "mp3",
    ) || is_word(e, "jpg") || is_word(e, "png") || is_word(e, "ts") || is_word(e, "bdjo")
        || is_word(e, "clpi") || is_word(e, "mpls") || is_word(e, "m2ts") || is_word(e, "bdmv")
        || is_word(e, "torrent") || is_word(e, "meta") || is_word(e, "exe") || is_word(e, "nfo")
        || is_word(e, "txt") || is_word(e, "md5")
}

/// Recognises media files by their names.
pub struct Analyzer {}

impl Analyzer {
    pub fn new() -> (r: Self) {
        Analyzer {  }
    }

    /// Video files are classified by their name, files of the known side
    /// kinds are `Garbage`, and anything else is `None`.
    pub fn analyze(&self, path: &str) -> (r: Option<MediaData>)
        ensures
            view_opt(r) == classify_path(path@),
    {
        match split_name(path) {
            None => None,
            Some((stem, ext)) => {
                if is_video(&ext) {
                    classify_lowered(&lowercase(&text_of(&stem)))
                } else if is_garbage(&ext) {
                    Some(MediaData::Garbage)
                } else {
                    None
                }
            },
        }
    }
}

/// The stem and the extension of a path's file name, where it has one.
pub(crate) fn split_name(path: &str) -> (r: Option<(Vec<char>, Vec<char>)>)
    ensures
        r is Some <==> has_extension(path@),
        r matches Some((s, e)) ==> s@ == stem(path@) && e@ == extension(path@),
{
    let p = chars_of(path);
    let start = match last_index(&p, '/') {
        Some(k) => k + 1,
        None => 0,
    };
    let name = slice(&p, start, p.len());
    assert(name@ == file_name(path@));
    match last_index(&name, '.') {
        Some(dot) if dot > 0 => Some((slice(&name, 0, dot), slice(&name, dot + 1, name.len()))),
        _ => None,
    }
}

/// A file whose extension is one of the known side kinds is `Garbage`,
/// whatever its name says.
pub proof fn law_side_files_are_garbage(p: Seq<char>)
    requires
        has_extension(p),
        garbage_ext(extension(p)),
    ensures
        classify_path(p) == Some(MediaView::Garbage),
{
    reveal_strlit("mkv");
    reveal_strlit("mp4");
    reveal_strlit("srt");
    reveal_strlit("sub");
    reveal_strlit("idx");
    reveal_strlit("ogg");
    reveal_strlit("mp3");
    reveal_strlit("jpg");
    reveal_strlit("png");
    reveal_strlit("ts");
    reveal_strlit("bdjo");
    reveal_strlit("clpi");
    reveal_strlit("mpls");
    reveal_strlit("m2ts");
    reveal_strlit("bdmv");
    reveal_strlit("torrent");
    reveal_strlit("meta");
    reveal_strlit("exe");
    reveal_strlit("nfo");
    reveal_strlit("txt");
    reveal_strlit("md5");
    let e = extension(p);
    if video_ext(e) {
        assert(e.len() == 3 && e[0] == 'm');
        assert((e[1] == 'k' && e[2] == 'v') || (e[1] == 'p' && e[2] == '4'));
    }
}

} // verus!
