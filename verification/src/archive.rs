//! Beatmap sets: zip archives of beatmaps and their audio.

use crate::osu::{beatmap_timing, parse_osu, OsuTiming, Skip, Timing};
use crate::text::{characters, ends_with, lower, lowercase, lowered, portion, same_text};
use std::io::Read;
use vstd::prelude::*;
use vstd::string::*;

verus! {

/// The number of entries that `zip::ZipArchive::new` finds in some bytes, or the
/// message of its error.
pub uninterp spec fn archive_size(bytes: Seq<u8>) -> Result<nat, Seq<char>>;

/// The name of the entry that `zip::ZipArchive::by_index` finds at a place of an
/// archive, or the message of the error.
pub uninterp spec fn entry_name(bytes: Seq<u8>, index: nat) -> Result<Seq<char>, Seq<char>>;

/// The text that reading the entry at a place of an archive gives, or the message of
/// the error.
pub uninterp spec fn entry_text(bytes: Seq<u8>, index: nat) -> Result<Seq<char>, Seq<char>>;

/// The bytes that reading the entry that `zip::ZipArchive::by_name` finds under a
/// name gives, or the message of the error.
pub uninterp spec fn named_content(bytes: Seq<u8>, name: Seq<char>) -> Result<Seq<u8>, Seq<char>>;

/// Opens an archive with `zip::ZipArchive::new` and counts its entries. Claimed:
/// the outcome depends on the bytes alone.
#[verifier::external_body]
fn open_archive(bytes: &[u8]) -> (r: Result<usize, String>)
    ensures
        archive_size(bytes@) == match r {
            Ok(n) => Ok::<nat, Seq<char>>(n as nat),
            Err(message) => Err::<nat, Seq<char>>(message@),
        },
{
    let archive = zip::ZipArchive::new(std::io::Cursor::new(bytes)).map_err(|e| e.to_string())?;
    Ok(archive.len())
}

/// Finds the name of an entry with `zip::ZipArchive::by_index`. Claimed: the outcome
/// depends on the bytes and the place alone.
#[verifier::external_body]
fn read_name(bytes: &[u8], index: usize) -> (r: Result<String, String>)
    ensures
        entry_name(bytes@, index as nat) == match r {
            Ok(name) => Ok::<Seq<char>, Seq<char>>(name@),
            Err(message) => Err::<Seq<char>, Seq<char>>(message@),
        },
{
    let mut archive = zip::ZipArchive::new(std::io::Cursor::new(bytes)).map_err(|e| e.to_string())?;
    let entry = archive.by_index(index).map_err(|e| e.to_string())?;
    Ok(entry.name().to_string())
}

/// Reads the text of an entry that `zip::ZipArchive::by_index` finds. Claimed: the
/// outcome depends on the bytes and the place alone.
#[verifier::external_body]
fn read_text(bytes: &[u8], index: usize) -> (r: Result<String, String>)
    ensures
        entry_text(bytes@, index as nat) == match r {
            Ok(text) => Ok::<Seq<char>, Seq<char>>(text@),
            Err(message) => Err::<Seq<char>, Seq<char>>(message@),
        },
{
    let mut archive = zip::ZipArchive::new(std::io::Cursor::new(bytes)).map_err(|e| e.to_string())?;
    let mut entry = archive.by_index(index).map_err(|e| e.to_string())?;
    let mut text = String::new();
    entry.read_to_string(&mut text).map_err(|e| e.to_string())?;
    Ok(text)
}

/// Reads the bytes of an entry that `zip::ZipArchive::by_name` finds. Claimed: the
/// outcome depends on the bytes and the name alone.
#[verifier::external_body]
fn read_content(bytes: &[u8], name: &str) -> (r: Result<Vec<u8>, String>)
    ensures
        named_content(bytes@, name@) == match r {
            Ok(content) => Ok::<Seq<u8>, Seq<char>>(content@),
            Err(message) => Err::<Seq<u8>, Seq<char>>(message@),
        },
{
    let mut archive = zip::ZipArchive::new(std::io::Cursor::new(bytes)).map_err(|e| e.to_string())?;
    let mut entry = archive.by_name(name).map_err(|e| e.to_string())?;
    let mut content = Vec::new();
    entry.read_to_end(&mut content).map_err(|e| e.to_string())?;
    Ok(content)
}

/// The timings found in a set, and the first reason why a beatmap gave none.
pub struct Found {
    pub timings: Seq<Timing>,
    pub first: Option<Skip>,
}

/// Whether a timing occurs among others.
pub open spec fn occurs(timings: Seq<Timing>, timing: Timing) -> bool {
    exists|i: int| 0 <= i < timings.len() && (#[trigger] timings[i]).same(timing)
}

/// What one more beatmap adds: a timing that did not occur yet, or a reason where
/// there was none.
pub open spec fn gathered(found: Found, outcome: Result<Timing, Skip>) -> Found {
    match outcome {
        Ok(timing) => if occurs(found.timings, timing) {
            found
        } else {
            Found { timings: found.timings.push(timing), ..found }
        },
        Err(skip) => if found.first is None {
            Found { first: Some(skip), ..found }
        } else {
            found
        },
    }
}

/// Whether an entry is a beatmap: its name ends with `.osu` in letters of either case.
pub open spec fn is_beatmap(name: Seq<char>) -> bool {
    let s = lowered(name);
    s.len() >= 4 && s.skip(s.len() - 4) == ".osu"@
}

/// What the first `n` entries hold, or the message of the first failure to read one.
pub open spec fn gather(bytes: Seq<u8>, n: nat) -> Result<Found, Seq<char>>
    decreases n,
{
    if n == 0 {
        Ok(Found { timings: Seq::empty(), first: None })
    } else {
        let i = (n - 1) as nat;
        match gather(bytes, i) {
            Err(message) => Err(message),
            Ok(found) => match entry_name(bytes, i) {
                Err(message) => Err(message),
                Ok(name) => if !is_beatmap(name) {
                    Ok(found)
                } else {
                    match entry_text(bytes, i) {
                        Err(message) => Err(message),
                        Ok(text) => Ok(gathered(found, beatmap_timing(text))),
                    }
                },
            },
        }
    }
}

/// What a set holds, or the message of the first failure to read it.
pub open spec fn set_contents(bytes: Seq<u8>) -> Result<Found, Seq<char>> {
    match archive_size(bytes) {
        Err(message) => Err(message),
        Ok(n) => gather(bytes, n),
    }
}

/// Timings as what they hold.
pub open spec fn timing_views(v: Seq<OsuTiming>) -> Seq<Timing> {
    v.map_values(|t: OsuTiming| t@)
}

/// Whether a timing occurs among others.
fn contains(timings: &Vec<OsuTiming>, timing: &OsuTiming) -> (r: bool)
    ensures
        r == occurs(timing_views(timings@), timing@),
{
    let ghost views = timing_views(timings@);
    let mut i: usize = 0;
    while i < timings.len()
        invariant
            i <= timings@.len(),
            views == timing_views(timings@),
            forall|j: int| 0 <= j < i ==> !(#[trigger] views[j]).same(timing@),
        decreases timings@.len() - i,
    {
        if timings[i] == *timing {
            assert(views[i as int].same(timing@));
            return true;
        }
        i = i + 1;
    }
    false
}

/// Adds the outcome of one beatmap to what was found before.
pub fn add_outcome(timings: &mut Vec<OsuTiming>, first: &mut Option<Skip>, outcome: Result<OsuTiming, Skip>)
    ensures
        ({
            let before = Found { timings: timing_views(old(timings)@), first: *old(first) };
            let after = Found { timings: timing_views(final(timings)@), first: *final(first) };
            after == gathered(
                before,
                match outcome {
                    Ok(t) => Ok::<Timing, Skip>(t@),
                    Err(e) => Err::<Timing, Skip>(e),
                },
            )
        }),
{
    let ghost views = timing_views(timings@);
    match outcome {
        Ok(timing) => {
            if contains(timings, &timing) {
                return;
            }
            timings.push(timing);
            assert(timing_views(timings@) =~= views.push(timing@));
        },
        Err(skip) => {
            if first.is_none() {
                *first = Some(skip);
            }
        },
    }
}

/// Reads every beatmap of a set and gives its distinct timings. A set without any
/// gives the first reason why a beatmap has none.
pub fn read_osz_timings(bytes: &[u8]) -> (r: Result<Vec<OsuTiming>, Skip>)
    ensures
        match set_contents(bytes@) {
            Err(message) => r matches Err(Skip::Io(m)) && m@ == message,
            Ok(found) => if found.timings.len() == 0 {
                r == Err::<Vec<OsuTiming>, Skip>(
                    match found.first {
                        Some(skip) => skip,
                        None => Skip::NoOsuFiles,
                    },
                )
            } else {
                r matches Ok(timings) && timing_views(timings@) == found.timings
            },
        },
{
    let n = match open_archive(bytes) {
        Ok(n) => n,
        Err(message) => {
            return Err(Skip::Io(message));
        },
    };
    let mut timings: Vec<OsuTiming> = Vec::new();
    let mut first: Option<Skip> = None;
    let mut i: usize = 0;
    assert(timing_views(timings@) =~= Seq::empty());
    while i < n
        invariant
            i <= n,
            archive_size(bytes@) == Ok::<nat, Seq<char>>(n as nat),
            gather(bytes@, i as nat) == Ok::<Found, Seq<char>>(
                Found { timings: timing_views(timings@), first },
            ),
        decreases n - i,
    {
        let name = match read_name(bytes, i) {
            Ok(name) => name,
            Err(message) => {
                proof {
                    lemma_failed(bytes@, i as nat + 1, n as nat, message@);
                }
                return Err(Skip::Io(message));
            },
        };
        let name = characters(name.as_str());
        let name = lowercase(&name);
        proof {
            reveal_strlit(".osu");
        }
        if ends_with(&name, ".osu") {
            let text = match read_text(bytes, i) {
                Ok(text) => text,
                Err(message) => {
                    proof {
                        lemma_failed(bytes@, i as nat + 1, n as nat, message@);
                    }
                    return Err(Skip::Io(message));
                },
            };
            let outcome = parse_osu(text.as_str());
            add_outcome(&mut timings, &mut first, outcome);
        }
        i = i + 1;
    }
    if timings.len() == 0 {
        match first {
            Some(skip) => Err(skip),
            None => Err(Skip::NoOsuFiles),
        }
    } else {
        Ok(timings)
    }
}

/// A failure at one entry is the outcome of the whole.
proof fn lemma_failed(bytes: Seq<u8>, i: nat, n: nat, message: Seq<char>)
    requires
        i <= n,
        gather(bytes, i) == Err::<Found, Seq<char>>(message),
    ensures
        gather(bytes, n) == Err::<Found, Seq<char>>(message),
    decreases n - i,
{
    if i < n {
        lemma_failed(bytes, i, (n - 1) as nat, message);
    }
}

/// The timings that a set gives are pairwise distinct.
pub proof fn lemma_distinct_timings(bytes: Seq<u8>, n: nat)
    ensures
        gather(bytes, n) matches Ok(found) ==> forall|i: int, j: int|
            0 <= i < j < found.timings.len() ==> !(#[trigger] found.timings[i]).same(#[trigger] found.timings[j]),
    decreases n,
{
    if n > 0 {
        lemma_distinct_timings(bytes, (n - 1) as nat);
    }
}

/// The timing of the beatmap at a place of an archive, or why it has none; nothing where the
/// entry there is no beatmap.
pub open spec fn outcome_at(bytes: Seq<u8>, i: nat) -> Option<Result<Timing, Skip>> {
    match entry_name(bytes, i) {
        Ok(name) => if is_beatmap(name) {
            match entry_text(bytes, i) {
                Ok(text) => Some(beatmap_timing(text)),
                Err(_) => None,
            }
        } else {
            None
        },
        Err(_) => None,
    }
}

/// The timings of a set are those of its beatmaps: each is that of one of them, and that of
/// every one is among them, where it is made of numbers. The reason is that of the first
/// beatmap that has no timing.
pub proof fn lemma_gathered_timings(bytes: Seq<u8>, n: nat)
    ensures
        gather(bytes, n) matches Ok(found) ==> {
            &&& forall|k: int|
                0 <= k < found.timings.len() ==> exists|i: nat|
                    i < n && #[trigger] outcome_at(bytes, i) == Some(Ok::<Timing, Skip>(#[trigger] found.timings[k]))
            &&& forall|i: nat|
                i < n ==> (#[trigger] outcome_at(bytes, i) matches Some(Ok(timing)) ==> occurs(found.timings, timing)
                    || timing.bpm.is_nan() || timing.offset_ms.is_nan())
            &&& found.first matches Some(skip) ==> exists|i: nat|
                {
                    &&& i < n
                    &&& #[trigger] outcome_at(bytes, i) == Some(Err::<Timing, Skip>(skip))
                    &&& forall|j: nat| j < i ==> !(#[trigger] outcome_at(bytes, j) matches Some(Err(_)))
                }
            &&& found.first is None ==> forall|i: nat| i < n ==> !(#[trigger] outcome_at(bytes, i) matches Some(Err(_)))
        },
    decreases n,
{
    if n > 0 {
        let last = (n - 1) as nat;
        lemma_gathered_timings(bytes, last);
        if let Ok(found) = gather(bytes, n) {
            let before = gather(bytes, last)->Ok_0;
            let outcome = outcome_at(bytes, last);
            assert forall|k: int| 0 <= k < found.timings.len() implies exists|i: nat|
                i < n && #[trigger] outcome_at(bytes, i) == Some(Ok::<Timing, Skip>(#[trigger] found.timings[k])) by {
                if k < before.timings.len() {
                    assert(found.timings[k] == before.timings[k]);
                } else {
                    assert(outcome_at(bytes, last) == Some(Ok::<Timing, Skip>(found.timings[k])));
                }
            }
            assert forall|i: nat| i < n implies (#[trigger] outcome_at(bytes, i) matches Some(Ok(timing)) ==> occurs(
                found.timings,
                timing,
            ) || timing.bpm.is_nan() || timing.offset_ms.is_nan()) by {
                if let Some(Ok(timing)) = outcome_at(bytes, i) {
                    if i < last && occurs(before.timings, timing) {
                        let k = choose|k: int| 0 <= k < before.timings.len() && (#[trigger] before.timings[k]).same(timing);
                        assert(found.timings[k].same(timing));
                    }
                    if i == last && !occurs(before.timings, timing) {
                        let k = before.timings.len() as int;
                        assert(found.timings[k] == timing);
                    }
                }
            }
            if let Some(skip) = found.first {
                if before.first is Some {
                    let i = choose|i: nat|
                        {
                            &&& i < last
                            &&& #[trigger] outcome_at(bytes, i) == Some(Err::<Timing, Skip>(skip))
                            &&& forall|j: nat| j < i ==> !(#[trigger] outcome_at(bytes, j) matches Some(Err(_)))
                        };
                    assert(outcome_at(bytes, i) == Some(Err::<Timing, Skip>(skip)));
                } else {
                    assert(outcome_at(bytes, last) == Some(Err::<Timing, Skip>(skip)));
                }
            }
        }
    }
}

/// A path with slashes in place of backslashes.
pub open spec fn slashed(s: Seq<char>) -> Seq<char> {
    s.map_values(
        |c: char|
            if c == '\\' {
                '/'
            } else {
                c
            },
    )
}

/// The last component of a path.
pub open spec fn base_name(s: Seq<char>) -> Seq<char>
    decreases s.len(),
{
    if s.len() == 0 || s.last() == '/' {
        Seq::empty()
    } else {
        base_name(s.drop_last()).push(s.last())
    }
}

/// Whether an entry is the wanted file: it has the same path, or a last component that
/// differs at most in the case of letters.
pub open spec fn is_wanted(entry: Seq<char>, wanted: Seq<char>) -> bool {
    let e = slashed(entry);
    let w = slashed(wanted);
    e == w || lowered(base_name(e)) == lowered(base_name(w))
}

/// The last component of a path is what stands behind the last slash.
pub proof fn lemma_base_name(s: Seq<char>)
    ensures
        base_name(s).len() <= s.len(),
        base_name(s) == s.skip(s.len() - base_name(s).len()),
        forall|i: int| 0 <= i < base_name(s).len() ==> #[trigger] base_name(s)[i] != '/',
        base_name(s).len() < s.len() ==> s[s.len() - base_name(s).len() - 1] == '/',
    decreases s.len(),
{
    if s.len() == 0 || s.last() == '/' {
        assert(s.skip(s.len() as int) =~= Seq::empty());
    } else {
        let t = s.drop_last();
        lemma_base_name(t);
        let k = t.len() - base_name(t).len();
        assert(t.skip(k).push(s.last()) =~= s.skip(k));
        if base_name(t).len() < t.len() {
            assert(t[k - 1] == s[k - 1]);
        }
    }
}

/// The last component of a path in lower case is that of the path in lower case.
proof fn lemma_lowered_base(s: Seq<char>)
    ensures
        base_name(lowered(s)) == lowered(base_name(s)),
    decreases s.len(),
{
    if s.len() > 0 {
        let l = lowered(s);
        assert(l.last() == lower(s.last()));
        assert(l.drop_last() =~= lowered(s.drop_last()));
        lemma_lowered_base(s.drop_last());
        assert(base_name(lowered(s)) =~= lowered(base_name(s)));
    } else {
        assert(base_name(lowered(s)) =~= lowered(base_name(s)));
    }
}

/// Directories before a path leave its last component.
proof fn lemma_base_after(prefix: Seq<char>, s: Seq<char>)
    ensures
        base_name(prefix.push('/') + s) == base_name(s),
    decreases s.len(),
{
    let whole = prefix.push('/') + s;
    if s.len() == 0 {
        assert(whole =~= prefix.push('/'));
    } else {
        assert(whole.last() == s.last());
        assert(whole.drop_last() =~= prefix.push('/') + s.drop_last());
        lemma_base_after(prefix, s.drop_last());
    }
}

/// A file is found under its own name, in a directory, under slashes in place of
/// backslashes, and in lower case.
pub proof fn lemma_wanted(wanted: Seq<char>, directory: Seq<char>)
    ensures
        is_wanted(wanted, wanted),
        is_wanted(directory.push('/') + wanted, wanted),
        is_wanted(slashed(wanted), wanted),
        is_wanted(lowered(wanted), wanted),
{
    let w = slashed(wanted);
    assert(slashed(directory.push('/') + wanted) =~= slashed(directory).push('/') + w);
    lemma_base_after(slashed(directory), w);
    assert(slashed(w) =~= w);
    assert(slashed(lowered(wanted)) =~= lowered(w));
    lemma_lowered_base(w);
    assert(lowered(lowered(base_name(w))) =~= lowered(base_name(w)));
}

/// The outcome of a search for a file.
pub enum Search {
    /// The name of the first entry that is the wanted file.
    Hit(Seq<char>),
    /// No entry is.
    Missing,
    /// The message of a failure to read an entry before one was found.
    Failed(Seq<char>),
}

/// The search for a file among the entries from `i` on.
pub open spec fn search(bytes: Seq<u8>, wanted: Seq<char>, i: nat, n: nat) -> Search
    decreases n - i,
{
    if i >= n {
        Search::Missing
    } else {
        match entry_name(bytes, i) {
            Err(message) => Search::Failed(message),
            Ok(name) => if is_wanted(name, wanted) {
                Search::Hit(name)
            } else {
                search(bytes, wanted, i + 1, n)
            },
        }
    }
}

/// A search among entries that can all be read finds a wanted one where there is one.
pub proof fn lemma_search(bytes: Seq<u8>, wanted: Seq<char>, i: nat, n: nat)
    requires
        forall|k: nat| i <= k < n ==> (#[trigger] entry_name(bytes, k)) is Ok,
    ensures
        match search(bytes, wanted, i, n) {
            Search::Hit(name) => is_wanted(name, wanted) && exists|k: nat|
                i <= k < n && #[trigger] entry_name(bytes, k) == Ok::<Seq<char>, Seq<char>>(name),
            Search::Missing => forall|k: nat|
                i <= k < n ==> !is_wanted((#[trigger] entry_name(bytes, k))->Ok_0, wanted),
            Search::Failed(_) => false,
        },
    decreases n - i,
{
    if i < n {
        assert(entry_name(bytes, i) is Ok);
        let name = entry_name(bytes, i)->Ok_0;
        if is_wanted(name, wanted) {
            assert(search(bytes, wanted, i, n) == Search::Hit(name));
        } else {
            lemma_search(bytes, wanted, i + 1, n);
            assert(search(bytes, wanted, i, n) == search(bytes, wanted, i + 1, n));
        }
    }
}

/// A search finds the first entry that is the wanted file: none before it is.
pub proof fn lemma_search_first(bytes: Seq<u8>, wanted: Seq<char>, i: nat, n: nat)
    ensures
        search(bytes, wanted, i, n) matches Search::Hit(name) ==> is_wanted(name, wanted) && exists|k: nat|
            {
                &&& i <= k < n
                &&& #[trigger] entry_name(bytes, k) == Ok::<Seq<char>, Seq<char>>(name)
                &&& forall|j: nat|
                    i <= j < k ==> (#[trigger] entry_name(bytes, j) matches Ok(other) && !is_wanted(other, wanted))
            },
    decreases n - i,
{
    if i < n {
        if let Ok(name) = entry_name(bytes, i) {
            if is_wanted(name, wanted) {
                assert(entry_name(bytes, i) == Ok::<Seq<char>, Seq<char>>(name));
            } else {
                lemma_search_first(bytes, wanted, i + 1, n);
                if let Search::Hit(hit) = search(bytes, wanted, i, n) {
                    let k = choose|k: nat|
                        {
                            &&& i + 1 <= k < n
                            &&& #[trigger] entry_name(bytes, k) == Ok::<Seq<char>, Seq<char>>(hit)
                            &&& forall|j: nat|
                                i + 1 <= j < k ==> (#[trigger] entry_name(bytes, j) matches Ok(other) && !is_wanted(
                                    other,
                                    wanted,
                                ))
                        };
                    assert(entry_name(bytes, k) == Ok::<Seq<char>, Seq<char>>(hit));
                }
            }
        }
    }
}

fn slash_path(s: &[char]) -> (r: Vec<char>)
    ensures
        r@ == slashed(s@),
{
    let mut out: Vec<char> = Vec::new();
    let mut i: usize = 0;
    while i < s.len()
        invariant
            i <= s@.len(),
            out@ == slashed(s@.take(i as int)),
        decreases s@.len() - i,
    {
        let c = if s[i] == '\\' {
            '/'
        } else {
            s[i]
        };
        proof {
            assert(slashed(s@.take(i + 1)) =~= slashed(s@.take(i as int)).push(c));
        }
        out.push(c);
        i = i + 1;
    }
    assert(s@.take(s@.len() as int) =~= s@);
    out
}

fn last_component(s: &[char]) -> (r: Vec<char>)
    ensures
        r@ == base_name(s@),
{
    let mut i: usize = s.len();
    assert(s@.take(i as int) =~= s@);
    assert(base_name(s@) =~= base_name(s@.take(i as int)) + s@.skip(i as int));
    while i > 0 && s[i - 1] != '/'
        invariant
            i <= s@.len(),
            base_name(s@) == base_name(s@.take(i as int)) + s@.skip(i as int),
        ensures
            i <= s@.len(),
            i == 0 || s@[i - 1] == '/',
            base_name(s@) == base_name(s@.take(i as int)) + s@.skip(i as int),
        decreases i,
    {
        proof {
            let t = s@.take(i as int);
            assert(t.drop_last() =~= s@.take(i - 1));
            assert(base_name(t) + s@.skip(i as int) =~= base_name(s@.take(i - 1)) + s@.skip(i - 1));
        }
        i = i - 1;
    }
    assert(base_name(s@.take(i as int)) =~= Seq::empty());
    let out = portion(s, i, s.len());
    assert(out@ =~= s@.skip(i as int));
    assert(base_name(s@) =~= out@);
    out
}

/// Whether an entry is the wanted file.
pub fn entry_matches(entry: &str, wanted: &str) -> (r: bool)
    ensures
        r == is_wanted(entry@, wanted@),
{
    let e = characters(entry);
    let e = slash_path(&e);
    let w = characters(wanted);
    let w = slash_path(&w);
    if same_text(&e, &w) {
        return true;
    }
    let e = last_component(&e);
    let w = last_component(&w);
    let e = lowercase(&e);
    let w = lowercase(&w);
    same_text(&e, &w)
}

/// An audio file of a set.
#[derive(Debug)]
pub struct Audio {
    /// The name of its entry.
    pub name: String,
    pub content: Vec<u8>,
}

/// The message of a search without a hit.
pub open spec fn missing_message(wanted: Seq<char>) -> Seq<char> {
    "audio '"@ + wanted + "' not found in archive"@
}

/// Extracts the audio file of a set. Its name may have backslashes, lack a directory
/// or differ in the case of letters.
pub fn extract_audio(bytes: &[u8], audio_filename: &str) -> (r: Result<Audio, Skip>)
    ensures
        match archive_size(bytes@) {
            Err(message) => r matches Err(Skip::Io(m)) && m@ == message,
            Ok(n) => match search(bytes@, audio_filename@, 0, n) {
                Search::Failed(message) => r matches Err(Skip::Io(m)) && m@ == message,
                Search::Missing => r matches Err(Skip::Io(m)) && m@ == missing_message(audio_filename@),
                Search::Hit(name) => match named_content(bytes@, name) {
                    Err(message) => r matches Err(Skip::Io(m)) && m@ == message,
                    Ok(content) => r matches Ok(audio) && audio.name@ == name && audio.content@ == content,
                },
            },
        },
{
    let n = match open_archive(bytes) {
        Ok(n) => n,
        Err(message) => {
            return Err(Skip::Io(message));
        },
    };
    let mut i: usize = 0;
    while i < n
        invariant
            i <= n,
            archive_size(bytes@) == Ok::<nat, Seq<char>>(n as nat),
            search(bytes@, audio_filename@, 0, n as nat) == search(bytes@, audio_filename@, i as nat, n as nat),
        decreases n - i,
    {
        match read_name(bytes, i) {
            Err(message) => {
                return Err(Skip::Io(message));
            },
            Ok(name) => {
                if entry_matches(name.as_str(), audio_filename) {
                    return match read_content(bytes, name.as_str()) {
                        Ok(content) => Ok(Audio { name, content }),
                        Err(message) => Err(Skip::Io(message)),
                    };
                }
            },
        }
        i = i + 1;
    }
    let mut message = "audio '".to_string();
    message.append(audio_filename);
    message.append("' not found in archive");
    Err(Skip::Io(message))
}

/// The name under which an audio file with some extension is kept.
pub fn audio_file_name(extension: Option<&str>) -> (r: String)
    ensures
        r@ == "osu-eval-audio."@ + match extension {
            Some(e) => e@,
            None => "bin"@,
        },
{
    let mut out = "osu-eval-audio.".to_string();
    match extension {
        Some(e) => {
            out.append(e);
        },
        None => {
            out.append("bin");
        },
    }
    out
}

} // verus!
