//! Choosing the game log file: a configured path, else the newest temporary log, else the
//! one found from the running game.

use vstd::prelude::*;
use crate::text::{chars_of, trim, trimmed, string_of};

verus! {

/// Where the log comes from, as configured.
pub struct LogPathConfig {
    pub log_path: Option<String>,
    pub use_tmp_log: bool,
}

/// The configured log path, trimmed, unless it is absent or blank.
pub open spec fn spec_manual_log_path(config: LogPathConfig) -> Option<Seq<char>> {
    match config.log_path {
        Some(p) => if trim(p@).len() > 0 {
            Some(trim(p@))
        } else {
            None
        },
        None => None,
    }
}

/// The configured log path to try first, trimmed; none when absent or blank.
pub fn manual_log_path(config: &LogPathConfig) -> (r: Option<String>)
    ensures
        match r {
            Some(s) => spec_manual_log_path(*config) == Some(s@),
            None => spec_manual_log_path(*config) is None,
        },
{
    match &config.log_path {
        Some(p) => {
            let t = trimmed(&chars_of(p.as_str()));
            if t.len() > 0 {
                Some(string_of(&t))
            } else {
                None
            }
        },
        None => None,
    }
}

/// `s` starts with `p`.
pub open spec fn starts_with(s: Seq<char>, p: Seq<char>) -> bool {
    p.len() <= s.len() && s.take(p.len() as int) == p
}

/// `s` ends with `p`.
pub open spec fn ends_with(s: Seq<char>, p: Seq<char>) -> bool {
    p.len() <= s.len() && s.skip(s.len() - p.len()) == p
}

fn chars_start_with(s: &Vec<char>, p: &Vec<char>) -> (r: bool)
    ensures
        r == starts_with(s@, p@),
{
    if p.len() > s.len() {
        return false;
    }
    let m = p.len();
    for i in 0..m
        invariant
            m == p.len() <= s.len(),
            forall|j: int| 0 <= j < i ==> s@[j] == p@[j],
    {
        if s[i] != p[i] {
            assert(s@.take(m as int)[i as int] != p@[i as int]);
            return false;
        }
    }
    assert(s@.take(m as int) =~= p@);
    true
}

fn chars_end_with(s: &Vec<char>, p: &Vec<char>) -> (r: bool)
    ensures
        r == ends_with(s@, p@),
{
    if p.len() > s.len() {
        return false;
    }
    let m = p.len();
    let d = s.len() - m;
    for i in 0..m
        invariant
            m == p.len() <= s.len(),
            d == s.len() - m,
            forall|j: int| 0 <= j < i ==> s@[d + j] == p@[j],
    {
        if s[d + i] != p[i] {
            assert(s@.skip(d as int)[i as int] != p@[i as int]);
            return false;
        }
    }
    assert(s@.skip(d as int) =~= p@);
    true
}

/// A temporary game log: a file named `UE_game*.log`.
pub open spec fn spec_is_tmp_log_name(name: Seq<char>) -> bool {
    starts_with(name, "UE_game"@) && ends_with(name, ".log"@)
}

/// Whether a file name is that of a temporary game log.
pub fn is_tmp_log_name(name: &str) -> (r: bool)
    ensures
        r == spec_is_tmp_log_name(name@),
{
    let s = chars_of(name);
    chars_start_with(&s, &chars_of("UE_game")) && chars_end_with(&s, &chars_of(".log"))
}

/// A temporary log file: its name and when it was last modified (nanoseconds from the
/// epoch, negative before it).
pub struct TmpLogFile {
    pub name: String,
    pub modified: i128,
}

/// `i` is the most recently modified file, the first of them on a tie.
pub open spec fn is_first_newest(files: Seq<TmpLogFile>, i: int) -> bool {
    &&& 0 <= i < files.len()
    &&& forall|j: int| 0 <= j < files.len() ==> files[j].modified <= files[i].modified
    &&& forall|j: int| 0 <= j < i ==> files[j].modified < files[i].modified
}

/// Picks the temporary log: the most recently modified file, the first of them on a tie.
pub fn select_tmp_log(files: &Vec<TmpLogFile>) -> (r: Option<usize>)
    ensures
        r is None <==> files@.len() == 0,
        r matches Some(i) ==> is_first_newest(files@, i as int),
{
    let n = files.len();
    if n == 0 {
        return None;
    }
    let mut best: usize = 0;
    for i in 1..n
        invariant
            n == files.len(),
            best < i <= n,
            forall|j: int| 0 <= j < i ==> files@[j].modified <= files@[best as int].modified,
            forall|j: int| 0 <= j < best ==> files@[j].modified < files@[best as int].modified,
    {
        if files[i].modified > files[best].modified {
            best = i;
        }
    }
    Some(best)
}

/// The log path to use: the configured one if it exists, else the temporary log when
/// enabled and found, else the one found from the running game.
pub fn resolve_log_path<P>(
    config: &LogPathConfig,
    existing_manual: Option<P>,
    tmp_log: Option<P>,
    dynamic_log: Option<P>,
) -> (r: Option<P>)
    ensures
        r == if existing_manual is Some {
            existing_manual
        } else if config.use_tmp_log && tmp_log is Some {
            tmp_log
        } else {
            dynamic_log
        },
{
    if existing_manual.is_some() {
        return existing_manual;
    }
    if config.use_tmp_log && tmp_log.is_some() {
        return tmp_log;
    }
    dynamic_log
}


/// Where Steam keeps the game's log, below the home directory, in the two usual places.
pub open spec fn spec_steam_log_candidates(home: Seq<char>) -> Seq<Seq<char>> {
    seq![
        home + "/.steam/steam/steamapps/common/Torchlight Infinite/TorchLight/Saved/Logs/UE_game.log"@,
        home + "/.local/share/Steam/steamapps/common/Torchlight Infinite/TorchLight/Saved/Logs/UE_game.log"@,
    ]
}

/// The log paths to try on Linux for the home directory `home`, in order.
pub fn steam_log_candidates(home: &str) -> (r: Vec<String>)
    ensures
        r@.len() == 2,
        r@[0]@ == spec_steam_log_candidates(home@)[0],
        r@[1]@ == spec_steam_log_candidates(home@)[1],
{
    let mut a = String::from_str(home);
    a.append("/.steam/steam/steamapps/common/Torchlight Infinite/TorchLight/Saved/Logs/UE_game.log");
    let mut b = String::from_str(home);
    b.append("/.local/share/Steam/steamapps/common/Torchlight Infinite/TorchLight/Saved/Logs/UE_game.log");
    let mut r: Vec<String> = Vec::new();
    r.push(a);
    r.push(b);
    r
}

} // verus!
