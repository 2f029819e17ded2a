//! Generator options: as given, and with their defaults filled in.
use vstd::prelude::*;
use crate::utils::{absolutize, is_rooted, normalized_absolute};

verus! {

/// The options as given; absent paths are filled in by `init`.
#[derive(Debug, Clone, PartialEq)]
pub struct Opts {
    /// Enable cross-translation-unit analysis.
    pub ctu: bool,
    /// Generate build steps for precompiled headers (`-emit-pch`).
    pub detect_pch: bool,
    /// Path to the repository.
    pub repo: Option<String>,
    /// Path to the compilation database.
    pub compile_commands: String,
    /// Path to the output directory.
    pub output_dir: Option<String>,
    /// Path to the generated build file.
    pub output_file: String,
    /// How many analysis steps may run at once.
    pub ctu_pool: usize,
}

/// The options with every path present.
#[derive(Debug, Clone, PartialEq)]
pub struct OptsClean {
    pub ctu: bool,
    pub detect_pch: bool,
    pub repo: String,
    pub compile_commands: String,
    pub output_dir: String,
    pub output_file: String,
    pub ctu_pool: usize,
}

/// Why the options cannot be completed.
#[derive(Debug, Clone, Copy, PartialEq, Eq, Structural)]
pub enum ConfigError {
    /// A relative path could not be resolved against the current directory.
    CurrentDirUnavailable,
    /// No repository root was given and none was found.
    RepoNotFound,
}

/// Index of the last `/` of `p`, or -1.
pub open spec fn last_slash(p: Seq<char>) -> int
    decreases p.len(),
{
    if p.len() == 0 {
        -1
    } else if p.last() == '/' {
        p.len() - 1
    } else {
        last_slash(p.drop_last())
    }
}

/// The directory that holds the normalized absolute path `p`; the root has
/// none.
pub open spec fn parent_of(p: Seq<char>) -> Option<Seq<char>> {
    let s = last_slash(p);
    if p.len() <= 1 || s < 0 {
        None
    } else if s == 0 {
        Some(seq!['/'])
    } else {
        Some(p.subrange(0, s))
    }
}

/// The directory that holds `p`.
fn parent(p: &str) -> (r: Option<String>)
    ensures
        match parent_of(p@) {
            Some(d) => r matches Some(s) && s@ == d,
            None => r is None,
        },
{
    let cs = crate::text::chars_of(p);
    let mut i: usize = cs.len();
    assert(p@.subrange(0, i as int) =~= p@);
    while i > 0 && cs[i - 1] != '/'
        invariant
            i <= cs@.len(),
            cs@ == p@,
            last_slash(p@) == last_slash(p@.subrange(0, i as int)),
        decreases i,
    {
        assert(p@.subrange(0, i as int).drop_last() =~= p@.subrange(0, i - 1));
        i = i - 1;
    }
    if i > 0 {
        assert(p@.subrange(0, i as int).last() == '/');
    } else {
        assert(p@.subrange(0, 0).len() == 0);
    }
    if cs.len() <= 1 || i == 0 {
        None
    } else if i == 1 {
        let r = "/".to_owned();
        proof {
            reveal_strlit("/");
        }
        Some(r)
    } else {
        Some(crate::text::substring(p, 0, i - 1))
    }
}

impl Opts {
    /// Makes the output file absolute, and fills in the output directory
    /// (the output file's directory) and the repository root (`found_repo`,
    /// the root found by searching from the current directory) where absent.
    pub fn init(&mut self, found_repo: Option<String>) -> (r: Result<(), ConfigError>)
        ensures
            final(self).ctu == old(self).ctu,
            final(self).detect_pch == old(self).detect_pch,
            final(self).compile_commands == old(self).compile_commands,
            final(self).ctu_pool == old(self).ctu_pool,
            r matches Err(e) ==> e == ConfigError::CurrentDirUnavailable && !is_rooted(
                old(self).output_file@,
            ),
            r is Ok ==> final(self).repo == (if old(self).repo is Some {
                old(self).repo
            } else {
                found_repo
            }),
            r is Ok && is_rooted(old(self).output_file@) ==> final(self).output_file@
                == normalized_absolute(old(self).output_file@),
            r is Ok ==> (old(self).output_dir is Some ==> final(self).output_dir == old(self).output_dir),
            r is Ok ==> (old(self).output_dir is None ==> match parent_of(final(self).output_file@) {
                Some(d) => final(self).output_dir matches Some(o) && o@ == d,
                None => final(self).output_dir is None,
            }),
    {
        let file = match absolutize(self.output_file.as_str()) {
            Some(f) => f,
            None => {
                return Err(ConfigError::CurrentDirUnavailable);
            },
        };
        self.output_file = file;
        if self.output_dir.is_none() {
            self.output_dir = parent(self.output_file.as_str());
        }
        if self.repo.is_none() {
            self.repo = found_repo;
        }
        Ok(())
    }
}

impl OptsClean {
    /// Completes the options: `init`, then the compilation database made
    /// absolute, the output directory `.` where there is still none, and an
    /// error where there is no repository root.
    pub fn from_opts(opts: Opts, found_repo: Option<String>) -> (r: Result<OptsClean, ConfigError>)
        ensures
            r matches Ok(o) ==> o.ctu == opts.ctu && o.detect_pch == opts.detect_pch && o.ctu_pool
                == opts.ctu_pool,
            r matches Ok(o) ==> (opts.repo matches Some(p) ==> o.repo == p),
            r matches Ok(o) ==> (opts.repo is None ==> found_repo == Some(o.repo)),
            is_rooted(opts.compile_commands@) ==> (r matches Ok(o) ==> o.compile_commands@
                == normalized_absolute(opts.compile_commands@)),
            r matches Ok(o) ==> (opts.output_dir matches Some(d) ==> o.output_dir == d),
            r matches Err(ConfigError::RepoNotFound) ==> opts.repo is None && found_repo is None,
    {
        let mut opts = opts;
        match opts.init(found_repo) {
            Ok(()) => {},
            Err(e) => {
                return Err(e);
            },
        }
        let compile_commands = match absolutize(opts.compile_commands.as_str()) {
            Some(c) => c,
            None => {
                return Err(ConfigError::CurrentDirUnavailable);
            },
        };
        let repo = match opts.repo {
            Some(r) => r,
            None => {
                return Err(ConfigError::RepoNotFound);
            },
        };
        let output_dir = match opts.output_dir {
            Some(d) => d,
            None => {
                let d = ".".to_owned();
                d
            },
        };
        Ok(
            OptsClean {
                ctu: opts.ctu,
                detect_pch: opts.detect_pch,
                repo,
                compile_commands,
                output_dir,
                output_file: opts.output_file,
                ctu_pool: opts.ctu_pool,
            },
        )
    }
}

} // verus!
