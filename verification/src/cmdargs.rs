//! The validated command-line choices the engine works from, and the rules
//! that turn them into concrete traversal parameters.

use vstd::prelude::*;

verus! {

/// The field the final report is ordered by, each with a one-letter alias.
#[derive(Clone, Copy, PartialEq, Eq, PartialOrd, Ord, Structural)]
pub enum OrderBy {
    /// Order by pathname.
    Name,
    /// Alias of `Name`.
    N,
    /// Order by number of files.
    File,
    /// Alias of `File`.
    F,
    /// Order by number of directories.
    Dir,
    /// Alias of `Dir`.
    D,
    /// Order by size of each directory.
    Size,
    /// Alias of `Size`.
    S,
}

/// The parsed command-line choices: which directories to count, what to
/// include, and how to traverse.
pub struct CmdArgParser {
    /// The directories (default: `./`).
    pub directories: Vec<String>,
    /// Count all regular and hidden files.
    pub all_files: bool,
    /// Match entries using a regular expression over file names.
    pub re: Option<String>,
    /// The value to sort the results by.
    pub order_by: Option<OrderBy>,
    /// Count the total size of files.
    pub with_size: bool,
    /// The number of threads for traversal.
    pub n_thread: Option<usize>,
    /// Verbose mode: report each entry found.
    pub verbose: bool,
    /// Non-recursive mode: files in sub-directories are ignored.
    pub non_recursive: bool,
}

/// A configuration fault that stops traversal before it starts.
pub enum ConfigError {
    /// A worker count of zero was requested.
    ZeroThreads,
}

impl ConfigError {
    /// A human-readable description of the fault.
    pub fn message(&self) -> (r: String)
        ensures
            r@ == "the number of threads must be positive"@,
    {
        "the number of threads must be positive".to_owned()
    }
}

/// Relies on `num_cpus::get`: the number of logical CPUs available to the
/// process, documented to be at least one.
#[verifier::external_body]
fn cpu_count() -> (r: usize)
    ensures
        r >= 1,
{
    num_cpus::get()
}

/// The worker-pool size for a request: an explicit choice is taken as given,
/// otherwise the number of CPUs, floored at four to guarantee useful
/// parallelism on small machines.
pub fn pick_thread_count(requested: Option<usize>, n_cpu: usize) -> (r: usize)
    ensures
        r == (match requested {
            Some(num) => num,
            None => if n_cpu >= 4 {
                n_cpu
            } else {
                4
            },
        }),
{
    match requested {
        Some(num) => num,
        None => if n_cpu >= 4 {
            n_cpu
        } else {
            4
        },
    }
}

/// A path with every trailing separator removed.
pub open spec fn spec_trim_separators(s: Seq<char>) -> Seq<char>
    decreases s.len(),
{
    if s.len() > 0 && s.last() == '/' {
        spec_trim_separators(s.drop_last())
    } else {
        s
    }
}

/// How one requested directory is normalized: trailing separators are
/// dropped, except from a path of a single character.
pub open spec fn spec_normalize_dir(s: Seq<char>) -> Seq<char> {
    if s.len() > 1 {
        spec_trim_separators(s)
    } else {
        s
    }
}

/// Drops every trailing separator of a path longer than one character.
fn normalize_dir(p: &String) -> (r: String)
    ensures
        r@ == spec_normalize_dir(p@),
{
    let s = p.as_str();
    let n = s.unicode_len();
    if n <= 1 {
        return p.clone();
    }
    let mut end: usize = n;
    proof {
        assert(p@.take(n as int) =~= p@);
    }
    while end > 0 && s.get_char(end - 1) == '/'
        invariant
            end <= n,
            n == p@.len(),
            s@ == p@,
            spec_trim_separators(p@) == spec_trim_separators(p@.take(end as int)),
        decreases end,
    {
        proof {
            assert(p@.take(end as int).last() == p@[end - 1]);
            assert(p@.take(end as int).drop_last() =~= p@.take(end as int - 1));
        }
        end = end - 1;
    }
    proof {
        if end > 0 {
            assert(p@.take(end as int).last() == p@[end - 1]);
        }
        assert(spec_trim_separators(p@.take(end as int)) == p@.take(end as int));
    }
    s.substring_char(0, end).to_owned()
}

impl CmdArgParser {
    /// The directories to count: the requested ones with trailing separators
    /// normalized away, or the current directory when none was named. The
    /// caller is expected to drop entries that are not existing directories.
    pub fn get_directories(&self) -> (r: Vec<String>)
        ensures
            self.directories@.len() == 0 ==> r@.len() == 1 && r@[0]@ == "."@,
            self.directories@.len() > 0 ==> {
                &&& r@.len() == self.directories@.len()
                &&& forall|i: int|
                    0 <= i < r@.len() ==> (#[trigger] r@[i])@ == spec_normalize_dir(
                        self.directories@[i]@,
                    )
            },
    {
        let n = self.directories.len();
        if n == 0 {
            let mut out: Vec<String> = Vec::new();
            out.push(".".to_owned());
            return out;
        }
        let mut out: Vec<String> = Vec::new();
        let mut i: usize = 0;
        while i < n
            invariant
                i <= n,
                n == self.directories@.len(),
                out@.len() == i,
                forall|j: int|
                    0 <= j < i ==> (#[trigger] out@[j])@ == spec_normalize_dir(
                        self.directories@[j]@,
                    ),
            decreases n - i,
        {
            out.push(normalize_dir(&self.directories[i]));
            i = i + 1;
        }
        out
    }

    /// Whether sizes must be computed: either because size accounting was
    /// requested outright, or because the report is to be ordered by size.
    pub fn wants_size(&self) -> (r: bool)
        ensures
            r == (self.with_size || self.order_by == Some(OrderBy::Size) || self.order_by == Some(
                OrderBy::S,
            )),
    {
        self.with_size || match self.order_by {
            Some(OrderBy::Size) | Some(OrderBy::S) => true,
            _ => false,
        }
    }

    /// Checks the choices that must be rejected before traversal starts: a
    /// requested worker count of zero is refused, everything else accepted.
    pub fn validate(&self) -> (r: Result<(), ConfigError>)
        ensures
            r is Ok <==> self.n_thread != Some(0usize),
            r is Err ==> r->Err_0 is ZeroThreads,
    {
        match self.n_thread {
            Some(0) => Err(ConfigError::ZeroThreads),
            _ => Ok(()),
        }
    }

    /// The worker-pool size of a validated request: the explicit choice if
    /// one was made, otherwise the CPU count floored at four; never zero.
    pub fn get_threads_num(&self) -> (r: usize)
        requires
            self.n_thread != Some(0usize),
        ensures
            match self.n_thread {
                Some(num) => r == num,
                None => r >= 4,
            },
            r >= 1,
    {
        let n_cpu = cpu_count();
        pick_thread_count(self.n_thread, n_cpu)
    }
}

} // verus!
