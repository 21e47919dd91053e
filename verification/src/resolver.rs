//! Path resolution for the detection engine: a fixed, ordered interpreter
//! search with a path-search fallback, and the primary-then-fallback search
//! for the entry script, whose failure names both attempted paths.

use vstd::prelude::*;
use vstd::string::StringExecFns;

verus! {

/// Where the engine runs from, computed once per start attempt: the
/// interpreter, the entry script, and the directory the engine expects to
/// run in — the one containing the script, not the resource root.
#[derive(Debug)]
pub struct ResolvedPaths {
    pub interpreter_path: String,
    pub script_path: String,
    pub working_directory: String,
}

#[derive(Debug)]
pub enum ResolveError {
    /// No known interpreter install location exists and the search path
    /// offered none.
    InterpreterNotFound,
    /// Neither candidate location of the entry script exists; both
    /// attempted paths are named.
    ScriptNotFound { primary: String, fallback: String },
}

pub open spec fn spec_candidate(i: int) -> Seq<char> {
    if i == 0 {
        "/Library/Frameworks/Python.framework/Versions/3.11/bin/python3"@
    } else if i == 1 {
        "/Library/Frameworks/Python.framework/Versions/3.12/bin/python3"@
    } else if i == 2 {
        "/Library/Frameworks/Python.framework/Versions/3.10/bin/python3"@
    } else if i == 3 {
        "/usr/local/bin/python3"@
    } else if i == 4 {
        "/opt/homebrew/bin/python3"@
    } else {
        "/usr/bin/python3"@
    }
}

/// The fixed, ordered list of known interpreter install locations; the
/// search tries them first to last.
pub fn interpreter_candidates() -> (r: Vec<String>)
    ensures
        r@.len() == 6,
        forall|i: int| 0 <= i < 6 ==> (#[trigger] r@[i])@ == spec_candidate(i),
{
    let mut v: Vec<String> = Vec::new();
    v.push(String::from_str("/Library/Frameworks/Python.framework/Versions/3.11/bin/python3"));
    v.push(String::from_str("/Library/Frameworks/Python.framework/Versions/3.12/bin/python3"));
    v.push(String::from_str("/Library/Frameworks/Python.framework/Versions/3.10/bin/python3"));
    v.push(String::from_str("/usr/local/bin/python3"));
    v.push(String::from_str("/opt/homebrew/bin/python3"));
    v.push(String::from_str("/usr/bin/python3"));
    proof {
        assert(v@[0]@ == spec_candidate(0));
        assert(v@[1]@ == spec_candidate(1));
        assert(v@[2]@ == spec_candidate(2));
        assert(v@[3]@ == spec_candidate(3));
        assert(v@[4]@ == spec_candidate(4));
        assert(v@[5]@ == spec_candidate(5));
    }
    v
}

pub open spec fn no_candidate_exists(ex: Seq<bool>) -> bool {
    forall|i: int| 0 <= i < 6 ==> !ex[i]
}

/// Pick the interpreter. `exists` reports, candidate by candidate in order,
/// whether the location exists on disk; `path_lookup` is what the
/// platform's path-search for the interpreter's canonical name yielded, if
/// it yielded an existing path. The first existing candidate wins; the
/// path-search result is consulted only after every candidate failed.
pub fn resolve_interpreter(exists: &Vec<bool>, path_lookup: &Option<String>) -> (r: Result<
    String,
    ResolveError,
>)
    requires
        exists@.len() == 6,
    ensures
        forall|i: int|
            (0 <= i < 6 && exists@[i] && (forall|j: int| 0 <= j < i ==> !exists@[j])) ==> (
            r matches Ok(s) && s@ == spec_candidate(i)),
        path_lookup matches Some(p) ==> (no_candidate_exists(exists@) ==> (r matches Ok(s)
            && s@ == p@)),
        (no_candidate_exists(exists@) && path_lookup is None) ==> (r matches Err(e) && e
            == ResolveError::InterpreterNotFound),
        r is Err <==> (no_candidate_exists(exists@) && path_lookup is None),
{
    let mut candidates = interpreter_candidates();
    let mut i: usize = 0;
    while i < 6
        invariant
            i <= 6,
            exists@.len() == 6,
            candidates@.len() == 6,
            forall|k: int| 0 <= k < 6 ==> (#[trigger] candidates@[k])@ == spec_candidate(k),
            forall|j: int| 0 <= j < i ==> !exists@[j],
        decreases 6 - i,
    {
        if exists[i] {
            return Ok(candidates.remove(i));
        }
        i = i + 1;
    }
    match path_lookup {
        Some(p) => Ok(p.clone()),
        None => Err(ResolveError::InterpreterNotFound),
    }
}

pub open spec fn primary_dir_chars(base: Seq<char>) -> Seq<char> {
    base + "/python"@
}

pub open spec fn primary_script_chars(base: Seq<char>) -> Seq<char> {
    base + "/python/main_simple.py"@
}

pub open spec fn fallback_dir_chars(base: Seq<char>) -> Seq<char> {
    base + "/_up_/python"@
}

pub open spec fn fallback_script_chars(base: Seq<char>) -> Seq<char> {
    base + "/_up_/python/main_simple.py"@
}

/// Which of the two script locations a resolution settles on.
#[derive(Clone, Copy, PartialEq, Eq, Structural, Debug)]
pub enum ScriptChoice {
    Primary,
    Fallback,
    NotFound,
}

pub open spec fn spec_script_choice(primary_exists: bool, fallback_exists: bool) -> ScriptChoice {
    if primary_exists {
        ScriptChoice::Primary
    } else if fallback_exists {
        ScriptChoice::Fallback
    } else {
        ScriptChoice::NotFound
    }
}

/// Precedence law: the primary script location is checked before the
/// fallback, so whenever the primary exists it decides alone, whatever the
/// fallback holds; the fallback decides only once the primary is absent;
/// and only when both are absent does resolution fail — with both attempted
/// paths named in the error.
pub proof fn lemma_primary_location_first(fallback_exists: bool)
    ensures
        spec_script_choice(true, fallback_exists) == ScriptChoice::Primary,
        spec_script_choice(false, true) == ScriptChoice::Fallback,
        spec_script_choice(false, false) == ScriptChoice::NotFound,
{
}

/// Resolve the entry script under the resource directory. The caller
/// reports whether each candidate script file exists; the returned pair is
/// the working directory containing the script and the script itself.
pub fn resolve_script(resource_dir: &str, primary_exists: bool, fallback_exists: bool) -> (r:
    Result<(String, String), ResolveError>)
    ensures
        spec_script_choice(primary_exists, fallback_exists) == ScriptChoice::Primary ==> (
        r matches Ok(t) && t.0@ == primary_dir_chars(resource_dir@) && t.1@
            == primary_script_chars(resource_dir@)),
        spec_script_choice(primary_exists, fallback_exists) == ScriptChoice::Fallback ==> (
        r matches Ok(t) && t.0@ == fallback_dir_chars(resource_dir@) && t.1@
            == fallback_script_chars(resource_dir@)),
        spec_script_choice(primary_exists, fallback_exists) == ScriptChoice::NotFound ==> (
        r matches Err(e) && e matches ResolveError::ScriptNotFound { primary, fallback }
            && primary@ == primary_script_chars(resource_dir@) && fallback@
            == fallback_script_chars(resource_dir@)),
        r is Err <==> (!primary_exists && !fallback_exists),
{
    if primary_exists {
        Ok(
            (
                String::from_str(resource_dir).concat("/python"),
                String::from_str(resource_dir).concat("/python/main_simple.py"),
            ),
        )
    } else if fallback_exists {
        Ok(
            (
                String::from_str(resource_dir).concat("/_up_/python"),
                String::from_str(resource_dir).concat("/_up_/python/main_simple.py"),
            ),
        )
    } else {
        Err(
            ResolveError::ScriptNotFound {
                primary: String::from_str(resource_dir).concat("/python/main_simple.py"),
                fallback: String::from_str(resource_dir).concat("/_up_/python/main_simple.py"),
            },
        )
    }
}

/// Resolve everything a start attempt needs: the script first, as the start
/// path does, then the interpreter. A script failure outranks an
/// interpreter failure.
pub fn resolve_engine(
    resource_dir: &str,
    primary_exists: bool,
    fallback_exists: bool,
    interpreter_exists: &Vec<bool>,
    path_lookup: &Option<String>,
) -> (r: Result<ResolvedPaths, ResolveError>)
    requires
        interpreter_exists@.len() == 6,
    ensures
        r is Err <==> ((!primary_exists && !fallback_exists) || (no_candidate_exists(
            interpreter_exists@,
        ) && path_lookup is None)),
        (!primary_exists && !fallback_exists) ==> (r matches Err(e) && e matches
            ResolveError::ScriptNotFound { primary, fallback } && primary@
            == primary_script_chars(resource_dir@) && fallback@ == fallback_script_chars(
            resource_dir@,
        )),
        ((primary_exists || fallback_exists) && no_candidate_exists(interpreter_exists@)
            && path_lookup is None) ==> (r matches Err(e) && e
            == ResolveError::InterpreterNotFound),
        r matches Ok(rp) ==> {
            &&& primary_exists ==> rp.working_directory@ == primary_dir_chars(resource_dir@)
                && rp.script_path@ == primary_script_chars(resource_dir@)
            &&& (!primary_exists && fallback_exists) ==> rp.working_directory@
                == fallback_dir_chars(resource_dir@) && rp.script_path@
                == fallback_script_chars(resource_dir@)
            &&& forall|i: int|
                (0 <= i < 6 && interpreter_exists@[i] && (forall|j: int|
                    0 <= j < i ==> !interpreter_exists@[j])) ==> rp.interpreter_path@
                    == spec_candidate(i)
            &&& path_lookup matches Some(p) ==> (no_candidate_exists(interpreter_exists@)
                ==> rp.interpreter_path@ == p@)
        },
{
    let script = resolve_script(resource_dir, primary_exists, fallback_exists);
    match script {
        Err(e) => Err(e),
        Ok((working_directory, script_path)) => {
            match resolve_interpreter(interpreter_exists, path_lookup) {
                Err(e) => Err(e),
                Ok(interpreter_path) => Ok(
                    ResolvedPaths { interpreter_path, script_path, working_directory },
                ),
            }
        }
    }
}

impl ResolveError {
    /// A human-readable account of the failure; a script failure names both
    /// attempted paths.
    pub fn message(&self) -> (r: String)
        ensures
            *self matches ResolveError::InterpreterNotFound ==> r@
                == "python3 not found: install Python 3.10 or newer"@,
            *self matches ResolveError::ScriptNotFound { primary, fallback } ==> r@
                == "engine script not found; tried "@ + primary@ + " and "@ + fallback@,
    {
        match self {
            ResolveError::InterpreterNotFound => String::from_str(
                "python3 not found: install Python 3.10 or newer",
            ),
            ResolveError::ScriptNotFound { primary, fallback } => {
                let mut s = String::from_str("engine script not found; tried ");
                s.append(primary.as_str());
                s.append(" and ");
                s.append(fallback.as_str());
                proof {
                    assert(s@ =~= "engine script not found; tried "@ + primary@ + " and "@
                        + fallback@);
                }
                s
            }
        }
    }
}

} // verus!
