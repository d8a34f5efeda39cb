use vstd::prelude::*;

verus! {

/// Where output goes: a file path, or standard output when absent.
pub struct OutputArgs {
    pub output: Option<String>,
}

/// Glob patterns of paths to leave out, matched at any depth.
pub struct ExcludeArgs {
    pub exclude: Vec<String>,
}

/// `r` holds the patterns of `cli` followed by those of `config`.
pub open spec fn merged(r: Seq<String>, cli: Seq<String>, config: Seq<String>) -> bool {
    &&& r.len() == cli.len() + config.len()
    &&& forall|i: int| 0 <= i < cli.len() ==> (#[trigger] r[i])@ == cli[i]@
    &&& forall|i: int| 0 <= i < config.len() ==> (#[trigger] r[cli.len() + i])@ == config[i]@
}

/// The exclude patterns given on the command line followed by those of the
/// configuration.
pub fn merge_excludes(cli: &Vec<String>, config: &Vec<String>) -> (r: Vec<String>)
    ensures
        merged(r@, cli@, config@),
{
    let mut r: Vec<String> = Vec::new();
    let mut i: usize = 0;
    while i < cli.len()
        invariant
            0 <= i <= cli@.len(),
            r@.len() == i,
            forall|j: int| 0 <= j < i ==> (#[trigger] r@[j])@ == cli@[j]@,
        decreases cli@.len() - i,
    {
        r.push(cli[i].clone());
        i += 1;
    }
    let mut k: usize = 0;
    while k < config.len()
        invariant
            0 <= k <= config@.len(),
            r@.len() == cli@.len() + k,
            forall|j: int| 0 <= j < cli@.len() ==> (#[trigger] r@[j])@ == cli@[j]@,
            forall|j: int| 0 <= j < k ==> (#[trigger] r@[cli@.len() + j])@ == config@[j]@,
        decreases config@.len() - k,
    {
        r.push(config[k].clone());
        k += 1;
    }
    r
}

} // verus!
