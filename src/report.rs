use vstd::prelude::*;

use crate::text::{trim, trimmed};

verus! {

/// How a command run in one repository ended, as the process runner saw it.
pub enum Completion {
    /// The command could not be started; the message says why.
    SpawnFailed(String),
    /// The command ran to its end, with its whole output.
    Exited { success: bool, code: Option<i32>, stdout: String, stderr: String },
}

/// What came of running the command in one repository.
pub enum OutcomeKind {
    /// The command could not be started.
    DispatchError(String),
    /// The command ran and reported failure.
    CommandFailure { stdout: String, stderr: String, exit_code: Option<i32> },
    /// The command ran and reported success.
    CommandSuccess { stdout: String, stderr: String },
}

/// The outcome of the command in the repository at `path`.
pub struct CommandOutcome {
    pub path: String,
    pub kind: OutcomeKind,
}

/// An outcome kind with its texts as character sequences.
pub enum KindView {
    DispatchError(Seq<char>),
    CommandFailure(Seq<char>, Seq<char>, Option<i32>),
    CommandSuccess(Seq<char>, Seq<char>),
}

pub struct OutcomeView {
    pub path: Seq<char>,
    pub kind: KindView,
}

impl View for OutcomeKind {
    type V = KindView;

    open spec fn view(&self) -> KindView {
        match self {
            OutcomeKind::DispatchError(m) => KindView::DispatchError(m@),
            OutcomeKind::CommandFailure { stdout, stderr, exit_code } => KindView::CommandFailure(
                stdout@,
                stderr@,
                *exit_code,
            ),
            OutcomeKind::CommandSuccess { stdout, stderr } => KindView::CommandSuccess(stdout@, stderr@),
        }
    }
}

impl View for CommandOutcome {
    type V = OutcomeView;

    open spec fn view(&self) -> OutcomeView {
        OutcomeView { path: self.path@, kind: self.kind@ }
    }
}

/// The outcomes of a run: those that succeeded and those that failed, each in
/// the order in which they came.
pub struct Report {
    pub succeeded: Vec<CommandOutcome>,
    pub failed: Vec<CommandOutcome>,
}

pub open spec fn outcomes(v: Seq<CommandOutcome>) -> Seq<OutcomeView> {
    v.map_values(|o: CommandOutcome| o@)
}

/// The outcome in the repository at `path` of a command that ended as `c`;
/// the captured output is kept without surrounding white space.
pub open spec fn outcome_of(path: Seq<char>, c: Completion) -> OutcomeView {
    OutcomeView {
        path,
        kind: match c {
            Completion::SpawnFailed(m) => KindView::DispatchError(m@),
            Completion::Exited { success, code, stdout, stderr } => if success {
                KindView::CommandSuccess(trim(stdout@), trim(stderr@))
            } else {
                KindView::CommandFailure(trim(stdout@), trim(stderr@), code)
            },
        },
    }
}

/// One outcome for each repository, the `i`-th from the `i`-th completion.
pub open spec fn outcomes_of(paths: Seq<Seq<char>>, cs: Seq<Completion>) -> Seq<OutcomeView> {
    Seq::new(paths.len(), |i: int| outcome_of(paths[i], cs[i]))
}

pub open spec fn is_success(o: OutcomeView) -> bool {
    o.kind is CommandSuccess
}

/// The outcomes that succeeded, in order.
pub open spec fn successes(s: Seq<OutcomeView>) -> Seq<OutcomeView>
    decreases s.len(),
{
    if s.len() == 0 {
        seq![]
    } else if is_success(s.last()) {
        successes(s.drop_last()).push(s.last())
    } else {
        successes(s.drop_last())
    }
}

/// The outcomes that failed, in order.
pub open spec fn failures(s: Seq<OutcomeView>) -> Seq<OutcomeView>
    decreases s.len(),
{
    if s.len() == 0 {
        seq![]
    } else if is_success(s.last()) {
        failures(s.drop_last())
    } else {
        failures(s.drop_last()).push(s.last())
    }
}

pub open spec fn paths_of(s: Seq<OutcomeView>) -> Seq<Seq<char>> {
    s.map_values(|o: OutcomeView| o.path)
}

impl CommandOutcome {
    /// The outcome in the repository at `path` of a command that ended as
    /// `completion`.
    pub fn new(path: &str, completion: &Completion) -> (r: CommandOutcome)
        ensures
            r@ == outcome_of(path@, *completion),
    {
        let kind = match completion {
            Completion::SpawnFailed(message) => OutcomeKind::DispatchError(message.clone()),
            Completion::Exited { success, code, stdout, stderr } => {
                let stdout = trimmed(stdout.as_str());
                let stderr = trimmed(stderr.as_str());
                if *success {
                    OutcomeKind::CommandSuccess { stdout, stderr }
                } else {
                    OutcomeKind::CommandFailure { stdout, stderr, exit_code: *code }
                }
            },
        };
        CommandOutcome { path: path.to_owned(), kind }
    }

    /// Whether the command succeeded.
    pub fn success(&self) -> (r: bool)
        ensures
            r == is_success(self@),
    {
        match self.kind {
            OutcomeKind::CommandSuccess { .. } => true,
            _ => false,
        }
    }
}

/// The outcomes of a run, the `i`-th for the repository at `paths[i]` from
/// `completions[i]`; what came of one repository has no bearing on the
/// others.
pub fn collect_outcomes(paths: &Vec<String>, completions: &Vec<Completion>) -> (r: Vec<CommandOutcome>)
    requires
        paths.len() == completions.len(),
    ensures
        outcomes(r@) == outcomes_of(paths@.map_values(|p: String| p@), completions@),
{
    let mut r: Vec<CommandOutcome> = Vec::new();
    let mut i: usize = 0;
    while i < paths.len()
        invariant
            paths.len() == completions.len(),
            i <= paths.len(),
            r.len() == i,
            forall|j: int| 0 <= j < i ==> r@[j]@ == outcome_of(paths@[j]@, completions@[j]),
        decreases paths.len() - i,
    {
        r.push(CommandOutcome::new(paths[i].as_str(), &completions[i]));
        i = i + 1;
    }
    assert(outcomes(r@) =~= outcomes_of(paths@.map_values(|p: String| p@), completions@));
    r
}

impl Report {
    /// Parts the outcomes into those that succeeded and those that failed.
    pub fn aggregate(results: Vec<CommandOutcome>) -> (r: Report)
        ensures
            outcomes(r.succeeded@) == successes(outcomes(results@)),
            outcomes(r.failed@) == failures(outcomes(results@)),
    {
        let mut succeeded: Vec<CommandOutcome> = Vec::new();
        let mut failed: Vec<CommandOutcome> = Vec::new();
        for item in it: results.into_iter()
            invariant
                it.seq() == results@,
                outcomes(succeeded@) == successes(outcomes(results@.take(it.index() as int))),
                outcomes(failed@) == failures(outcomes(results@.take(it.index() as int))),
        {
            let ghost k = it.index() as int;
            let ghost before_s = succeeded@;
            let ghost before_f = failed@;
            proof {
                assert(outcomes(results@.take(k + 1)).drop_last() =~= outcomes(results@.take(k)));
                assert(outcomes(results@.take(k + 1)).last() == item@);
            }
            if item.success() {
                succeeded.push(item);
                assert(outcomes(succeeded@) =~= outcomes(before_s).push(item@));
            } else {
                failed.push(item);
                assert(outcomes(failed@) =~= outcomes(before_f).push(item@));
            }
        }
        assert(results@.take(results@.len() as int) =~= results@);
        Report { succeeded, failed }
    }

    pub fn succeeded_count(&self) -> (r: usize)
        ensures
            r == self.succeeded.len(),
    {
        self.succeeded.len()
    }

    pub fn failed_count(&self) -> (r: usize)
        ensures
            r == self.failed.len(),
    {
        self.failed.len()
    }

    /// Whether some repository failed: the run as a whole then failed.
    pub fn any_failures(&self) -> (r: bool)
        ensures
            r == (self.failed.len() > 0),
    {
        self.failed.len() > 0
    }
}

proof fn lemma_partition(s: Seq<OutcomeView>)
    ensures
        successes(s).len() + failures(s).len() == s.len(),
        paths_of(successes(s)).to_multiset().add(paths_of(failures(s)).to_multiset())
            == paths_of(s).to_multiset(),
    decreases s.len(),
{
    broadcast use vstd::multiset::group_multiset_axioms, vstd::seq_lib::group_to_multiset_ensures;

    if s.len() == 0 {
        assert(paths_of(s) =~= seq![]);
        assert(paths_of(successes(s)) =~= seq![]);
        assert(paths_of(failures(s)) =~= seq![]);
        assert(paths_of(s).to_multiset() =~= vstd::multiset::Multiset::empty());
    } else {
        let t = s.drop_last();
        let x = s.last();
        lemma_partition(t);
        assert(paths_of(s) =~= paths_of(t).push(x.path));
        if is_success(x) {
            assert(paths_of(successes(s)) =~= paths_of(successes(t)).push(x.path));
        } else {
            assert(paths_of(failures(s)) =~= paths_of(failures(t)).push(x.path));
        }
        assert(paths_of(successes(s)).to_multiset().add(paths_of(failures(s)).to_multiset())
            =~= paths_of(s).to_multiset());
    }
}

/// Every repository of a run is reported once: the outcomes that succeeded
/// and those that failed are as many as the repositories, and their paths
/// are those of the repositories, each as often as it was given; so where no
/// path was given twice, none is reported twice.
pub proof fn lemma_outcome_completeness(paths: Seq<Seq<char>>, cs: Seq<Completion>)
    requires
        paths.len() == cs.len(),
    ensures
        ({
            let os = outcomes_of(paths, cs);
            &&& successes(os).len() + failures(os).len() == paths.len()
            &&& paths_of(successes(os)).to_multiset().add(paths_of(failures(os)).to_multiset())
                == paths.to_multiset()
            &&& paths.no_duplicates() ==> (paths_of(successes(os)) + paths_of(failures(os))).no_duplicates()
        }),
{
    broadcast use vstd::multiset::group_multiset_axioms;

    let os = outcomes_of(paths, cs);
    lemma_partition(os);
    assert(paths_of(os) =~= paths);
    let both = paths_of(successes(os)) + paths_of(failures(os));
    vstd::seq_lib::lemma_multiset_commutative(paths_of(successes(os)), paths_of(failures(os)));
    if paths.no_duplicates() {
        paths.lemma_multiset_has_no_duplicates();
        both.lemma_multiset_has_no_duplicates_conv();
    }
}

/// Some outcome failed exactly when the failed part is not empty.
proof fn lemma_failures_nonempty(s: Seq<OutcomeView>)
    ensures
        failures(s).len() > 0 <==> exists|i: int| 0 <= i < s.len() && !is_success(#[trigger] s[i]),
    decreases s.len(),
{
    if s.len() > 0 {
        let t = s.drop_last();
        lemma_failures_nonempty(t);
        if exists|i: int| 0 <= i < t.len() && !is_success(#[trigger] t[i]) {
            let i = choose|i: int| 0 <= i < t.len() && !is_success(#[trigger] t[i]);
            assert(s[i] == t[i]);
        }
        if exists|i: int| 0 <= i < s.len() && !is_success(#[trigger] s[i]) {
            let i = choose|i: int| 0 <= i < s.len() && !is_success(#[trigger] s[i]);
            if i < t.len() {
                assert(t[i] == s[i]);
            }
        }
    }
}

/// The run fails exactly when some repository's command could not be
/// started or reported failure; it succeeds when every one succeeded.
pub proof fn lemma_exit_status(results: Seq<CommandOutcome>)
    ensures
        failures(outcomes(results)).len() > 0 <==> exists|i: int|
            0 <= i < results.len() && !is_success(#[trigger] results[i]@),
{
    let s = outcomes(results);
    lemma_failures_nonempty(s);
    if exists|i: int| 0 <= i < results.len() && !is_success(#[trigger] results[i]@) {
        let i = choose|i: int| 0 <= i < results.len() && !is_success(#[trigger] results[i]@);
        assert(s[i] == results[i]@);
    }
}

/// A command that cannot be started in one repository takes nothing from
/// the others: with the `j`-th completion a spawn failure, the run still has
/// one outcome for each repository, the `j`-th a dispatch error and every
/// other one as before.
pub proof fn lemma_dispatch_isolation(paths: Seq<Seq<char>>, cs: Seq<Completion>, j: int, message: String)
    requires
        paths.len() == cs.len(),
        0 <= j < cs.len(),
    ensures
        ({
            let failed = outcomes_of(paths, cs.update(j, Completion::SpawnFailed(message)));
            &&& failed.len() == paths.len()
            &&& failed[j] == (OutcomeView { path: paths[j], kind: KindView::DispatchError(message@) })
            &&& forall|i: int| 0 <= i < paths.len() && i != j ==> #[trigger] failed[i] == outcomes_of(paths, cs)[i]
        }),
{
}

} // verus!
