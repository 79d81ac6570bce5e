//! Backups and audits that a node makes of its own accord.

use vstd::prelude::*;

verus! {

/// What a node has to do about its backups.
#[derive(Clone, Copy, Debug, PartialEq, Eq, Structural)]
pub enum AutomaticBackupPoll {
    Idle,
    /// A backup of this revision was submitted and is not yet decided.
    InFlight(u128),
    /// A backup is due.
    Start { estimated_bytes: u64 },
}

/// What is known of a backup that was submitted.
#[derive(Debug)]
pub enum JobView {
    Committed,
    Failed { error: Option<String> },
    /// It is still being worked on.
    Open,
    /// Nothing could be learned.
    Unknown,
}

/// What is done about backups.
#[derive(Debug)]
pub enum BackupAction {
    Nothing,
    /// Ask how the backup of a revision stands.
    Ask { revision: u128 },
    Submit,
    /// Note that a backup was submitted.
    NoteSubmitted { revision: u128 },
    /// Note how a backup ended.
    NoteFinished { revision: Option<u128>, committed: bool, error: Option<String> },
}

/// What is done first.
pub fn backup_action(poll: AutomaticBackupPoll) -> (action: BackupAction)
    ensures
        action == (match poll {
            AutomaticBackupPoll::Idle => BackupAction::Nothing,
            AutomaticBackupPoll::InFlight(revision) => BackupAction::Ask { revision },
            AutomaticBackupPoll::Start { .. } => BackupAction::Submit,
        }),
{
    match poll {
        AutomaticBackupPoll::Idle => BackupAction::Nothing,
        AutomaticBackupPoll::InFlight(revision) => BackupAction::Ask { revision },
        AutomaticBackupPoll::Start { .. } => BackupAction::Submit,
    }
}

/// What is noted of a backup whose state was asked for.
pub fn after_asking(revision: u128, view: JobView) -> (action: BackupAction)
    ensures
        match view {
            JobView::Committed => action == (BackupAction::NoteFinished {
                revision: Some(revision),
                committed: true,
                error: None,
            }),
            JobView::Failed { error: Some(error) } => action == (BackupAction::NoteFinished {
                revision: Some(revision),
                committed: false,
                error: Some(error),
            }),
            JobView::Failed { error: None } => action matches BackupAction::NoteFinished {
                revision: of,
                committed,
                error,
            } && of == Some(revision) && !committed && error is Some && error->0@
                == "automatic backup failed"@,
            _ => action == BackupAction::Nothing,
        },
{
    match view {
        JobView::Committed => BackupAction::NoteFinished {
            revision: Some(revision),
            committed: true,
            error: None,
        },
        JobView::Failed { error } => {
            let error = match error {
                Some(error) => error,
                None => "automatic backup failed".to_owned(),
            };
            BackupAction::NoteFinished {
                revision: Some(revision),
                committed: false,
                error: Some(error),
            }
        },
        _ => BackupAction::Nothing,
    }
}

/// What is noted of a backup that was to be submitted.
pub fn after_submitting(submitted: Result<u128, String>) -> (action: BackupAction)
    ensures
        action == (match submitted {
            Ok(revision) => BackupAction::NoteSubmitted { revision },
            Err(message) => BackupAction::NoteFinished {
                revision: None,
                committed: false,
                error: Some(message),
            },
        }),
{
    match submitted {
        Ok(revision) => BackupAction::NoteSubmitted { revision },
        Err(message) => BackupAction::NoteFinished {
            revision: None,
            committed: false,
            error: Some(message),
        },
    }
}

/// How many seconds pass between two looks at whether an audit is due: no
/// answer for an interval of nothing.
pub fn audit_pause(interval_seconds: u64) -> (pause: Option<u64>)
    ensures
        pause == (if interval_seconds == 0 {
            None
        } else if interval_seconds < 60 {
            Some(interval_seconds)
        } else {
            Some(60)
        }),
{
    if interval_seconds == 0 {
        None
    } else if interval_seconds < 60 {
        Some(interval_seconds)
    } else {
        Some(60)
    }
}

/// The sum of counts.
pub open spec fn total(counts: Seq<usize>) -> int
    decreases counts.len(),
{
    if counts.len() == 0 {
        0
    } else {
        total(counts.drop_last()) + counts.last()
    }
}

proof fn lemma_total_grows(counts: Seq<usize>, n: int)
    requires
        0 <= n <= counts.len(),
    ensures
        0 <= total(counts.take(n)) <= total(counts),
    decreases counts.len(),
{
    if n == counts.len() {
        assert(counts.take(n) =~= counts);
        if counts.len() > 0 {
            lemma_total_grows(counts.drop_last(), n - 1);
        }
    } else {
        lemma_total_grows(counts.drop_last(), n);
        assert(counts.drop_last().take(n) =~= counts.take(n));
    }
}

/// How many objects are corrupt, from the counts of each volume.
pub fn corrupt_objects(counts: &Vec<usize>) -> (sum: usize)
    requires
        total(counts@) <= usize::MAX,
    ensures
        sum == total(counts@),
{
    let mut sum: usize = 0;
    let mut i: usize = 0;
    assert(counts@.take(0) =~= Seq::empty());
    while i < counts.len()
        invariant
            i <= counts@.len(),
            total(counts@) <= usize::MAX,
            sum == total(counts@.take(i as int)),
        decreases counts@.len() - i,
    {
        proof {
            assert(counts@.take(i + 1).drop_last() =~= counts@.take(i as int));
            lemma_total_grows(counts@, i + 1);
        }
        sum = sum + counts[i];
        i += 1;
    }
    assert(counts@.take(i as int) =~= counts@);
    sum
}

/// The sum of counts is the first with the sum of the others, in whatever order they
/// are taken.
pub proof fn sums_add_up(some: Seq<usize>, more: Seq<usize>, one: usize)
    ensures
        total(seq![one]) == one,
        total(some + more) == total(some) + total(more),
    decreases more.len(),
{
    assert(seq![one].drop_last() =~= Seq::empty());
    assert(total(seq![one].drop_last()) == 0);
    if more.len() == 0 {
        assert(some + more =~= some);
    } else {
        sums_add_up(some, more.drop_last(), one);
        assert((some + more).drop_last() =~= some + more.drop_last());
        assert((some + more).last() == more.last());
    }
}

} // verus!
