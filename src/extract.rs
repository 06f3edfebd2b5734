//! The overwrite decision taken while an archive is extracted: the first
//! path that already exists asks once, and that answer holds for the rest
//! of the run.
use vstd::prelude::*;
use vstd::string::StrSliceExecFns;

verus! {

/// What the run knows of overwriting so far.
#[derive(Debug, Clone, Copy, PartialEq, Eq, Structural)]
pub enum OverwritePref {
    /// No existing path has been met yet.
    Unset,
    /// Overwriting was confirmed; every later collision is overwritten.
    Confirmed,
    /// Overwriting was declined; the run stops.
    Declined,
}

/// What to do next for one entry of the archive.
#[derive(Debug, Clone, Copy, PartialEq, Eq, Structural)]
pub enum Action {
    /// Nothing is at the path: create the entry.
    Create,
    /// Something is at the path and no answer is known yet: ask first.
    Ask,
    /// Remove what is at the path (a directory with all it holds), then
    /// create the entry.
    Replace,
    /// Stop the whole extraction, with nothing more written or removed.
    Abort,
}

/// The action for an entry whose path exists (or not), given what the run knows.
pub open spec fn action_spec(pref: OverwritePref, exists: bool) -> Action {
    match pref {
        OverwritePref::Declined => Action::Abort,
        OverwritePref::Confirmed => if exists { Action::Replace } else { Action::Create },
        OverwritePref::Unset => if exists { Action::Ask } else { Action::Create },
    }
}

/// What the run knows after the question was answered, and the action it
/// leads to for the entry that asked.
pub open spec fn answer_spec(affirmative: bool) -> (OverwritePref, Action) {
    if affirmative {
        (OverwritePref::Confirmed, Action::Replace)
    } else {
        (OverwritePref::Declined, Action::Abort)
    }
}

/// Decides what to do with the next entry of the archive.
pub fn next_action(pref: OverwritePref, exists: bool) -> (a: Action)
    ensures
        a == action_spec(pref, exists),
{
    match pref {
        OverwritePref::Declined => Action::Abort,
        OverwritePref::Confirmed => if exists { Action::Replace } else { Action::Create },
        OverwritePref::Unset => if exists { Action::Ask } else { Action::Create },
    }
}

/// Records the answer to the one overwrite question of a run.
pub fn answer(affirmative: bool) -> (r: (OverwritePref, Action))
    ensures
        r == answer_spec(affirmative),
{
    if affirmative {
        (OverwritePref::Confirmed, Action::Replace)
    } else {
        (OverwritePref::Declined, Action::Abort)
    }
}

/// Whether a reply, already stripped of surrounding whitespace, is the one
/// affirmative answer `y`.
pub fn reply_confirms(trimmed: &str) -> (r: bool)
    ensures
        r == (trimmed@ == seq!['y']),
{
    if trimmed.unicode_len() != 1 {
        assert(trimmed@ != seq!['y']);
        return false;
    }
    let c = trimmed.get_char(0);
    if c == 'y' {
        assert(trimmed@ =~= seq!['y']);
        true
    } else {
        false
    }
}

/// What `str::trim` leaves of a reply.
pub uninterp spec fn trim_of(s: Seq<char>) -> Seq<char>;

/// Relies on `str::trim`: strips leading and trailing whitespace, and the
/// result depends on the characters alone.
#[verifier::external_body]
fn trimmed<'a>(s: &'a str) -> (r: &'a str)
    ensures
        r@ == trim_of(s@),
{
    s.trim()
}

/// Whether a reply typed at the overwrite question confirms: it is `y`
/// once surrounding whitespace is stripped.
pub fn is_affirmative(line: &str) -> (r: bool)
    ensures
        r == (trim_of(line@) == seq!['y']),
{
    reply_confirms(trimmed(line))
}

/// The actions of a whole run over entries whose paths exist as `exists`
/// says, when the question, if asked, is answered `affirmative`. A run
/// ends at its first `Abort`.
pub open spec fn run(pref: OverwritePref, exists: Seq<bool>, affirmative: bool) -> Seq<Action>
    decreases exists.len(),
{
    if exists.len() == 0 {
        seq![]
    } else {
        let a = action_spec(pref, exists[0]);
        let (p, b) = if a == Action::Ask { answer_spec(affirmative) } else { (pref, a) };
        if b == Action::Abort {
            seq![b]
        } else {
            seq![b] + run(p, exists.drop_first(), affirmative)
        }
    }
}

/// With an affirmative answer a run realizes every entry, as a clean run
/// would: it creates each one, and replaces exactly those whose path
/// already exists. So extracting the same archive again over its own
/// output gives the same tree.
pub proof fn lemma_confirmed_run(pref: OverwritePref, exists: Seq<bool>)
    requires
        pref != OverwritePref::Declined,
    ensures
        run(pref, exists, true).len() == exists.len(),
        forall|k: int|
            0 <= k < exists.len() ==> #[trigger] run(pref, exists, true)[k] == if exists[k] {
                Action::Replace
            } else {
                Action::Create
            },
    decreases exists.len(),
{
    if exists.len() > 0 {
        let a = action_spec(pref, exists[0]);
        let p = if a == Action::Ask { OverwritePref::Confirmed } else { pref };
        let t = exists.drop_first();
        lemma_confirmed_run(p, t);
        assert forall|k: int| 0 <= k < exists.len() implies #[trigger] run(pref, exists, true)[k]
            == if exists[k] { Action::Replace } else { Action::Create } by {
            if k > 0 {
                assert(exists[k] == t[k - 1]);
            }
        }
    }
}

/// A declined answer replaces nothing: the run stops at the first path that
/// exists, before anything there is removed, and realizes no later entry.
pub proof fn lemma_declined_run(exists: Seq<bool>, first: int)
    requires
        0 <= first < exists.len(),
        exists[first],
        forall|k: int| 0 <= k < first ==> !#[trigger] exists[k],
    ensures
        run(OverwritePref::Unset, exists, false).len() == first + 1,
        run(OverwritePref::Unset, exists, false)[first] == Action::Abort,
        forall|k: int| 0 <= k < first ==> #[trigger] run(OverwritePref::Unset, exists, false)[k]
            == Action::Create,
    decreases exists.len(),
{
    if first > 0 {
        let t = exists.drop_first();
        assert forall|k: int| 0 <= k < first - 1 implies !#[trigger] t[k] by {
            assert(t[k] == exists[k + 1]);
        }
        lemma_declined_run(t, first - 1);
        assert forall|k: int| 0 <= k < first implies #[trigger] run(OverwritePref::Unset, exists, false)[k]
            == Action::Create by {
            if k > 0 {
                assert(run(OverwritePref::Unset, exists, false)[k] == run(OverwritePref::Unset, t, false)[k - 1]);
            }
        }
    }
}

} // verus!
