//! Reconciliation: for each discovered key file, what it should hold, what
//! changes, and the statistics of a pass.
//!
//! The filesystem stays with the caller. A `SyncSession` names the file to
//! handle next; the caller reads it and hands its contents over; the session
//! returns a `FilePlan` (with the full replacement text, where one is to be
//! written); the caller writes it, or not, and reports how that went.
use crate::api::KeyAssignment;
use crate::locator::{discovered, texts_of, AuthorizedKeysFile, SshKeyManager};
use crate::ssh_keys::{parse_key, SshKey, SshKeyView};
use crate::store::{
    file_content, is_comment_line, is_parsed_key, keys_from_text, keys_in, keys_view,
    lemma_parsed_key_is_parsed, lemma_written_keys_read_back,
};
use crate::users::UserInfo;
use vstd::prelude::*;

verus! {

/// Statistics of one pass.
#[derive(Debug, Clone, Copy, PartialEq, Eq, Structural)]
pub struct KeySyncStats {
    pub users_processed: u32,
    pub keys_added: u32,
    pub keys_removed: u32,
    pub files_updated: u32,
    pub errors: u32,
}

/// What reading a key file gave.
pub enum FileContents {
    /// The file does not exist: it holds no key.
    Missing,
    /// The file's text.
    Text(String),
    /// The file exists but could not be read.
    Unreadable,
}

/// How writing a planned replacement went.
#[derive(Debug, Clone, Copy, PartialEq, Eq, Structural)]
pub enum WriteOutcome {
    /// Nothing was to be written.
    NotAttempted,
    Written,
    Failed,
}

/// What to do with one key file.
pub struct FilePlan {
    /// Whether the file's contents were known.
    pub readable: bool,
    pub keys_added: u32,
    pub keys_removed: u32,
    /// Assignments of the file's user whose public key does not parse.
    pub invalid_assignments: u32,
    /// Whether the file's keys differ from the assigned ones.
    pub changed: bool,
    /// The full replacement text, where the file is to be written.
    pub content: Option<String>,
}

/// The keys an assignment gives a user: its key where it is the user's and
/// parses, else none.
pub open spec fn assigned_key(a: KeyAssignment, user: Seq<char>) -> Seq<SshKeyView> {
    if a.username@ == user {
        match parse_key(a.public_key@) {
            Ok(k) => seq![k],
            Err(_) => Seq::<SshKeyView>::empty(),
        }
    } else {
        Seq::<SshKeyView>::empty()
    }
}

/// The keys a user should have: those of the user's assignments that parse,
/// in order.
pub open spec fn target_keys(assigns: Seq<KeyAssignment>, user: Seq<char>) -> Seq<SshKeyView>
    decreases assigns.len(),
{
    if assigns.len() == 0 {
        Seq::<SshKeyView>::empty()
    } else {
        target_keys(assigns.drop_last(), user) + assigned_key(assigns.last(), user)
    }
}

/// The number of the user's assignments whose public key does not parse.
pub open spec fn invalid_count(assigns: Seq<KeyAssignment>, user: Seq<char>) -> nat
    decreases assigns.len(),
{
    if assigns.len() == 0 {
        0
    } else {
        invalid_count(assigns.drop_last(), user) + if assigns.last().username@ == user && parse_key(
            assigns.last().public_key@,
        ) is Err {
            1nat
        } else {
            0nat
        }
    }
}

pub open spec fn has_fingerprint(ks: Seq<SshKeyView>, fp: Seq<char>) -> bool {
    exists|i: int| 0 <= i < ks.len() && (#[trigger] ks[i]).fingerprint == fp
}

/// The keys of `a`, in order, whose fingerprint no key of `b` has.
pub open spec fn missing_from(a: Seq<SshKeyView>, b: Seq<SshKeyView>) -> Seq<SshKeyView>
    decreases a.len(),
{
    if a.len() == 0 {
        Seq::<SshKeyView>::empty()
    } else {
        missing_from(a.drop_last(), b) + if has_fingerprint(b, a.last().fingerprint) {
            Seq::<SshKeyView>::empty()
        } else {
            seq![a.last()]
        }
    }
}

/// Statistics with every count zero.
pub open spec fn zero_stats() -> KeySyncStats {
    KeySyncStats { users_processed: 0, keys_added: 0, keys_removed: 0, files_updated: 0, errors: 0 }
}

/// A count as a `u32`, saturated.
pub open spec fn clamp32(n: nat) -> u32 {
    if n > u32::MAX {
        u32::MAX
    } else {
        n as u32
    }
}

/// The keys a file holds, as read.
pub open spec fn existing_keys(contents: FileContents) -> Seq<SshKeyView> {
    match contents {
        FileContents::Text(t) => keys_in(t@),
        _ => Seq::<SshKeyView>::empty(),
    }
}

/// The plan for a file: with unreadable contents, nothing; else the keys to
/// add are the target keys whose fingerprint the file lacks, those to remove
/// the file's keys whose fingerprint no target key has, and where either is
/// not empty the file changes; it is then written in full with the target
/// keys, unless this is a dry run.
pub open spec fn plan_is(
    p: FilePlan,
    marker: Seq<char>,
    user: Seq<char>,
    contents: FileContents,
    assigns: Seq<KeyAssignment>,
    dry_run: bool,
) -> bool {
    if contents is Unreadable {
        &&& !p.readable
        &&& p.keys_added == 0
        &&& p.keys_removed == 0
        &&& p.invalid_assignments == 0
        &&& !p.changed
        &&& p.content is None
    } else {
        let existing = existing_keys(contents);
        let target = target_keys(assigns, user);
        let add = missing_from(target, existing);
        let remove = missing_from(existing, target);
        &&& p.readable
        &&& p.keys_added == clamp32(add.len())
        &&& p.keys_removed == clamp32(remove.len())
        &&& p.invalid_assignments == clamp32(invalid_count(assigns, user))
        &&& p.changed == (add.len() > 0 || remove.len() > 0)
        &&& match p.content {
            Some(c) => p.changed && !dry_run && c@ == file_content(marker, target),
            None => !(p.changed && !dry_run),
        }
    }
}

/// The statistics after one more file: an unreadable file, or a failed
/// write, counts as one error (with the invalid assignments of a failed
/// write) and adds no key; otherwise its keys and invalid assignments are
/// added up, and a changed file counts as updated. Counts saturate.
pub open spec fn recorded(s: KeySyncStats, p: FilePlan, outcome: WriteOutcome) -> KeySyncStats {
    let users_processed = s.users_processed.saturating_add(1);
    if !p.readable {
        KeySyncStats { users_processed, errors: s.errors.saturating_add(1), ..s }
    } else if outcome is Failed {
        KeySyncStats {
            users_processed,
            errors: s.errors.saturating_add(p.invalid_assignments).saturating_add(1),
            ..s
        }
    } else {
        KeySyncStats {
            users_processed,
            keys_added: s.keys_added.saturating_add(p.keys_added),
            keys_removed: s.keys_removed.saturating_add(p.keys_removed),
            files_updated: if p.changed {
                s.files_updated.saturating_add(1)
            } else {
                s.files_updated
            },
            errors: s.errors.saturating_add(p.invalid_assignments),
        }
    }
}

fn clamp_count(n: usize) -> (r: u32)
    ensures
        r == clamp32(n as nat),
{
    if n > u32::MAX as usize {
        u32::MAX
    } else {
        n as u32
    }
}

fn has_fingerprint_in(ks: &Vec<SshKey>, fp: &String) -> (r: bool)
    ensures
        r == has_fingerprint(keys_view(ks@), fp@),
{
    let mut i: usize = 0;
    while i < ks.len()
        invariant
            i <= ks@.len(),
            forall|j: int| 0 <= j < i ==> (#[trigger] ks@[j]).fingerprint@ != fp@,
        decreases ks@.len() - i,
    {
        if ks[i].fingerprint == *fp {
            assert(keys_view(ks@)[i as int].fingerprint == fp@);
            return true;
        }
        i = i + 1;
    }
    assert forall|j: int| 0 <= j < keys_view(ks@).len() implies (
    #[trigger] keys_view(ks@)[j]).fingerprint != fp@ by {
        assert(keys_view(ks@)[j] == ks@[j]@);
    }
    false
}

/// The number of keys of `a` whose fingerprint no key of `b` has.
fn count_missing(a: &Vec<SshKey>, b: &Vec<SshKey>) -> (r: usize)
    ensures
        r == missing_from(keys_view(a@), keys_view(b@)).len(),
{
    let ghost av = keys_view(a@);
    let ghost bv = keys_view(b@);
    let mut n: usize = 0;
    let mut i: usize = 0;
    while i < a.len()
        invariant
            i <= a@.len(),
            av == keys_view(a@),
            bv == keys_view(b@),
            n == missing_from(av.take(i as int), bv).len(),
            n <= i,
        decreases a@.len() - i,
    {
        let present = has_fingerprint_in(b, &a[i].fingerprint);
        proof {
            assert(av.take(i + 1).drop_last() =~= av.take(i as int));
            assert(av.take(i + 1).last() == a@[i as int]@);
        }
        if !present {
            n = n + 1;
        }
        i = i + 1;
    }
    assert(av.take(i as int) =~= av);
    n
}

/// A copy of an assignment.
pub fn copy_assignment(a: &KeyAssignment) -> (r: KeyAssignment)
    ensures
        r == *a,
{
    KeyAssignment {
        username: a.username.clone(),
        fingerprint: a.fingerprint.clone(),
        public_key: a.public_key.clone(),
        key_type: a.key_type.clone(),
        comment: match &a.comment {
            Some(c) => Some(c.clone()),
            None => None,
        },
        use_primary_key: a.use_primary_key,
        assignment_id: a.assignment_id.clone(),
    }
}

impl KeySyncStats {
    /// All counts zero.
    pub fn new() -> (r: KeySyncStats)
        ensures
            r == zero_stats(),
    {
        KeySyncStats { users_processed: 0, keys_added: 0, keys_removed: 0, files_updated: 0, errors: 0 }
    }

    /// Adds one handled file to the statistics.
    pub fn record(&mut self, plan: &FilePlan, outcome: WriteOutcome)
        ensures
            *final(self) == recorded(*old(self), *plan, outcome),
    {
        self.users_processed = self.users_processed.saturating_add(1);
        if !plan.readable {
            self.errors = self.errors.saturating_add(1);
        } else if outcome == WriteOutcome::Failed {
            self.errors = self.errors.saturating_add(plan.invalid_assignments).saturating_add(1);
        } else {
            self.keys_added = self.keys_added.saturating_add(plan.keys_added);
            self.keys_removed = self.keys_removed.saturating_add(plan.keys_removed);
            if plan.changed {
                self.files_updated = self.files_updated.saturating_add(1);
            }
            self.errors = self.errors.saturating_add(plan.invalid_assignments);
        }
    }
}

impl SshKeyManager {
    /// The user's assignments whose public key parses, as keys, in order, and
    /// the number of those that do not parse.
    pub fn assignment_keys(&self, username: &String, assignments: &[KeyAssignment]) -> (r: (
        Vec<SshKey>,
        usize,
    ))
        ensures
            keys_view(r.0@) == target_keys(assignments@, username@),
            r.1 == invalid_count(assignments@, username@),
    {
        let mut keys: Vec<SshKey> = Vec::new();
        let mut invalid: usize = 0;
        let mut i: usize = 0;
        while i < assignments.len()
            invariant
                i <= assignments@.len(),
                keys_view(keys@) == target_keys(assignments@.take(i as int), username@),
                invalid == invalid_count(assignments@.take(i as int), username@),
                invalid <= i,
            decreases assignments@.len() - i,
        {
            let a = &assignments[i];
            proof {
                let t = assignments@.take(i + 1);
                assert(t.drop_last() =~= assignments@.take(i as int));
                assert(t.last() == *a);
            }
            if a.username == *username {
                match self.assignment_to_ssh_key(a) {
                    Ok(k) => {
                        let ghost prev = keys@;
                        keys.push(k);
                        assert(keys_view(keys@) =~= keys_view(prev) + seq![k@]);
                    },
                    Err(_) => {
                        invalid = invalid + 1;
                        assert(keys_view(keys@) =~= keys_view(keys@) + Seq::<SshKeyView>::empty());
                    },
                }
            } else {
                assert(keys_view(keys@) =~= keys_view(keys@) + Seq::<SshKeyView>::empty());
            }
            i = i + 1;
        }
        assert(assignments@.take(i as int) =~= assignments@);
        (keys, invalid)
    }

    /// The key an assignment declares, parsed anew from its public key.
    pub fn assignment_to_ssh_key(&self, assignment: &KeyAssignment) -> (r: Result<
        SshKey,
        crate::ssh_keys::KeyParseError,
    >)
        ensures
            crate::ssh_keys::parsed_as(r, assignment.public_key@),
    {
        SshKey::parse(assignment.public_key.as_str())
    }

    /// Decides what to do with one key file, given what reading it gave.
    pub fn sync_user_keys(
        &self,
        file: &AuthorizedKeysFile,
        contents: &FileContents,
        assignments: &[KeyAssignment],
        dry_run: bool,
    ) -> (r: FilePlan)
        ensures
            plan_is(r, self.managed_marker@, file.username@, *contents, assignments@, dry_run),
    {
        let existing = match contents {
            FileContents::Unreadable => {
                return FilePlan {
                    readable: false,
                    keys_added: 0,
                    keys_removed: 0,
                    invalid_assignments: 0,
                    changed: false,
                    content: None,
                };
            },
            FileContents::Missing => {
                let v: Vec<SshKey> = Vec::new();
                assert(keys_view(v@) =~= Seq::<SshKeyView>::empty());
                v
            },
            FileContents::Text(t) => keys_from_text(t.as_str()),
        };
        let (target, invalid) = self.assignment_keys(&file.username, assignments);
        let added = count_missing(&target, &existing);
        let removed = count_missing(&existing, &target);
        let changed = added > 0 || removed > 0;
        let content = if changed && !dry_run {
            Some(self.authorized_keys_content(&target))
        } else {
            None
        };
        FilePlan {
            readable: true,
            keys_added: clamp_count(added),
            keys_removed: clamp_count(removed),
            invalid_assignments: clamp_count(invalid),
            changed,
            content,
        }
    }
}

/// One reconciliation pass over the discovered files, handled in order.
pub struct SyncSession {
    pub files: Vec<AuthorizedKeysFile>,
    pub assignments: Vec<KeyAssignment>,
    pub dry_run: bool,
    /// The index of the file to handle next.
    pub position: usize,
    pub stats: KeySyncStats,
}

impl SyncSession {
    /// The file to handle next, or `None` when the pass is over.
    pub fn current_file(&self) -> (r: Option<&AuthorizedKeysFile>)
        ensures
            self.position < self.files@.len() ==> r == Some(&self.files@[self.position as int]),
            self.position >= self.files@.len() ==> r is None,
    {
        if self.position < self.files.len() {
            Some(&self.files[self.position])
        } else {
            None
        }
    }

    /// The plan for the current file, given what reading it gave.
    pub fn plan_current(&self, manager: &SshKeyManager, contents: &FileContents) -> (r: FilePlan)
        requires
            self.position < self.files@.len(),
        ensures
            plan_is(
                r,
                manager.managed_marker@,
                self.files@[self.position as int].username@,
                *contents,
                self.assignments@,
                self.dry_run,
            ),
    {
        manager.sync_user_keys(
            &self.files[self.position],
            contents,
            self.assignments.as_slice(),
            self.dry_run,
        )
    }

    /// Records how the current file went and moves on to the next.
    pub fn complete_current(&mut self, plan: &FilePlan, outcome: WriteOutcome)
        requires
            old(self).position < old(self).files@.len(),
        ensures
            final(self).position == old(self).position + 1,
            final(self).stats == recorded(old(self).stats, *plan, outcome),
            final(self).files == old(self).files,
            final(self).assignments == old(self).assignments,
            final(self).dry_run == old(self).dry_run,
    {
        let n = self.files.len();
        self.stats.record(plan, outcome);
        assert(self.position < n);
        self.position = self.position + 1;
    }

    /// The statistics so far.
    pub fn stats(&self) -> (r: KeySyncStats)
        ensures
            r == self.stats,
    {
        self.stats
    }
}

impl SshKeyManager {
    /// Starts a reconciliation pass: the files are those of every user and
    /// pattern, in order; each file is reconciled against the assignments of
    /// its own user, so assignments of users not in `users` are never used.
    /// `user_mode` is accepted for callers; which users are handled follows
    /// from `users` alone.
    pub fn sync_ssh_keys(
        &self,
        users: &[UserInfo],
        assignments: &[KeyAssignment],
        dry_run: bool,
        user_mode: bool,
        patterns: &Vec<String>,
    ) -> (r: SyncSession)
        requires
            users@.len() * patterns@.len() <= usize::MAX,
        ensures
            discovered(users@, texts_of(patterns@), r.files@),
            r.assignments@ == assignments@,
            r.dry_run == dry_run,
            r.position == 0,
            r.stats == zero_stats(),
    {
        let files = self.discover_authorized_keys_files(users, patterns);
        let mut copied: Vec<KeyAssignment> = Vec::new();
        let mut i: usize = 0;
        while i < assignments.len()
            invariant
                i <= assignments@.len(),
                copied@ == assignments@.take(i as int),
            decreases assignments@.len() - i,
        {
            copied.push(copy_assignment(&assignments[i]));
            assert(copied@ =~= assignments@.take(i + 1));
            i = i + 1;
        }
        assert(assignments@.take(i as int) =~= assignments@);
        SyncSession { files, assignments: copied, dry_run, position: 0, stats: KeySyncStats::new() }
    }
}

proof fn lemma_target_keys_parsed(assigns: Seq<KeyAssignment>, user: Seq<char>)
    ensures
        forall|j: int|
            0 <= j < target_keys(assigns, user).len() ==> is_parsed_key(
                #[trigger] target_keys(assigns, user)[j],
            ),
    decreases assigns.len(),
{
    if assigns.len() > 0 {
        lemma_target_keys_parsed(assigns.drop_last(), user);
        let a = assigns.last();
        if a.username@ == user && parse_key(a.public_key@) is Ok {
            lemma_parsed_key_is_parsed(a.public_key@);
        }
        let t = target_keys(assigns, user);
        let init = target_keys(assigns.drop_last(), user);
        assert forall|j: int| 0 <= j < t.len() implies is_parsed_key(#[trigger] t[j]) by {
            if j < init.len() {
                assert(t[j] == init[j]);
            }
        }
    }
}

proof fn lemma_missing_empty_iff(a: Seq<SshKeyView>, b: Seq<SshKeyView>)
    ensures
        missing_from(a, b).len() == 0 <==> forall|i: int|
            0 <= i < a.len() ==> has_fingerprint(b, (#[trigger] a[i]).fingerprint),
    decreases a.len(),
{
    if a.len() > 0 {
        lemma_missing_empty_iff(a.drop_last(), b);
        if missing_from(a, b).len() == 0 {
            assert forall|i: int| 0 <= i < a.len() implies has_fingerprint(
                b,
                (#[trigger] a[i]).fingerprint,
            ) by {
                if i < a.len() - 1 {
                    assert(a[i] == a.drop_last()[i]);
                }
            }
        }
        if forall|i: int| 0 <= i < a.len() ==> has_fingerprint(b, (#[trigger] a[i]).fingerprint) {
            assert forall|i: int| 0 <= i < a.drop_last().len() implies has_fingerprint(
                b,
                (#[trigger] a.drop_last()[i]).fingerprint,
            ) by {
                assert(a.drop_last()[i] == a[i]);
            }
            assert(has_fingerprint(b, a[a.len() - 1].fingerprint));
        }
    }
}

/// After a pass has written a file, a second pass with the same assignments
/// over that file adds and removes nothing, and writes nothing.
pub proof fn lemma_second_pass_changes_nothing(
    p: FilePlan,
    marker: Seq<char>,
    user: Seq<char>,
    written: String,
    assigns: Seq<KeyAssignment>,
    dry_run: bool,
)
    requires
        is_comment_line(marker),
        written@ == file_content(marker, target_keys(assigns, user)),
        plan_is(p, marker, user, FileContents::Text(written), assigns, dry_run),
    ensures
        p.keys_added == 0,
        p.keys_removed == 0,
        !p.changed,
        p.content is None,
{
    let target = target_keys(assigns, user);
    lemma_target_keys_parsed(assigns, user);
    lemma_written_keys_read_back(marker, target);
    assert forall|i: int| 0 <= i < target.len() implies has_fingerprint(
        target,
        (#[trigger] target[i]).fingerprint,
    ) by {
        assert(target[i].fingerprint == target[i].fingerprint);
    }
    lemma_missing_empty_iff(target, target);
}

/// After a real pass, the file holds exactly the keys of the user's valid
/// assignments: a file that is written reads back as exactly those keys, and a
/// file left alone already has, for each of its keys, an assigned key with its
/// fingerprint, and the other way round.
pub proof fn lemma_pass_converges(
    p: FilePlan,
    marker: Seq<char>,
    user: Seq<char>,
    contents: FileContents,
    assigns: Seq<KeyAssignment>,
)
    requires
        is_comment_line(marker),
        plan_is(p, marker, user, contents, assigns, false),
        p.readable,
    ensures
        p.content matches Some(c) ==> keys_in(c@) == target_keys(assigns, user),
        p.content is None ==> (forall|i: int|
            0 <= i < existing_keys(contents).len() ==> has_fingerprint(
                target_keys(assigns, user),
                (#[trigger] existing_keys(contents)[i]).fingerprint,
            )) && (forall|i: int|
            0 <= i < target_keys(assigns, user).len() ==> has_fingerprint(
                existing_keys(contents),
                (#[trigger] target_keys(assigns, user)[i]).fingerprint,
            )),
{
    let target = target_keys(assigns, user);
    let existing = existing_keys(contents);
    lemma_target_keys_parsed(assigns, user);
    lemma_written_keys_read_back(marker, target);
    lemma_missing_empty_iff(target, existing);
    lemma_missing_empty_iff(existing, target);
}

/// A dry run reports the counts that a real run would, and never writes.
pub proof fn lemma_dry_run_same_counts(
    dry: FilePlan,
    applied: FilePlan,
    marker: Seq<char>,
    user: Seq<char>,
    contents: FileContents,
    assigns: Seq<KeyAssignment>,
)
    requires
        plan_is(dry, marker, user, contents, assigns, true),
        plan_is(applied, marker, user, contents, assigns, false),
    ensures
        dry.keys_added == applied.keys_added,
        dry.keys_removed == applied.keys_removed,
        dry.invalid_assignments == applied.invalid_assignments,
        dry.changed == applied.changed,
        dry.content is None,
{
}

/// The statistics of a pass whose first `n` files had the given plans and
/// write outcomes, in order: what a session started by `sync_ssh_keys` holds
/// after `n` calls of `complete_current`.
pub open spec fn pass_stats(plans: Seq<FilePlan>, outcomes: Seq<WriteOutcome>, n: nat) -> KeySyncStats
    decreases n,
{
    if n == 0 {
        zero_stats()
    } else {
        recorded(pass_stats(plans, outcomes, (n - 1) as nat), plans[n - 1], outcomes[n - 1])
    }
}

/// A second pass, over files that hold what a first pass wrote for the same
/// assignments, adds no key, removes none and updates no file, whatever
/// happens to its writes.
pub proof fn lemma_second_pass_adds_nothing(
    marker: Seq<char>,
    files: Seq<AuthorizedKeysFile>,
    written: Seq<String>,
    assigns: Seq<KeyAssignment>,
    dry_run: bool,
    plans: Seq<FilePlan>,
    outcomes: Seq<WriteOutcome>,
    n: nat,
)
    requires
        is_comment_line(marker),
        n <= files.len(),
        written.len() == files.len(),
        plans.len() == files.len(),
        outcomes.len() == files.len(),
        forall|i: int|
            0 <= i < files.len() ==> (#[trigger] written[i])@ == file_content(
                marker,
                target_keys(assigns, files[i].username@),
            ),
        forall|i: int|
            0 <= i < files.len() ==> plan_is(
                #[trigger] plans[i],
                marker,
                files[i].username@,
                FileContents::Text(written[i]),
                assigns,
                dry_run,
            ),
    ensures
        pass_stats(plans, outcomes, n).keys_added == 0,
        pass_stats(plans, outcomes, n).keys_removed == 0,
        pass_stats(plans, outcomes, n).files_updated == 0,
    decreases n,
{
    if n > 0 {
        let i = n - 1;
        lemma_second_pass_adds_nothing(marker, files, written, assigns, dry_run, plans, outcomes, (n - 1) as nat);
        assert(written[i]@ == file_content(marker, target_keys(assigns, files[i].username@)));
        assert(plan_is(plans[i], marker, files[i].username@, FileContents::Text(written[i]), assigns, dry_run));
        lemma_second_pass_changes_nothing(
            plans[i],
            marker,
            files[i].username@,
            written[i],
            assigns,
            dry_run,
        );
    }
}

/// A dry pass reports the statistics of a real pass over the same files and
/// contents whose writes all succeed; it writes nothing.
pub proof fn lemma_dry_pass_same_stats(
    marker: Seq<char>,
    files: Seq<AuthorizedKeysFile>,
    contents: Seq<FileContents>,
    assigns: Seq<KeyAssignment>,
    dry: Seq<FilePlan>,
    dry_outcomes: Seq<WriteOutcome>,
    applied: Seq<FilePlan>,
    applied_outcomes: Seq<WriteOutcome>,
    n: nat,
)
    requires
        n <= files.len(),
        contents.len() == files.len(),
        dry.len() == files.len(),
        applied.len() == files.len(),
        dry_outcomes.len() == files.len(),
        applied_outcomes.len() == files.len(),
        forall|i: int|
            0 <= i < files.len() ==> plan_is(
                #[trigger] dry[i],
                marker,
                files[i].username@,
                contents[i],
                assigns,
                true,
            ),
        forall|i: int|
            0 <= i < files.len() ==> plan_is(
                #[trigger] applied[i],
                marker,
                files[i].username@,
                contents[i],
                assigns,
                false,
            ),
        forall|i: int| 0 <= i < files.len() ==> !((#[trigger] dry_outcomes[i]) is Failed),
        forall|i: int| 0 <= i < files.len() ==> !((#[trigger] applied_outcomes[i]) is Failed),
    ensures
        pass_stats(dry, dry_outcomes, n) == pass_stats(applied, applied_outcomes, n),
        forall|i: int| 0 <= i < n ==> (#[trigger] dry[i]).content is None,
    decreases n,
{
    if n > 0 {
        let i = n - 1;
        lemma_dry_pass_same_stats(
            marker,
            files,
            contents,
            assigns,
            dry,
            dry_outcomes,
            applied,
            applied_outcomes,
            (n - 1) as nat,
        );
        assert(plan_is(dry[i], marker, files[i].username@, contents[i], assigns, true));
        assert(plan_is(applied[i], marker, files[i].username@, contents[i], assigns, false));
        assert(!(dry_outcomes[i] is Failed));
        assert(!(applied_outcomes[i] is Failed));
    }
}

} // verus!
