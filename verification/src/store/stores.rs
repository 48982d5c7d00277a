//! The stores that keep snapshots: one that keeps nothing, and one that keeps
//! each snapshot in a file.
//!
//! What is here decides. Opening, writing, and reading files is left to the
//! program around the library, which performs each step it is told and reports
//! what came of it.

use std::path::PathBuf;

use vstd::prelude::*;
use vstd::string::StringExecFns;

use crate::collections::ordered_map;
use crate::error::{ErrorView, StreamsClientError};
use crate::store::container;
use crate::store::key;
use crate::store::key::{KeyView, SnapshotKey};
use crate::store::snapshot;
use crate::store::snapshot::TaskSnapshot;

verus! {

/// A path of the file system.
#[verifier::external_type_specification]
#[verifier::external_body]
pub struct ExPathBuf(std::path::PathBuf);

/// The pieces of a path: its text, cut at the separators and behind a leading
/// drive letter, with empty pieces left out.
pub uninterp spec fn components(path: PathBuf) -> Seq<Seq<char>>;

/// `std::path::Path::join` adjoins a name to a directory. A name of the
/// characters that [`key::kept`] admits holds no separator and no drive letter,
/// so it is relative, and the text of the path it makes is that of the directory,
/// a separator where one is needed, and the name. Cut into pieces, that is the
/// directory and then the name.
#[verifier::external_body]
fn join(directory: &PathBuf, name: &str) -> (path: PathBuf)
    requires
        key::is_plain(name@),
        name@.len() > 2,
    ensures
        components(path) == components(*directory).push(name@),
{
    directory.join(name)
}

/// `<PathBuf as Clone>::clone` makes an equal path.
pub assume_specification[ <std::path::PathBuf as std::clone::Clone>::clone ](
    p: &std::path::PathBuf,
) -> (copy: std::path::PathBuf)
    ensures
        components(copy) == components(*p),
;

/// A snapshot store that keeps nothing.
///
/// Every save is discarded and every load is empty. Use it when a barrier only
/// has to align and commit, and no cut has to be restorable.
#[derive(Debug, Clone, Copy)]
pub struct NoSnapshotStore;

impl Default for NoSnapshotStore {
    fn default() -> (store: Self)
        ensures
            store == NoSnapshotStore,
    {
        NoSnapshotStore
    }
}

impl NoSnapshotStore {
    /// Discards a snapshot.
    pub fn save(&self, _key: &SnapshotKey, _snapshot: &TaskSnapshot) -> (saved: Result<
        (),
        StreamsClientError,
    >)
        ensures
            saved is Ok,
    {
        Ok(())
    }

    /// Finds no snapshot.
    pub fn load(&self, _key: &SnapshotKey) -> (loaded: Result<
        Option<TaskSnapshot>,
        StreamsClientError,
    >)
        ensures
            loaded matches Ok(None),
    {
        Ok(None)
    }
}

/// Keeps each snapshot in one file under a directory.
///
/// A save writes a temporary file in the same directory and renames it over the
/// target, so a crash in the middle of a save leaves the previous snapshot
/// whole. The directory is created on the first save.
#[derive(Debug)]
pub struct FileSnapshotStore {
    directory: PathBuf,
}

impl Clone for FileSnapshotStore {
    fn clone(&self) -> (copy: Self)
        ensures
            components(copy@) == components(self@),
    {
        FileSnapshotStore { directory: self.directory.clone() }
    }
}

impl View for FileSnapshotStore {
    type V = PathBuf;

    /// The directory that the store is rooted at.
    closed spec fn view(&self) -> PathBuf {
        self.directory
    }
}

impl FileSnapshotStore {
    /// Creates a store rooted at `directory`.
    #[must_use]
    pub fn new(directory: PathBuf) -> (store: Self)
        ensures
            store@ == directory,
    {
        FileSnapshotStore { directory }
    }

    /// The directory that the store is rooted at.
    #[must_use]
    pub fn directory(&self) -> (directory: &PathBuf)
        ensures
            *directory == self@,
    {
        &self.directory
    }

    /// The file that holds one key's snapshot.
    #[must_use]
    pub fn file(&self, key: &SnapshotKey) -> (file: PathBuf)
        ensures
            components(file) == file_of(self@, key@),
    {
        proof {
            key::law_file_name_is_plain(key@);
        }
        let name = key.file_name();
        join(&self.directory, name.as_str())
    }

    /// The file that a save of one key's snapshot writes before it is whole.
    #[must_use]
    pub fn temporary(&self, key: &SnapshotKey) -> (file: PathBuf)
        ensures
            components(file) == temporary_of(self@, key@),
    {
        let mut name = key.file_name();
        name.append(".tmp");
        proof {
            lemma_temporary_name_is_plain(key@);
        }
        join(&self.directory, name.as_str())
    }
}

/// The name of the file that a save writes before it is whole.
pub open spec fn temporary_name(key: KeyView) -> Seq<char> {
    key.file_name_of() + ".tmp"@
}

proof fn lemma_temporary_name_is_plain(key: KeyView)
    ensures
        key::is_plain(temporary_name(key)),
        temporary_name(key).len() > 2,
{
    reveal_strlit(".tmp");
    key::law_file_name_is_plain(key);
    let name = temporary_name(key);
    assert forall|i: int| 0 <= i < name.len() implies key::kept(#[trigger] name[i]) by {
        if i < key.file_name_of().len() {
            assert(name[i] == key.file_name_of()[i]);
        } else {
            assert(name[i] == ".tmp"@[i - key.file_name_of().len()]);
        }
    }
}

/// **A file lies in the directory of its store.** Neither the file of a key nor
/// its temporary file leaves the directory, whatever the group and the task are
/// called, and a temporary file is never the file of a key.
pub proof fn law_files_stay_in_their_directory(directory: PathBuf, a: KeyView, b: KeyView)
    ensures
        components(directory).push(a.file_name_of()).drop_last() == components(directory),
        components(directory).push(temporary_name(a)).drop_last() == components(directory),
        components(directory).push(a.file_name_of()) != components(directory).push(
            temporary_name(b),
        ),
        key::is_plain(a.file_name_of()),
        key::is_plain(temporary_name(a)),
{
    reveal_strlit(".tmp");
    reveal_strlit(".snapshot");
    key::law_file_name_is_plain(a);
    lemma_temporary_name_is_plain(a);
    assert(components(directory).push(a.file_name_of()).drop_last() =~= components(directory));
    assert(components(directory).push(temporary_name(a)).drop_last() =~= components(directory));
    let x = a.file_name_of();
    let y = temporary_name(b);
    assert(x.last() == ".snapshot"@[8]);
    assert(y.last() == ".tmp"@[3]);
    assert(components(directory).push(x).last() == x);
    assert(components(directory).push(y).last() == y);
}

/// What to do next in a save.
#[derive(Debug, Clone, Copy, PartialEq, Eq, Structural)]
pub enum WriteStep {
    /// Create the directory, with every directory above it.
    CreateDirectory,
    /// Write the snapshot to the temporary file.
    WriteTemporary,
    /// Rename the temporary file over the target.
    Rename,
    /// Remove the temporary file.
    RemoveTemporary,
    /// Nothing is left to do.
    Done,
}

/// A save under way.
///
/// The failure of a step ends the save. When the rename fails, the temporary
/// file is removed first, and whether that works does not matter.
#[derive(Debug)]
pub struct AtomicWrite<E> {
    step: WriteStep,
    failure: Option<E>,
}

/// How far a save is, and what failed in it.
pub struct WriteView<E> {
    pub step: WriteStep,
    pub failure: Option<E>,
}

impl<E> View for AtomicWrite<E> {
    type V = WriteView<E>;

    closed spec fn view(&self) -> WriteView<E> {
        WriteView { step: self.step, failure: self.failure }
    }
}

impl<E> WriteView<E> {
    /// How far a save is before its first step.
    pub open spec fn initial() -> Self {
        WriteView { step: WriteStep::CreateDirectory, failure: None }
    }

    /// How far a save is once the step it was at has come out.
    pub open spec fn next(self, outcome: Result<(), E>) -> Self {
        match self.step {
            WriteStep::CreateDirectory => match outcome {
                Ok(_) => WriteView { step: WriteStep::WriteTemporary, failure: None },
                Err(error) => WriteView { step: WriteStep::Done, failure: Some(error) },
            },
            WriteStep::WriteTemporary => match outcome {
                Ok(_) => WriteView { step: WriteStep::Rename, failure: None },
                Err(error) => WriteView { step: WriteStep::Done, failure: Some(error) },
            },
            WriteStep::Rename => match outcome {
                Ok(_) => WriteView { step: WriteStep::Done, failure: None },
                Err(error) => WriteView { step: WriteStep::RemoveTemporary, failure: Some(error) },
            },
            WriteStep::RemoveTemporary => WriteView { step: WriteStep::Done, ..self },
            WriteStep::Done => self,
        }
    }
}

impl<E> AtomicWrite<E> {
    /// A save before its first step.
    #[must_use]
    pub fn start() -> (write: Self)
        ensures
            write@ == WriteView::<E>::initial(),
    {
        AtomicWrite { step: WriteStep::CreateDirectory, failure: None }
    }

    /// What to do next.
    #[must_use]
    pub fn step(&self) -> (step: WriteStep)
        ensures
            step == self@.step,
    {
        self.step
    }

    /// Takes in what came of the step that was next.
    #[must_use]
    pub fn advance(self, outcome: Result<(), E>) -> (write: Self)
        ensures
            write@ == self@.next(outcome),
    {
        match self.step {
            WriteStep::CreateDirectory => match outcome {
                Ok(()) => AtomicWrite { step: WriteStep::WriteTemporary, failure: None },
                Err(error) => AtomicWrite { step: WriteStep::Done, failure: Some(error) },
            },
            WriteStep::WriteTemporary => match outcome {
                Ok(()) => AtomicWrite { step: WriteStep::Rename, failure: None },
                Err(error) => AtomicWrite { step: WriteStep::Done, failure: Some(error) },
            },
            WriteStep::Rename => match outcome {
                Ok(()) => AtomicWrite { step: WriteStep::Done, failure: None },
                Err(error) => AtomicWrite { step: WriteStep::RemoveTemporary, failure: Some(error) },
            },
            WriteStep::RemoveTemporary => AtomicWrite {
                step: WriteStep::Done,
                failure: self.failure,
            },
            WriteStep::Done => self,
        }
    }

    /// What came of the save.
    ///
    /// # Errors
    ///
    /// Returns the failure that ended the save.
    pub fn finish(self) -> (outcome: Result<(), E>)
        ensures
            match self@.failure {
                None => outcome is Ok,
                Some(error) => outcome == Err::<(), E>(error),
            },
    {
        match self.failure {
            None => Ok(()),
            Some(error) => Err(error),
        }
    }
}

/// What the files hold, each by the components of its path.
pub type Disk = Map<Seq<Seq<char>>, Seq<u8>>;

/// What the file at a path holds, if there is one.
pub open spec fn holds(disk: Disk, path: Seq<Seq<char>>) -> Option<Seq<u8>> {
    if disk.dom().contains(path) {
        Some(disk[path])
    } else {
        None
    }
}

/// The path of the file of a key, in a store that is rooted at a directory.
pub open spec fn file_of(directory: PathBuf, key: KeyView) -> Seq<Seq<char>> {
    components(directory).push(key.file_name_of())
}

/// The path of the temporary file of a key, in a store that is rooted at a
/// directory.
pub open spec fn temporary_of(directory: PathBuf, key: KeyView) -> Seq<Seq<char>> {
    components(directory).push(temporary_name(key))
}

/// Whether a step of a save that writes `data` can leave the files so. A failed
/// write may leave anything in the temporary file. A rename replaces the target
/// as a whole or not at all. No step touches another file.
pub open spec fn can_leave(
    step: WriteStep,
    succeeded: bool,
    data: Seq<u8>,
    target: Seq<Seq<char>>,
    temporary: Seq<Seq<char>>,
    before: Disk,
    after: Disk,
) -> bool {
    &&& forall|path: Seq<Seq<char>>|
        path != target && path != temporary ==> #[trigger] holds(after, path) == holds(before, path)
    &&& match step {
        WriteStep::CreateDirectory => after == before,
        WriteStep::WriteTemporary => {
            &&& holds(after, target) == holds(before, target)
            &&& succeeded ==> holds(after, temporary) == Some(data)
        },
        WriteStep::Rename => if succeeded {
            holds(after, target) == holds(before, temporary) && holds(after, temporary) is None
        } else {
            after == before
        },
        WriteStep::RemoveTemporary => {
            &&& holds(after, target) == holds(before, target)
            &&& succeeded ==> holds(after, temporary) is None
        },
        WriteStep::Done => after == before,
    }
}

/// What holds of the two files of a save that writes `data` over a target that
/// held `previous`, while the save is under way.
pub open spec fn save_is_sound<E>(
    write: WriteView<E>,
    previous: Option<Seq<u8>>,
    data: Seq<u8>,
    target: Option<Seq<u8>>,
    temporary: Option<Seq<u8>>,
) -> bool {
    match write.step {
        WriteStep::CreateDirectory => target == previous && write.failure is None,
        WriteStep::WriteTemporary => target == previous && write.failure is None,
        WriteStep::Rename => target == previous && temporary == Some(data)
            && write.failure is None,
        WriteStep::RemoveTemporary => target == previous && write.failure is Some,
        WriteStep::Done => if write.failure is Some {
            target == previous
        } else {
            target == Some(data) && temporary is None
        },
    }
}

/// How a save that writes `data` ran: what came of each step, how far the save
/// was before and after it, and what the files held.
pub open spec fn save_ran<E>(
    outcomes: Seq<Result<(), E>>,
    writes: Seq<WriteView<E>>,
    disks: Seq<Disk>,
    target: Seq<Seq<char>>,
    temporary: Seq<Seq<char>>,
    data: Seq<u8>,
) -> bool {
    &&& writes.len() == outcomes.len() + 1
    &&& disks.len() == outcomes.len() + 1
    &&& writes[0] == WriteView::<E>::initial()
    &&& forall|i: int|
        0 <= i < outcomes.len() ==> writes[i + 1] == writes[i].next(#[trigger] outcomes[i])
    &&& forall|i: int|
        0 <= i < outcomes.len() ==> can_leave(
            writes[i].step,
            (#[trigger] outcomes[i]) is Ok,
            data,
            target,
            temporary,
            disks[i],
            disks[i + 1],
        )
}

/// **A save is atomic.** From its first step to its last, whatever step fails
/// and wherever it stops, the target holds what it held before or the whole new
/// snapshot, and no file but the target and the temporary one changes. A save
/// that ends without a failure leaves the new snapshot and no temporary file,
/// and a save that ends with one leaves what was there.
pub proof fn law_save_is_atomic<E>(
    outcomes: Seq<Result<(), E>>,
    writes: Seq<WriteView<E>>,
    disks: Seq<Disk>,
    target: Seq<Seq<char>>,
    temporary: Seq<Seq<char>>,
    data: Seq<u8>,
)
    requires
        save_ran(outcomes, writes, disks, target, temporary, data),
    ensures
        holds(disks.last(), target) == holds(disks[0], target) || holds(disks.last(), target)
            == Some(data),
        writes.last().step == WriteStep::Done && writes.last().failure is None ==> holds(
            disks.last(),
            target,
        ) == Some(data) && holds(disks.last(), temporary) is None,
        writes.last().failure is Some ==> holds(disks.last(), target) == holds(disks[0], target),
        forall|path: Seq<Seq<char>>|
            path != target && path != temporary ==> #[trigger] holds(disks.last(), path) == holds(
                disks[0],
                path,
            ),
        save_is_sound(
            writes.last(),
            holds(disks[0], target),
            data,
            holds(disks.last(), target),
            holds(disks.last(), temporary),
        ),
    decreases outcomes.len(),
{
    if outcomes.len() > 0 {
        let n = outcomes.len() - 1;
        let heads = outcomes.drop_last();
        assert forall|i: int| 0 <= i < heads.len() implies writes.drop_last()[i + 1]
            == writes.drop_last()[i].next(#[trigger] heads[i]) by {
            assert(heads[i] == outcomes[i]);
        }
        assert forall|i: int| 0 <= i < heads.len() implies can_leave(
            writes.drop_last()[i].step,
            (#[trigger] heads[i]) is Ok,
            data,
            target,
            temporary,
            disks.drop_last()[i],
            disks.drop_last()[i + 1],
        ) by {
            assert(heads[i] == outcomes[i]);
        }
        law_save_is_atomic(heads, writes.drop_last(), disks.drop_last(), target, temporary, data);
        let before = disks[n];
        let after = disks[n + 1];
        assert(outcomes[n] == outcomes.last());
        assert(can_leave(
            writes[n].step,
            outcomes[n] is Ok,
            data,
            target,
            temporary,
            before,
            after,
        ));
        assert forall|path: Seq<Seq<char>>| path != target && path != temporary implies #[trigger] holds(
            after,
            path,
        ) == holds(disks[0], path) by {
            assert(holds(before, path) == holds(disks[0], path));
        }
    }
}

/// **A save ends.** It takes at most four steps.
pub proof fn law_save_ends<E>(
    a: Result<(), E>,
    b: Result<(), E>,
    c: Result<(), E>,
    d: Result<(), E>,
)
    ensures
        WriteView::<E>::initial().next(a).next(b).next(c).next(d).step == WriteStep::Done,
{
}

/// What came of reading a snapshot file.
#[derive(Debug)]
pub enum FileRead {
    /// The bytes of the file.
    Data(Vec<u8>),
    /// There is no such file.
    NotFound,
    /// The file cannot be read, for the reason given.
    Failed(String),
}

/// What came of reading a snapshot file, with the bytes and the reason taken by
/// their views.
pub enum FileReadView {
    Data(Seq<u8>),
    NotFound,
    Failed(Seq<char>),
}

impl View for FileRead {
    type V = FileReadView;

    open spec fn view(&self) -> FileReadView {
        match self {
            FileRead::Data(data) => FileReadView::Data(data@),
            FileRead::NotFound => FileReadView::NotFound,
            FileRead::Failed(reason) => FileReadView::Failed(reason@),
        }
    }
}

/// What a load answers, given what came of reading the file.
pub open spec fn load_answer(task: Seq<char>, read: FileReadView) -> Result<
    Option<Map<Seq<char>, Seq<u8>>>,
    ErrorView,
> {
    match read {
        FileReadView::Data(data) => match container::parse_container(data) {
            Ok(entries) => Ok(Some(ordered_map::map_of(entries))),
            Err(fault) => Err(container::fault_error(fault)),
        },
        FileReadView::NotFound => Ok(None),
        FileReadView::Failed(reason) => Err(
            ErrorView::Snapshot("cannot load task "@ + task + " state: "@ + reason),
        ),
    }
}

/// The snapshot that a file holds, or `None` when there is no file.
///
/// # Errors
///
/// Returns [`StreamsClientError::Snapshot`] when the file cannot be read, or
/// when its bytes are malformed.
pub fn loaded(key: &SnapshotKey, read: FileRead) -> (snapshot: Result<
    Option<TaskSnapshot>,
    StreamsClientError,
>)
    ensures
        match load_answer(key@.task, read@) {
            Ok(Some(expected)) => snapshot matches Ok(Some(snapshot)) && snapshot::snapshot_of(
                snapshot,
            ) == expected,
            Ok(None) => snapshot matches Ok(None),
            Err(expected) => snapshot matches Err(error) && error@ == expected,
        },
{
    match read {
        FileRead::Data(data) => match snapshot::decode_snapshot(data.as_slice()) {
            Ok(snapshot) => Ok(Some(snapshot)),
            Err(error) => Err(error),
        },
        FileRead::NotFound => Ok(None),
        FileRead::Failed(reason) => {
            let mut message = String::from_str("cannot load task ");
            message.append(key.task.as_str());
            message.append(" state: ");
            message.append(reason.as_str());
            Err(StreamsClientError::Snapshot(message))
        },
    }
}

/// What a save answers, given the reason for which writing the file failed, if
/// it did.
///
/// # Errors
///
/// Returns [`StreamsClientError::Snapshot`] when the file could not be written.
pub fn saved(key: &SnapshotKey, written: Result<(), String>) -> (saved: Result<
    (),
    StreamsClientError,
>)
    ensures
        match written {
            Ok(_) => saved is Ok,
            Err(reason) => saved matches Err(error) && error@ == ErrorView::Snapshot(
                "cannot save task "@ + key@.task + " state: "@ + reason@,
            ),
        },
{
    match written {
        Ok(()) => Ok(()),
        Err(reason) => {
            let mut message = String::from_str("cannot save task ");
            message.append(key.task.as_str());
            message.append(" state: ");
            message.append(reason.as_str());
            Err(StreamsClientError::Snapshot(message))
        },
    }
}

/// **A load gives back what was saved.** A file that holds the container of a
/// snapshot loads as that snapshot.
pub proof fn law_load_gives_back_a_save(task: Seq<char>, snapshot: Map<Seq<char>, Seq<u8>>)
    requires
        snapshot.dom().finite(),
        container::entries_fit(container::listing(snapshot)),
    ensures
        load_answer(task, FileReadView::Data(container::container_of(snapshot))) == Ok::<
            Option<Map<Seq<char>, Seq<u8>>>,
            ErrorView,
        >(Some(snapshot)),
{
    container::law_snapshot_round_trips(snapshot);
}

/// What reading a file gives.
pub open spec fn read_of(disk: Disk, path: Seq<Seq<char>>) -> FileReadView {
    match holds(disk, path) {
        Some(data) => FileReadView::Data(data),
        None => FileReadView::NotFound,
    }
}

/// What a load of a key answers, in a store that is rooted at a directory.
pub open spec fn load_of(disk: Disk, directory: PathBuf, key: KeyView) -> Result<
    Option<Map<Seq<char>, Seq<u8>>>,
    ErrorView,
> {
    load_answer(key.task, read_of(disk, file_of(directory, key)))
}

/// **A load gives back the last save.** When a save of a snapshot ended without
/// a failure, and nothing wrote the file of the key since, a load of the key
/// gives that snapshot, whatever was saved under the key before.
pub proof fn law_load_gives_back_the_last_save<E>(
    directory: PathBuf,
    key: KeyView,
    snapshot: Map<Seq<char>, Seq<u8>>,
    outcomes: Seq<Result<(), E>>,
    writes: Seq<WriteView<E>>,
    disks: Seq<Disk>,
    later: Disk,
)
    requires
        snapshot.dom().finite(),
        container::entries_fit(container::listing(snapshot)),
        save_ran(
            outcomes,
            writes,
            disks,
            file_of(directory, key),
            temporary_of(directory, key),
            container::container_of(snapshot),
        ),
        writes.last().step == WriteStep::Done,
        writes.last().failure is None,
        holds(later, file_of(directory, key)) == holds(disks.last(), file_of(directory, key)),
    ensures
        load_of(later, directory, key) == Ok::<Option<Map<Seq<char>, Seq<u8>>>, ErrorView>(
            Some(snapshot),
        ),
{
    law_save_is_atomic(
        outcomes,
        writes,
        disks,
        file_of(directory, key),
        temporary_of(directory, key),
        container::container_of(snapshot),
    );
    law_load_gives_back_a_save(key.task, snapshot);
}

/// **A save touches no other key.** Whatever comes of a save under one key, and
/// wherever it stops, a load of a key with another file answers as before. When
/// the save failed, so does a load of the key itself.
pub proof fn law_save_touches_no_other_key<E>(
    directory: PathBuf,
    a: KeyView,
    b: KeyView,
    data: Seq<u8>,
    outcomes: Seq<Result<(), E>>,
    writes: Seq<WriteView<E>>,
    disks: Seq<Disk>,
)
    requires
        file_of(directory, a) != file_of(directory, b),
        save_ran(
            outcomes,
            writes,
            disks,
            file_of(directory, a),
            temporary_of(directory, a),
            data,
        ),
    ensures
        load_of(disks.last(), directory, b) == load_of(disks[0], directory, b),
        writes.last().failure is Some ==> load_of(disks.last(), directory, a) == load_of(
            disks[0],
            directory,
            a,
        ),
{
    law_files_stay_in_their_directory(directory, b, a);
    law_save_is_atomic(
        outcomes,
        writes,
        disks,
        file_of(directory, a),
        temporary_of(directory, a),
        data,
    );
    assert(holds(disks.last(), file_of(directory, b)) == holds(disks[0], file_of(directory, b)));
}

} // verus!
