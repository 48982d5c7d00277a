//! The names of files, and how a save goes, written out.

use std::path::PathBuf;

use vstd::prelude::*;

use crate::store::key;
use crate::store::key::{KeyView, SnapshotKey};
use crate::store::stores;
use crate::store::stores::{WriteStep, WriteView};
use crate::text;

verus! {

/// Whether a character is an ASCII letter or digit, a dot, an underscore, or a
/// dash.
pub open spec fn portable(c: char) -> bool {
    ||| c == 'A' || c == 'B' || c == 'C' || c == 'D' || c == 'E' || c == 'F' || c == 'G'
    ||| c == 'H' || c == 'I' || c == 'J' || c == 'K' || c == 'L' || c == 'M' || c == 'N'
    ||| c == 'O' || c == 'P' || c == 'Q' || c == 'R' || c == 'S' || c == 'T' || c == 'U'
    ||| c == 'V' || c == 'W' || c == 'X' || c == 'Y' || c == 'Z'
    ||| c == 'a' || c == 'b' || c == 'c' || c == 'd' || c == 'e' || c == 'f' || c == 'g'
    ||| c == 'h' || c == 'i' || c == 'j' || c == 'k' || c == 'l' || c == 'm' || c == 'n'
    ||| c == 'o' || c == 'p' || c == 'q' || c == 'r' || c == 's' || c == 't' || c == 'u'
    ||| c == 'v' || c == 'w' || c == 'x' || c == 'y' || c == 'z'
    ||| c == '0' || c == '1' || c == '2' || c == '3' || c == '4'
    ||| c == '5' || c == '6' || c == '7' || c == '8' || c == '9'
    ||| c == '.' || c == '_' || c == '-'
}

/// Whether a name holds only characters of `A-Z`, `a-z`, `0-9`, `.`, `_`, and
/// `-`.
pub open spec fn all_portable(name: Seq<char>) -> bool {
    forall|i: int| 0 <= i < name.len() ==> portable(#[trigger] name[i])
}

/// **A file name keeps `A-Z`, `a-z`, `0-9`, `.`, `_`, and `-`, and makes an
/// underscore of every other character.** It changes no length and no other
/// place.
pub proof fn law_names_keep_portable_characters(name: Seq<char>, i: int)
    requires
        0 <= i < name.len(),
    ensures
        key::sanitized(name).len() == name.len(),
        portable(name[i]) ==> key::sanitized(name)[i] == name[i],
        !portable(name[i]) ==> key::sanitized(name)[i] == '_',
        key::kept(name[i]) <==> portable(name[i]),
{
    lemma_portable(name[i]);
}

proof fn lemma_portable(c: char)
    ensures
        key::kept(c) <==> portable(c),
{
}

proof fn lemma_portable_names_stay(name: Seq<char>)
    requires
        all_portable(name),
    ensures
        key::sanitized(name) == name,
{
    assert forall|i: int| 0 <= i < name.len() implies key::sanitized(name)[i] == name[i] by {
        assert(portable(name[i]));
        law_names_keep_portable_characters(name, i);
    }
    assert(key::sanitized(name) =~= name);
}

/// **A file is named after its group, its task, and its epoch.** Where the group
/// and the task hold only characters of `A-Z`, `a-z`, `0-9`, `.`, `_`, and `-`,
/// the name holds them as they are.
pub proof fn law_file_is_named_after_its_key(group: Seq<char>, task: Seq<char>, epoch: i64)
    requires
        forall|i: int|
            0 <= i < group.len() ==> {
                let c = #[trigger] group[i];
                'A' <= c <= 'Z' || 'a' <= c <= 'z' || '0' <= c <= '9' || c == '.' || c == '_' || c
                    == '-'
            },
        forall|i: int|
            0 <= i < task.len() ==> {
                let c = #[trigger] task[i];
                'A' <= c <= 'Z' || 'a' <= c <= 'z' || '0' <= c <= '9' || c == '.' || c == '_' || c
                    == '-'
            },
    ensures
        (KeyView { task, group, epoch }).file_name_of() == group + "-"@ + task + "-epoch-"@
            + text::decimal(epoch as int) + ".snapshot"@,
        stores::temporary_name(KeyView { task, group, epoch }) == group + "-"@ + task + "-epoch-"@
            + text::decimal(epoch as int) + ".snapshot"@ + ".tmp"@,
{
    assert forall|i: int| 0 <= i < group.len() implies portable(#[trigger] group[i]) by {
        lemma_portable(group[i]);
    }
    assert forall|i: int| 0 <= i < task.len() implies portable(#[trigger] task[i]) by {
        lemma_portable(task[i]);
    }
    lemma_portable_names_stay(group);
    lemma_portable_names_stay(task);
}

/// **Every file name is made of the same parts**, whatever the group and the
/// task are called: what is kept of the group, a dash, what is kept of the task,
/// the epoch, and the suffix.
pub proof fn law_file_name_has_its_parts(group: Seq<char>, task: Seq<char>, epoch: i64)
    ensures
        (KeyView { task, group, epoch }).file_name_of() == key::sanitized(group) + "-"@
            + key::sanitized(task) + "-epoch-"@ + text::decimal(epoch as int) + ".snapshot"@,
        stores::temporary_name(KeyView { task, group, epoch }) == key::sanitized(group) + "-"@
            + key::sanitized(task) + "-epoch-"@ + text::decimal(epoch as int) + ".snapshot"@
            + ".tmp"@,
{
}

/// **Groups that a file name keeps have files of their own**, and so do tasks and
/// epochs: two keys that differ in one of them, which holds only characters of
/// `A-Z`, `a-z`, `0-9`, `.`, `_`, and `-`, have different file names.
pub proof fn law_keys_that_differ_have_different_files(
    a: Seq<char>,
    b: Seq<char>,
    other: Seq<char>,
    epoch: i64,
    later: i64,
)
    requires
        all_portable(a),
        all_portable(b),
    ensures
        a != b ==> (KeyView { task: other, group: a, epoch }).file_name_of() != (KeyView {
            task: other,
            group: b,
            epoch,
        }).file_name_of(),
        a != b ==> (KeyView { task: a, group: other, epoch }).file_name_of() != (KeyView {
            task: b,
            group: other,
            epoch,
        }).file_name_of(),
        epoch != later ==> (KeyView { task: a, group: other, epoch }).file_name_of() != (KeyView {
            task: a,
            group: other,
            epoch: later,
        }).file_name_of(),
{
    lemma_portable_names_stay(a);
    lemma_portable_names_stay(b);
    let g1 = KeyView { task: other, group: a, epoch };
    let g2 = KeyView { task: other, group: b, epoch };
    key::law_file_names_keep_groups_apart(g1, g2);
    let t1 = KeyView { task: a, group: other, epoch };
    let t2 = KeyView { task: b, group: other, epoch };
    key::law_file_names_keep_epochs_apart(t1, t2);
    if t1.file_name_of() == t2.file_name_of() {
        let front = key::sanitized(other) + "-"@;
        let x = key::stem(other, a);
        let y = key::stem(other, b);
        assert(x.skip(front.len() as int) =~= a);
        assert(y.skip(front.len() as int) =~= b);
    }
    key::law_file_names_keep_epochs_apart(t1, KeyView { task: a, group: other, epoch: later });
}

/// **The file of a key and its temporary file lie directly in the directory.**
pub proof fn law_files_lie_in_the_directory(directory: PathBuf, key: KeyView)
    ensures
        stores::file_of(directory, key) == stores::components(directory).push(key.file_name_of()),
        stores::temporary_of(directory, key) == stores::components(directory).push(
            key.file_name_of() + ".tmp"@,
        ),
{
}

/// **A key says what its fields hold.**
pub proof fn law_keys_say_what_they_hold(key: SnapshotKey)
    ensures
        key@.task == key.task@,
        key@.group == key.group@,
        key@.epoch == key.epoch,
{
}

/// **A save goes step by step.** The directory is created, the temporary file is
/// written, and then it is renamed. A step that fails ends the save with its
/// failure. Only after a failed rename is the temporary file removed, and what
/// comes of that changes nothing.
pub proof fn law_save_goes_step_by_step<E>(write: WriteView<E>, error: E, last: Result<(), E>)
    ensures
        WriteView::<E>::initial().step == WriteStep::CreateDirectory,
        WriteView::<E>::initial().failure is None,
        write.step == WriteStep::CreateDirectory ==> write.next(Ok(())).step
            == WriteStep::WriteTemporary && write.next(Ok(())).failure is None,
        write.step == WriteStep::WriteTemporary ==> write.next(Ok(())).step == WriteStep::Rename
            && write.next(Ok(())).failure is None,
        write.step == WriteStep::Rename ==> write.next(Ok(())).step == WriteStep::Done
            && write.next(Ok(())).failure is None,
        write.step == WriteStep::CreateDirectory || write.step == WriteStep::WriteTemporary
            ==> write.next(Err(error)).step == WriteStep::Done && write.next(Err(error)).failure
            == Some(error),
        write.step == WriteStep::Rename ==> write.next(Err(error)).step
            == WriteStep::RemoveTemporary && write.next(Err(error)).failure == Some(error),
        write.step == WriteStep::RemoveTemporary ==> write.next(last).step == WriteStep::Done
            && write.next(last).failure == write.failure,
        write.step == WriteStep::Done ==> write.next(last) == write,
{
}

} // verus!
