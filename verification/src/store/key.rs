//! The name that a stored snapshot goes by.

use vstd::prelude::*;
use vstd::string::StringExecFns;

use crate::text;

verus! {

/// Names one stored snapshot: the task, the barrier group, and the epoch.
///
/// The cut identity lives here and not in the container, so two barrier groups
/// and two epochs never share a snapshot. Where snapshots are kept in files, two
/// groups are told apart by what a file name keeps of them.
#[derive(Debug, PartialEq, Eq, Hash, PartialOrd, Ord)]
pub struct SnapshotKey {
    /// The task the snapshot belongs to, as `<subtopology>-<partition>`.
    pub task: String,
    /// The barrier group whose cut the task aligned on.
    pub group: String,
    /// The epoch of that cut.
    pub epoch: i64,
}

/// What a snapshot key says.
pub struct KeyView {
    pub task: Seq<char>,
    pub group: Seq<char>,
    pub epoch: i64,
}

impl View for SnapshotKey {
    type V = KeyView;

    open spec fn view(&self) -> KeyView {
        KeyView { task: self.task@, group: self.group@, epoch: self.epoch }
    }
}

impl Clone for SnapshotKey {
    fn clone(&self) -> (copy: Self)
        ensures
            copy@ == self@,
    {
        SnapshotKey { task: self.task.clone(), group: self.group.clone(), epoch: self.epoch }
    }
}

/// Whether a file name keeps a character as it is.
pub open spec fn kept(c: char) -> bool {
    ||| 'A' <= c <= 'Z'
    ||| 'a' <= c <= 'z'
    ||| '0' <= c <= '9'
    ||| c == '.'
    ||| c == '_'
    ||| c == '-'
}

/// What a file name makes of a character.
pub open spec fn sanitized_char(c: char) -> char {
    if kept(c) {
        c
    } else {
        '_'
    }
}

/// What a file name makes of a name.
pub open spec fn sanitized(name: Seq<char>) -> Seq<char> {
    Seq::new(name.len(), |i: int| sanitized_char(name[i]))
}

/// The part of a file name that the group and the task make up.
pub open spec fn stem(group: Seq<char>, task: Seq<char>) -> Seq<char> {
    sanitized(group) + "-"@ + sanitized(task)
}

impl KeyView {
    /// The file name that this key is given.
    pub open spec fn file_name_of(self) -> Seq<char> {
        stem(self.group, self.task) + "-epoch-"@ + text::decimal(self.epoch as int) + ".snapshot"@
    }
}

impl SnapshotKey {
    /// Builds a key for one task, group, and epoch.
    #[must_use]
    pub fn new(task: &str, group: &str, epoch: i64) -> (key: Self)
        ensures
            key@ == (KeyView { task: task@, group: group@, epoch }),
    {
        SnapshotKey { task: String::from_str(task), group: String::from_str(group), epoch }
    }

    /// The file name that a file store gives this key.
    ///
    /// Every character outside `A-Z`, `a-z`, `0-9`, `.`, `_`, and `-` becomes an
    /// underscore, so a group name or a task name can never escape the
    /// directory.
    #[must_use]
    pub fn file_name(&self) -> (name: String)
        ensures
            name@ == self@.file_name_of(),
    {
        let mut name = sanitize(self.group.as_str());
        name.append("-");
        let task = sanitize(self.task.as_str());
        name.append(task.as_str());
        name.append("-epoch-");
        text::push_decimal(&mut name, self.epoch);
        name.append(".snapshot");
        name
    }
}

fn sanitize(value: &str) -> (clean: String)
    ensures
        clean@ == sanitized(value@),
{
    let mut bytes: Vec<u8> = Vec::new();
    for c in iter: value.chars()
        invariant
            iter.seq() == value@,
            bytes@.len() == iter.index(),
            forall|i: int| 0 <= i < bytes@.len() ==> #[trigger] bytes@[i] < 128,
            forall|i: int|
                0 <= i < bytes@.len() ==> (#[trigger] bytes@[i]) as char == sanitized_char(
                    value@[i],
                ),
    {
        let keep: bool = ('A' <= c && c <= 'Z') || ('a' <= c && c <= 'z') || ('0' <= c && c <= '9')
            || c == '.' || c == '_' || c == '-';
        if keep {
            bytes.push(c as u8);
        } else {
            bytes.push('_' as u8);
        }
    }
    assert(text::ascii_chars(bytes@) =~= sanitized(value@));
    text::ascii_text(bytes)
}

/// **A file name stays in its directory.** It holds only characters that are
/// kept, so no separator, and it is never one of the names `.` and `..`.
pub proof fn law_file_name_is_plain(key: KeyView)
    ensures
        forall|i: int|
            0 <= i < key.file_name_of().len() ==> kept(#[trigger] key.file_name_of()[i]),
        key.file_name_of().len() > 2,
        !key.file_name_of().contains('/'),
        !key.file_name_of().contains('\\'),
        !key.file_name_of().contains(':'),
        !key.file_name_of().contains('\0'),
{
    reveal_strlit("-");
    reveal_strlit("-epoch-");
    reveal_strlit(".snapshot");
    text::lemma_decimal_shape(key.epoch as int);
    let name = key.file_name_of();
    let a = stem(key.group, key.task);
    let d = text::decimal(key.epoch as int);
    assert forall|i: int| 0 <= i < name.len() implies kept(#[trigger] name[i]) by {
        if i < a.len() {
            assert(name[i] == a[i]);
        } else if i < a.len() + 7 {
            assert(name[i] == "-epoch-"@[i - a.len()]);
        } else if i < a.len() + 7 + d.len() {
            assert(name[i] == d[i - a.len() - 7]);
            if i - a.len() - 7 > 0 {
                assert(text::is_digit(d[i - a.len() - 7]));
            }
        } else {
            assert(name[i] == ".snapshot"@[i - a.len() - 7 - d.len()]);
        }
    }
}

/// Names with different epochs differ, in the direction where the decimal of
/// the first is not longer.
proof fn lemma_same_tail(a: KeyView, b: KeyView)
    requires
        a.file_name_of() == b.file_name_of(),
        text::decimal(a.epoch as int).len() <= text::decimal(b.epoch as int).len(),
    ensures
        a.epoch == b.epoch,
        stem(a.group, a.task) == stem(b.group, b.task),
{
    reveal_strlit("-epoch-");
    reveal_strlit(".snapshot");
    let sa = stem(a.group, a.task);
    let sb = stem(b.group, b.task);
    let da = text::decimal(a.epoch as int);
    let db = text::decimal(b.epoch as int);
    let na = a.file_name_of();
    let nb = b.file_name_of();
    text::lemma_decimal_shape(a.epoch as int);
    text::lemma_decimal_shape(b.epoch as int);
    // Where the number of each name starts.
    let pa = sa.len() + 7;
    let pb = sb.len() + 7;
    assert(na.len() == pa + da.len() + 9);
    assert(nb.len() == pb + db.len() + 9);
    assert(pa + da.len() == pb + db.len());
    assert forall|i: int| 0 <= i < da.len() implies na[pa + i] == da[i] by {}
    assert forall|i: int| 0 <= i < db.len() implies nb[pb + i] == db[i] by {}
    assert(na[pa - 1] == "-epoch-"@[6]);
    assert(na[pa - 2] == "-epoch-"@[5]);
    assert(nb[pb - 1] == "-epoch-"@[6]);
    if da.len() < db.len() {
        let k = pa - 1 - pb;
        assert(nb[pb + k] == db[k]);
        if k > 0 {
            assert(text::is_digit(db[k]));
        } else {
            assert(nb[pb - 1] == na[pa - 2]);
        }
        assert(false);
    }
    assert(da =~= db) by {
        assert forall|i: int| 0 <= i < da.len() implies da[i] == db[i] by {
            assert(na[pa + i] == nb[pb + i]);
        }
    }
    text::lemma_decimal_injective(a.epoch as int, b.epoch as int);
    assert(sa =~= na.take(sa.len() as int));
    assert(sb =~= nb.take(sb.len() as int));
}

/// **Epochs never share a file.** Two keys have the same file name exactly when
/// they have the same epoch and their groups and tasks have the same stem.
pub proof fn law_file_names_keep_epochs_apart(a: KeyView, b: KeyView)
    ensures
        a.file_name_of() == b.file_name_of() <==> a.epoch == b.epoch && stem(a.group, a.task)
            == stem(b.group, b.task),
{
    if a.file_name_of() == b.file_name_of() {
        if text::decimal(a.epoch as int).len() <= text::decimal(b.epoch as int).len() {
            lemma_same_tail(a, b);
        } else {
            lemma_same_tail(b, a);
        }
    }
}

/// **Groups share a file only where a file name cannot tell them apart.** Two
/// keys of one task and one epoch have the same file name exactly when a file
/// name makes the same of their groups.
pub proof fn law_file_names_keep_groups_apart(a: KeyView, b: KeyView)
    requires
        a.task == b.task,
        a.epoch == b.epoch,
    ensures
        a.file_name_of() == b.file_name_of() <==> sanitized(a.group) == sanitized(b.group),
{
    law_file_names_keep_epochs_apart(a, b);
    let x = stem(a.group, a.task);
    let y = stem(b.group, b.task);
    if x == y {
        reveal_strlit("-");
        assert(x.len() == sanitized(a.group).len() + 1 + a.task.len());
        assert(y.len() == sanitized(b.group).len() + 1 + b.task.len());
        assert(sanitized(a.group) =~= x.take(sanitized(a.group).len() as int));
        assert(sanitized(b.group) =~= y.take(sanitized(b.group).len() as int));
    }
}

/// Whether a task name is two numbers with a dash between them, the dash at
/// place `dash`.
pub open spec fn dashed(task: Seq<char>, dash: int) -> bool {
    &&& 0 < dash < task.len() - 1
    &&& task[dash] == '-'
    &&& forall|i: int| 0 <= i < task.len() && i != dash ==> text::is_digit(#[trigger] task[i])
}

/// Whether a task name has the form `<subtopology>-<partition>`.
pub open spec fn is_task(task: Seq<char>) -> bool {
    exists|dash: int| dashed(task, dash)
}

/// Whether a name holds only characters that a file name keeps.
pub open spec fn is_plain(name: Seq<char>) -> bool {
    forall|i: int| 0 <= i < name.len() ==> kept(#[trigger] name[i])
}

proof fn lemma_same_stem(ga: Seq<char>, ta: Seq<char>, gb: Seq<char>, tb: Seq<char>)
    requires
        is_task(ta),
        is_task(tb),
        ta.len() <= tb.len(),
        ga + "-"@ + ta == gb + "-"@ + tb,
    ensures
        ga == gb,
        ta == tb,
{
    reveal_strlit("-");
    let da = choose|dash: int| dashed(ta, dash);
    let db = choose|dash: int| dashed(tb, dash);
    let sa = ga + "-"@ + ta;
    let sb = gb + "-"@ + tb;
    let pa = ga.len() + 1;
    let pb = gb.len() + 1;
    assert(sa.len() == pa + ta.len());
    assert(sb.len() == pb + tb.len());
    assert(pa + ta.len() == pb + tb.len());
    assert(sa[pa - 1] == '-');
    assert(sb[pb - 1] == '-');
    assert forall|i: int| 0 <= i < ta.len() implies sa[pa + i] == ta[i] by {}
    assert forall|i: int| 0 <= i < tb.len() implies sb[pb + i] == tb[i] by {}
    if ta.len() < tb.len() {
        let k = pa - 1 - pb;
        assert(sb[pb + k] == tb[k]);
        assert(k == db) by {
            if k != db {
                assert(text::is_digit(tb[k]));
            }
        }
        assert(sa[pa + da] == ta[da]);
        assert(sb[pb + (k + 1 + da)] == tb[k + 1 + da]);
        assert(text::is_digit(tb[k + 1 + da]));
        assert(false);
    }
    assert(ta =~= tb) by {
        assert forall|i: int| 0 <= i < ta.len() implies ta[i] == tb[i] by {
            assert(sa[pa + i] == sb[pb + i]);
        }
    }
    assert(ga =~= sa.take(ga.len() as int));
    assert(gb =~= sb.take(gb.len() as int));
}

/// **Every key has a file of its own.** With tasks named as the runtime names
/// them, and groups that a file name keeps as they are, two keys with the same
/// file name are the same key.
pub proof fn law_file_name_determines_key(a: KeyView, b: KeyView)
    requires
        is_plain(a.group),
        is_task(a.task),
        is_plain(b.group),
        is_task(b.task),
        a.file_name_of() == b.file_name_of(),
    ensures
        a == b,
{
    law_file_names_keep_epochs_apart(a, b);
    assert(sanitized(a.group) =~= a.group);
    assert(sanitized(b.group) =~= b.group);
    let da = choose|dash: int| dashed(a.task, dash);
    let db = choose|dash: int| dashed(b.task, dash);
    assert(sanitized(a.task) =~= a.task) by {
        assert forall|i: int| 0 <= i < a.task.len() implies kept(#[trigger] a.task[i]) by {
            if i != da {
                assert(text::is_digit(a.task[i]));
            }
        }
    }
    assert(sanitized(b.task) =~= b.task) by {
        assert forall|i: int| 0 <= i < b.task.len() implies kept(#[trigger] b.task[i]) by {
            if i != db {
                assert(text::is_digit(b.task[i]));
            }
        }
    }
    if a.task.len() <= b.task.len() {
        lemma_same_stem(a.group, a.task, b.group, b.task);
    } else {
        lemma_same_stem(b.group, b.task, a.group, a.task);
    }
}

} // verus!
