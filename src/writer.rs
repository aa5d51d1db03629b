use std::collections::VecDeque;
use vstd::prelude::*;

use crate::naming::{get_id, get_new_file, id_of_name, join_path, log_file_name, path_in};

verus! {

/// A known file as the contracts see it: its sequence id and its name.
pub type FileRecord = (usize, Seq<char>);

pub open spec fn record_view(e: (usize, String)) -> FileRecord {
    (e.0, e.1@)
}

pub open spec fn records_view(s: Seq<(usize, String)>) -> Seq<FileRecord> {
    s.map_values(|e: (usize, String)| record_view(e))
}

pub open spec fn names_view(s: Seq<String>) -> Seq<Seq<char>> {
    s.map_values(|n: String| n@)
}

/// Ids never decrease from front (oldest) to back (newest).
pub open spec fn ids_sorted(s: Seq<FileRecord>) -> bool {
    forall|i: int, j: int| 0 <= i <= j < s.len() ==> s[i].0 <= s[j].0
}

/// The entries of a directory listing that name files of the rotator, in
/// listing order, each with its id.
pub open spec fn recovered(names: Seq<Seq<char>>) -> Seq<FileRecord>
    decreases names.len(),
{
    if names.len() == 0 {
        Seq::empty()
    } else {
        let rest = recovered(names.drop_last());
        match id_of_name(names.last()) {
            Some(id) => rest.push((id, names.last())),
            None => rest,
        }
    }
}

/// The position at which a record with id `id` goes in `s`: before the first
/// record whose id is at least `id`.
pub open spec fn insertion_point(s: Seq<FileRecord>, id: usize) -> nat
    decreases s.len(),
{
    if s.len() == 0 || s[0].0 >= id {
        0
    } else {
        1 + insertion_point(s.drop_first(), id)
    }
}

/// `s` ordered by id; records with equal ids keep their relative order.
pub open spec fn sorted_by_id(s: Seq<FileRecord>) -> Seq<FileRecord>
    decreases s.len(),
{
    if s.len() == 0 {
        s
    } else {
        let rest = sorted_by_id(s.drop_first());
        rest.insert(insertion_point(rest, s[0].0) as int, s[0])
    }
}

pub proof fn lemma_insertion_point(s: Seq<FileRecord>, id: usize)
    ensures
        insertion_point(s, id) <= s.len(),
        forall|k: int| 0 <= k < insertion_point(s, id) ==> s[k].0 < id,
        insertion_point(s, id) < s.len() ==> s[insertion_point(s, id) as int].0 >= id,
    decreases s.len(),
{
    if s.len() > 0 && s[0].0 < id {
        lemma_insertion_point(s.drop_first(), id);
        assert forall|k: int| 0 <= k < insertion_point(s, id) implies s[k].0 < id by {
            if k > 0 {
                assert(s[k] == s.drop_first()[k - 1]);
            }
        }
    }
}

/// Sorting by id orders the records and keeps exactly the same records.
pub proof fn lemma_sorted_by_id(s: Seq<FileRecord>)
    ensures
        ids_sorted(sorted_by_id(s)),
        sorted_by_id(s).to_multiset() == s.to_multiset(),
        sorted_by_id(s).len() == s.len(),
    decreases s.len(),
{
    broadcast use vstd::seq_lib::to_multiset_insert;

    if s.len() > 0 {
        let rest = sorted_by_id(s.drop_first());
        lemma_sorted_by_id(s.drop_first());
        let x = s[0];
        let p = insertion_point(rest, x.0) as int;
        lemma_insertion_point(rest, x.0);
        let r = rest.insert(p, x);
        assert forall|i: int, j: int| 0 <= i <= j < r.len() implies r[i].0 <= r[j].0 by {
            if i < p && j == p {
            } else if i < p && j > p {
                assert(r[j] == rest[j - 1]);
            } else if i == p && j > p {
                assert(r[j] == rest[j - 1]);
                if p < rest.len() {
                    assert(rest[p].0 <= rest[j - 1].0);
                }
            } else if i > p {
                assert(r[i] == rest[i - 1]);
                assert(r[j] == rest[j - 1]);
            }
        }
        assert(s =~= s.drop_first().insert(0, x));
    }
}

/// Orders records by id, keeping the listing order among equal ids.
fn sort_by_id(v: Vec<(usize, String)>) -> (r: VecDeque<(usize, String)>)
    ensures
        records_view(r@) == sorted_by_id(records_view(v@)),
{
    let ghost whole = records_view(v@);
    let mut v = v;
    let mut r: VecDeque<(usize, String)> = VecDeque::new();
    while v.len() > 0
        invariant
            v@.len() <= whole.len(),
            records_view(v@) == whole.take(v@.len() as int),
            records_view(r@) == sorted_by_id(whole.skip(v@.len() as int)),
        decreases v@.len(),
    {
        let ghost n = v@.len() as int;
        let ghost before = v@;
        let x = v.pop().unwrap();
        assert(records_view(before)[n - 1] == record_view(x));
        assert(whole.take(n)[n - 1] == whole[n - 1]);
        assert(records_view(v@) =~= whole.take(n - 1));
        assert(record_view(x) == whole[n - 1]);
        assert(whole.skip(n - 1).drop_first() =~= whole.skip(n));
        let ghost sorted_rest = records_view(r@);
        proof {
            lemma_insertion_point(sorted_rest, x.0);
        }
        let mut j: usize = 0;
        while j < r.len() && r[j].0 < x.0
            invariant
                j <= r@.len(),
                records_view(r@) == sorted_rest,
                forall|k: int| 0 <= k < j ==> sorted_rest[k].0 < x.0,
            decreases r@.len() - j,
        {
            j = j + 1;
        }
        proof {
            let p = insertion_point(sorted_rest, x.0);
            if j < p {
                assert(sorted_rest[j as int].0 < x.0);
            }
            if p < j {
                assert(sorted_rest[p as int].0 < x.0);
            }
        }
        r.insert(j, x);
        assert(records_view(r@) =~= sorted_rest.insert(j as int, record_view(x)));
    }
    assert(whole.skip(0) =~= whole);
    r
}

/// Recovers the rotator's files from a directory listing: the entries that
/// name one, each with its id, in listing order.
fn recover(entries: &Vec<String>) -> (r: Vec<(usize, String)>)
    ensures
        records_view(r@) == recovered(names_view(entries@)),
{
    let mut found: Vec<(usize, String)> = Vec::new();
    let mut i: usize = 0;
    while i < entries.len()
        invariant
            i <= entries@.len(),
            records_view(found@) == recovered(names_view(entries@).take(i as int)),
        decreases entries@.len() - i,
    {
        let ghost prefix = names_view(entries@).take(i + 1);
        assert(prefix.drop_last() =~= names_view(entries@).take(i as int));
        assert(prefix.last() == entries@[i as int]@);
        match get_id(entries[i].as_str()) {
            Some(id) => {
                found.push((id, entries[i].clone()));
                assert(records_view(found@) =~= recovered(prefix));
            },
            None => {},
        }
        i = i + 1;
    }
    assert(names_view(entries@).take(entries@.len() as int) =~= names_view(entries@));
    found
}

/// How many files retention keeps, the active one included: `max_files`,
/// but never fewer than the active file itself.
pub open spec fn keep_count(max_files: nat) -> nat {
    if max_files == 0 {
        1
    } else {
        max_files
    }
}

/// What retention keeps of `s` (oldest first): its newest `k` records.
pub open spec fn newest(s: Seq<FileRecord>, k: nat) -> Seq<FileRecord> {
    if s.len() <= k {
        s
    } else {
        s.skip(s.len() - k)
    }
}

/// What retention evicts from `s`: all but its newest `k` records, oldest first.
pub open spec fn evicted(s: Seq<FileRecord>, k: nat) -> Seq<FileRecord> {
    if s.len() <= k {
        Seq::empty()
    } else {
        s.take(s.len() - k)
    }
}

/// The paths, in directory `dir`, of the files that `s` records.
pub open spec fn paths_of(dir: Seq<char>, s: Seq<FileRecord>) -> Seq<Seq<char>> {
    s.map_values(|e: FileRecord| path_in(dir, e.1))
}

/// A write of `len` bytes rolls over first when it would take the active
/// file past its byte budget.
pub open spec fn rolls_before(written: nat, len: nat, max_bytes: nat) -> bool {
    written + len > max_bytes
}

/// What the caller must do on the file system to follow a change of state:
/// create (or truncate) the file at `create` and write to it from now on,
/// then delete the files at `delete`, oldest first.
pub struct Rotation {
    pub create: String,
    pub delete: Vec<String>,
}

/// The rotation and retention state of a log directory.
///
/// `files` holds the known files, oldest at the front and the active file at
/// the back; `num_rolls` is the id that the next file gets.
pub struct RollingWriter {
    files: VecDeque<(usize, String)>,
    roll_dir: String,
    num_rolls: usize,
    max_files: usize,
    max_bytes_written: usize,
    cur_bytes_written: usize,
}

impl RollingWriter {
    /// The known files, oldest first; the last is the active file.
    pub closed spec fn files(&self) -> Seq<FileRecord> {
        records_view(self.files@)
    }

    pub closed spec fn dir(&self) -> Seq<char> {
        self.roll_dir@
    }

    /// The id that the next file will get.
    pub closed spec fn next_id(&self) -> nat {
        self.num_rolls as nat
    }

    pub closed spec fn max_files(&self) -> nat {
        self.max_files as nat
    }

    pub closed spec fn max_bytes(&self) -> nat {
        self.max_bytes_written as nat
    }

    /// Bytes written to the active file since it was opened.
    pub closed spec fn written(&self) -> nat {
        self.cur_bytes_written as nat
    }

    /// The state's invariant: the files are ordered by id, retention holds,
    /// and the newest file is the active one, named after the last id given out.
    pub open spec fn wf(&self) -> bool {
        &&& ids_sorted(self.files())
        &&& 1 <= self.files().len() <= keep_count(self.max_files())
        &&& self.next_id() >= 1
        &&& self.files().last() == ((self.next_id() - 1) as usize, log_file_name(
            (self.next_id() - 1) as nat,
        ))
    }

    /// Files once the next one is opened, before retention.
    pub open spec fn files_after_open(&self) -> Seq<FileRecord> {
        self.files().push((self.next_id() as usize, log_file_name(self.next_id())))
    }

    /// `self` is `before` rolled over, with `r` the file-system work that
    /// this takes: the next id's file is opened and becomes the active file
    /// with nothing written to it, and retention evicts the oldest files
    /// beyond its limit.
    pub open spec fn is_roll_of(&self, before: &RollingWriter, r: &Rotation) -> bool {
        let opened = before.files_after_open();
        let k = keep_count(before.max_files());
        &&& self.wf()
        &&& self.files() == newest(opened, k)
        &&& r.create@ == path_in(before.dir(), log_file_name(before.next_id()))
        &&& names_view(r.delete@) == paths_of(before.dir(), evicted(opened, k))
        &&& self.next_id() == before.next_id() + 1
        &&& self.written() == 0
        &&& self.dir() == before.dir()
        &&& self.max_files() == before.max_files()
        &&& self.max_bytes() == before.max_bytes()
    }

    /// Evicts the oldest files while more than retention allows are known,
    /// and returns their paths, oldest first.
    fn enforce_retention(&mut self) -> (r: Vec<String>)
        ensures
            final(self).files() == newest(old(self).files(), keep_count(old(self).max_files())),
            names_view(r@) == paths_of(
                old(self).dir(),
                evicted(old(self).files(), keep_count(old(self).max_files())),
            ),
            final(self).dir() == old(self).dir(),
            final(self).next_id() == old(self).next_id(),
            final(self).max_files() == old(self).max_files(),
            final(self).max_bytes() == old(self).max_bytes(),
            final(self).written() == old(self).written(),
    {
        let ghost start = self.files();
        let ghost k = keep_count(self.max_files as nat);
        let mut deleted: Vec<String> = Vec::new();
        while self.files.len() > self.max_files && self.files.len() > 1
            invariant
                deleted@.len() <= start.len(),
                start.len() > k ==> deleted@.len() <= start.len() - k,
                start.len() <= k ==> deleted@.len() == 0,
                self.files() == start.skip(deleted@.len() as int),
                names_view(deleted@) == paths_of(self.dir(), start.take(deleted@.len() as int)),
                self.dir() == old(self).dir(),
                self.next_id() == old(self).next_id(),
                self.max_files() == old(self).max_files(),
                self.max_bytes() == old(self).max_bytes(),
                self.written() == old(self).written(),
                k == keep_count(self.max_files()),
            decreases self.files@.len(),
        {
            let ghost n = deleted@.len() as int;
            let ghost before = self.files@;
            let (_, name) = self.files.pop_front().unwrap();
            assert(records_view(before) == start.skip(n));
            assert(records_view(before)[0] == record_view(before[0]));
            assert(start.skip(n)[0] == start[n]);
            assert(records_view(self.files@) =~= records_view(before).subrange(
                1,
                before.len() as int,
            ));
            let path = join_path(self.roll_dir.as_str(), name.as_str());
            let ghost deleted_before = deleted@;
            deleted.push(path);
            assert(name@ == start[n].1);
            assert(names_view(deleted@) =~= names_view(deleted_before).push(path@));
            assert(paths_of(self.dir(), start.take(n + 1)) =~= paths_of(
                self.dir(),
                start.take(n),
            ).push(path_in(self.dir(), start[n].1)));
            assert(self.files() =~= start.skip(n + 1));
            assert(start.take(n + 1) =~= start.take(n).push(start[n]));
            assert(names_view(deleted@) =~= paths_of(self.dir(), start.take(n + 1)));
        }
        proof {
            if start.len() <= k {
                assert(start.skip(0) =~= start);
            } else {
                assert(deleted@.len() == start.len() - k);
            }
        }
        deleted
    }

    /// Closes the active file and opens the next: the new file gets the next
    /// id and its name, becomes the active file with nothing written to it,
    /// and retention then evicts the oldest files beyond the limit.
    pub fn roll(&mut self) -> (r: Rotation)
        requires
            old(self).wf(),
            old(self).next_id() < usize::MAX,
        ensures
            final(self).is_roll_of(old(self), &r),
    {
        self.open_next()
    }

    /// Sets up rotation in directory `roll_dir`, given the names of the
    /// entries that it holds. The entries that name files of the rotator are
    /// recovered and ordered by id; the new active file gets the id after the
    /// largest recovered one (0 if none was), and retention then applies.
    /// Entries of other names are ignored and never deleted.
    pub fn new(roll_dir: String, entries: Vec<String>, max_bytes_written: usize, max_files: usize) -> (r: (
        RollingWriter,
        Rotation,
    ))
        requires
            forall|i: int| 0 <= i < entries@.len() ==> id_leaves_room(#[trigger] entries@[i]@),
        ensures
            ({
                let found = sorted_by_id(recovered(names_view(entries@)));
                let id = first_free_id(found);
                let opened = found.push((id as usize, log_file_name(id)));
                let k = keep_count(max_files as nat);
                &&& r.0.wf()
                &&& r.0.files() == newest(opened, k)
                &&& r.1.create@ == path_in(roll_dir@, log_file_name(id))
                &&& names_view(r.1.delete@) == paths_of(roll_dir@, evicted(opened, k))
                &&& r.0.next_id() == id + 1
                &&& r.0.written() == 0
                &&& r.0.dir() == roll_dir@
                &&& r.0.max_files() == max_files
                &&& r.0.max_bytes() == max_bytes_written
            }),
    {
        let ghost names = names_view(entries@);
        let found = recover(&entries);
        let files = sort_by_id(found);
        proof {
            lemma_recovered_leaves_room(entries@);
            lemma_sorted_by_id(recovered(names));
        }
        let num_rolls: usize = if files.len() == 0 {
            0
        } else {
            let last = files.len() - 1;
            proof {
                broadcast use vstd::seq_lib::to_multiset_contains;

                let s = records_view(files@);
                assert(s.contains(s[last as int]));
                assert(s.to_multiset().count(s[last as int]) > 0);
                assert(recovered(names).contains(s[last as int]));
            }
            files[last].0 + 1
        };
        let mut w = RollingWriter {
            files,
            roll_dir,
            num_rolls,
            max_files,
            max_bytes_written,
            cur_bytes_written: 0,
        };
        let rotation = w.open_next();
        (w, rotation)
    }

    /// Readies the state for a write of `len` bytes. When the write would take
    /// the active file past its byte budget, the state rolls over first and
    /// the rotation to carry out before writing is returned; otherwise nothing
    /// changes and `None` is returned. A write longer than the budget itself
    /// still goes ahead, alone in a fresh file.
    pub fn prepare_write(&mut self, len: usize) -> (r: Option<Rotation>)
        requires
            old(self).wf(),
            old(self).next_id() < usize::MAX,
        ensures
            final(self).wf(),
            rolls_before(old(self).written(), len as nat, old(self).max_bytes()) ==> (r matches Some(
                rot,
            ) && final(self).is_roll_of(old(self), &rot)),
            !rolls_before(old(self).written(), len as nat, old(self).max_bytes()) ==> r is None
                && *final(self) == *old(self),
    {
        if len > self.max_bytes_written || self.cur_bytes_written > self.max_bytes_written - len {
            Some(self.roll())
        } else {
            None
        }
    }

    /// Accounts for `len` bytes that landed in the active file.
    pub fn commit_write(&mut self, len: usize)
        requires
            old(self).wf(),
            old(self).written() + len <= usize::MAX,
        ensures
            final(self).wf(),
            final(self).written() == old(self).written() + len,
            final(self).files() == old(self).files(),
            final(self).next_id() == old(self).next_id(),
            final(self).dir() == old(self).dir(),
            final(self).max_files() == old(self).max_files(),
            final(self).max_bytes() == old(self).max_bytes(),
    {
        self.cur_bytes_written = self.cur_bytes_written + len;
    }

    /// Bytes written to the active file since it was opened.
    pub fn bytes_written(&self) -> (r: usize)
        ensures
            r == self.written(),
    {
        self.cur_bytes_written
    }

    /// The id that the next file will get.
    pub fn next_file_id(&self) -> (r: usize)
        ensures
            r == self.next_id(),
    {
        self.num_rolls
    }

    /// The names of the known files, oldest first; the last is the active file.
    pub fn known_files(&self) -> (r: Vec<String>)
        ensures
            names_view(r@) == self.files().map_values(|e: FileRecord| e.1),
    {
        let mut names: Vec<String> = Vec::new();
        let mut i: usize = 0;
        while i < self.files.len()
            invariant
                i <= self.files@.len(),
                names_view(names@) == self.files().take(i as int).map_values(
                    |e: FileRecord| e.1,
                ),
            decreases self.files@.len() - i,
        {
            let name = self.files[i].1.clone();
            let ghost before = names@;
            assert(name@ == self.files@[i as int].1@);
            names.push(name);
            assert(self.files()[i as int] == record_view(self.files@[i as int]));
            assert(names_view(names@) =~= names_view(before).push(self.files()[i as int].1));
            assert(names_view(names@) =~= self.files().take(i + 1).map_values(
                |e: FileRecord| e.1,
            ));
            i = i + 1;
        }
        assert(self.files().take(self.files@.len() as int) =~= self.files());
        names
    }

    /// Opens the file for the next id and applies retention.
    fn open_next(&mut self) -> (r: Rotation)
        requires
            ids_sorted(old(self).files()),
            old(self).next_id() < usize::MAX,
            old(self).files().len() > 0 ==> old(self).files().last().0 < old(self).next_id(),
        ensures
            final(self).is_roll_of(old(self), &r),
    {
        let ghost opened = self.files_after_open();
        self.cur_bytes_written = 0;
        let id = self.num_rolls;
        let (path, name) = get_new_file(self.roll_dir.as_str(), id);
        self.files.push_back((id, name));
        self.num_rolls = id + 1;
        assert(self.files() =~= opened);
        let delete = self.enforce_retention();
        proof {
            lemma_newest_keeps_order(opened, keep_count(self.max_files()));
        }
        Rotation { create: path, delete }
    }
}

/// Retention keeps the newest files: of a list ordered by id, what it keeps
/// is never more than the retention count (and so at most `max_files + 1`
/// files), is the list's newest part, and holds no id below an evicted one.
/// With `max_files == 0` exactly the single newest file is kept.
pub proof fn lemma_retention_keeps_newest(s: Seq<FileRecord>, max_files: nat)
    requires
        ids_sorted(s),
    ensures
        ({
            let k = keep_count(max_files);
            let kept = newest(s, k);
            let gone = evicted(s, k);
            &&& kept.len() <= max_files + 1
            &&& kept.len() == if s.len() <= k {
                s.len()
            } else {
                k
            }
            &&& gone + kept == s
            &&& forall|i: int, j: int|
                0 <= i < gone.len() && 0 <= j < kept.len() ==> gone[i].0 <= kept[j].0
            &&& max_files == 0 && s.len() > 0 ==> kept == seq![s.last()]
        }),
{
    let k = keep_count(max_files);
    let kept = newest(s, k);
    let gone = evicted(s, k);
    if s.len() <= k {
        assert(gone + kept =~= s);
    } else {
        assert(gone + kept =~= s);
        assert forall|i: int, j: int|
            0 <= i < gone.len() && 0 <= j < kept.len() implies gone[i].0 <= kept[j].0 by {
            assert(gone[i] == s[i]);
            assert(kept[j] == s[j + s.len() - k]);
        }
    }
    if max_files == 0 && s.len() > 0 {
        assert(kept =~= seq![s.last()]);
    }
}

/// Retention applied roll by roll is retention applied once to the whole
/// history: keeping the newest `k` after each new file leaves the same files
/// as keeping the newest `k` of every file ever known. With the law above,
/// the known files are at every point the newest of all files ever known.
pub proof fn lemma_retention_over_history(history: Seq<FileRecord>, x: FileRecord, k: nat)
    requires
        k >= 1,
    ensures
        newest(newest(history, k).push(x), k) == newest(history.push(x), k),
{
    if history.len() > k {
        assert(newest(newest(history, k).push(x), k) =~= newest(history.push(x), k));
    } else if history.len() == k {
        assert(newest(history.push(x), k) =~= history.skip(1).push(x));
    }
}

/// Total of a run of write lengths.
pub open spec fn total(lens: Seq<nat>) -> nat
    decreases lens.len(),
{
    if lens.len() == 0 {
        0
    } else {
        total(lens.drop_last()) + lens.last()
    }
}

/// Writes that together stay within the byte budget never roll: starting
/// from `start` bytes in the active file, none of the writes `lens`, made in
/// turn, would take the file past `max_bytes`, so each adds to the same file.
pub proof fn lemma_no_roll_within_budget(start: nat, lens: Seq<nat>, max_bytes: nat)
    requires
        start + total(lens) <= max_bytes,
    ensures
        forall|i: int|
            0 <= i < lens.len() ==> !rolls_before(
                start + total(lens.take(i)),
                #[trigger] lens[i],
                max_bytes,
            ),
    decreases lens.len(),
{
    if lens.len() > 0 {
        let n = lens.len() - 1;
        lemma_no_roll_within_budget(start, lens.drop_last(), max_bytes);
        assert forall|i: int| 0 <= i < lens.len() implies !rolls_before(
            start + total(lens.take(i)),
            #[trigger] lens[i],
            max_bytes,
        ) by {
            if i < n {
                assert(lens.take(i) =~= lens.drop_last().take(i));
                assert(lens[i] == lens.drop_last()[i]);
            } else {
                assert(lens.take(i) =~= lens.drop_last());
            }
        }
    }
}

/// The id after the largest in `found`, which is ordered by id; 0 when
/// `found` is empty.
pub open spec fn first_free_id(found: Seq<FileRecord>) -> nat {
    if found.len() == 0 {
        0
    } else {
        (found.last().0 + 1) as nat
    }
}

/// A name either is no file of the rotator, or its id leaves room for two
/// more ids after it: the new active file's and the next one's.
pub open spec fn id_leaves_room(name: Seq<char>) -> bool {
    match id_of_name(name) {
        Some(id) => id < usize::MAX - 1,
        None => true,
    }
}

proof fn lemma_recovered_leaves_room(entries: Seq<String>)
    requires
        forall|i: int| 0 <= i < entries.len() ==> id_leaves_room(#[trigger] entries[i]@),
    ensures
        forall|e: FileRecord| #[trigger]
            recovered(names_view(entries)).contains(e) ==> e.0 < usize::MAX - 1,
    decreases entries.len(),
{
    if entries.len() > 0 {
        let rest = entries.drop_last();
        assert(names_view(entries).drop_last() =~= names_view(rest));
        assert(names_view(entries).last() == entries.last()@);
        assert(id_leaves_room(entries[entries.len() - 1]@));
        lemma_recovered_leaves_room(rest);
        let r = recovered(names_view(entries));
        let r0 = recovered(names_view(rest));
        assert forall|e: FileRecord| #[trigger] r.contains(e) implies e.0 < usize::MAX - 1 by {
            let i = choose|i: int| 0 <= i < r.len() && r[i] == e;
            if i < r0.len() {
                assert(r0[i] == e);
                assert(r0.contains(e));
            }
        }
    }
}

/// Retention keeps an ordered list ordered, and keeps its newest record.
proof fn lemma_newest_keeps_order(s: Seq<FileRecord>, k: nat)
    requires
        ids_sorted(s),
        s.len() >= 1,
        k >= 1,
    ensures
        ids_sorted(newest(s, k)),
        1 <= newest(s, k).len() <= k,
        newest(s, k).last() == s.last(),
{
    if s.len() > k {
        let t = s.skip(s.len() - k);
        assert forall|i: int, j: int| 0 <= i <= j < t.len() implies t[i].0 <= t[j].0 by {
            assert(t[i] == s[i + s.len() - k]);
            assert(t[j] == s[j + s.len() - k]);
        }
    }
}

} // verus!
