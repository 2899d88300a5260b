//! An EPUB archive opened for editing: members can be read, replaced,
//! added and removed, and the result written as a new archive with
//! `mimetype` first.

use vstd::prelude::*;

use std::io::Cursor;
use zip::ZipArchive;

use crate::epub::Error;
use vstd::utf8::encode_utf8;
use crate::text::{str_eq, string_views};
use crate::zipfile::{
    member_fits, names_directory, read_back, written_fit, written_name, zip_add_deflated,
    zip_add_stored, zip_archive_members, zip_bytes, zip_copy, zip_entry_copies, zip_entry_opens,
    zip_entry_reads, zip_finish, zip_len, zip_member_name, zip_members, zip_open, zip_opens,
    zip_read, zip_source, zip_writer, zip_written, ArchiveWriter, Storage,
};

verus! {

/// A member of the source archive, by the name it is known under.
pub struct Entry {
    pub name: String,
    pub source_index: usize,
    pub directory: bool,
}

pub open spec fn entry_view(e: Entry) -> (Seq<char>, int, bool) {
    (e.name@, e.source_index as int, e.directory)
}

/// The member list of the source archive, one entry per name, in the order
/// of first appearance; a later member of the same name takes the place of
/// the earlier one.
pub open spec fn merge_entries(members: Seq<(Seq<char>, bool, Seq<u8>)>) -> Seq<
    (Seq<char>, int, bool),
>
    decreases members.len(),
{
    if members.len() == 0 {
        seq![]
    } else {
        let init = merge_entries(members.drop_last());
        let last = members.last();
        match position_in(init, last.0, 0) {
            Some(k) => init.update(k, (last.0, members.len() - 1, last.1)),
            None => init.push((last.0, members.len() - 1, last.1)),
        }
    }
}

/// The position of the first entry named `name`, from `i` on.
pub open spec fn position_in(entries: Seq<(Seq<char>, int, bool)>, name: Seq<char>, i: int) -> Option<
    int,
>
    decreases entries.len() - i,
{
    if i < 0 || i >= entries.len() {
        None
    } else if entries[i].0 == name {
        Some(i)
    } else {
        position_in(entries, name, i + 1)
    }
}

/// The position of the first change to `name`, from `i` on.
pub open spec fn change_in(changes: Seq<(String, Vec<u8>)>, name: Seq<char>, i: int) -> Option<
    int,
>
    decreases changes.len() - i,
{
    if i < 0 || i >= changes.len() {
        None
    } else if changes[i].0@ == name {
        Some(i)
    } else {
        change_in(changes, name, i + 1)
    }
}

/// The bytes that `changes` holds for `name`.
pub open spec fn change_content(changes: Seq<(String, Vec<u8>)>, name: Seq<char>) -> Option<Seq<u8>> {
    match change_in(changes, name, 0) {
        Some(k) => Some(changes[k].1@),
        None => None,
    }
}

/// The content of `name` in an archive whose members are `members` and
/// whose entry list is `entries`, before any edit.
pub open spec fn stored_content(
    members: Seq<(Seq<char>, bool, Seq<u8>)>,
    entries: Seq<(Seq<char>, int, bool)>,
    name: Seq<char>,
) -> Option<Seq<u8>> {
    match position_in(entries, name, 0) {
        Some(k) => if entries[k].2 {
            None
        } else {
            Some(members[entries[k].1].2)
        },
        None => None,
    }
}

/// The readable files of a freshly opened archive, by name.
pub open spec fn initial_contents(members: Seq<(Seq<char>, bool, Seq<u8>)>) -> Map<
    Seq<char>,
    Seq<u8>,
> {
    let entries = merge_entries(members);
    Map::new(
        |name: Seq<char>| stored_content(members, entries, name) is Some,
        |name: Seq<char>| stored_content(members, entries, name)->0,
    )
}

/// The names of `entries`, in order.
pub open spec fn entry_names(entries: Seq<(Seq<char>, int, bool)>) -> Seq<Seq<char>> {
    entries.map_values(|e: (Seq<char>, int, bool)| e.0)
}

/// What a refused member name is told with.
pub const NAME_TOO_LONG: &'static str = "a member name is longer than 65535 bytes";

/// The Deflate level at which new and replaced files are written.
pub const COMPRESSION_LEVEL: i64 = 6;

/// Whether the archive in `bytes` opens and each of its members can be
/// opened, read and copied.
pub open spec fn sound_source(bytes: Seq<u8>) -> bool {
    &&& zip_opens(bytes)
    &&& forall|i: int|
        0 <= i < zip_archive_members(bytes).len() ==> #[trigger] zip_entry_opens(bytes, i)
            && zip_entry_reads(bytes, i) && zip_entry_copies(bytes, i)
}

pub open spec fn mimetype_name() -> Seq<char> {
    "mimetype"@
}

pub open spec fn mimetype_content() -> Seq<u8> {
    "application/epub+zip"@.map_values(|c: char| c as u8)
}

pub struct Archive {
    source: ZipArchive<Cursor<Vec<u8>>>,
    entries: Vec<Entry>,
    changes: Vec<(String, Vec<u8>)>,
    additions: Vec<String>,
    removals: Vec<String>,
}

impl Archive {
    pub closed spec fn members(self) -> Seq<(Seq<char>, bool, Seq<u8>)> {
        zip_members(self.source)
    }

    /// The bytes of the source archive.
    pub closed spec fn bytes(self) -> Seq<u8> {
        zip_source(self.source)
    }

    pub closed spec fn entry_list(self) -> Seq<(Seq<char>, int, bool)> {
        self.entries@.map_values(|e: Entry| entry_view(e))
    }

    pub closed spec fn removed(self, name: Seq<char>) -> bool {
        string_views(self.removals@).contains(name)
    }

    pub closed spec fn changed(self, name: Seq<char>) -> Option<Seq<u8>> {
        change_content(self.changes@, name)
    }

    /// The content of `name`: absent when removed or a directory; the
    /// latest bytes set for it; else the member's own content.
    pub closed spec fn content(self, name: Seq<char>) -> Option<Seq<u8>> {
        if self.removed(name) {
            None
        } else if self.changed(name) is Some {
            self.changed(name)
        } else {
            stored_content(self.members(), self.entry_list(), name)
        }
    }

    /// The files of the archive, by name, with their content.
    pub open spec fn contents(self) -> Map<Seq<char>, Seq<u8>> {
        Map::new(|name: Seq<char>| self.content(name) is Some, |name: Seq<char>| self.content(name)->0)
    }

    /// Whether the content of `name` is read from the source archive.
    pub closed spec fn reads_source(self, name: Seq<char>) -> bool {
        !self.removed(name) && self.changed(name) is None && stored_content(
            self.members(),
            self.entry_list(),
            name,
        ) is Some
    }

    /// Whether the member that `name` is read from can be read whole.
    pub closed spec fn readable(self, name: Seq<char>) -> bool {
        match position_in(self.entry_list(), name, 0) {
            Some(k) => zip_entry_reads(self.bytes(), self.entry_list()[k].1),
            None => true,
        }
    }

    /// Every member of the source that an entry stands for can be read and
    /// copied.
    pub closed spec fn sound(self) -> bool {
        forall|i: int|
            0 <= i < self.entries@.len() ==> zip_entry_reads(
                self.bytes(),
                (#[trigger] self.entries@[i]).source_index as int,
            ) && zip_entry_copies(self.bytes(), self.entries@[i].source_index as int)
    }

    /// Whether the finished archive can be written: every member within the
    /// writer's limits, and every member to be copied copyable.
    pub closed spec fn writable(self) -> bool {
        &&& forall|i: int|
            0 <= i < self.entry_list().len() ==> entry_writable(self, #[trigger] self.entry_list()[i])
        &&& forall|j: int|
            0 <= j < self.additions@.len() ==> addition_writable(
                self,
                (#[trigger] self.additions@[j])@,
            )
    }

    /// Whether every member name the finished archive would hold is at most
    /// 65535 bytes long.
    pub closed spec fn member_names_fit(self) -> bool {
        &&& forall|i: int|
            0 <= i < self.entry_list().len() ==> entry_name_fits(self, #[trigger] self.entry_list()[i])
        &&& forall|j: int|
            0 <= j < self.additions@.len() ==> addition_name_fits(
                self,
                (#[trigger] self.additions@[j])@,
            )
    }

    /// Each entry names a member of the source, by its name.
    pub closed spec fn entries_in_source(self) -> bool {
        forall|i: int|
            0 <= i < self.entries@.len() ==> {
                let e = #[trigger] self.entries@[i];
                &&& e.source_index < self.members().len()
                &&& self.members()[e.source_index as int].0 == e.name@
                &&& e.directory == names_directory(e.name@)
            }
    }

    pub closed spec fn wf(self) -> bool {
        &&& zip_members(self.source) == zip_archive_members(zip_source(self.source))
        &&& self.entries_in_source()
        &&& forall|i: int, j: int|
            0 <= i < j < self.entries@.len() ==> (#[trigger] self.entries@[i]).name@ != (
            #[trigger] self.entries@[j]).name@
        &&& forall|i: int, j: int|
            0 <= i < j < self.additions@.len() ==> (#[trigger] self.additions@[i])@ != (
            #[trigger] self.additions@[j])@
        &&& forall|i: int, j: int|
            0 <= i < self.additions@.len() && 0 <= j < self.entries@.len() ==> (
            #[trigger] self.additions@[i])@ != (#[trigger] self.entries@[j]).name@
        &&& forall|n: Seq<char>|
            #[trigger] change_in(self.changes@, n, 0) is Some ==> position_in(
                self.entry_list(),
                n,
                0,
            ) is Some || string_views(self.additions@).contains(n)
    }

    /// The names of the archive in order: source members first, then
    /// added files; removed ones left out.
    pub closed spec fn listed(self) -> Seq<Seq<char>> {
        listed_entries(self.entry_list(), self) + listed_additions(string_views(self.additions@), self)
    }

    /// The members that the finished archive holds, in order.
    pub closed spec fn output_members(self) -> Seq<(Seq<char>, Seq<u8>, Storage)> {
        seq![(mimetype_name(), mimetype_content(), Storage::Stored)] + output_entries(self.entry_list(), self)
            + output_additions(string_views(self.additions@), self)
    }

    fn find_entry(&self, name: &str) -> (r: Option<usize>)
        ensures
            match r {
                Some(k) => position_in(self.entry_list(), name@, 0) == Some(k as int) && k
                    < self.entries@.len(),
                None => position_in(self.entry_list(), name@, 0) is None,
            },
    {
        let mut i: usize = 0;
        while i < self.entries.len()
            invariant
                0 <= i <= self.entries@.len(),
                position_in(self.entry_list(), name@, 0) == position_in(
                    self.entry_list(),
                    name@,
                    i as int,
                ),
            decreases self.entries@.len() - i,
        {
            if str_eq(self.entries[i].name.as_str(), name) {
                return Some(i);
            }
            i = i + 1;
        }
        None
    }

    fn find_change(&self, name: &str) -> (r: Option<usize>)
        ensures
            match r {
                Some(k) => change_in(self.changes@, name@, 0) == Some(k as int) && k
                    < self.changes@.len(),
                None => change_in(self.changes@, name@, 0) is None,
            },
    {
        let mut i: usize = 0;
        while i < self.changes.len()
            invariant
                0 <= i <= self.changes@.len(),
                change_in(self.changes@, name@, 0) == change_in(self.changes@, name@, i as int),
            decreases self.changes@.len() - i,
        {
            if str_eq(self.changes[i].0.as_str(), name) {
                return Some(i);
            }
            i = i + 1;
        }
        None
    }

    fn is_removed(&self, name: &str) -> (r: bool)
        ensures
            r == self.removed(name@),
    {
        contains_name(&self.removals, name)
    }

    /// Opens the archive held in `source`.
    pub fn read(source: &[u8]) -> (r: Result<Archive, Error>)
        ensures
            r is Ok <==> zip_opens(source@) && forall|i: int|
                0 <= i < zip_archive_members(source@).len() ==> #[trigger] zip_entry_opens(source@, i),
            r matches Ok(a) ==> a.wf() && a.members() == zip_archive_members(source@)
                && a.bytes() == source@
                && a.contents() == initial_contents(a.members())
                && a.listed() == entry_names(merge_entries(a.members()))
                && (sound_source(source@) ==> a.sound()),
            r matches Err(e) ==> (e is InvalidArchive <==> !zip_opens(source@)) && (e is InvalidArchive
                || e is Zip),
    {
        let ghost bytes = source@;
        let mut opened = zip_open(source)?;
        let count = zip_len(&opened);
        let mut entries: Vec<Entry> = Vec::new();
        let ghost members = zip_members(opened);
        let mut index: usize = 0;
        while index < count
            invariant
                count == members.len(),
                zip_members(opened) == members,
                zip_source(opened) == bytes,
                bytes == source@,
                zip_opens(bytes),
                forall|i: int| 0 <= i < index ==> #[trigger] zip_entry_opens(bytes, i),
                members == zip_archive_members(bytes),
                0 <= index <= count,
                entries@.map_values(|e: Entry| entry_view(e)) == merge_entries(
                    members.take(index as int),
                ),
                forall|i: int|
                    0 <= i < entries@.len() ==> {
                        let e = #[trigger] entries@[i];
                        &&& e.source_index < members.len()
                        &&& members[e.source_index as int].0 == e.name@
                        &&& e.directory == names_directory(e.name@)
                    },
                forall|i: int, j: int|
                    0 <= i < j < entries@.len() ==> (#[trigger] entries@[i]).name@ != (
                    #[trigger] entries@[j]).name@,
            decreases count - index,
        {
            let (name, directory) = match zip_member_name(&mut opened, index) {
                Ok(found) => found,
                Err(e) => {
                    assert(!zip_entry_opens(bytes, index as int));
                    assert(0 <= index < zip_archive_members(bytes).len());
                    assert(e is Zip);
                    return Err(e);
                },
            };
            let ghost before = entries@.map_values(|e: Entry| entry_view(e));
            proof {
                assert(members.take(index + 1).drop_last() =~= members.take(index as int));
            }
            let mut k: usize = 0;
            while k < entries.len() && !str_eq(entries[k].name.as_str(), name.as_str())
                invariant
                    0 <= k <= entries@.len(),
                    before == entries@.map_values(|e: Entry| entry_view(e)),
                    position_in(before, name@, 0) == position_in(before, name@, k as int),
                decreases entries@.len() - k,
            {
                k = k + 1;
            }
            proof {
                lemma_position_in(before, name@, 0);
                assert forall|j: int| 0 <= j < entries@.len() implies before[j].0 == (
                #[trigger] entries@[j]).name@ by {}
            }
            if k < entries.len() {
                assert(position_in(before, name@, 0) == Some(k as int));
                let entry_name = entries[k].name.clone();
                entries.set(k, Entry { name: entry_name, source_index: index, directory });
                assert(entries@.map_values(|e: Entry| entry_view(e)) =~= before.update(
                    k as int,
                    (name@, index as int, directory),
                ));
            } else {
                assert(position_in(before, name@, 0) is None);
                entries.push(Entry { name, source_index: index, directory });
                assert(entries@.map_values(|e: Entry| entry_view(e)) =~= before.push(
                    (name@, index as int, directory),
                ));
            }
            index = index + 1;
        }
        assert(members.take(count as int) =~= members);
        let a = Archive {
            source: opened,
            entries,
            changes: Vec::new(),
            additions: Vec::new(),
            removals: Vec::new(),
        };
        proof {
            assert(a.bytes() == bytes);
            if sound_source(bytes) {
                assert forall|i: int| 0 <= i < a.entries@.len() implies zip_entry_reads(
                    a.bytes(),
                    (#[trigger] a.entries@[i]).source_index as int,
                ) && zip_entry_copies(a.bytes(), a.entries@[i].source_index as int) by {
                    let idx = a.entries@[i].source_index as int;
                    assert(zip_entry_opens(bytes, idx));
                }
            }
            assert(a.entry_list() == merge_entries(members));
            assert(string_views(a.additions@) =~= Seq::<Seq<char>>::empty());
            assert forall|n: Seq<char>| #[trigger] change_in(a.changes@, n, 0) is None by {}
            assert(a.contents() =~= initial_contents(members)) by {
                assert forall|name: Seq<char>| !a.removed(name) && a.changed(name) is None by {
                    assert(string_views(a.removals@) =~= Seq::<Seq<char>>::empty());
                }
            }
            lemma_listed_fresh(a.entry_list(), a);
            assert(string_views(a.additions@) =~= Seq::<Seq<char>>::empty());
            assert(a.listed() =~= entry_names(merge_entries(members)));
        }
        Ok(a)
    }

    /// The content of `name`, if the archive has such a file.
    pub fn get(&mut self, name: &str) -> (r: Result<Option<Vec<u8>>, Error>)
        requires
            old(self).wf(),
        ensures
            final(self).wf(),
            final(self).contents() == old(self).contents(),
            final(self).listed() == old(self).listed(),
            final(self).output_members() == old(self).output_members(),
            match r {
                Ok(Some(content)) => old(self).contents().contains_key(name@)
                    && old(self).contents()[name@] == content@,
                Ok(None) => !old(self).contents().contains_key(name@),
                Err(e) => old(self).reads_source(name@) && (e is Zip || e is Io),
            },
            r is Err <==> old(self).reads_source(name@) && !old(self).readable(name@),
            r is Err ==> !old(self).sound(),
            final(self).sound() == old(self).sound(),
            final(self).bytes() == old(self).bytes(),
    {
        if self.is_removed(name) {
            return Ok(None);
        }
        if let Some(k) = self.find_change(name) {
            return Ok(Some(self.changes[k].1.clone()));
        }
        let k = match self.find_entry(name) {
            Some(k) => k,
            None => {
                return Ok(None);
            },
        };
        if self.entries[k].directory {
            return Ok(None);
        }
        let index = self.entries[k].source_index;
        let ghost before = *self;
        let read = zip_read(&mut self.source, index);
        proof {
            assert(before.entry_list()[k as int] == entry_view(before.entries@[k as int]));
            assert(self.bytes() == before.bytes());
            assert(self.entry_list() == before.entry_list());
            assert(self.members() == before.members());
            lemma_same_state(before, *self);
        }
        let content = read?;
        Ok(Some(content))
    }

    /// Whether the archive has a file named `name`.
    pub fn contains(&self, name: &str) -> (r: bool)
        ensures
            r == self.contents().contains_key(name@),
    {
        if self.is_removed(name) {
            return false;
        }
        if self.find_change(name).is_some() {
            return true;
        }
        match self.find_entry(name) {
            Some(k) => !self.entries[k].directory,
            None => false,
        }
    }

    /// Makes `content` the content of `name`, adding the file if it is new.
    pub fn set(&mut self, name: String, content: Vec<u8>)
        requires
            old(self).wf(),
        ensures
            final(self).wf(),
            final(self).contents() == old(self).contents().insert(name@, content@),
            !final(self).reads_source(name@),
            forall|n: Seq<char>|
                #[trigger] final(self).listed().contains(n) == (n == name@ || old(self).listed().contains(n)),
            final(self).sound() == old(self).sound(),
            final(self).bytes() == old(self).bytes(),
    {
        let ghost before = *self;
        self.removals = without_name(&self.removals, name.as_str());
        let is_entry = self.find_entry(name.as_str()).is_some();
        proof {
            lemma_position_in(before.entry_list(), name@, 0);
        }
        let listed_already = contains_name(&self.additions, name.as_str());
        assert(self.entry_list() == before.entry_list());
        if !is_entry && !listed_already {
            let ghost additions_before = self.additions@;
            self.additions.push(name.clone());
            proof {
                assert forall|j: int| 0 <= j < additions_before.len() implies (#[trigger] additions_before[j])@
                    != name@ by {
                    assert(string_views(additions_before)[j] == additions_before[j]@);
                }
                assert forall|j: int| 0 <= j < self.entries@.len() implies (
                #[trigger] self.entries@[j]).name@ != name@ by {
                    assert(before.entry_list()[j].0 == self.entries@[j].name@);
                }
                assert(string_views(self.additions@) =~= string_views(additions_before).push(name@));
                assert(string_views(self.additions@)[additions_before.len() as int] == name@);
            }
        }
        let ghost additions_now = string_views(self.additions@);
        assert(forall|n: Seq<char>| string_views(before.additions@).contains(n) ==> additions_now.contains(n)) by {
            assert forall|n: Seq<char>| string_views(before.additions@).contains(n) implies additions_now.contains(n) by {
                let j = choose|j: int| 0 <= j < string_views(before.additions@).len() && string_views(before.additions@)[j] == n;
                assert(additions_now[j] == n);
            }
        }
        assert(position_in(before.entry_list(), name@, 0) is Some || additions_now.contains(name@));
        match self.find_change(name.as_str()) {
            Some(k) => {
                let ghost changes_before = self.changes@;
                proof {
                    lemma_change_in_found(changes_before, name@, 0);
                }
                self.changes.set(k, (name, content));
                proof {
                    lemma_change_in_update(changes_before, self.changes@, k as int);
                    assert(change_in(self.changes@, name@, 0) == Some(k as int));
                    assert(self.changed(name@) == Some(content@));
                    assert forall|n: Seq<char>| n != name@ implies self.changed(n) == before.changed(
                        n,
                    ) by {
                        lemma_change_in_found(changes_before, n, 0);
                        if let Some(j) = change_in(changes_before, n, 0) {
                            assert(j != k);
                            assert(self.changes@[j] == changes_before[j]);
                        }
                    }
                }
            },
            None => {
                let ghost changes_before = self.changes@;
                let ghost n = name@;
                self.changes.push((name, content));
                proof {
                    lemma_change_in_push(changes_before, self.changes@, n);
                    assert(self.changed(name@) == Some(content@));
                    assert forall|m: Seq<char>| m != name@ implies self.changed(m) == before.changed(
                        m,
                    ) by {
                        lemma_change_in_found(changes_before, m, 0);
                        if let Some(j) = change_in(changes_before, m, 0) {
                            assert(self.changes@[j] == changes_before[j]);
                        }
                    }
                }
            },
        }
        proof {
            assert(self.members() == before.members());
            assert(self.entry_list() == before.entry_list());
            assert(!self.removed(name@));
            assert forall|n: Seq<char>| n != name@ implies self.removed(n) == before.removed(n) by {
            }
            assert(self.contents() =~= before.contents().insert(name@, content@));
            assert(additions_now.contains(name@) || position_in(before.entry_list(), name@, 0) is Some);
            assert forall|n: Seq<char>| #[trigger] self.listed().contains(n) == (n == name@
                || before.listed().contains(n)) by {
                lemma_listed_contains(*self, n);
                lemma_listed_contains(before, n);
                if n != name@ && additions_now.contains(n) {
                    let j = choose|j: int| 0 <= j < additions_now.len() && additions_now[j] == n;
                    if j < string_views(before.additions@).len() {
                        assert(string_views(before.additions@)[j] == n);
                    }
                }
                if position_in(before.entry_list(), name@, 0) is Some && n == name@ {
                    let k = position_in(before.entry_list(), name@, 0)->0;
                    assert(self.entry_list()[k].0 == name@);
                }
            }
            assert forall|n: Seq<char>| #[trigger] change_in(self.changes@, n, 0) is Some implies position_in(
                self.entry_list(),
                n,
                0,
            ) is Some || string_views(self.additions@).contains(n) by {
                if n != name@ {
                    assert(self.changed(n) == before.changed(n));
                    assert(change_in(before.changes@, n, 0) is Some);
                }
            }
        }
    }

    /// Removes the file named `name`.
    pub fn remove(&mut self, name: &str)
        requires
            old(self).wf(),
        ensures
            final(self).wf(),
            final(self).contents() == old(self).contents().remove(name@),
            !final(self).reads_source(name@),
            forall|n: Seq<char>|
                #[trigger] final(self).listed().contains(n) == (n != name@ && old(self).listed().contains(n)),
            final(self).sound() == old(self).sound(),
            final(self).bytes() == old(self).bytes(),
    {
        let ghost before = *self;
        self.changes = without_change(&self.changes, name);
        if !contains_name(&self.removals, name) {
            let ghost removals_before = string_views(self.removals@);
            self.removals.push(String::from_str(name));
            assert(string_views(self.removals@) =~= removals_before.push(name@));
        }
        proof {
            assert(self.members() == before.members());
            assert(self.entry_list() == before.entry_list());
            assert forall|n: Seq<char>| n != name@ implies self.removed(n) == before.removed(n)
                && self.changed(n) == before.changed(n) by {
                if string_views(self.removals@).contains(n) {
                    let i = choose|i: int|
                        0 <= i < string_views(self.removals@).len() && #[trigger] string_views(
                            self.removals@,
                        )[i] == n;
                    if i < string_views(before.removals@).len() {
                        assert(string_views(before.removals@)[i] == n);
                    }
                }
                if string_views(before.removals@).contains(n) {
                    let i = choose|i: int|
                        0 <= i < string_views(before.removals@).len() && #[trigger] string_views(
                            before.removals@,
                        )[i] == n;
                    assert(string_views(self.removals@)[i] == n);
                }
            }
            assert(self.removed(name@)) by {
                if !string_views(before.removals@).contains(name@) {
                    assert(string_views(self.removals@).last() == name@);
                }
            }
            assert(self.contents() =~= before.contents().remove(name@));
            assert(self.additions == before.additions);
            assert forall|n: Seq<char>| #[trigger] self.listed().contains(n) == (n != name@
                && before.listed().contains(n)) by {
                lemma_listed_contains(*self, n);
                lemma_listed_contains(before, n);
            }
            assert forall|n: Seq<char>| #[trigger] change_in(self.changes@, n, 0) is Some implies position_in(
                self.entry_list(),
                n,
                0,
            ) is Some || string_views(self.additions@).contains(n) by {
                assert(change_content(self.changes@, n) is Some);
                assert(n != name@);
                assert(change_content(before.changes@, n) is Some);
            }
        }
    }

    /// The names of the archive in order: source members first, then added
    /// files; removed ones left out.
    pub fn names(&self) -> (r: Vec<String>)
        ensures
            string_views(r@) == self.listed(),
    {
        let mut result: Vec<String> = Vec::new();
        let mut i: usize = 0;
        while i < self.entries.len()
            invariant
                0 <= i <= self.entries@.len(),
                string_views(result@) == listed_entries(self.entry_list().take(i as int), *self),
            decreases self.entries@.len() - i,
        {
            let ghost before = string_views(result@);
            proof {
                assert(self.entry_list().take(i + 1).drop_last() =~= self.entry_list().take(
                    i as int,
                ));
            }
            if !self.is_removed(self.entries[i].name.as_str()) {
                result.push(self.entries[i].name.clone());
                assert(string_views(result@) =~= before.push(self.entries@[i as int].name@));
            }
            i = i + 1;
        }
        assert(self.entry_list().take(self.entries@.len() as int) =~= self.entry_list());
        let ghost first = string_views(result@);
        let mut j: usize = 0;
        while j < self.additions.len()
            invariant
                0 <= j <= self.additions@.len(),
                first == listed_entries(self.entry_list(), *self),
                string_views(result@) == first + listed_additions(
                    string_views(self.additions@).take(j as int),
                    *self,
                ),
            decreases self.additions@.len() - j,
        {
            let ghost before = string_views(result@);
            proof {
                let v = string_views(self.additions@);
                assert(v.take(j + 1).drop_last() =~= v.take(j as int));
                assert(v.take(j + 1).last() == self.additions@[j as int]@);
            }
            if !self.is_removed(self.additions[j].as_str()) {
                result.push(self.additions[j].clone());
                assert(string_views(result@) =~= before.push(self.additions@[j as int]@));
            }
            j = j + 1;
        }
        assert(string_views(self.additions@).take(self.additions@.len() as int) =~= string_views(
            self.additions@,
        ));
        result
    }

    /// The finished archive: `mimetype` first and stored uncompressed, then
    /// the source members in their order (replaced ones with their new
    /// content, the others copied as they are), then the added files;
    /// removed files left out. A member name longer than 65535 bytes, which
    /// the ZIP format cannot hold, is refused with `InvalidArchive`.
    #[verifier::spinoff_prover]
    #[verifier::rlimit(80)]
    pub fn finish(self) -> (r: Result<Vec<u8>, Error>)
        requires
            self.wf(),
        ensures
            self.writable() ==> r is Ok,
            r matches Ok(bytes) ==> exists|w: ArchiveWriter|
                zip_written(w) == self.output_members() && bytes@ == zip_bytes(w),
            self.writable() ==> (r matches Ok(bytes) ==> zip_opens(bytes@) && zip_archive_members(
                bytes@,
            ) == read_back(self.output_members())),
            r matches Err(e) ==> e is Zip || e is Io || (e is InvalidArchive
                && !self.member_names_fit()),
    {
        let mut archive = self;
        let ghost unfinished = archive;
        let mut writer = zip_writer();
        let mimetype: [u8; 20] = [
            97,
            112,
            112,
            108,
            105,
            99,
            97,
            116,
            105,
            111,
            110,
            47,
            101,
            112,
            117,
            98,
            43,
            122,
            105,
            112,
        ];
        proof {
            reveal_strlit("application/epub+zip");
            reveal_strlit("mimetype");
            assert(mimetype@ =~= mimetype_content());
            assert(encode_utf8(mimetype_name()).len() <= 0xFFFF) by {
                assert(vstd::utf8::is_ascii_chars(mimetype_name()));
                vstd::utf8::is_ascii_chars_encode_utf8(mimetype_name());
            }
            lemma_entry_names(unfinished);
        }
        zip_add_stored(&mut writer, "mimetype", mimetype.as_slice())?;
        let mut i: usize = 0;
        while i < archive.entries.len()
            invariant
                archive.entries == unfinished.entries,
                archive.changes == unfinished.changes,
                archive.additions == unfinished.additions,
                archive.removals == unfinished.removals,
                archive.members() == unfinished.members(),
                archive.bytes() == unfinished.bytes(),
                unfinished == self,
                unfinished.wf(),
                0 <= i <= archive.entries@.len(),
                zip_written(writer) == seq![(mimetype_name(), mimetype_content(), Storage::Stored)]
                    + output_entries(unfinished.entry_list().take(i as int), unfinished),
                unfinished.writable() ==> written_fit(zip_written(writer)),
                forall|j: int| 0 <= j < archive.entries@.len() ==> #[trigger] unfinished.entry_list()[j]
                    == entry_view(unfinished.entries@[j]),
                forall|j: int, k: int|
                    0 <= j < k < archive.entries@.len() ==> (#[trigger] unfinished.entry_list()[j]).0
                        != (#[trigger] unfinished.entry_list()[k]).0,
                unfinished.entry_list().len() == archive.entries@.len(),
            decreases archive.entries@.len() - i,
        {
            let ghost before = zip_written(writer);
            proof {
                assert(unfinished.entry_list().take(i + 1).drop_last() =~= unfinished.entry_list().take(
                    i as int,
                ));
                assert(unfinished.entry_list()[i as int] == entry_view(unfinished.entries@[i as int]));
                reveal_strlit("mimetype");
                lemma_output_entries_prefix(unfinished, i as int);
                let out = output_entries(unfinished.entry_list().take(i as int), unfinished);
                let name_i = unfinished.entry_list()[i as int].0;
                if name_i != mimetype_name() {
                    assert forall|k: int| 0 <= k < before.len() implies (#[trigger] before[k]).0
                        != name_i by {
                        if k > 0 {
                            assert(before[k] == out[k - 1]);
                            let j = choose|j: int|
                                0 <= j < i && (#[trigger] out[k - 1]).0
                                    == #[trigger] unfinished.entry_list()[j].0;
                        }
                    }
                }
                if unfinished.writable() {
                    assert(entry_writable(unfinished, unfinished.entry_list()[i as int]));
                }
            }
            let name = archive.entries[i].name.as_str();
            proof {
                assert(unfinished.writable() ==> entry_writable(unfinished, unfinished.entry_list()[i as int]));
            }
            if !(str_eq(name, "mimetype") || archive.is_removed(name)) {
                assert(name@ == unfinished.entry_list()[i as int].0);
                assert(!written_name(before, name@));
                if name.as_bytes().len() > 0xFFFF {
                    assert(!entry_name_fits(unfinished, unfinished.entry_list()[i as int]));
                    assert(!entry_writable(unfinished, unfinished.entry_list()[i as int]));
                    return Err(Error::InvalidArchive(String::from_str(NAME_TOO_LONG)));
                }
                match archive.find_change(name) {
                    Some(k) => {
                        assert(unfinished.changed(name@) == Some(archive.changes@[k as int].1@));
                        let added = zip_add_deflated(
                            &mut writer,
                            name,
                            archive.changes[k].1.as_slice(),
                            COMPRESSION_LEVEL,
                        );
                        if added.is_err() {
                            return Err(added.unwrap_err());
                        }
                    },
                    None => {
                        let index = archive.entries[i].source_index;
                        assert(unfinished.changed(name@) is None);
                        assert(unfinished.entry_list()[i as int].1 == index as int);
                        assert(archive.members()[index as int].0 == name@);
                        assert(zip_source(archive.source) == unfinished.bytes());
                        let copied = zip_copy(&mut writer, &mut archive.source, index);
                        if copied.is_err() {
                            return Err(copied.unwrap_err());
                        }
                    },
                }
            }
            i = i + 1;
        }
        proof {
            assert(unfinished.entry_list().take(archive.entries@.len() as int)
                =~= unfinished.entry_list());
            lemma_output_entries_prefix(unfinished, archive.entries@.len() as int);
        }
        let mut j: usize = 0;
        while j < archive.additions.len()
            invariant
                archive.changes == unfinished.changes,
                archive.additions == unfinished.additions,
                archive.removals == unfinished.removals,
                unfinished == self,
                unfinished.wf(),
                0 <= j <= archive.additions@.len(),
                zip_written(writer) == seq![(mimetype_name(), mimetype_content(), Storage::Stored)]
                    + output_entries(unfinished.entry_list(), unfinished) + output_additions(
                    string_views(unfinished.additions@).take(j as int),
                    unfinished,
                ),
                unfinished.writable() ==> written_fit(zip_written(writer)),
                forall|k: int|
                    0 <= k < output_entries(unfinished.entry_list(), unfinished).len() ==> exists|x: int|
                        0 <= x < unfinished.entries@.len() && (#[trigger] output_entries(
                            unfinished.entry_list(),
                            unfinished,
                        )[k]).0 == #[trigger] unfinished.entry_list()[x].0,
                forall|x: int| 0 <= x < unfinished.entries@.len() ==> #[trigger] unfinished.entry_list()[x]
                    == entry_view(unfinished.entries@[x]),
            decreases archive.additions@.len() - j,
        {
            let ghost before = zip_written(writer);
            proof {
                let v = string_views(unfinished.additions@);
                assert(v.take(j + 1).drop_last() =~= v.take(j as int));
                assert(v.take(j + 1).last() == unfinished.additions@[j as int]@);
                reveal_strlit("mimetype");
                lemma_output_additions_prefix(unfinished, j as int);
                let oe = output_entries(unfinished.entry_list(), unfinished);
                let oa = output_additions(v.take(j as int), unfinished);
                let name_j = unfinished.additions@[j as int]@;
                assert(v[j as int] == name_j);
                if name_j != mimetype_name() {
                    assert forall|k: int| 0 <= k < before.len() implies (#[trigger] before[k]).0
                        != name_j by {
                        if 1 <= k < 1 + oe.len() {
                            assert(before[k] == oe[k - 1]);
                            let x = choose|x: int|
                                0 <= x < unfinished.entries@.len() && (#[trigger] oe[k - 1]).0
                                    == #[trigger] unfinished.entry_list()[x].0;
                            assert(unfinished.entry_list()[x].0 == unfinished.entries@[x].name@);
                        } else if k >= 1 + oe.len() {
                            assert(before[k] == oa[k - 1 - oe.len()]);
                            let y = choose|y: int|
                                0 <= y < j && (#[trigger] oa[k - 1 - oe.len()]).0 == #[trigger] v[y];
                            assert(v[y] == unfinished.additions@[y]@);
                        }
                    }
                }
                if unfinished.writable() {
                    assert(addition_writable(unfinished, unfinished.additions@[j as int]@));
                }
            }
            let name = archive.additions[j].as_str();
            proof {
                assert(unfinished.writable() ==> addition_writable(unfinished, unfinished.additions@[j as int]@));
            }
            if !(str_eq(name, "mimetype") || archive.is_removed(name)) {
                assert(!written_name(before, name@));
                match archive.find_change(name) {
                    Some(k) => {
                        if name.as_bytes().len() > 0xFFFF {
                            assert(!addition_name_fits(unfinished, unfinished.additions@[j as int]@));
                            assert(!addition_writable(unfinished, unfinished.additions@[j as int]@));
                            return Err(Error::InvalidArchive(String::from_str(NAME_TOO_LONG)));
                        }
                        assert(unfinished.changed(name@) == Some(archive.changes@[k as int].1@));
                        let added = zip_add_deflated(
                            &mut writer,
                            name,
                            archive.changes[k].1.as_slice(),
                            COMPRESSION_LEVEL,
                        );
                        if added.is_err() {
                            return Err(added.unwrap_err());
                        }
                    },
                    None => {},
                }
            }
            j = j + 1;
        }
        proof {
            assert(string_views(unfinished.additions@).take(unfinished.additions@.len() as int)
                =~= string_views(unfinished.additions@));
        }
        let ghost w = writer;
        assert(zip_written(w) == unfinished.output_members());
        let bytes = zip_finish(writer)?;
        assert(bytes@ == zip_bytes(w));
        Ok(bytes)
    }
}

/// A file that a writer without the large-file option takes: a name of at
/// most 65535 bytes and content under 2 GiB.
pub open spec fn file_fits(name: Seq<char>, content: Seq<u8>) -> bool {
    encode_utf8(name).len() <= 0xFFFF && content.len() < 0x8000_0000
}

/// Every file within the writer's limits.
pub open spec fn files_fit(files: Map<Seq<char>, Seq<u8>>) -> bool {
    forall|name: Seq<char>| #[trigger] files.contains_key(name) ==> file_fits(name, files[name])
}

/// Every member name of the archive in `bytes` is at most 65535 bytes long.
pub open spec fn names_fit(bytes: Seq<u8>) -> bool {
    forall|i: int|
        0 <= i < zip_archive_members(bytes).len() ==> encode_utf8(
            (#[trigger] zip_archive_members(bytes)[i]).0,
        ).len() <= 0xFFFF
}

/// An archive whose source members can be read and copied, whose source
/// names and files are within the writer's limits, can be written.
pub proof fn lemma_writable(a: Archive)
    requires
        a.wf(),
        a.sound(),
        names_fit(a.bytes()),
        files_fit(a.contents()),
    ensures
        a.writable(),
        a.member_names_fit(),
{
    lemma_entry_names(a);
    assert forall|i: int| 0 <= i < a.entry_list().len() implies entry_writable(
        a,
        #[trigger] a.entry_list()[i],
    ) by {
        let (name, index, _) = a.entry_list()[i];
        assert(a.entry_list()[i] == entry_view(a.entries@[i]));
        assert(a.members()[index].0 == name);
        assert(zip_archive_members(a.bytes())[index].0 == name);
        if !(name == mimetype_name() || a.removed(name)) {
            if a.changed(name) is Some {
                assert(a.contents().contains_key(name));
            }
        }
    }
    assert forall|j: int| 0 <= j < a.additions@.len() implies addition_writable(
        a,
        (#[trigger] a.additions@[j])@,
    ) by {
        let name = a.additions@[j]@;
        if !(name == mimetype_name() || a.removed(name)) && a.changed(name) is Some {
            assert(a.contents().contains_key(name));
        }
    }
    assert forall|i: int| 0 <= i < a.entry_list().len() implies entry_name_fits(
        a,
        #[trigger] a.entry_list()[i],
    ) by {
        assert(entry_writable(a, a.entry_list()[i]));
    }
    assert forall|j: int| 0 <= j < a.additions@.len() implies addition_name_fits(
        a,
        (#[trigger] a.additions@[j])@,
    ) by {
        assert(addition_writable(a, a.additions@[j]@));
    }
}

/// An entry that is left out, or whose name is at most 65535 bytes long.
pub closed spec fn entry_name_fits(a: Archive, entry: (Seq<char>, int, bool)) -> bool {
    entry.0 == mimetype_name() || a.removed(entry.0) || encode_utf8(entry.0).len() <= 0xFFFF
}

/// An added file that is left out, or whose name is at most 65535 bytes
/// long.
pub closed spec fn addition_name_fits(a: Archive, name: Seq<char>) -> bool {
    name == mimetype_name() || a.removed(name) || a.changed(name) is None || encode_utf8(name).len()
        <= 0xFFFF
}

/// An entry that is left out, or whose member is within the writer's limits
/// and, when copied, copyable.
pub closed spec fn entry_writable(a: Archive, entry: (Seq<char>, int, bool)) -> bool {
    let (name, index, _) = entry;
    name == mimetype_name() || a.removed(name) || match a.changed(name) {
        Some(content) => member_fits((name, content, Storage::Deflated(COMPRESSION_LEVEL))),
        None => member_fits((name, a.members()[index].2, Storage::Copied)) && zip_entry_copies(
            a.bytes(),
            index,
        ),
    }
}

/// An added file that is left out, or whose member is within the writer's
/// limits.
pub closed spec fn addition_writable(a: Archive, name: Seq<char>) -> bool {
    name == mimetype_name() || a.removed(name) || match a.changed(name) {
        Some(content) => member_fits((name, content, Storage::Deflated(COMPRESSION_LEVEL))),
        None => true,
    }
}

/// The names of the entries that are not removed.
pub closed spec fn listed_entries(entries: Seq<(Seq<char>, int, bool)>, a: Archive) -> Seq<
    Seq<char>,
>
    decreases entries.len(),
{
    if entries.len() == 0 {
        seq![]
    } else {
        let init = listed_entries(entries.drop_last(), a);
        if a.removed(entries.last().0) {
            init
        } else {
            init.push(entries.last().0)
        }
    }
}

/// The added names that are not removed.
pub closed spec fn listed_additions(additions: Seq<Seq<char>>, a: Archive) -> Seq<Seq<char>>
    decreases additions.len(),
{
    if additions.len() == 0 {
        seq![]
    } else {
        let init = listed_additions(additions.drop_last(), a);
        if a.removed(additions.last()) {
            init
        } else {
            init.push(additions.last())
        }
    }
}

/// What the finished archive holds for the source entries: replaced ones
/// compressed anew, the others copied as they are.
pub closed spec fn output_entries(entries: Seq<(Seq<char>, int, bool)>, a: Archive) -> Seq<
    (Seq<char>, Seq<u8>, Storage),
>
    decreases entries.len(),
{
    if entries.len() == 0 {
        seq![]
    } else {
        let init = output_entries(entries.drop_last(), a);
        let (name, index, _) = entries.last();
        if name == mimetype_name() || a.removed(name) {
            init
        } else {
            match a.changed(name) {
                Some(content) => init.push((name, content, Storage::Deflated(COMPRESSION_LEVEL))),
                None => init.push((name, a.members()[index].2, Storage::Copied)),
            }
        }
    }
}

/// What the finished archive holds for the added files.
pub closed spec fn output_additions(additions: Seq<Seq<char>>, a: Archive) -> Seq<
    (Seq<char>, Seq<u8>, Storage),
>
    decreases additions.len(),
{
    if additions.len() == 0 {
        seq![]
    } else {
        let init = output_additions(additions.drop_last(), a);
        let name = additions.last();
        if name == mimetype_name() || a.removed(name) {
            init
        } else {
            match a.changed(name) {
                Some(content) => init.push((name, content, Storage::Deflated(COMPRESSION_LEVEL))),
                None => init,
            }
        }
    }
}

proof fn lemma_listed_entries_contains(entries: Seq<(Seq<char>, int, bool)>, a: Archive, n: Seq<char>)
    ensures
        listed_entries(entries, a).contains(n) <==> !a.removed(n) && exists|j: int|
            0 <= j < entries.len() && (#[trigger] entries[j]).0 == n,
    decreases entries.len(),
{
    if entries.len() > 0 {
        let init = entries.drop_last();
        lemma_listed_entries_contains(init, a, n);
        let l = listed_entries(init, a);
        if listed_entries(entries, a).contains(n) {
            if l.contains(n) {
                let j = choose|j: int| 0 <= j < init.len() && (#[trigger] init[j]).0 == n;
                assert(entries[j] == init[j]);
            } else {
                let k = choose|k: int| 0 <= k < listed_entries(entries, a).len() && listed_entries(entries, a)[k] == n;
                assert(k == l.len());
                assert(entries[entries.len() - 1].0 == n);
            }
        }
        if !a.removed(n) && exists|j: int| 0 <= j < entries.len() && (#[trigger] entries[j]).0 == n {
            let j = choose|j: int| 0 <= j < entries.len() && (#[trigger] entries[j]).0 == n;
            if j < entries.len() - 1 {
                assert(init[j] == entries[j]);
                let k = choose|k: int| 0 <= k < l.len() && l[k] == n;
                assert(listed_entries(entries, a)[k] == n);
            } else {
                assert(listed_entries(entries, a) == l.push(n));
                assert(listed_entries(entries, a)[l.len() as int] == n);
            }
        }
    }
}

proof fn lemma_listed_additions_contains(adds: Seq<Seq<char>>, a: Archive, n: Seq<char>)
    ensures
        listed_additions(adds, a).contains(n) <==> !a.removed(n) && adds.contains(n),
    decreases adds.len(),
{
    if adds.len() > 0 {
        let init = adds.drop_last();
        lemma_listed_additions_contains(init, a, n);
        let l = listed_additions(init, a);
        if listed_additions(adds, a).contains(n) {
            if l.contains(n) {
                let j = choose|j: int| 0 <= j < init.len() && init[j] == n;
                assert(adds[j] == n);
            } else {
                let k = choose|k: int| 0 <= k < listed_additions(adds, a).len() && listed_additions(adds, a)[k] == n;
                assert(k == l.len());
                assert(adds[adds.len() - 1] == n);
            }
        }
        if !a.removed(n) && adds.contains(n) {
            let j = choose|j: int| 0 <= j < adds.len() && adds[j] == n;
            if j < adds.len() - 1 {
                assert(init[j] == n);
                let k = choose|k: int| 0 <= k < l.len() && l[k] == n;
                assert(listed_additions(adds, a)[k] == n);
            } else {
                assert(listed_additions(adds, a) == l.push(n));
                assert(listed_additions(adds, a)[l.len() as int] == n);
            }
        }
    }
}

/// A name is listed when it is not removed and is an entry or an added file.
proof fn lemma_listed_contains(a: Archive, n: Seq<char>)
    ensures
        a.listed().contains(n) <==> !a.removed(n) && ((exists|j: int|
            0 <= j < a.entry_list().len() && (#[trigger] a.entry_list()[j]).0 == n) || string_views(
            a.additions@,
        ).contains(n)),
{
    let x = listed_entries(a.entry_list(), a);
    let y = listed_additions(string_views(a.additions@), a);
    lemma_listed_entries_contains(a.entry_list(), a, n);
    lemma_listed_additions_contains(string_views(a.additions@), a, n);
    if a.listed().contains(n) {
        let k = choose|k: int| 0 <= k < a.listed().len() && a.listed()[k] == n;
        if k < x.len() {
            assert(x[k] == n);
        } else {
            assert(y[k - x.len()] == n);
        }
    }
    if x.contains(n) {
        let k = choose|k: int| 0 <= k < x.len() && x[k] == n;
        assert(a.listed()[k] == n);
    }
    if y.contains(n) {
        let k = choose|k: int| 0 <= k < y.len() && y[k] == n;
        assert(a.listed()[k + x.len()] == n);
    }
}

proof fn lemma_listed_entries_distinct(entries: Seq<(Seq<char>, int, bool)>, a: Archive)
    requires
        forall|i: int, j: int| 0 <= i < j < entries.len() ==> (#[trigger] entries[i]).0 != (#[trigger] entries[j]).0,
    ensures
        forall|i: int, j: int|
            0 <= i < j < listed_entries(entries, a).len() ==> (#[trigger] listed_entries(entries, a)[i])
                != (#[trigger] listed_entries(entries, a)[j]),
    decreases entries.len(),
{
    if entries.len() > 0 {
        let init = entries.drop_last();
        assert forall|i: int, j: int| 0 <= i < j < init.len() implies (#[trigger] init[i]).0 != (
        #[trigger] init[j]).0 by {
            assert(init[i] == entries[i] && init[j] == entries[j]);
        }
        lemma_listed_entries_distinct(init, a);
        let l = listed_entries(init, a);
        let out = listed_entries(entries, a);
        let last = entries[entries.len() - 1].0;
        assert forall|i: int, j: int| 0 <= i < j < out.len() implies (#[trigger] out[i]) != (
        #[trigger] out[j]) by {
            if j == l.len() {
                assert(out[i] == l[i]);
                assert(out[j] == last);
                lemma_listed_entries_contains(init, a, l[i]);
                assert(l.contains(l[i]));
                let k = choose|k: int| 0 <= k < init.len() && (#[trigger] init[k]).0 == l[i];
                assert(init[k] == entries[k]);
            } else {
                assert(out[i] == l[i] && out[j] == l[j]);
            }
        }
    }
}

proof fn lemma_listed_additions_distinct(adds: Seq<Seq<char>>, a: Archive)
    requires
        forall|i: int, j: int| 0 <= i < j < adds.len() ==> (#[trigger] adds[i]) != (#[trigger] adds[j]),
    ensures
        forall|i: int, j: int|
            0 <= i < j < listed_additions(adds, a).len() ==> (#[trigger] listed_additions(adds, a)[i])
                != (#[trigger] listed_additions(adds, a)[j]),
    decreases adds.len(),
{
    if adds.len() > 0 {
        let init = adds.drop_last();
        assert forall|i: int, j: int| 0 <= i < j < init.len() implies (#[trigger] init[i]) != (
        #[trigger] init[j]) by {
            assert(init[i] == adds[i] && init[j] == adds[j]);
        }
        lemma_listed_additions_distinct(init, a);
        let l = listed_additions(init, a);
        let out = listed_additions(adds, a);
        let last = adds[adds.len() - 1];
        assert forall|i: int, j: int| 0 <= i < j < out.len() implies (#[trigger] out[i]) != (
        #[trigger] out[j]) by {
            if j == l.len() {
                assert(out[i] == l[i]);
                assert(out[j] == last);
                lemma_listed_additions_contains(init, a, l[i]);
                assert(l.contains(l[i]));
                let k = choose|k: int| 0 <= k < init.len() && init[k] == l[i];
                assert(init[k] == adds[k]);
            } else {
                assert(out[i] == l[i] && out[j] == l[j]);
            }
        }
    }
}

/// Law: the names of an archive list each name once.
pub proof fn lemma_names_once(a: Archive)
    requires
        a.wf(),
    ensures
        forall|i: int, j: int| 0 <= i < j < a.listed().len() ==> (#[trigger] a.listed()[i]) != (
        #[trigger] a.listed()[j]),
{
    lemma_entry_names(a);
    let adds = string_views(a.additions@);
    assert forall|i: int, j: int| 0 <= i < j < adds.len() implies (#[trigger] adds[i]) != (
    #[trigger] adds[j]) by {
        assert(adds[i] == a.additions@[i]@ && adds[j] == a.additions@[j]@);
    }
    lemma_listed_entries_distinct(a.entry_list(), a);
    lemma_listed_additions_distinct(adds, a);
    let x = listed_entries(a.entry_list(), a);
    let y = listed_additions(adds, a);
    let l = a.listed();
    assert forall|i: int, j: int| 0 <= i < j < l.len() implies (#[trigger] l[i]) != (#[trigger] l[j]) by {
        if j < x.len() {
            assert(l[i] == x[i] && l[j] == x[j]);
        } else if i >= x.len() {
            assert(l[i] == y[i - x.len()] && l[j] == y[j - x.len()]);
        } else {
            assert(l[i] == x[i] && l[j] == y[j - x.len()]);
            lemma_listed_entries_contains(a.entry_list(), a, x[i]);
            lemma_listed_additions_contains(adds, a, y[j - x.len()]);
            assert(x.contains(x[i]));
            assert(y.contains(y[j - x.len()]));
            let k = choose|k: int| 0 <= k < a.entry_list().len() && (#[trigger] a.entry_list()[k]).0 == x[i];
            let m = choose|m: int| 0 <= m < adds.len() && adds[m] == y[j - x.len()];
            assert(a.entry_list()[k].0 == a.entries@[k].name@);
            assert(adds[m] == a.additions@[m]@);
        }
    }
}

/// How the finished archive holds a member: copied exactly when its file
/// was not set since the archive was read, else compressed anew.
pub open spec fn stored_as_set(a: Archive, member: (Seq<char>, Seq<u8>, Storage)) -> bool {
    &&& (member.2 is Copied <==> a.changed(member.0) is None)
    &&& !(member.2 is Copied) ==> member.2 == Storage::Deflated(COMPRESSION_LEVEL)
}

proof fn lemma_output_entries_storage(entries: Seq<(Seq<char>, int, bool)>, a: Archive)
    ensures
        forall|k: int|
            0 <= k < output_entries(entries, a).len() ==> stored_as_set(
                a,
                #[trigger] output_entries(entries, a)[k],
            ),
    decreases entries.len(),
{
    if entries.len() > 0 {
        lemma_output_entries_storage(entries.drop_last(), a);
        let init = output_entries(entries.drop_last(), a);
        let out = output_entries(entries, a);
        assert forall|k: int| 0 <= k < out.len() implies stored_as_set(a, #[trigger] out[k]) by {
            if k < init.len() {
                assert(out[k] == init[k]);
            }
        }
    }
}

proof fn lemma_output_additions_storage(additions: Seq<Seq<char>>, a: Archive)
    ensures
        forall|k: int|
            0 <= k < output_additions(additions, a).len() ==> stored_as_set(
                a,
                #[trigger] output_additions(additions, a)[k],
            ),
    decreases additions.len(),
{
    if additions.len() > 0 {
        lemma_output_additions_storage(additions.drop_last(), a);
        let init = output_additions(additions.drop_last(), a);
        let out = output_additions(additions, a);
        assert forall|k: int| 0 <= k < out.len() implies stored_as_set(a, #[trigger] out[k]) by {
            if k < init.len() {
                assert(out[k] == init[k]);
            }
        }
    }
}

/// A member of the source archive with this name and content.
pub open spec fn from_source(bytes: Seq<u8>, member: (Seq<char>, Seq<u8>, Storage)) -> bool {
    exists|i: int|
        0 <= i < zip_archive_members(bytes).len() && (#[trigger] zip_archive_members(bytes)[i]).0
            == member.0 && zip_archive_members(bytes)[i].2 == member.1
}

proof fn lemma_output_entries_copied(entries: Seq<(Seq<char>, int, bool)>, a: Archive)
    requires
        a.wf(),
        forall|j: int|
            0 <= j < entries.len() ==> 0 <= (#[trigger] entries[j]).1 < a.members().len()
                && a.members()[entries[j].1].0 == entries[j].0,
    ensures
        forall|k: int|
            0 <= k < output_entries(entries, a).len() && (#[trigger] output_entries(entries, a)[k]).2 is Copied
                ==> from_source(a.bytes(), output_entries(entries, a)[k]),
    decreases entries.len(),
{
    if entries.len() > 0 {
        let init = entries.drop_last();
        assert forall|j: int| 0 <= j < init.len() implies 0 <= (#[trigger] init[j]).1 < a.members().len()
            && a.members()[init[j].1].0 == init[j].0 by {
            assert(init[j] == entries[j]);
        }
        lemma_output_entries_copied(init, a);
        let before = output_entries(init, a);
        let out = output_entries(entries, a);
        let last = entries[entries.len() - 1];
        assert forall|k: int| 0 <= k < out.len() && (#[trigger] out[k]).2 is Copied implies from_source(
            a.bytes(),
            out[k],
        ) by {
            if k < before.len() {
                assert(out[k] == before[k]);
            } else {
                assert(out[k] == (last.0, a.members()[last.1].2, Storage::Copied));
                assert(zip_archive_members(a.bytes())[last.1] == a.members()[last.1]);
            }
        }
    }
}

/// Law: each member of the finished archive that is copied is a member of
/// the source archive, with its name and content.
pub proof fn lemma_copied_from_source(a: Archive)
    requires
        a.wf(),
    ensures
        forall|k: int|
            0 <= k < a.output_members().len() && (#[trigger] a.output_members()[k]).2 is Copied
                ==> from_source(a.bytes(), a.output_members()[k]),
{
    lemma_entry_names(a);
    assert forall|j: int| 0 <= j < a.entry_list().len() implies 0 <= (#[trigger] a.entry_list()[j]).1
        < a.members().len() && a.members()[a.entry_list()[j].1].0 == a.entry_list()[j].0 by {
        assert(a.entry_list()[j] == entry_view(a.entries@[j]));
    }
    lemma_output_entries_copied(a.entry_list(), a);
    lemma_output_additions_storage(string_views(a.additions@), a);
    let oe = output_entries(a.entry_list(), a);
    let oa = output_additions(string_views(a.additions@), a);
    let out = a.output_members();
    assert(out =~= seq![(mimetype_name(), mimetype_content(), Storage::Stored)] + oe + oa);
    assert forall|k: int| 0 <= k < out.len() && (#[trigger] out[k]).2 is Copied implies from_source(
        a.bytes(),
        out[k],
    ) by {
        if 1 <= k < 1 + oe.len() {
            assert(out[k] == oe[k - 1]);
        } else if k >= 1 + oe.len() {
            assert(out[k] == oa[k - 1 - oe.len()]);
            assert(stored_as_set(a, oa[k - 1 - oe.len()]));
            assert(a.changed(oa[k - 1 - oe.len()].0) is Some) by {
                lemma_output_additions_changed(string_views(a.additions@), a);
            }
        }
    }
}

proof fn lemma_output_additions_changed(additions: Seq<Seq<char>>, a: Archive)
    ensures
        forall|k: int|
            0 <= k < output_additions(additions, a).len() ==> a.changed(
                (#[trigger] output_additions(additions, a)[k]).0,
            ) is Some,
    decreases additions.len(),
{
    if additions.len() > 0 {
        lemma_output_additions_changed(additions.drop_last(), a);
        let init = output_additions(additions.drop_last(), a);
        let out = output_additions(additions, a);
        assert forall|k: int| 0 <= k < out.len() implies a.changed((#[trigger] out[k]).0) is Some by {
            if k < init.len() {
                assert(out[k] == init[k]);
            }
        }
    }
}

proof fn lemma_position_in(entries: Seq<(Seq<char>, int, bool)>, name: Seq<char>, i: int)
    requires
        0 <= i,
    ensures
        position_in(entries, name, i) matches Some(k) ==> i <= k < entries.len() && entries[k].0
            == name && forall|j: int| i <= j < k ==> (#[trigger] entries[j]).0 != name,
        position_in(entries, name, i) is None ==> forall|j: int|
            i <= j < entries.len() ==> (#[trigger] entries[j]).0 != name,
    decreases entries.len() - i,
{
    if i < entries.len() {
        lemma_position_in(entries, name, i + 1);
    }
}

proof fn lemma_position_in_at(entries: Seq<(Seq<char>, int, bool)>, name: Seq<char>, i: int, k: int)
    requires
        0 <= i <= k < entries.len(),
        entries[k].0 == name,
        forall|j: int| i <= j < k ==> (#[trigger] entries[j]).0 != name,
    ensures
        position_in(entries, name, i) == Some(k),
    decreases k - i,
{
    if i < k {
        lemma_position_in_at(entries, name, i + 1, k);
    }
}

proof fn lemma_change_in_found(changes: Seq<(String, Vec<u8>)>, name: Seq<char>, i: int)
    requires
        0 <= i,
    ensures
        change_in(changes, name, i) matches Some(k) ==> i <= k < changes.len() && changes[k].0@
            == name,
    decreases changes.len() - i,
{
    if i < changes.len() && changes[i].0@ != name {
        lemma_change_in_found(changes, name, i + 1);
    }
}

proof fn lemma_listed_fresh(entries: Seq<(Seq<char>, int, bool)>, a: Archive)
    requires
        forall|n: Seq<char>| !a.removed(n),
    ensures
        listed_entries(entries, a) == entry_names(entries),
    decreases entries.len(),
{
    if entries.len() > 0 {
        lemma_listed_fresh(entries.drop_last(), a);
        assert(entry_names(entries) =~= entry_names(entries.drop_last()).push(entries.last().0));
    }
}

proof fn lemma_same_state(a: Archive, b: Archive)
    requires
        a.entries == b.entries,
        a.changes == b.changes,
        a.additions == b.additions,
        a.removals == b.removals,
        a.members() == b.members(),
        a.bytes() == b.bytes(),
    ensures
        a.wf() == b.wf(),
        a.contents() == b.contents(),
        a.listed() == b.listed(),
        a.output_members() == b.output_members(),
        forall|n: Seq<char>| a.reads_source(n) == b.reads_source(n),
        a.sound() == b.sound(),
{
    assert(a.contents() =~= b.contents());
    lemma_same_lists(a.entry_list(), string_views(a.additions@), a, b);
}

proof fn lemma_same_lists(
    entries: Seq<(Seq<char>, int, bool)>,
    additions: Seq<Seq<char>>,
    a: Archive,
    b: Archive,
)
    requires
        a.changes == b.changes,
        a.removals == b.removals,
        a.members() == b.members(),
    ensures
        listed_entries(entries, a) == listed_entries(entries, b),
        listed_additions(additions, a) == listed_additions(additions, b),
        output_entries(entries, a) == output_entries(entries, b),
        output_additions(additions, a) == output_additions(additions, b),
    decreases entries.len() + additions.len(),
{
    if entries.len() > 0 {
        lemma_same_lists(entries.drop_last(), additions, a, b);
    }
    if additions.len() > 0 {
        lemma_same_lists(entries, additions.drop_last(), a, b);
    }
}

proof fn lemma_change_in_update(before: Seq<(String, Vec<u8>)>, after: Seq<(String, Vec<u8>)>, k: int)
    requires
        0 <= k < before.len(),
        after.len() == before.len(),
        after[k].0@ == before[k].0@,
        forall|i: int| 0 <= i < before.len() && i != k ==> after[i] == before[i],
    ensures
        forall|n: Seq<char>| change_in(after, n, 0) == change_in(before, n, 0),
{
    assert forall|n: Seq<char>| change_in(after, n, 0) == change_in(before, n, 0) by {
        lemma_change_in_same(before, after, n, 0);
    }
}

proof fn lemma_change_in_same(before: Seq<(String, Vec<u8>)>, after: Seq<(String, Vec<u8>)>, n: Seq<char>, i: int)
    requires
        0 <= i,
        after.len() == before.len(),
        forall|j: int| 0 <= j < before.len() ==> after[j].0@ == before[j].0@,
    ensures
        change_in(after, n, i) == change_in(before, n, i),
    decreases before.len() - i,
{
    if i < before.len() {
        lemma_change_in_same(before, after, n, i + 1);
    }
}

proof fn lemma_change_in_push(before: Seq<(String, Vec<u8>)>, after: Seq<(String, Vec<u8>)>, name: Seq<char>)
    requires
        change_in(before, name, 0) is None,
        after == before.push(after.last()),
        after.last().0@ == name,
    ensures
        change_in(after, name, 0) == Some(before.len() as int),
        forall|n: Seq<char>| n != name ==> change_in(after, n, 0) == change_in(before, n, 0),
{
    lemma_change_in_push_from(before, after, name, 0);
    assert forall|n: Seq<char>| n != name implies change_in(after, n, 0) == change_in(
        before,
        n,
        0,
    ) by {
        lemma_change_in_push_other(before, after, n, 0);
    }
}

proof fn lemma_change_in_push_from(before: Seq<(String, Vec<u8>)>, after: Seq<(String, Vec<u8>)>, name: Seq<char>, i: int)
    requires
        0 <= i <= before.len(),
        change_in(before, name, i) is None,
        after == before.push(after.last()),
        after.last().0@ == name,
    ensures
        change_in(after, name, i) == Some(before.len() as int),
    decreases before.len() - i,
{
    assert(after.len() == before.len() + 1);
    if i < before.len() {
        assert(after[i] == before[i]);
        lemma_change_in_push_from(before, after, name, i + 1);
    } else {
        assert(after[i] == after.last());
    }
}

proof fn lemma_change_in_push_other(before: Seq<(String, Vec<u8>)>, after: Seq<(String, Vec<u8>)>, n: Seq<char>, i: int)
    requires
        0 <= i <= before.len(),
        after == before.push(after.last()),
        after.last().0@ != n,
    ensures
        change_in(after, n, i) == change_in(before, n, i),
    decreases before.len() - i,
{
    assert(after.len() == before.len() + 1);
    if i < before.len() {
        assert(after[i] == before[i]);
        lemma_change_in_push_other(before, after, n, i + 1);
    } else {
        assert(after[i] == after.last());
    }
}

/// Whether `names` holds `name`.
fn contains_name(names: &Vec<String>, name: &str) -> (r: bool)
    ensures
        r == string_views(names@).contains(name@),
{
    let mut i: usize = 0;
    while i < names.len()
        invariant
            0 <= i <= names@.len(),
            forall|k: int| 0 <= k < i ==> names@[k]@ != name@,
        decreases names@.len() - i,
    {
        if str_eq(names[i].as_str(), name) {
            assert(string_views(names@)[i as int] == name@);
            return true;
        }
        i = i + 1;
    }
    assert forall|k: int| 0 <= k < string_views(names@).len() implies string_views(names@)[k]
        != name@ by {
        assert(string_views(names@)[k] == names@[k]@);
    }
    false
}

/// `names` without `name`.
fn without_name(names: &Vec<String>, name: &str) -> (r: Vec<String>)
    ensures
        forall|n: Seq<char>|
            string_views(r@).contains(n) == (string_views(names@).contains(n) && n != name@),
{
    let mut result: Vec<String> = Vec::new();
    let mut i: usize = 0;
    while i < names.len()
        invariant
            0 <= i <= names@.len(),
            forall|n: Seq<char>|
                string_views(result@).contains(n) == (string_views(names@).take(i as int).contains(n)
                    && n != name@),
        decreases names@.len() - i,
    {
        let ghost before = string_views(result@);
        let ghost v = string_views(names@);
        assert(v.take(i + 1) =~= v.take(i as int).push(names@[i as int]@));
        if !str_eq(names[i].as_str(), name) {
            result.push(names[i].clone());
            assert(string_views(result@) =~= before.push(names@[i as int]@));
        }
        proof {
            assert forall|n: Seq<char>|
                string_views(result@).contains(n) == (v.take(i + 1).contains(n) && n != name@) by {
                if v.take(i + 1).contains(n) && n != name@ {
                    let k = choose|k: int| 0 <= k < v.take(i + 1).len() && #[trigger] v.take(i + 1)[k] == n;
                    if k < i {
                        assert(v.take(i as int)[k] == n);
                    } else {
                        assert(string_views(result@).last() == n);
                    }
                }
                if string_views(result@).contains(n) && !before.contains(n) {
                    assert(n == names@[i as int]@);
                    assert(v.take(i + 1)[i as int] == n);
                }
                if before.contains(n) {
                    let k = choose|k: int| 0 <= k < before.len() && #[trigger] before[k] == n;
                    assert(string_views(result@)[k] == n);
                    let k2 = choose|k2: int| 0 <= k2 < v.take(i as int).len() && #[trigger] v.take(i as int)[k2] == n;
                    assert(v.take(i + 1)[k2] == n);
                }
            }
        }
        i = i + 1;
    }
    assert(string_views(names@).take(names@.len() as int) =~= string_views(names@));
    result
}

/// `changes` without any change to `name`.
fn without_change(changes: &Vec<(String, Vec<u8>)>, name: &str) -> (r: Vec<(String, Vec<u8>)>)
    ensures
        change_in(r@, name@, 0) is None,
        forall|n: Seq<char>|
            n != name@ ==> #[trigger] change_content(r@, n) == change_content(changes@, n),
{
    let mut result: Vec<(String, Vec<u8>)> = Vec::new();
    let mut i: usize = 0;
    while i < changes.len()
        invariant
            0 <= i <= changes@.len(),
            change_in(result@, name@, 0) is None,
            forall|n: Seq<char>|
                n != name@ ==> #[trigger] change_content(result@, n) == change_content(
                    changes@.take(i as int),
                    n,
                ),
        decreases changes@.len() - i,
    {
        let ghost before = result@;
        let ghost pre = changes@.take(i as int);
        let ghost post = changes@.take(i + 1);
        assert(post =~= pre.push(changes@[i as int]));
        let keep = !str_eq(changes[i].0.as_str(), name);
        if keep {
            let entry = (changes[i].0.clone(), changes[i].1.clone());
            assert(entry.1@ =~= changes@[i as int].1@);
            result.push(entry);
            proof {
                lemma_change_in_push_other(before, result@, name@, 0);
            }
        }
        proof {
            assert forall|n: Seq<char>| n != name@ implies #[trigger] change_content(result@, n)
                == change_content(post, n) by {
                assert(change_content(before, n) == change_content(pre, n));
                lemma_change_in_found(before, n, 0);
                lemma_change_in_found(pre, n, 0);
                if !keep {
                    lemma_change_in_push_other(pre, post, n, 0);
                    if let Some(k) = change_in(pre, n, 0) {
                        assert(post[k] == pre[k]);
                    }
                } else if changes@[i as int].0@ == n {
                    if change_in(pre, n, 0) is Some {
                        lemma_change_in_push_keep(pre, post, n, 0);
                        lemma_change_in_push_keep(before, result@, n, 0);
                        let k = change_in(pre, n, 0)->0;
                        let k2 = change_in(before, n, 0)->0;
                        assert(post[k] == pre[k]);
                        assert(result@[k2] == before[k2]);
                    } else {
                        lemma_change_in_push_from(pre, post, n, 0);
                        lemma_change_in_push_from(before, result@, n, 0);
                    }
                } else {
                    lemma_change_in_push_other(pre, post, n, 0);
                    lemma_change_in_push_other(before, result@, n, 0);
                    if let Some(k) = change_in(pre, n, 0) {
                        assert(post[k] == pre[k]);
                    }
                    if let Some(k2) = change_in(before, n, 0) {
                        assert(result@[k2] == before[k2]);
                    }
                }
            }
        }
        i = i + 1;
    }
    assert(changes@.take(changes@.len() as int) =~= changes@);
    result
}

proof fn lemma_change_in_push_keep(before: Seq<(String, Vec<u8>)>, after: Seq<(String, Vec<u8>)>, n: Seq<char>, i: int)
    requires
        0 <= i <= before.len(),
        change_in(before, n, i) is Some,
        after == before.push(after.last()),
    ensures
        change_in(after, n, i) == change_in(before, n, i),
    decreases before.len() - i,
{
    assert(after.len() == before.len() + 1);
    if i < before.len() {
        assert(after[i] == before[i]);
        if before[i].0@ != n {
            lemma_change_in_push_keep(before, after, n, i + 1);
        }
    }
}

/// What the finished archive may hold besides `mimetype`: a file of the
/// archive with its content, or else a directory entry of the source.
pub open spec fn holds_file(files: Map<Seq<char>, Seq<u8>>, member: (Seq<char>, Seq<u8>, Storage)) -> bool {
    &&& member.0 != mimetype_name()
    &&& files.contains_key(member.0) ==> member.1 == files[member.0]
    &&& !files.contains_key(member.0) ==> names_directory(member.0)
}

proof fn lemma_entry_names(a: Archive)
    requires
        a.wf(),
    ensures
        forall|j: int| 0 <= j < a.entries@.len() ==> #[trigger] a.entry_list()[j] == entry_view(a.entries@[j]),
        forall|i: int, j: int|
            0 <= i < j < a.entries@.len() ==> (#[trigger] a.entry_list()[i]).0 != (
            #[trigger] a.entry_list()[j]).0,
        a.entry_list().len() == a.entries@.len(),
{
    assert forall|i: int, j: int| 0 <= i < j < a.entries@.len() implies (#[trigger] a.entry_list()[i]).0
        != (#[trigger] a.entry_list()[j]).0 by {
        assert(a.entry_list()[i].0 == a.entries@[i].name@);
        assert(a.entry_list()[j].0 == a.entries@[j].name@);
    }
}

/// What the finished archive holds for the first `n` entries.
#[verifier::spinoff_prover]
#[verifier::rlimit(40)]
proof fn lemma_output_entries_prefix(a: Archive, n: int)
    requires
        a.wf(),
        0 <= n <= a.entries@.len(),
    ensures
        ({
            let out = output_entries(a.entry_list().take(n), a);
            &&& forall|k: int| 0 <= k < out.len() ==> holds_file(a.contents(), #[trigger] out[k])
            &&& forall|k: int|
                0 <= k < out.len() ==> exists|j: int|
                    0 <= j < n && (#[trigger] out[k]).0 == #[trigger] a.entry_list()[j].0
            &&& forall|i: int, k: int|
                0 <= i < k < out.len() ==> (#[trigger] out[i]).0 != (#[trigger] out[k]).0
            &&& forall|j: int|
                0 <= j < n && !a.removed(#[trigger] a.entry_list()[j].0) && a.entry_list()[j].0
                    != mimetype_name() ==> exists|k: int|
                    0 <= k < out.len() && (#[trigger] out[k]).0 == a.entry_list()[j].0
        }),
    decreases n,
{
    lemma_entry_names(a);
    let entries = a.entry_list();
    if n > 0 {
        lemma_output_entries_prefix(a, n - 1);
        let e = entries.take(n);
        assert(e.drop_last() =~= entries.take(n - 1));
        let before = output_entries(entries.take(n - 1), a);
        let out = output_entries(e, a);
        let (name, index, directory) = entries[n - 1];
        assert(e.last() == entries[n - 1]);
        if name == mimetype_name() || a.removed(name) {
            assert(out == before);
        } else {
            let member = match a.changed(name) {
                Some(c) => (name, c, Storage::Deflated(COMPRESSION_LEVEL)),
                None => (name, a.members()[index].2, Storage::Copied),
            };
            assert(out == before.push(member));
            assert(holds_file(a.contents(), member)) by {
                if a.changed(name) is None {
                    assert forall|j: int| 0 <= j < n - 1 implies (#[trigger] entries[j]).0 != name by {}
                    lemma_position_in_at(entries, name, 0, n - 1);
                    assert(a.entries@[n - 1].directory == names_directory(a.entries@[n - 1].name@));
                }
            }
            assert forall|i: int, k: int| 0 <= i < k < out.len() implies (#[trigger] out[i]).0 != (
            #[trigger] out[k]).0 by {
                if k == out.len() - 1 {
                    assert(out[i] == before[i]);
                    let j = choose|j: int| 0 <= j < n - 1 && before[i].0 == #[trigger] entries[j].0;
                } else {
                    assert(out[i] == before[i] && out[k] == before[k]);
                }
            }
            assert forall|k: int| 0 <= k < out.len() implies exists|j: int|
                0 <= j < n && (#[trigger] out[k]).0 == #[trigger] entries[j].0 by {
                if k < before.len() {
                    assert(out[k] == before[k]);
                    let j = choose|j: int| 0 <= j < n - 1 && before[k].0 == #[trigger] entries[j].0;
                    assert(out[k].0 == entries[j].0);
                } else {
                    assert(out[k].0 == entries[n - 1].0);
                }
            }
            assert forall|j: int|
                0 <= j < n && !a.removed(#[trigger] entries[j].0) && entries[j].0 != mimetype_name()
                    implies exists|k: int| 0 <= k < out.len() && (#[trigger] out[k]).0 == entries[j].0 by {
                if j < n - 1 {
                    let k = choose|k: int| 0 <= k < before.len() && (#[trigger] before[k]).0 == entries[j].0;
                    assert(out[k] == before[k]);
                } else {
                    assert(out[out.len() - 1].0 == entries[j].0);
                }
            }
            assert forall|k: int| 0 <= k < out.len() implies holds_file(a.contents(), #[trigger] out[k]) by {
                if k < before.len() {
                    assert(out[k] == before[k]);
                }
            }
        }
    } else {
        assert(entries.take(0) =~= Seq::<(Seq<char>, int, bool)>::empty());
    }
}

/// What the finished archive holds for the first `n` added files.
#[verifier::spinoff_prover]
#[verifier::rlimit(40)]
proof fn lemma_output_additions_prefix(a: Archive, n: int)
    requires
        a.wf(),
        0 <= n <= a.additions@.len(),
    ensures
        ({
            let adds = string_views(a.additions@);
            let out = output_additions(adds.take(n), a);
            &&& forall|k: int| 0 <= k < out.len() ==> holds_file(a.contents(), #[trigger] out[k])
            &&& forall|k: int|
                0 <= k < out.len() ==> exists|j: int| 0 <= j < n && (#[trigger] out[k]).0 == #[trigger] adds[j]
            &&& forall|i: int, k: int|
                0 <= i < k < out.len() ==> (#[trigger] out[i]).0 != (#[trigger] out[k]).0
            &&& forall|j: int|
                0 <= j < n && !a.removed(#[trigger] adds[j]) && adds[j] != mimetype_name() && a.changed(
                    adds[j],
                ) is Some ==> exists|k: int| 0 <= k < out.len() && (#[trigger] out[k]).0 == adds[j]
        }),
    decreases n,
{
    let adds = string_views(a.additions@);
    if n > 0 {
        lemma_output_additions_prefix(a, n - 1);
        let e = adds.take(n);
        assert(e.drop_last() =~= adds.take(n - 1));
        let before = output_additions(adds.take(n - 1), a);
        let out = output_additions(e, a);
        let name = adds[n - 1];
        assert(e.last() == name);
        if name == mimetype_name() || a.removed(name) || a.changed(name) is None {
            assert(out == before);
        } else {
            let content = a.changed(name)->0;
            assert(out == before.push((name, content, Storage::Deflated(COMPRESSION_LEVEL))));
            assert forall|i: int, k: int| 0 <= i < k < out.len() implies (#[trigger] out[i]).0 != (
            #[trigger] out[k]).0 by {
                if k == out.len() - 1 {
                    assert(out[i] == before[i]);
                    let j = choose|j: int| 0 <= j < n - 1 && before[i].0 == #[trigger] adds[j];
                    assert(adds[j] == a.additions@[j]@);
                    assert(adds[n - 1] == a.additions@[n - 1]@);
                } else {
                    assert(out[i] == before[i] && out[k] == before[k]);
                }
            }
            assert forall|k: int| 0 <= k < out.len() implies exists|j: int|
                0 <= j < n && (#[trigger] out[k]).0 == #[trigger] adds[j] by {
                if k < before.len() {
                    assert(out[k] == before[k]);
                    let j = choose|j: int| 0 <= j < n - 1 && before[k].0 == #[trigger] adds[j];
                    assert(out[k].0 == adds[j]);
                } else {
                    assert(out[k].0 == adds[n - 1]);
                }
            }
            assert forall|j: int|
                0 <= j < n && !a.removed(#[trigger] adds[j]) && adds[j] != mimetype_name() && a.changed(
                    adds[j],
                ) is Some implies exists|k: int| 0 <= k < out.len() && (#[trigger] out[k]).0 == adds[j] by {
                if j < n - 1 {
                    let k = choose|k: int| 0 <= k < before.len() && (#[trigger] before[k]).0 == adds[j];
                    assert(out[k] == before[k]);
                } else {
                    assert(out[out.len() - 1].0 == adds[j]);
                }
            }
            assert forall|k: int| 0 <= k < out.len() implies holds_file(a.contents(), #[trigger] out[k]) by {
                if k < before.len() {
                    assert(out[k] == before[k]);
                }
            }
        }
    } else {
        assert(adds.take(0) =~= Seq::<Seq<char>>::empty());
    }
}

/// `written` holds `mimetype` first, then each of `files` once, with its
/// content; any other member is a directory entry.
pub open spec fn archive_holds(written: Seq<(Seq<char>, Seq<u8>, Storage)>, files: Map<Seq<char>, Seq<u8>>) -> bool {
    &&& written.len() >= 1
    &&& written[0] == (mimetype_name(), mimetype_content(), Storage::Stored)
    &&& forall|k: int| 1 <= k < written.len() ==> holds_file(files, #[trigger] written[k])
    &&& forall|j: int, k: int|
        1 <= j < k < written.len() ==> (#[trigger] written[j]).0 != (#[trigger] written[k]).0
    &&& forall|name: Seq<char>|
        #[trigger] files.contains_key(name) && name != mimetype_name() ==> exists|k: int|
            1 <= k < written.len() && (#[trigger] written[k]).0 == name
}

/// Law: the finished archive holds `mimetype` first and stored, then each
/// file of the archive once, with its content; any other member is a
/// directory entry of the source. Members whose files were not set since
/// reading are copied as they are; the others are compressed anew.
#[verifier::spinoff_prover]
#[verifier::rlimit(40)]
pub proof fn lemma_finished_archive(a: Archive)
    requires
        a.wf(),
    ensures
        archive_holds(a.output_members(), a.contents()),
        a.output_members().len() >= 1,
        a.output_members()[0] == (mimetype_name(), mimetype_content(), Storage::Stored),
        forall|k: int|
            1 <= k < a.output_members().len() ==> holds_file(a.contents(), #[trigger] a.output_members()[k]),
        forall|j: int, k: int|
            1 <= j < k < a.output_members().len() ==> (#[trigger] a.output_members()[j]).0 != (
            #[trigger] a.output_members()[k]).0,
        forall|name: Seq<char>|
            #[trigger] a.contents().contains_key(name) && name != mimetype_name() ==> exists|k: int|
                1 <= k < a.output_members().len() && (#[trigger] a.output_members()[k]).0 == name,
        forall|k: int| 1 <= k < a.output_members().len() ==> stored_as_set(a, #[trigger] a.output_members()[k]),
{
    lemma_entry_names(a);
    lemma_output_entries_storage(a.entry_list(), a);
    lemma_output_additions_storage(string_views(a.additions@), a);
    let entries = a.entry_list();
    let adds = string_views(a.additions@);
    lemma_output_entries_prefix(a, a.entries@.len() as int);
    lemma_output_additions_prefix(a, a.additions@.len() as int);
    assert(entries.take(a.entries@.len() as int) =~= entries);
    assert(adds.take(a.additions@.len() as int) =~= adds);
    let oe = output_entries(entries, a);
    let oa = output_additions(adds, a);
    let out = a.output_members();
    assert(out =~= seq![(mimetype_name(), mimetype_content(), Storage::Stored)] + oe + oa);
    assert forall|k: int| 1 <= k < out.len() implies holds_file(a.contents(), #[trigger] out[k]) by {
        if k < 1 + oe.len() {
            assert(out[k] == oe[k - 1]);
        } else {
            assert(out[k] == oa[k - 1 - oe.len()]);
        }
    }
    assert forall|j: int, k: int| 1 <= j < k < out.len() implies (#[trigger] out[j]).0 != (
    #[trigger] out[k]).0 by {
        if k < 1 + oe.len() {
            assert(out[j] == oe[j - 1] && out[k] == oe[k - 1]);
        } else if j >= 1 + oe.len() {
            assert(out[j] == oa[j - 1 - oe.len()] && out[k] == oa[k - 1 - oe.len()]);
        } else {
            assert(out[j] == oe[j - 1] && out[k] == oa[k - 1 - oe.len()]);
            let x = choose|x: int| 0 <= x < entries.len() && oe[j - 1].0 == #[trigger] entries[x].0;
            let y = choose|y: int| 0 <= y < adds.len() && oa[k - 1 - oe.len()].0 == #[trigger] adds[y];
            assert(entries[x].0 == a.entries@[x].name@);
            assert(adds[y] == a.additions@[y]@);
        }
    }
    assert forall|name: Seq<char>| #[trigger] a.contents().contains_key(name) && name != mimetype_name()
        implies exists|k: int| 1 <= k < out.len() && (#[trigger] out[k]).0 == name by {
        assert(a.content(name) is Some);
        assert(!a.removed(name));
        lemma_position_in(entries, name, 0);
        lemma_change_in_found(a.changes@, name, 0);
        if let Some(j) = position_in(entries, name, 0) {
            assert(entries[j].0 == name);
            let k = choose|k: int| 0 <= k < oe.len() && (#[trigger] oe[k]).0 == entries[j].0;
            assert(out[k + 1] == oe[k]);
        } else {
            assert(a.changed(name) is Some);
            assert(change_in(a.changes@, name, 0) is Some);
            assert(adds.contains(name));
            let j = choose|j: int| 0 <= j < adds.len() && adds[j] == name;
            let k = choose|k: int| 0 <= k < oa.len() && (#[trigger] oa[k]).0 == adds[j];
            assert(out[k + 1 + oe.len()] == oa[k]);
        }
    }
}

/// Law: a read gives back what a write wrote. Once `set(name, content)` has
/// turned the files of `before` into those of `after`, `get(name)` gives
/// `content`, and every other file reads as it did.
pub proof fn lemma_read_after_write(before: Archive, after: Archive, name: Seq<char>, content: Seq<u8>)
    requires
        after.contents() == before.contents().insert(name, content),
    ensures
        after.contents().contains_key(name),
        after.contents()[name] == content,
        forall|other: Seq<char>|
            other != name ==> (#[trigger] after.contents().contains_key(other)
                == before.contents().contains_key(other)) && (before.contents().contains_key(other)
                ==> after.contents()[other] == before.contents()[other]),
{
}

/// Law: a removed file is gone, and the others stay as they were.
pub proof fn lemma_read_after_remove(before: Archive, after: Archive, name: Seq<char>)
    requires
        after.contents() == before.contents().remove(name),
    ensures
        !after.contents().contains_key(name),
        forall|other: Seq<char>|
            other != name ==> (#[trigger] after.contents().contains_key(other)
                == before.contents().contains_key(other)) && (before.contents().contains_key(other)
                ==> after.contents()[other] == before.contents()[other]),
{
}

} // verus!
