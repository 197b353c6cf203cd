use vstd::prelude::*;
use vstd::string::{StrSliceExecFns, StringExecFns};
use crate::errors::Error;
use crate::model::{
    EntryView, MetaView, StoreView, backup_id, enforce_retention, has_id, id_index,
    lemma_id_index, lemma_oldest_index, oldest_index, place_entry, placeholder_content,
    spec_activate, spec_capture, spec_create, spec_delete, spec_delete_all, spec_delete_backup,
    ids_view, is_backup_id, lemma_backup_id_recognized, lemma_id_index_characterization,
    lemma_oldest_characterization, recognized_ids,
    spec_read, spec_read_backup, spec_rename, spec_restore, spec_write, unique_ids, wf,
    MAX_BACKUPS,
};
use crate::backups::{lemma_entries_view_remove, lemma_recognized_remove, lemma_unique_ids_remove};
use crate::clock::{epoch_seconds, local_stamp};
use crate::order::{insert_sorted_desc, sorted_desc, str_eq};

verus! {

/// The metadata record: which profiles exist and which one is active
/// (empty string when none is).
pub struct Metadata {
    pub active: String,
    pub profiles: Vec<String>,
}

/// One stored profile content file.
pub struct ProfileFile {
    pub name: String,
    pub content: String,
}

/// One entry of the backups directory: its file name, its modification
/// time in seconds since the epoch, and its content.
pub struct BackupEntry {
    pub id: String,
    pub mtime: i64,
    pub content: String,
}

/// The views of the profile names, in record order.
pub open spec fn names_view(s: Seq<String>) -> Seq<Seq<char>> {
    s.map_values(|x: String| x@)
}

/// The file table as a map from profile name to content.
pub open spec fn files_map(s: Seq<ProfileFile>) -> Map<Seq<char>, Seq<char>>
    decreases s.len(),
{
    if s.len() == 0 {
        Map::empty()
    } else {
        files_map(s.drop_last()).insert(s.last().name@, s.last().content@)
    }
}

/// Whether some file in the table carries the name `n`.
pub open spec fn has_file_name(s: Seq<ProfileFile>, n: Seq<char>) -> bool {
    exists|i: int| 0 <= i < s.len() && (#[trigger] s[i]).name@ == n
}

/// No two files in the table share a name.
pub open spec fn unique_file_names(s: Seq<ProfileFile>) -> bool {
    forall|i: int, j: int|
        0 <= i < j < s.len() ==> (#[trigger] s[i]).name@ != (#[trigger] s[j]).name@
}

/// The views of the backup entries, in table order.
pub open spec fn entries_view(s: Seq<BackupEntry>) -> Seq<EntryView> {
    s.map_values(|e: BackupEntry| EntryView { id: e.id@, mtime: e.mtime, content: e.content@ })
}

/// A name is in the file-table map exactly when some file carries it.
pub proof fn lemma_files_map_domain(s: Seq<ProfileFile>)
    ensures
        forall|n: Seq<char>| #[trigger] files_map(s).contains_key(n) <==> has_file_name(s, n),
    decreases s.len(),
{
    if s.len() > 0 {
        let d = s.drop_last();
        lemma_files_map_domain(d);
        assert(forall|i: int| 0 <= i < d.len() ==> #[trigger] d[i] == s[i]);
        assert forall|n: Seq<char>| #[trigger] files_map(s).contains_key(n) implies has_file_name(
            s,
            n,
        ) by {
            if n == s.last().name@ {
                assert(s[s.len() - 1].name@ == n);
            } else {
                assert(files_map(d).contains_key(n));
                let i = choose|i: int| 0 <= i < d.len() && (#[trigger] d[i]).name@ == n;
                assert(s[i].name@ == n);
            }
        }
        assert forall|n: Seq<char>| has_file_name(s, n) implies #[trigger] files_map(
            s,
        ).contains_key(n) by {
            let i = choose|i: int| 0 <= i < s.len() && (#[trigger] s[i]).name@ == n;
            assert(files_map(s) == files_map(d).insert(s.last().name@, s.last().content@));
            if i < s.len() - 1 {
                assert(d[i].name@ == n);
                assert(has_file_name(d, n));
                assert(files_map(d).contains_key(n));
            } else {
                assert(n == s.last().name@);
            }
        }
    }
}

/// With unique names, each file's entry in the map is its own content.
pub proof fn lemma_files_map_index(s: Seq<ProfileFile>, i: int)
    requires
        unique_file_names(s),
        0 <= i < s.len(),
    ensures
        files_map(s).contains_key(s[i].name@),
        files_map(s)[s[i].name@] == s[i].content@,
    decreases s.len(),
{
    if i < s.len() - 1 {
        let d = s.drop_last();
        assert(forall|k: int| 0 <= k < d.len() ==> #[trigger] d[k] == s[k]);
        lemma_files_map_index(d, i);
        assert(s[i].name@ != s.last().name@);
    }
}

/// Appending a file inserts its name into the map.
pub proof fn lemma_files_map_push(s: Seq<ProfileFile>, f: ProfileFile)
    ensures
        files_map(s.push(f)) == files_map(s).insert(f.name@, f.content@),
{
    assert(s.push(f).drop_last() =~= s);
    assert(s.push(f).last() == f);
}

/// With unique names, removing a file removes exactly its map entry.
pub proof fn lemma_files_map_remove(s: Seq<ProfileFile>, i: int)
    requires
        unique_file_names(s),
        0 <= i < s.len(),
    ensures
        files_map(s.remove(i)) =~= files_map(s).remove(s[i].name@),
    decreases s.len(),
{
    s.remove_ensures(i);
    let n = s[i].name@;
    if i == s.len() - 1 {
        assert(s.remove(i) =~= s.drop_last());
        lemma_files_map_domain(s.drop_last());
        assert(!has_file_name(s.drop_last(), n)) by {
            assert(forall|k: int| 0 <= k < s.len() - 1 ==> #[trigger] s.drop_last()[k] == s[k]);
        }
        assert(files_map(s).remove(n) =~= files_map(s.drop_last()));
    } else {
        let d = s.drop_last();
        assert(forall|k: int| 0 <= k < d.len() ==> #[trigger] d[k] == s[k]);
        lemma_files_map_remove(d, i);
        assert(s.remove(i).drop_last() =~= d.remove(i)) by {
            d.remove_ensures(i);
        }
        assert(s.remove(i).last() == s.last());
        assert(s.remove(i).len() > 0);
        assert(files_map(s.remove(i)) == files_map(d.remove(i)).insert(
            s.last().name@,
            s.last().content@,
        ));
        assert(s.last().name@ != n);
        assert(files_map(d.remove(i)).insert(s.last().name@, s.last().content@) =~= files_map(
            d,
        ).remove(n).insert(s.last().name@, s.last().content@));
        assert(files_map(s).remove(n) =~= files_map(d).remove(n).insert(
            s.last().name@,
            s.last().content@,
        ));
    }
}

/// Removing a file keeps the remaining names unique and free of the
/// removed one.
pub proof fn lemma_unique_remove(s: Seq<ProfileFile>, i: int)
    requires
        unique_file_names(s),
        0 <= i < s.len(),
    ensures
        unique_file_names(s.remove(i)),
        forall|k: int|
            0 <= k < s.remove(i).len() ==> (#[trigger] s.remove(i)[k]).name@ != s[i].name@,
{
    s.remove_ensures(i);
    assert forall|a: int, b: int|
        0 <= a < b < s.remove(i).len() implies (#[trigger] s.remove(i)[a]).name@
        != (#[trigger] s.remove(i)[b]).name@ by {
        assert(s.remove(i)[a] == if a < i {
            s[a]
        } else {
            s[a + 1]
        });
        assert(s.remove(i)[b] == if b < i {
            s[b]
        } else {
            s[b + 1]
        });
    }
    assert forall|k: int|
        0 <= k < s.remove(i).len() implies (#[trigger] s.remove(i)[k]).name@ != s[i].name@ by {
        assert(s.remove(i)[k] == if k < i {
            s[k]
        } else {
            s[k + 1]
        });
    }
}

/// Copies a list of names.
fn clone_names(v: &Vec<String>) -> (r: Vec<String>)
    ensures
        r@ == v@,
{
    let mut r: Vec<String> = Vec::new();
    let mut i: usize = 0;
    while i < v.len()
        invariant
            i <= v@.len(),
            r@.len() == i,
            forall|j: int| 0 <= j < i ==> r@[j] == v@[j],
        decreases v@.len() - i,
    {
        r.push(v[i].clone());
        i = i + 1;
    }
    proof {
        assert(r@ =~= v@);
    }
    r
}

/// The in-memory image of everything the manager owns: the metadata record,
/// the profile content files, the live file's content, and the backup set.
pub struct Store {
    pub(crate) meta: Metadata,
    pub(crate) files: Vec<ProfileFile>,
    pub(crate) live: String,
    pub(crate) backups: Vec<BackupEntry>,
}

impl View for Store {
    type V = StoreView;

    closed spec fn view(&self) -> StoreView {
        StoreView {
            meta: MetaView {
                active: self.meta.active@,
                profiles: names_view(self.meta.profiles@),
            },
            files: files_map(self.files@),
            live: self.live@,
            backups: entries_view(self.backups@),
        }
    }
}

impl Store {
    /// The store is well-formed and its file table holds one entry per name.
    pub closed spec fn inv(&self) -> bool {
        &&& wf(self@)
        &&& unique_file_names(self.files@)
    }

    /// Well-formedness of the view follows from the invariant.
    pub proof fn lemma_inv_wf(&self)
        requires
            self.inv(),
        ensures
            wf(self@),
    {
    }

    /// A store for a machine that has no profiles yet: an empty record, no
    /// content files, no backups, and whatever the live file holds now.
    pub fn new(live: String) -> (r: Store)
        ensures
            r.inv(),
            r@ == (StoreView {
                meta: MetaView { active: Seq::empty(), profiles: Seq::empty() },
                files: Map::empty(),
                live: live@,
                backups: Seq::empty(),
            }),
    {
        let r = Store {
            meta: Metadata { active: String::new(), profiles: Vec::new() },
            files: Vec::new(),
            live,
            backups: Vec::new(),
        };
        proof {
            assert(names_view(r.meta.profiles@) =~= Seq::<Seq<char>>::empty());
            assert(entries_view(r.backups@) =~= Seq::<EntryView>::empty());
            assert(r@ =~= (StoreView {
                meta: MetaView { active: Seq::empty(), profiles: Seq::empty() },
                files: Map::empty(),
                live: r.live@,
                backups: Seq::empty(),
            }));
        }
        r
    }

    /// Index of `name` in the metadata record, when it is known there.
    pub(crate) fn find_name(&self, name: &str) -> (r: Option<usize>)
        ensures
            match r {
                Some(i) => i < self.meta.profiles@.len() && self@.meta.profiles[i as int]
                    == name@,
                None => !self@.meta.profiles.contains(name@),
            },
    {
        let mut i: usize = 0;
        let n = self.meta.profiles.len();
        while i < n
            invariant
                n == self.meta.profiles@.len(),
                i <= n,
                forall|j: int| 0 <= j < i ==> names_view(self.meta.profiles@)[j] != name@,
            decreases n - i,
        {
            if str_eq(self.meta.profiles[i].as_str(), name) {
                return Some(i);
            }
            i = i + 1;
        }
        None
    }

    /// Index of the content file named `name`, when one exists.
    pub(crate) fn find_file(&self, name: &str) -> (r: Option<usize>)
        ensures
            match r {
                Some(i) => i < self.files@.len() && self.files@[i as int].name@ == name@,
                None => !has_file_name(self.files@, name@),
            },
    {
        let mut i: usize = 0;
        let n = self.files.len();
        while i < n
            invariant
                n == self.files@.len(),
                i <= n,
                forall|j: int| 0 <= j < i ==> (#[trigger] self.files@[j]).name@ != name@,
            decreases n - i,
        {
            if str_eq(self.files[i].name.as_str(), name) {
                return Some(i);
            }
            i = i + 1;
        }
        None
    }

    /// Index of the first backup entry carrying `id`, when one exists.
    pub(crate) fn find_backup(&self, id: &str) -> (r: Option<usize>)
        ensures
            match r {
                Some(i) => {
                    &&& i < self.backups@.len()
                    &&& entries_view(self.backups@)[i as int].id == id@
                    &&& forall|j: int|
                        0 <= j < i ==> entries_view(self.backups@)[j].id != id@
                },
                None => !has_id(entries_view(self.backups@), id@),
            },
    {
        let mut i: usize = 0;
        let n = self.backups.len();
        while i < n
            invariant
                n == self.backups@.len(),
                i <= n,
                forall|j: int| 0 <= j < i ==> entries_view(self.backups@)[j].id != id@,
            decreases n - i,
        {
            if str_eq(self.backups[i].id.as_str(), id) {
                return Some(i);
            }
            i = i + 1;
        }
        None
    }

    /// The known profile names, in record order.
    pub fn list_profiles(&self) -> (r: Vec<String>)
        ensures
            names_view(r@) == self@.meta.profiles,
    {
        clone_names(&self.meta.profiles)
    }

    /// The active profile's name, or the empty string when none is active.
    pub fn get_active_profile(&self) -> (r: String)
        ensures
            r@ == self@.meta.active,
    {
        self.meta.active.clone()
    }

    /// The current content of the live system file.
    pub fn read_system_hosts(&self) -> (r: String)
        ensures
            r@ == self@.live,
    {
        self.live.clone()
    }

    /// Overwrites (or creates) the content file named `name`.
    fn put_file(&mut self, name: &str, content: String)
        requires
            unique_file_names(old(self).files@),
        ensures
            unique_file_names(final(self).files@),
            files_map(final(self).files@) == files_map(old(self).files@).insert(
                name@,
                content@,
            ),
            final(self).meta == old(self).meta,
            final(self).live == old(self).live,
            final(self).backups == old(self).backups,
    {
        let ghost pre = self.files@;
        let ghost gc = content@;
        match self.find_file(name) {
            Some(i) => {
                self.files.remove(i);
                proof {
                    lemma_files_map_remove(pre, i as int);
                    lemma_unique_remove(pre, i as int);
                }
            },
            None => {},
        }
        let ghost mid = self.files@;
        let nf = ProfileFile { name: name.to_owned(), content };
        let ghost gf = nf;
        self.files.push(nf);
        proof {
            lemma_files_map_push(mid, gf);
            assert(files_map(self.files@) =~= files_map(pre).insert(name@, gc));
            assert(forall|k: int|
                0 <= k < mid.len() ==> (#[trigger] mid[k]).name@ != name@);
            assert forall|a: int, b: int|
                0 <= a < b < self.files@.len() implies (#[trigger] self.files@[a]).name@
                != (#[trigger] self.files@[b]).name@ by {
                if b == self.files@.len() - 1 {
                    assert(self.files@[a] == mid[a]);
                } else {
                    assert(self.files@[a] == mid[a]);
                    assert(self.files@[b] == mid[b]);
                }
            }
        }
    }

    /// Reads a profile's content file; fails when no such file exists.
    pub fn read_profile(&self, name: &str) -> (r: Result<String, Error>)
        requires
            self.inv(),
        ensures
            match r {
                Ok(c) => spec_read(self@, name@) == Ok::<Seq<char>, Error>(c@),
                Err(e) => spec_read(self@, name@) == Err::<Seq<char>, Error>(e),
            },
    {
        match self.find_file(name) {
            Some(i) => {
                proof {
                    lemma_files_map_index(self.files@, i as int);
                }
                Ok(self.files[i].content.clone())
            },
            None => {
                proof {
                    lemma_files_map_domain(self.files@);
                }
                Err(Error::NotFoundError)
            },
        }
    }

    /// Fully overwrites a profile's content file, creating it if absent.
    pub fn write_profile(&mut self, name: &str, content: &str) -> (r: Result<(), Error>)
        requires
            old(self).inv(),
        ensures
            final(self).inv(),
            final(self)@ == spec_write(old(self)@, name@, content@),
            r == Ok::<(), Error>(()),
    {
        self.put_file(name, content.to_owned());
        proof {
            assert(self@ =~= spec_write(old(self)@, name@, content@));
            assert forall|i: int|
                0 <= i < self@.meta.profiles.len() implies self@.files.contains_key(
                #[trigger] self@.meta.profiles[i],
            ) by {
                assert(old(self)@.files.contains_key(old(self)@.meta.profiles[i]));
            }
        }
        Ok(())
    }

    /// Creates a profile: the name enters the record and a content file
    /// seeded with the placeholder comment is written.
    pub fn create_profile(&mut self, name: &str) -> (r: Result<(), Error>)
        requires
            old(self).inv(),
        ensures
            final(self).inv(),
            final(self)@ == spec_create(old(self)@, name@).0,
            r == spec_create(old(self)@, name@).1,
    {
        if name.is_empty() {
            return Err(Error::ValidationError);
        }
        match self.find_name(name) {
            Some(_) => Err(Error::ConflictError),
            None => {
                let ghost pre = old(self)@;
                self.put_file(name, "# New profile\n".to_owned());
                self.meta.profiles.push(name.to_owned());
                proof {
                    let ghost post = self@;
                    assert(names_view(self.meta.profiles@) =~= pre.meta.profiles.push(
                        name@,
                    ));
                    assert(post =~= spec_create(pre, name@).0);
                    // well-formedness of the result
                    assert(forall|a: int|
                        0 <= a < pre.meta.profiles.len() ==> #[trigger] pre.meta.profiles[a]
                            != name@);
                    assert forall|a: int, b: int|
                        0 <= a < post.meta.profiles.len() && 0 <= b < post.meta.profiles.len()
                            && a != b implies post.meta.profiles[a] != post.meta.profiles[b] by {
                        assert(pre.meta.profiles.no_duplicates());
                    }
                    assert(post.meta.profiles.no_duplicates());
                    if pre.meta.active.len() > 0 {
                        let w = choose|w: int|
                            0 <= w < pre.meta.profiles.len() && pre.meta.profiles[w]
                                == pre.meta.active;
                        assert(post.meta.profiles[w] == pre.meta.active);
                        assert(post.meta.profiles.contains(post.meta.active));
                    }
                    assert forall|i: int|
                        0 <= i < post.meta.profiles.len() implies post.files.contains_key(
                        #[trigger] post.meta.profiles[i],
                    ) by {
                        if i < pre.meta.profiles.len() {
                            assert(pre.files.contains_key(pre.meta.profiles[i]));
                        }
                    }
                }
                Ok(())
            },
        }
    }

    /// Deletes a profile: its record entry and its content file go away
    /// together. The active profile cannot be deleted.
    pub fn delete_profile(&mut self, name: &str) -> (r: Result<(), Error>)
        requires
            old(self).inv(),
        ensures
            final(self).inv(),
            final(self)@ == spec_delete(old(self)@, name@).0,
            r == spec_delete(old(self)@, name@).1,
    {
        let idx = match self.find_name(name) {
            None => {
                return Err(Error::NotFoundError);
            },
            Some(i) => i,
        };
        if str_eq(self.meta.active.as_str(), name) {
            return Err(Error::ConflictError);
        }
        let ghost pre = self@;
        let ghost pnames = self.meta.profiles@;
        self.meta.profiles.remove(idx);
        proof {
            pnames.remove_ensures(idx as int);
            names_view(pnames).remove_ensures(idx as int);
            assert(names_view(self.meta.profiles@) =~= names_view(pnames).remove(idx as int));
        }
        let ghost prefiles = self.files@;
        match self.find_file(name) {
            Some(k) => {
                self.files.remove(k);
                proof {
                    lemma_files_map_remove(prefiles, k as int);
                    lemma_unique_remove(prefiles, k as int);
                }
            },
            None => {
                proof {
                    lemma_files_map_domain(prefiles);
                    assert(files_map(prefiles).remove(name@) =~= files_map(prefiles));
                }
            },
        }
        proof {
            let p = pre.meta.profiles;
            assert(p[idx as int] == name@);
            assert(p.contains(name@));
            let io = p.index_of(name@);
            assert(0 <= io < p.len() && p[io] == name@);
            assert(io == idx as int);
            let post = self@;
            assert(post =~= spec_delete(pre, name@).0);
            // well-formedness of the result
            let q = post.meta.profiles;
            p.remove_ensures(idx as int);
            assert forall|a: int, b: int|
                0 <= a < q.len() && 0 <= b < q.len() && a != b implies q[a] != q[b] by {
                assert(q[a] == if a < idx as int {
                    p[a]
                } else {
                    p[a + 1]
                });
                assert(q[b] == if b < idx as int {
                    p[b]
                } else {
                    p[b + 1]
                });
            }
            assert(q.no_duplicates());
            assert forall|i: int| 0 <= i < q.len() implies (#[trigger] q[i]).len() > 0
                && q[i] != name@ && post.files.contains_key(q[i]) by {
                let j: int = if i < idx as int {
                    i
                } else {
                    i + 1
                };
                assert(q[i] == p[j]);
                assert(p[j] != p[idx as int]);
                assert(pre.files.contains_key(p[j]));
            }
            if post.meta.active.len() > 0 {
                assert(pre.meta.active != name@);
                let w = choose|w: int| 0 <= w < p.len() && p[w] == pre.meta.active;
                if w < idx as int {
                    assert(q[w] == pre.meta.active);
                } else {
                    assert(q[w - 1] == pre.meta.active);
                }
                assert(q.contains(post.meta.active));
            }
        }
        Ok(())
    }

    /// Renames a profile: the content file moves to the new name, the record
    /// entry is replaced in place, and an active pointer naming the old name
    /// follows the rename.
    pub fn rename_profile(&mut self, old_name: &str, new_name: &str) -> (r: Result<(), Error>)
        requires
            old(self).inv(),
        ensures
            final(self).inv(),
            final(self)@ == spec_rename(old(self)@, old_name@, new_name@).0,
            r == spec_rename(old(self)@, old_name@, new_name@).1,
    {
        if new_name.is_empty() {
            return Err(Error::ValidationError);
        }
        let idx = match self.find_name(old_name) {
            None => {
                return Err(Error::NotFoundError);
            },
            Some(i) => i,
        };
        match self.find_name(new_name) {
            Some(_) => {
                return Err(Error::ConflictError);
            },
            None => {},
        }
        let ghost pre = self@;
        let ghost pnames = self.meta.profiles@;
        let ghost prefiles0 = self.files@;
        proof {
            assert(pre.meta.profiles[idx as int] == old_name@);
            assert(old_name@ != new_name@) by {
                if old_name@ == new_name@ {
                    assert(pre.meta.profiles.contains(new_name@));
                }
            }
        }
        // an orphan content file under the new name is overwritten by the move
        match self.find_file(new_name) {
            Some(j) => {
                self.files.remove(j);
                proof {
                    lemma_files_map_remove(prefiles0, j as int);
                    lemma_unique_remove(prefiles0, j as int);
                }
            },
            None => {
                proof {
                    lemma_files_map_domain(prefiles0);
                    assert(files_map(prefiles0).remove(new_name@) =~= files_map(prefiles0));
                }
            },
        }
        let ghost prefiles = self.files@;
        proof {
            assert(files_map(prefiles) =~= files_map(prefiles0).remove(new_name@));
            assert(unique_file_names(prefiles));
            assert(forall|k: int|
                0 <= k < prefiles.len() ==> (#[trigger] prefiles[k]).name@ != new_name@);
        }
        let k = match self.find_file(old_name) {
            Some(k) => k,
            None => {
                proof {
                    lemma_files_map_domain(prefiles);
                    assert(pre.files.contains_key(old_name@));
                    assert(files_map(prefiles).contains_key(old_name@));
                    assert(false);
                }
                return Err(Error::NotFoundError);
            },
        };
        proof {
            lemma_files_map_index(prefiles, k as int);
            lemma_files_map_remove(prefiles, k as int);
            lemma_unique_remove(prefiles, k as int);
        }
        let f = self.files.remove(k);
        let ghost mid = self.files@;
        let nf = ProfileFile { name: new_name.to_owned(), content: f.content };
        let ghost gnf = nf;
        self.files.push(nf);
        self.meta.profiles.set(idx, new_name.to_owned());
        if str_eq(self.meta.active.as_str(), old_name) {
            self.meta.active = new_name.to_owned();
        }
        proof {
            let p = pre.meta.profiles;
            assert(p.contains(old_name@));
            let io = p.index_of(old_name@);
            assert(0 <= io < p.len() && p[io] == old_name@);
            assert(io == idx as int);
            lemma_files_map_push(mid, gnf);
            assert(files_map(prefiles)[old_name@] == prefiles[k as int].content@);
            assert(files_map(prefiles0)[old_name@] == prefiles[k as int].content@);
            assert(files_map(self.files@) =~= files_map(prefiles0).remove(
                old_name@,
            ).insert(new_name@, files_map(prefiles0)[old_name@]));
            assert(names_view(self.meta.profiles@) =~= names_view(pnames).update(
                idx as int,
                new_name@,
            ));
            let post = self@;
            assert(post =~= spec_rename(pre, old_name@, new_name@).0);
            // well-formedness of the result
            let q = post.meta.profiles;
            assert(forall|a: int| 0 <= a < p.len() ==> #[trigger] p[a] != new_name@);
            assert forall|a: int, b: int|
                0 <= a < q.len() && 0 <= b < q.len() && a != b implies q[a] != q[b] by {
                assert(p.no_duplicates());
            }
            assert(q.no_duplicates());
            assert forall|i: int| 0 <= i < q.len() implies (#[trigger] q[i]).len() > 0
                && post.files.contains_key(q[i]) by {
                if i != idx as int {
                    assert(q[i] == p[i]);
                    assert(p[i] != p[idx as int]);
                    assert(pre.files.contains_key(p[i]));
                }
            }
            if post.meta.active.len() > 0 {
                if pre.meta.active == old_name@ {
                    assert(q[idx as int] == post.meta.active);
                    assert(q.contains(post.meta.active));
                } else {
                    let w = choose|w: int| 0 <= w < p.len() && p[w] == pre.meta.active;
                    assert(w != idx as int);
                    assert(q[w] == pre.meta.active);
                    assert(q.contains(post.meta.active));
                }
            }
            // the moved file is the only one under the new name
            assert(forall|k2: int|
                0 <= k2 < mid.len() ==> (#[trigger] mid[k2]).name@ != new_name@);
            let fpost = self.files@;
            assert forall|a: int, b: int|
                0 <= a < b < fpost.len() implies (#[trigger] fpost[a]).name@
                != (#[trigger] fpost[b]).name@ by {
                if b == fpost.len() - 1 {
                    assert(fpost[a] == mid[a]);
                } else {
                    assert(fpost[a] == mid[a]);
                    assert(fpost[b] == mid[b]);
                }
            }
        }
        Ok(())
    }
}

impl Store {
    /// Position of the entry the retention policy evicts next: the first
    /// one with a minimal modification time.
    fn find_oldest(&self) -> (r: usize)
        requires
            self.backups@.len() > 0,
        ensures
            r < self.backups@.len(),
            r as int == oldest_index(entries_view(self.backups@)),
    {
        let ghost bs = entries_view(self.backups@);
        let n = self.backups.len();
        let mut best: usize = 0;
        let mut i: usize = 1;
        while i < n
            invariant
                n == self.backups@.len(),
                bs == entries_view(self.backups@),
                n == bs.len(),
                best < i <= n,
                forall|j: int| 0 <= j < i ==> bs[best as int].mtime <= (#[trigger] bs[j]).mtime,
                forall|j: int| 0 <= j < best ==> (#[trigger] bs[j]).mtime > bs[best as int].mtime,
            decreases n - i,
        {
            if self.backups[i].mtime < self.backups[best].mtime {
                best = i;
            }
            i = i + 1;
        }
        proof {
            lemma_oldest_characterization(bs, best as int);
        }
        best
    }

    /// Enforces the retention policy: evict the oldest entries, by
    /// modification time, until at most `MAX_BACKUPS` remain.
    fn cleanup_old_backups(&mut self)
        ensures
            entries_view(final(self).backups@) == enforce_retention(
                entries_view(old(self).backups@),
                MAX_BACKUPS as nat,
            ),
            unique_ids(entries_view(old(self).backups@)) ==> unique_ids(
                entries_view(final(self).backups@),
            ),
            recognized_ids(entries_view(old(self).backups@)) ==> recognized_ids(
                entries_view(final(self).backups@),
            ),
            final(self).meta == old(self).meta,
            final(self).files == old(self).files,
            final(self).live == old(self).live,
    {
        let ghost orig = entries_view(old(self).backups@);
        while self.backups.len() > MAX_BACKUPS
            invariant
                enforce_retention(entries_view(self.backups@), MAX_BACKUPS as nat)
                    == enforce_retention(orig, MAX_BACKUPS as nat),
                unique_ids(orig) ==> unique_ids(entries_view(self.backups@)),
                recognized_ids(orig) ==> recognized_ids(entries_view(self.backups@)),
                self.meta == old(self).meta,
                self.files == old(self).files,
                self.live == old(self).live,
            decreases self.backups@.len(),
        {
            let ghost cur = entries_view(self.backups@);
            let ghost prevb = self.backups@;
            let k = self.find_oldest();
            self.backups.remove(k);
            proof {
                lemma_entries_view_remove(prevb, k as int);
                lemma_oldest_index(cur);
                assert(enforce_retention(cur, MAX_BACKUPS as nat) == enforce_retention(
                    cur.remove(oldest_index(cur)),
                    MAX_BACKUPS as nat,
                ));
                if unique_ids(orig) {
                    lemma_unique_ids_remove(cur, k as int);
                }
                if recognized_ids(orig) {
                    lemma_recognized_remove(cur, k as int);
                }
            }
        }
    }

    /// Captures the live file into the backup set under the identifier
    /// derived from `stamp`, records `mtime` as the entry's modification
    /// time, enforces the retention bound, and returns the identifier.
    pub fn backup_hosts(&mut self, stamp: &str, mtime: i64) -> (id: String)
        requires
            old(self).inv(),
        ensures
            final(self).inv(),
            final(self)@ == spec_capture(old(self)@, stamp@, mtime),
            id@ == backup_id(stamp@),
    {
        let mut id: String = "hosts_backup_".to_owned();
        id.append(stamp);
        id.append(".txt");
        proof {
            assert(id@ == backup_id(stamp@));
        }
        let ghost pre = entries_view(self.backups@);
        let ghost e = EntryView { id: id@, mtime: mtime, content: self.live@ };
        match self.find_backup(id.as_str()) {
            Some(i) => {
                proof {
                    lemma_id_index_characterization(pre, id@, i as int);
                }
                let ghost prevb = self.backups@;
                self.backups.remove(i);
                proof {
                    lemma_entries_view_remove(prevb, i as int);
                    lemma_unique_ids_remove(pre, i as int);
                    lemma_recognized_remove(pre, i as int);
                    pre.remove_ensures(i as int);
                    assert forall|j: int|
                        0 <= j < pre.remove(i as int).len() implies (#[trigger] pre.remove(
                        i as int,
                    )[j]).id != id@ by {
                        if j < i as int {
                            assert(pre.remove(i as int)[j] == pre[j]);
                        } else {
                            assert(pre.remove(i as int)[j] == pre[j + 1]);
                        }
                    }
                }
            },
            None => {},
        }
        let ghost mid = entries_view(self.backups@);
        proof {
            assert(forall|j: int| 0 <= j < mid.len() ==> (#[trigger] mid[j]).id != id@);
        }
        let content = self.live.clone();
        let entry = BackupEntry { id: id.clone(), mtime: mtime, content };
        let ghost gentry = entry;
        self.backups.push(entry);
        proof {
            assert(entries_view(self.backups@) =~= mid.push(e));
            assert(mid.push(e) =~= place_entry(pre, e));
            let t = mid.push(e);
            assert forall|a: int, b: int|
                0 <= a < b < t.len() implies (#[trigger] t[a]).id != (#[trigger] t[b]).id by {
                if b == t.len() - 1 {
                    assert(t[a] == mid[a]);
                } else {
                    assert(t[a] == mid[a]);
                    assert(t[b] == mid[b]);
                }
            }
            assert(unique_ids(t));
            lemma_backup_id_recognized(stamp@);
            assert forall|k: int| 0 <= k < t.len() implies is_backup_id(
                (#[trigger] t[k]).id,
            ) by {
                if k < t.len() - 1 {
                    assert(t[k] == mid[k]);
                    assert(is_backup_id(mid[k].id));
                }
            }
            assert(recognized_ids(t));
        }
        self.cleanup_old_backups();
        proof {
            assert(self@ =~= spec_capture(old(self)@, stamp@, mtime));
            assert(self@.meta == old(self)@.meta);
            assert(self@.files == old(self)@.files);
            assert(wf(self@));
        }
        id
    }
}

impl Store {
    /// All backup identifiers, newest first under the lexicographic order
    /// that the timestamped naming scheme makes chronological. Only
    /// recognized entries are ever held, so every reported identifier
    /// carries the recognized extension.
    pub fn list_backups(&self) -> (r: Vec<String>)
        requires
            self.inv(),
        ensures
            names_view(r@).to_multiset() == ids_view(self@.backups).to_multiset(),
            sorted_desc(names_view(r@)),
            forall|j: int|
                0 <= j < names_view(r@).len() ==> is_backup_id(#[trigger] names_view(r@)[j]),
    {
        broadcast use vstd::seq_lib::group_to_multiset_ensures;

        let ghost ids = ids_view(entries_view(self.backups@));
        let mut r: Vec<String> = Vec::new();
        proof {
            assert(names_view(r@) =~= Seq::<Seq<char>>::empty());
            assert(ids.take(0) =~= Seq::<Seq<char>>::empty());
        }
        let mut i: usize = 0;
        while i < self.backups.len()
            invariant
                ids == ids_view(entries_view(self.backups@)),
                ids.len() == self.backups@.len(),
                i <= self.backups@.len(),
                sorted_desc(names_view(r@)),
                names_view(r@).to_multiset() == ids.take(i as int).to_multiset(),
            decreases self.backups@.len() - i,
        {
            broadcast use vstd::seq_lib::group_to_multiset_ensures;

            let ghost snap = names_view(r@);
            insert_sorted_desc(&mut r, self.backups[i].id.clone());
            proof {
                assert(ids[i as int] == self.backups@[i as int].id@);
                assert(ids.take(i + 1) =~= ids.take(i as int).push(ids[i as int]));
            }
            i = i + 1;
        }
        proof {
            assert(ids.take(ids.len() as int) =~= ids);
            assert forall|j: int|
                0 <= j < names_view(r@).len() implies is_backup_id(
                #[trigger] names_view(r@)[j],
            ) by {
                broadcast use vstd::seq_lib::group_to_multiset_ensures;

                let x = names_view(r@)[j];
                assert(names_view(r@).contains(x));
                assert(names_view(r@).to_multiset().count(x) > 0);
                assert(ids.to_multiset().count(x) > 0);
                assert(ids.contains(x));
                let k = choose|k: int| 0 <= k < ids.len() && ids[k] == x;
                assert(entries_view(self.backups@)[k].id == x);
            }
        }
        r
    }

    /// Reads one backup entry's stored content.
    pub fn read_backup(&self, id: &str) -> (r: Result<String, Error>)
        requires
            self.inv(),
        ensures
            match r {
                Ok(c) => spec_read_backup(self@, id@) == Ok::<Seq<char>, Error>(c@),
                Err(e) => spec_read_backup(self@, id@) == Err::<Seq<char>, Error>(e),
            },
    {
        match self.find_backup(id) {
            Some(i) => {
                proof {
                    lemma_id_index_characterization(entries_view(self.backups@), id@, i as int);
                }
                Ok(self.backups[i].content.clone())
            },
            None => Err(Error::NotFoundError),
        }
    }

    /// Deletes one backup entry; unknown identifiers are rejected.
    pub fn delete_backup(&mut self, id: &str) -> (r: Result<(), Error>)
        requires
            old(self).inv(),
        ensures
            final(self).inv(),
            final(self)@ == spec_delete_backup(old(self)@, id@).0,
            r == spec_delete_backup(old(self)@, id@).1,
    {
        match self.find_backup(id) {
            Some(i) => {
                let ghost pre = entries_view(self.backups@);
                let ghost prevb = self.backups@;
                proof {
                    lemma_id_index_characterization(pre, id@, i as int);
                }
                self.backups.remove(i);
                proof {
                    lemma_entries_view_remove(prevb, i as int);
                    lemma_unique_ids_remove(pre, i as int);
                    lemma_recognized_remove(pre, i as int);
                    assert(self@ =~= spec_delete_backup(old(self)@, id@).0);
                }
                Ok(())
            },
            None => Err(Error::NotFoundError),
        }
    }

    /// Deletes every backup entry; an empty backup set is left behind.
    pub fn delete_all_backups(&mut self) -> (r: Result<(), Error>)
        requires
            old(self).inv(),
        ensures
            final(self).inv(),
            final(self)@ == spec_delete_all(old(self)@),
            r == Ok::<(), Error>(()),
    {
        self.backups = Vec::new();
        proof {
            assert(entries_view(self.backups@) =~= Seq::<EntryView>::empty());
            assert(self@ =~= spec_delete_all(old(self)@));
        }
        Ok(())
    }

    /// Restores a backup: the live file is captured first, then the
    /// backup's content becomes the live content.
    pub fn restore_hosts(&mut self, id: &str, stamp: &str, mtime: i64) -> (r: Result<(), Error>)
        requires
            old(self).inv(),
        ensures
            final(self).inv(),
            final(self)@ == spec_restore(old(self)@, id@, stamp@, mtime).0,
            r == spec_restore(old(self)@, id@, stamp@, mtime).1,
    {
        match self.find_backup(id) {
            None => {
                return Err(Error::NotFoundError);
            },
            Some(_) => {},
        }
        self.backup_hosts(stamp, mtime);
        match self.find_backup(id) {
            Some(i) => {
                proof {
                    lemma_id_index_characterization(entries_view(self.backups@), id@, i as int);
                }
                let c = self.backups[i].content.clone();
                self.live = c;
                proof {
                    assert(self@ =~= spec_restore(old(self)@, id@, stamp@, mtime).0);
                }
                Ok(())
            },
            None => Err(Error::IoError),
        }
    }

    /// Makes a profile live: rejects unknown names, captures the live file,
    /// overwrites it with the profile's content, and moves the active
    /// pointer — in that order.
    pub fn activate_profile(&mut self, name: &str, stamp: &str, mtime: i64) -> (r: Result<
        (),
        Error,
    >)
        requires
            old(self).inv(),
        ensures
            final(self).inv(),
            final(self)@ == spec_activate(old(self)@, name@, stamp@, mtime).0,
            r == spec_activate(old(self)@, name@, stamp@, mtime).1,
    {
        let widx = match self.find_name(name) {
            None => {
                return Err(Error::NotFoundError);
            },
            Some(w) => w,
        };
        self.backup_hosts(stamp, mtime);
        match self.find_file(name) {
            Some(i) => {
                proof {
                    lemma_files_map_index(self.files@, i as int);
                }
                let c = self.files[i].content.clone();
                self.live = c;
                self.meta.active = name.to_owned();
                proof {
                    assert(self@ =~= spec_activate(old(self)@, name@, stamp@, mtime).0);
                    assert(self@.meta.profiles[widx as int] == name@);
                    assert(self@.meta.profiles.contains(name@));
                }
                Ok(())
            },
            None => {
                proof {
                    lemma_files_map_domain(self.files@);
                }
                Err(Error::NotFoundError)
            },
        }
    }
}

impl Store {
    /// Captures the live file, taking the identifier's timestamp and the
    /// entry's modification time from the system clock.
    pub fn backup_hosts_now(&mut self) -> (id: String)
        requires
            old(self).inv(),
        ensures
            final(self).inv(),
            exists|stamp: Seq<char>, m: i64|
                final(self)@ == spec_capture(old(self)@, stamp, m) && id@ == backup_id(stamp),
    {
        let stamp = local_stamp();
        let m = epoch_seconds();
        let id = self.backup_hosts(stamp.as_str(), m);
        proof {
            assert(self@ == spec_capture(old(self)@, stamp@, m) && id@ == backup_id(stamp@));
        }
        id
    }

    /// Restores a backup, timestamping the implicit capture from the
    /// system clock.
    pub fn restore_hosts_now(&mut self, id: &str) -> (r: Result<(), Error>)
        requires
            old(self).inv(),
        ensures
            final(self).inv(),
            exists|stamp: Seq<char>, m: i64|
                final(self)@ == spec_restore(old(self)@, id@, stamp, m).0 && r == spec_restore(
                    old(self)@,
                    id@,
                    stamp,
                    m,
                ).1,
    {
        let stamp = local_stamp();
        let m = epoch_seconds();
        let r = self.restore_hosts(id, stamp.as_str(), m);
        proof {
            assert(self@ == spec_restore(old(self)@, id@, stamp@, m).0 && r == spec_restore(
                old(self)@,
                id@,
                stamp@,
                m,
            ).1);
        }
        r
    }

    /// Activates a profile, timestamping the implicit capture from the
    /// system clock.
    pub fn activate_profile_now(&mut self, name: &str) -> (r: Result<(), Error>)
        requires
            old(self).inv(),
        ensures
            final(self).inv(),
            exists|stamp: Seq<char>, m: i64|
                final(self)@ == spec_activate(old(self)@, name@, stamp, m).0 && r
                    == spec_activate(old(self)@, name@, stamp, m).1,
    {
        let stamp = local_stamp();
        let m = epoch_seconds();
        let r = self.activate_profile(name, stamp.as_str(), m);
        proof {
            assert(self@ == spec_activate(old(self)@, name@, stamp@, m).0 && r == spec_activate(
                old(self)@,
                name@,
                stamp@,
                m,
            ).1);
        }
        r
    }
}


/// The view a store built from these parts would have.
pub open spec fn parts_view(
    meta: Metadata,
    files: Seq<ProfileFile>,
    live: Seq<char>,
    backups: Seq<BackupEntry>,
) -> StoreView {
    StoreView {
        meta: MetaView { active: meta.active@, profiles: names_view(meta.profiles@) },
        files: files_map(files),
        live: live,
        backups: entries_view(backups),
    }
}

/// What a loaded state must satisfy to be accepted as a store.
pub open spec fn parts_wf(
    meta: Metadata,
    files: Seq<ProfileFile>,
    live: Seq<char>,
    backups: Seq<BackupEntry>,
) -> bool {
    wf(parts_view(meta, files, live, backups)) && unique_file_names(files)
}

/// True when the names are pairwise distinct and all non-empty.
fn names_ok(v: &Vec<String>) -> (r: bool)
    ensures
        r == (names_view(v@).no_duplicates() && forall|i: int|
            0 <= i < v@.len() ==> (#[trigger] names_view(v@)[i]).len() > 0),
{
    let ghost s = names_view(v@);
    let n = v.len();
    let mut i: usize = 0;
    while i < n
        invariant
            n == v@.len(),
            s == names_view(v@),
            i <= n,
            forall|a: int, b: int| 0 <= a < b < n && a < i ==> s[a] != s[b],
            forall|a: int| 0 <= a < i ==> (#[trigger] s[a]).len() > 0,
        decreases n - i,
    {
        if v[i].as_str().is_empty() {
            assert(names_view(v@)[i as int].len() == 0);
            return false;
        }
        let mut j: usize = i + 1;
        while j < n
            invariant
                n == v@.len(),
                s == names_view(v@),
                i < j <= n,
                forall|b: int| i < b < j ==> s[i as int] != #[trigger] s[b],
            decreases n - j,
        {
            if str_eq(v[i].as_str(), v[j].as_str()) {
                assert(s[i as int] == s[j as int]);
                return false;
            }
            j = j + 1;
        }
        i = i + 1;
    }
    true
}

/// True when no two files share a name.
fn files_ok(v: &Vec<ProfileFile>) -> (r: bool)
    ensures
        r == unique_file_names(v@),
{
    let n = v.len();
    let mut i: usize = 0;
    while i < n
        invariant
            n == v@.len(),
            i <= n,
            forall|a: int, b: int|
                0 <= a < b < n && a < i ==> (#[trigger] v@[a]).name@ != (#[trigger] v@[b]).name@,
        decreases n - i,
    {
        let mut j: usize = i + 1;
        while j < n
            invariant
                n == v@.len(),
                i < j <= n,
                forall|b: int| i < b < j ==> v@[i as int].name@ != (#[trigger] v@[b]).name@,
            decreases n - j,
        {
            if str_eq(v[i].name.as_str(), v[j].name.as_str()) {
                return false;
            }
            j = j + 1;
        }
        i = i + 1;
    }
    true
}

/// True when no two backup entries share an identifier.
fn backups_ok(v: &Vec<BackupEntry>) -> (r: bool)
    ensures
        r == unique_ids(entries_view(v@)),
{
    let ghost s = entries_view(v@);
    let n = v.len();
    let mut i: usize = 0;
    while i < n
        invariant
            n == v@.len(),
            s == entries_view(v@),
            i <= n,
            forall|a: int, b: int| 0 <= a < b < n && a < i ==> s[a].id != s[b].id,
        decreases n - i,
    {
        let mut j: usize = i + 1;
        while j < n
            invariant
                n == v@.len(),
                s == entries_view(v@),
                i < j <= n,
                forall|b: int| i < b < j ==> s[i as int].id != (#[trigger] s[b]).id,
            decreases n - j,
        {
            if str_eq(v[i].id.as_str(), v[j].id.as_str()) {
                assert(s[i as int].id == s[j as int].id);
                return false;
            }
            j = j + 1;
        }
        i = i + 1;
    }
    true
}

/// Whether a file name carries the recognized backup extension: the sole
/// mark that distinguishes backup entries from stray files.
pub fn is_recognized_backup_id(id: &str) -> (r: bool)
    ensures
        r == is_backup_id(id@),
{
    proof {
        reveal_strlit(".txt");
    }
    let n = id.unicode_len();
    if n < 4 {
        proof {
            if is_backup_id(id@) {
                let p = choose|p: Seq<char>| id@ == p + ".txt"@;
                assert(id@.len() == p.len() + 4);
            }
        }
        return false;
    }
    let c1 = id.get_char(n - 4);
    let c2 = id.get_char(n - 3);
    let c3 = id.get_char(n - 2);
    let c4 = id.get_char(n - 1);
    let ok = c1 == '.' && c2 == 't' && c3 == 'x' && c4 == 't';
    proof {
        let ni = n as int;
        if ok {
            let p = id@.take(ni - 4);
            assert(id@ =~= p + ".txt"@);
            assert(is_backup_id(id@));
        } else {
            if is_backup_id(id@) {
                let p = choose|p: Seq<char>| id@ == p + ".txt"@;
                assert(id@.len() == p.len() + 4);
                assert(id@[ni - 4] == ".txt"@[0]);
                assert(id@[ni - 3] == ".txt"@[1]);
                assert(id@[ni - 2] == ".txt"@[2]);
                assert(id@[ni - 1] == ".txt"@[3]);
            }
        }
    }
    ok
}

/// True when every entry's identifier carries the recognized extension.
fn recognized_ok(v: &Vec<BackupEntry>) -> (r: bool)
    ensures
        r == recognized_ids(entries_view(v@)),
{
    let ghost s = entries_view(v@);
    let n = v.len();
    let mut i: usize = 0;
    while i < n
        invariant
            n == v@.len(),
            s == entries_view(v@),
            i <= n,
            forall|j: int| 0 <= j < i ==> is_backup_id((#[trigger] s[j]).id),
        decreases n - i,
    {
        if !is_recognized_backup_id(v[i].id.as_str()) {
            assert(!is_backup_id(s[i as int].id));
            return false;
        }
        i = i + 1;
    }
    true
}

/// Index of `name` among the files, scanning forward.
fn scan_files(files: &Vec<ProfileFile>, name: &str) -> (r: Option<usize>)
    ensures
        match r {
            Some(i) => i < files@.len() && files@[i as int].name@ == name@,
            None => !has_file_name(files@, name@),
        },
{
    let n = files.len();
    let mut i: usize = 0;
    while i < n
        invariant
            n == files@.len(),
            i <= n,
            forall|j: int| 0 <= j < i ==> (#[trigger] files@[j]).name@ != name@,
        decreases n - i,
    {
        if str_eq(files[i].name.as_str(), name) {
            return Some(i);
        }
        i = i + 1;
    }
    None
}

/// Index of `name` among the listed profile names, scanning forward.
fn scan_names(v: &Vec<String>, name: &str) -> (r: Option<usize>)
    ensures
        match r {
            Some(i) => i < v@.len() && names_view(v@)[i as int] == name@,
            None => !names_view(v@).contains(name@),
        },
{
    let n = v.len();
    let mut i: usize = 0;
    while i < n
        invariant
            n == v@.len(),
            i <= n,
            forall|j: int| 0 <= j < i ==> names_view(v@)[j] != name@,
        decreases n - i,
    {
        if str_eq(v[i].as_str(), name) {
            return Some(i);
        }
        i = i + 1;
    }
    None
}

impl Store {
    /// Assembles a store from a loaded metadata record, file table, live
    /// content and backup set. A state that breaks the metadata invariants
    /// — duplicate or empty names, a dangling active pointer, a record
    /// entry without its content file, or duplicate backup identifiers —
    /// is rejected as malformed.
    pub fn from_parts(
        meta: Metadata,
        files: Vec<ProfileFile>,
        live: String,
        backups: Vec<BackupEntry>,
    ) -> (r: Result<Store, Error>)
        ensures
            r matches Ok(st) ==> st.inv() && st@ == parts_view(meta, files@, live@, backups@),
            r matches Err(e) ==> e == Error::ParseError,
            r is Ok <==> parts_wf(meta, files@, live@, backups@),
    {
        if !names_ok(&meta.profiles) {
            return Err(Error::ParseError);
        }
        if !files_ok(&files) {
            return Err(Error::ParseError);
        }
        if !backups_ok(&backups) {
            return Err(Error::ParseError);
        }
        if !recognized_ok(&backups) {
            return Err(Error::ParseError);
        }
        if !meta.active.as_str().is_empty() && scan_names(&meta.profiles, meta.active.as_str()).is_none() {
            return Err(Error::ParseError);
        }
        proof {
            lemma_files_map_domain(files@);
        }
        let mut i: usize = 0;
        let n = meta.profiles.len();
        while i < n
            invariant
                n == meta.profiles@.len(),
                i <= n,
                forall|j: int|
                    0 <= j < i ==> has_file_name(files@, names_view(meta.profiles@)[j]),
            decreases n - i,
        {
            if scan_files(&files, meta.profiles[i].as_str()).is_none() {
                proof {
                    lemma_files_map_domain(files@);
                    assert(!files_map(files@).contains_key(
                        names_view(meta.profiles@)[i as int],
                    ));
                    assert(!wf(parts_view(meta, files@, live@, backups@)));
                }
                return Err(Error::ParseError);
            }
            i = i + 1;
        }
        let st = Store { meta, files, live, backups };
        proof {
            lemma_files_map_domain(st.files@);
            assert forall|k: int|
                0 <= k < st@.meta.profiles.len() implies st@.files.contains_key(
                #[trigger] st@.meta.profiles[k],
            ) by {
                assert(has_file_name(st.files@, names_view(st.meta.profiles@)[k]));
            }
            assert(wf(st@));
            assert(st@ == parts_view(st.meta, st.files@, st.live@, st.backups@));
        }
        Ok(st)
    }
}

} // verus!
