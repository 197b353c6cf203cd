use vstd::prelude::*;
use crate::errors::Error;

verus! {

/// Upper bound on the number of retained backup entries.
pub const MAX_BACKUPS: usize = 25;

/// Mathematical view of the metadata record: the active profile name
/// (empty when none is active) and the ordered list of known profile names.
#[verifier::ext_equal]
pub ghost struct MetaView {
    pub active: Seq<char>,
    pub profiles: Seq<Seq<char>>,
}

/// Mathematical view of one backup entry: its identifier, the moment it was
/// written (seconds since the epoch, the retention ordering key), and an
/// exact copy of the live file at the time of capture.
#[verifier::ext_equal]
pub ghost struct EntryView {
    pub id: Seq<char>,
    pub mtime: i64,
    pub content: Seq<char>,
}

/// Mathematical view of the whole store: the metadata record, the profile
/// content files keyed by name, the live file's content, and the backup set.
#[verifier::ext_equal]
pub ghost struct StoreView {
    pub meta: MetaView,
    pub files: Map<Seq<char>, Seq<char>>,
    pub live: Seq<char>,
    pub backups: Seq<EntryView>,
}

/// The one-line comment a freshly created profile is seeded with.
pub open spec fn placeholder_content() -> Seq<char> {
    "# New profile\n"@
}

/// The identifier a capture taken at `stamp` is stored under. It always
/// carries the recognized extension.
pub open spec fn backup_id(stamp: Seq<char>) -> Seq<char> {
    "hosts_backup_"@ + stamp + ".txt"@
}

pub proof fn lemma_backup_id_recognized(stamp: Seq<char>)
    ensures
        is_backup_id(backup_id(stamp)),
{
    assert(backup_id(stamp) == ("hosts_backup_"@ + stamp) + ".txt"@);
}

/// A recognized backup identifier: one carrying the fixed extension. The
/// extension is the sole mark distinguishing backup entries from any stray
/// files in the backups directory; only recognized entries are ever held,
/// listed, evicted or deleted.
pub open spec fn is_backup_id(id: Seq<char>) -> bool {
    exists|p: Seq<char>| id == p + ".txt"@
}

/// Every entry of the set carries the recognized extension.
pub open spec fn recognized_ids(bs: Seq<EntryView>) -> bool {
    forall|i: int| 0 <= i < bs.len() ==> is_backup_id((#[trigger] bs[i]).id)
}

/// No two backup entries share an identifier.
pub open spec fn unique_ids(bs: Seq<EntryView>) -> bool {
    forall|i: int, j: int| 0 <= i < j < bs.len() ==> bs[i].id != bs[j].id
}

/// Well-formedness of a store: profile names are unique and non-empty, the
/// active pointer is empty or resolves to a known profile, every known
/// profile has a content file, and backup identifiers are unique and all
/// carry the recognized extension.
pub open spec fn wf(s: StoreView) -> bool {
    &&& s.meta.profiles.no_duplicates()
    &&& forall|i: int| 0 <= i < s.meta.profiles.len() ==> (#[trigger] s.meta.profiles[i]).len() > 0
    &&& (s.meta.active.len() == 0 || s.meta.profiles.contains(s.meta.active))
    &&& forall|i: int| 0 <= i < s.meta.profiles.len() ==> s.files.contains_key(#[trigger] s.meta.profiles[i])
    &&& unique_ids(s.backups)
    &&& recognized_ids(s.backups)
}

/// The metadata record and the content files agree exactly: no orphan
/// metadata entries and no orphan files.
pub open spec fn synced(s: StoreView) -> bool {
    s.files.dom() == s.meta.profiles.to_set()
}

/// Whether some backup entry carries the identifier `id`.
pub open spec fn has_id(bs: Seq<EntryView>, id: Seq<char>) -> bool {
    exists|i: int| 0 <= i < bs.len() && bs[i].id == id
}

/// Index of the first backup entry carrying `id`, or -1 when there is none.
pub open spec fn id_index(bs: Seq<EntryView>, id: Seq<char>) -> int
    decreases bs.len(),
{
    if bs.len() == 0 {
        -1
    } else if bs[0].id == id {
        0
    } else {
        let r = id_index(bs.drop_first(), id);
        if r < 0 {
            -1
        } else {
            r + 1
        }
    }
}

pub proof fn lemma_id_index(bs: Seq<EntryView>, id: Seq<char>)
    ensures
        has_id(bs, id) ==> {
            &&& 0 <= id_index(bs, id) < bs.len()
            &&& bs[id_index(bs, id)].id == id
            &&& forall|j: int| 0 <= j < id_index(bs, id) ==> bs[j].id != id
        },
        !has_id(bs, id) ==> id_index(bs, id) == -1,
    decreases bs.len(),
{
    if bs.len() != 0 {
        if bs[0].id == id {
            assert(has_id(bs, id));
        } else {
            let tail = bs.drop_first();
            lemma_id_index(tail, id);
            assert(forall|k: int| 0 <= k < tail.len() ==> #[trigger] tail[k] == bs[k + 1]);
            if has_id(bs, id) {
                let i = choose|i: int| 0 <= i < bs.len() && bs[i].id == id;
                assert(i >= 1);
                assert(tail[i - 1] == bs[i]);
                assert(has_id(tail, id));
                let it = id_index(tail, id);
                assert(id_index(bs, id) == it + 1);
                assert(bs[it + 1] == tail[it]);
                assert forall|j: int| 0 <= j < id_index(bs, id) implies (#[trigger] bs[j]).id
                    != id by {
                    if j >= 1 {
                        assert(tail[j - 1].id != id);
                    }
                }
            } else {
                if has_id(tail, id) {
                    let k = choose|k: int| 0 <= k < tail.len() && tail[k].id == id;
                    assert(bs[k + 1].id == id);
                    assert(false);
                }
            }
        }
    }
}

/// A position that holds `id` with no earlier occurrence is exactly the one
/// `id_index` names.
pub proof fn lemma_id_index_characterization(bs: Seq<EntryView>, id: Seq<char>, k: int)
    requires
        0 <= k < bs.len(),
        bs[k].id == id,
        forall|j: int| 0 <= j < k ==> (#[trigger] bs[j]).id != id,
    ensures
        k == id_index(bs, id),
{
    assert(has_id(bs, id));
    lemma_id_index(bs, id);
    let x = id_index(bs, id);
    if x < k {
        assert(bs[x].id != id);
    }
    if k < x {
        assert(bs[k].id != id);
    }
}

/// Index of the first entry with a minimal modification time: the entry the
/// retention policy evicts first.
pub open spec fn oldest_index(bs: Seq<EntryView>) -> int
    decreases bs.len(),
{
    if bs.len() <= 1 {
        0
    } else {
        let r = 1 + oldest_index(bs.drop_first());
        if bs[0].mtime <= bs[r].mtime {
            0
        } else {
            r
        }
    }
}

pub proof fn lemma_oldest_index(bs: Seq<EntryView>)
    requires
        bs.len() > 0,
    ensures
        0 <= oldest_index(bs) < bs.len(),
        forall|j: int| 0 <= j < bs.len() ==> bs[oldest_index(bs)].mtime <= (#[trigger] bs[j]).mtime,
        forall|j: int| 0 <= j < oldest_index(bs) ==> (#[trigger] bs[j]).mtime > bs[oldest_index(bs)].mtime,
    decreases bs.len(),
{
    if bs.len() > 1 {
        let tail = bs.drop_first();
        lemma_oldest_index(tail);
        let rt = oldest_index(tail);
        let r = 1 + rt;
        assert(forall|k: int| 0 <= k < tail.len() ==> #[trigger] tail[k] == bs[k + 1]);
        if bs[0].mtime <= bs[r].mtime {
            assert(oldest_index(bs) == 0);
            assert forall|j: int| 0 <= j < bs.len() implies bs[oldest_index(bs)].mtime
                <= (#[trigger] bs[j]).mtime by {
                if j >= 1 {
                    assert(tail[rt].mtime <= tail[j - 1].mtime);
                }
            }
        } else {
            assert(oldest_index(bs) == r);
            assert forall|j: int| 0 <= j < bs.len() implies bs[oldest_index(bs)].mtime
                <= (#[trigger] bs[j]).mtime by {
                if j >= 1 {
                    assert(tail[rt].mtime <= tail[j - 1].mtime);
                }
            }
            assert forall|j: int| 0 <= j < oldest_index(bs) implies (#[trigger] bs[j]).mtime
                > bs[oldest_index(bs)].mtime by {
                if j >= 1 {
                    assert(tail[j - 1].mtime > tail[rt].mtime);
                }
            }
        }
    }
}

/// A position that holds a minimal modification time with every earlier
/// position strictly younger is exactly the one `oldest_index` names.
pub proof fn lemma_oldest_characterization(bs: Seq<EntryView>, k: int)
    requires
        0 <= k < bs.len(),
        forall|j: int| 0 <= j < bs.len() ==> bs[k].mtime <= (#[trigger] bs[j]).mtime,
        forall|j: int| 0 <= j < k ==> (#[trigger] bs[j]).mtime > bs[k].mtime,
    ensures
        k == oldest_index(bs),
{
    lemma_oldest_index(bs);
    let o = oldest_index(bs);
    if k < o {
        assert(bs[k].mtime > bs[o].mtime);
        assert(bs[k].mtime <= bs[o].mtime);
    }
    if o < k {
        assert(bs[o].mtime > bs[k].mtime);
        assert(bs[o].mtime <= bs[k].mtime);
    }
}

/// All the backup identifiers, in table order.
pub open spec fn ids_view(bs: Seq<EntryView>) -> Seq<Seq<char>> {
    bs.map_values(|e: EntryView| e.id)
}

/// The pure retention policy: while more than `max` entries remain, evict
/// the first entry with a minimal modification time.
pub open spec fn enforce_retention(bs: Seq<EntryView>, max: nat) -> Seq<EntryView>
    decreases bs.len(),
{
    if bs.len() <= max {
        bs
    } else {
        let i = oldest_index(bs);
        if 0 <= i < bs.len() {
            enforce_retention(bs.remove(i), max)
        } else {
            bs
        }
    }
}

/// Adds a fresh capture to the backup set. An entry that reuses an existing
/// identifier replaces it (the file is overwritten); otherwise the entry is
/// appended.
pub open spec fn place_entry(bs: Seq<EntryView>, e: EntryView) -> Seq<EntryView> {
    if has_id(bs, e.id) {
        bs.remove(id_index(bs, e.id)).push(e)
    } else {
        bs.push(e)
    }
}

/// Creating a profile: rejected for an empty or already-known name;
/// otherwise the name is appended to the record and a content file seeded
/// with the placeholder comment appears.
pub open spec fn spec_create(s: StoreView, name: Seq<char>) -> (StoreView, Result<(), Error>) {
    if name.len() == 0 {
        (s, Err(Error::ValidationError))
    } else if s.meta.profiles.contains(name) {
        (s, Err(Error::ConflictError))
    } else {
        (
            StoreView {
                meta: MetaView { active: s.meta.active, profiles: s.meta.profiles.push(name) },
                files: s.files.insert(name, placeholder_content()),
                live: s.live,
                backups: s.backups,
            },
            Ok(()),
        )
    }
}

/// Deleting a profile: rejected for an unknown name and for the active
/// profile; otherwise the name and its content file are removed together.
pub open spec fn spec_delete(s: StoreView, name: Seq<char>) -> (StoreView, Result<(), Error>) {
    if !s.meta.profiles.contains(name) {
        (s, Err(Error::NotFoundError))
    } else if s.meta.active == name {
        (s, Err(Error::ConflictError))
    } else {
        (
            StoreView {
                meta: MetaView {
                    active: s.meta.active,
                    profiles: s.meta.profiles.remove(s.meta.profiles.index_of(name)),
                },
                files: s.files.remove(name),
                live: s.live,
                backups: s.backups,
            },
            Ok(()),
        )
    }
}

/// Renaming a profile: the content file moves to the new name, the record
/// entry is replaced in place, and an active pointer naming the old name
/// follows the rename — all in one step.
pub open spec fn spec_rename(s: StoreView, old_name: Seq<char>, new_name: Seq<char>) -> (
    StoreView,
    Result<(), Error>,
) {
    if new_name.len() == 0 {
        (s, Err(Error::ValidationError))
    } else if !s.meta.profiles.contains(old_name) {
        (s, Err(Error::NotFoundError))
    } else if s.meta.profiles.contains(new_name) {
        (s, Err(Error::ConflictError))
    } else {
        let i = s.meta.profiles.index_of(old_name);
        (
            StoreView {
                meta: MetaView {
                    active: if s.meta.active == old_name {
                        new_name
                    } else {
                        s.meta.active
                    },
                    profiles: s.meta.profiles.update(i, new_name),
                },
                files: s.files.remove(old_name).insert(new_name, s.files[old_name]),
                live: s.live,
                backups: s.backups,
            },
            Ok(()),
        )
    }
}

/// Reading a profile's content file.
pub open spec fn spec_read(s: StoreView, name: Seq<char>) -> Result<Seq<char>, Error> {
    if s.files.contains_key(name) {
        Ok(s.files[name])
    } else {
        Err(Error::NotFoundError)
    }
}

/// Writing a profile's content file: a full overwrite, creating the file
/// when it does not exist yet.
pub open spec fn spec_write(s: StoreView, name: Seq<char>, content: Seq<char>) -> StoreView {
    StoreView {
        meta: s.meta,
        files: s.files.insert(name, content),
        live: s.live,
        backups: s.backups,
    }
}

/// Capturing the live file: a copy of it enters the backup set under the
/// identifier derived from `stamp`, and then the retention policy runs.
pub open spec fn spec_capture(s: StoreView, stamp: Seq<char>, mtime: i64) -> StoreView {
    StoreView {
        meta: s.meta,
        files: s.files,
        live: s.live,
        backups: enforce_retention(
            place_entry(
                s.backups,
                EntryView { id: backup_id(stamp), mtime, content: s.live },
            ),
            MAX_BACKUPS as nat,
        ),
    }
}

/// Distinct stamps give distinct capture identifiers.
pub proof fn lemma_backup_id_injective(a: Seq<char>, b: Seq<char>)
    requires
        backup_id(a) == backup_id(b),
    ensures
        a == b,
{
    let pre = "hosts_backup_"@;
    let ext = ".txt"@;
    assert(backup_id(a).len() == pre.len() + a.len() + ext.len());
    assert(backup_id(b).len() == pre.len() + b.len() + ext.len());
    assert(a.len() == b.len());
    assert forall|i: int| 0 <= i < a.len() implies a[i] == b[i] by {
        assert(backup_id(a)[pre.len() + i] == a[i]);
        assert(backup_id(b)[pre.len() + i] == b[i]);
    }
    assert(a =~= b);
}

/// The store after a whole run of captures, one per stamp, in order.
pub open spec fn capture_trace(s: StoreView, stamps: Seq<Seq<char>>, mtimes: Seq<i64>) -> StoreView
    decreases stamps.len(),
{
    if stamps.len() == 0 {
        s
    } else {
        capture_trace(
            spec_capture(s, stamps[0], mtimes[0]),
            stamps.drop_first(),
            mtimes.drop_first(),
        )
    }
}

/// A run of captures is the run over all but the last, followed by the
/// last capture.
pub proof fn lemma_capture_trace_snoc(s: StoreView, stamps: Seq<Seq<char>>, mtimes: Seq<i64>)
    requires
        stamps.len() == mtimes.len(),
        stamps.len() > 0,
    ensures
        capture_trace(s, stamps, mtimes) == spec_capture(
            capture_trace(s, stamps.drop_last(), mtimes.drop_last()),
            stamps.last(),
            mtimes.last(),
        ),
    decreases stamps.len(),
{
    if stamps.len() == 1 {
        assert(capture_trace(s, stamps.drop_last(), mtimes.drop_last()) == s);
        assert(capture_trace(
            spec_capture(s, stamps[0], mtimes[0]),
            stamps.drop_first(),
            mtimes.drop_first(),
        ) == spec_capture(s, stamps[0], mtimes[0]));
    } else {
        let s1 = spec_capture(s, stamps[0], mtimes[0]);
        lemma_capture_trace_snoc(s1, stamps.drop_first(), mtimes.drop_first());
        assert(stamps.drop_first().drop_last() =~= stamps.drop_last().drop_first());
        assert(mtimes.drop_first().drop_last() =~= mtimes.drop_last().drop_first());
        assert(stamps.drop_first().last() == stamps.last());
        assert(mtimes.drop_first().last() == mtimes.last());
        assert(stamps.drop_last()[0] == stamps[0]);
        assert(mtimes.drop_last()[0] == mtimes[0]);
        assert(capture_trace(s, stamps.drop_last(), mtimes.drop_last()) == capture_trace(
            s1,
            stamps.drop_last().drop_first(),
            mtimes.drop_last().drop_first(),
        ));
    }
}

/// Reading one backup entry's stored content.
pub open spec fn spec_read_backup(s: StoreView, id: Seq<char>) -> Result<Seq<char>, Error> {
    if has_id(s.backups, id) {
        Ok(s.backups[id_index(s.backups, id)].content)
    } else {
        Err(Error::NotFoundError)
    }
}

/// Deleting one backup entry.
pub open spec fn spec_delete_backup(s: StoreView, id: Seq<char>) -> (StoreView, Result<(), Error>) {
    if has_id(s.backups, id) {
        (
            StoreView {
                meta: s.meta,
                files: s.files,
                live: s.live,
                backups: s.backups.remove(id_index(s.backups, id)),
            },
            Ok(()),
        )
    } else {
        (s, Err(Error::NotFoundError))
    }
}

/// Deleting every backup entry.
pub open spec fn spec_delete_all(s: StoreView) -> StoreView {
    StoreView { meta: s.meta, files: s.files, live: s.live, backups: Seq::empty() }
}

/// Restoring a backup: unknown identifiers are rejected; otherwise the
/// current live file is captured first, and only then does the backup's
/// content become live. The fresh capture may evict the very entry being
/// restored; that is surfaced as an I/O failure, after the capture.
pub open spec fn spec_restore(s: StoreView, id: Seq<char>, stamp: Seq<char>, mtime: i64) -> (
    StoreView,
    Result<(), Error>,
) {
    if !has_id(s.backups, id) {
        (s, Err(Error::NotFoundError))
    } else {
        let s1 = spec_capture(s, stamp, mtime);
        if has_id(s1.backups, id) {
            (
                StoreView {
                    meta: s1.meta,
                    files: s1.files,
                    live: s1.backups[id_index(s1.backups, id)].content,
                    backups: s1.backups,
                },
                Ok(()),
            )
        } else {
            (s1, Err(Error::IoError))
        }
    }
}

/// Activating a profile: unknown names are rejected before anything
/// happens; otherwise the live file is captured, the profile's content
/// becomes live, and the active pointer moves to the profile — in that
/// order, so a missing content file still leaves the capture behind.
pub open spec fn spec_activate(s: StoreView, name: Seq<char>, stamp: Seq<char>, mtime: i64) -> (
    StoreView,
    Result<(), Error>,
) {
    if !s.meta.profiles.contains(name) {
        (s, Err(Error::NotFoundError))
    } else {
        let s1 = spec_capture(s, stamp, mtime);
        if s1.files.contains_key(name) {
            (
                StoreView {
                    meta: MetaView { active: name, profiles: s1.meta.profiles },
                    files: s1.files,
                    live: s1.files[name],
                    backups: s1.backups,
                },
                Ok(()),
            )
        } else {
            (s1, Err(Error::NotFoundError))
        }
    }
}

} // verus!
