use vstd::prelude::*;
use crate::errors::Error;
use crate::model::{
    EntryView, StoreView, backup_id, capture_trace, enforce_retention, has_id, id_index,
    is_backup_id, lemma_backup_id_injective, lemma_capture_trace_snoc, lemma_id_index,
    lemma_id_index_characterization, lemma_oldest_characterization,
    lemma_oldest_index, oldest_index, place_entry, placeholder_content, recognized_ids,
    spec_activate, spec_capture, spec_create, spec_delete, spec_read, spec_rename,
    spec_restore, spec_write, synced, wf, MAX_BACKUPS,
};

verus! {

/// Creating a profile keeps the store well-formed, and keeps the metadata
/// record in exact agreement with the set of content files.
pub proof fn lemma_create_preserves(s: StoreView, name: Seq<char>)
    requires
        wf(s),
    ensures
        wf(spec_create(s, name).0),
        synced(s) ==> synced(spec_create(s, name).0),
{
    let t = spec_create(s, name).0;
    if spec_create(s, name).1 is Ok {
        let p = s.meta.profiles;
        let q = t.meta.profiles;
        assert(forall|a: int| 0 <= a < p.len() ==> #[trigger] p[a] != name);
        assert forall|a: int, b: int|
            0 <= a < q.len() && 0 <= b < q.len() && a != b implies q[a] != q[b] by {
            assert(p.no_duplicates());
        }
        assert(q.no_duplicates());
        if s.meta.active.len() > 0 {
            let w = choose|w: int| 0 <= w < p.len() && p[w] == s.meta.active;
            assert(q[w] == s.meta.active);
            assert(q.contains(t.meta.active));
        }
        assert forall|i: int| 0 <= i < q.len() implies t.files.contains_key(
            #[trigger] q[i],
        ) by {
            if i < p.len() {
                assert(s.files.contains_key(p[i]));
            }
        }
        if synced(s) {
            assert forall|e: Seq<char>| #[trigger] t.files.dom().contains(e)
                <==> t.meta.profiles.to_set().contains(e) by {
                if e == name {
                    assert(q[q.len() - 1] == name);
                    assert(q.contains(name));
                } else {
                    if q.contains(e) {
                        let w = choose|w: int| 0 <= w < q.len() && q[w] == e;
                        assert(p[w] == e);
                        assert(p.contains(e));
                    }
                    if p.contains(e) {
                        let w = choose|w: int| 0 <= w < p.len() && p[w] == e;
                        assert(q[w] == e);
                        assert(q.contains(e));
                    }
                    assert(s.files.dom().contains(e) <==> p.to_set().contains(e));
                }
            }
            assert(t.files.dom() =~= t.meta.profiles.to_set());
        }
    }
}

/// Deleting a profile keeps the store well-formed and keeps the metadata
/// record in exact agreement with the set of content files.
pub proof fn lemma_delete_preserves(s: StoreView, name: Seq<char>)
    requires
        wf(s),
    ensures
        wf(spec_delete(s, name).0),
        synced(s) ==> synced(spec_delete(s, name).0),
{
    let t = spec_delete(s, name).0;
    if spec_delete(s, name).1 is Ok {
        let p = s.meta.profiles;
        let q = t.meta.profiles;
        let idx = p.index_of(name);
        assert(p.contains(name));
        assert(0 <= idx < p.len() && p[idx] == name);
        p.remove_ensures(idx);
        assert forall|a: int, b: int|
            0 <= a < q.len() && 0 <= b < q.len() && a != b implies q[a] != q[b] by {
            assert(q[a] == if a < idx {
                p[a]
            } else {
                p[a + 1]
            });
            assert(q[b] == if b < idx {
                p[b]
            } else {
                p[b + 1]
            });
        }
        assert(q.no_duplicates());
        assert forall|i: int| 0 <= i < q.len() implies (#[trigger] q[i]).len() > 0 && q[i]
            != name && t.files.contains_key(q[i]) by {
            let j: int = if i < idx {
                i
            } else {
                i + 1
            };
            assert(q[i] == p[j]);
            assert(p[j] != p[idx]);
            assert(s.files.contains_key(p[j]));
        }
        if t.meta.active.len() > 0 {
            assert(s.meta.active != name);
            let w = choose|w: int| 0 <= w < p.len() && p[w] == s.meta.active;
            if w < idx {
                assert(q[w] == s.meta.active);
            } else {
                assert(q[w - 1] == s.meta.active);
            }
            assert(q.contains(t.meta.active));
        }
        if synced(s) {
            assert forall|e: Seq<char>| #[trigger] t.files.dom().contains(e)
                <==> q.to_set().contains(e) by {
                if e != name {
                    if q.contains(e) {
                        let w = choose|w: int| 0 <= w < q.len() && q[w] == e;
                        assert(q[w] == if w < idx {
                            p[w]
                        } else {
                            p[w + 1]
                        });
                        assert(p.contains(e));
                    }
                    if p.contains(e) {
                        let w = choose|w: int| 0 <= w < p.len() && p[w] == e;
                        assert(w != idx);
                        if w < idx {
                            assert(q[w] == e);
                        } else {
                            assert(q[w - 1] == e);
                        }
                        assert(q.contains(e));
                    }
                    assert(s.files.dom().contains(e) <==> p.to_set().contains(e));
                } else {
                    assert(forall|w: int| 0 <= w < q.len() ==> #[trigger] q[w] != name);
                }
            }
            assert(t.files.dom() =~= q.to_set());
        }
    }
}

/// Renaming a profile keeps the store well-formed and keeps the metadata
/// record in exact agreement with the set of content files.
pub proof fn lemma_rename_preserves(s: StoreView, old_name: Seq<char>, new_name: Seq<char>)
    requires
        wf(s),
    ensures
        wf(spec_rename(s, old_name, new_name).0),
        synced(s) ==> synced(spec_rename(s, old_name, new_name).0),
{
    let t = spec_rename(s, old_name, new_name).0;
    if spec_rename(s, old_name, new_name).1 is Ok {
        let p = s.meta.profiles;
        let q = t.meta.profiles;
        let idx = p.index_of(old_name);
        assert(p.contains(old_name));
        assert(0 <= idx < p.len() && p[idx] == old_name);
        assert(forall|a: int| 0 <= a < p.len() ==> #[trigger] p[a] != new_name);
        assert forall|a: int, b: int|
            0 <= a < q.len() && 0 <= b < q.len() && a != b implies q[a] != q[b] by {
            assert(p.no_duplicates());
        }
        assert(q.no_duplicates());
        assert forall|i: int| 0 <= i < q.len() implies (#[trigger] q[i]).len() > 0
            && t.files.contains_key(q[i]) by {
            if i != idx {
                assert(q[i] == p[i]);
                assert(p[i] != p[idx]);
                assert(s.files.contains_key(p[i]));
            }
        }
        if t.meta.active.len() > 0 {
            if s.meta.active == old_name {
                assert(q[idx] == new_name);
                assert(q.contains(t.meta.active));
            } else {
                let w = choose|w: int| 0 <= w < p.len() && p[w] == s.meta.active;
                assert(w != idx);
                assert(q[w] == s.meta.active);
                assert(q.contains(t.meta.active));
            }
        }
        if synced(s) {
            assert forall|e: Seq<char>| #[trigger] t.files.dom().contains(e)
                <==> q.to_set().contains(e) by {
                if e == new_name {
                    assert(q[idx] == new_name);
                    assert(q.contains(e));
                } else if e == old_name {
                    assert(forall|w: int|
                        0 <= w < q.len() ==> #[trigger] q[w] != old_name);
                } else {
                    if q.contains(e) {
                        let w = choose|w: int| 0 <= w < q.len() && q[w] == e;
                        assert(p[w] == e);
                        assert(p.contains(e));
                    }
                    if p.contains(e) {
                        let w = choose|w: int| 0 <= w < p.len() && p[w] == e;
                        assert(w != idx);
                        assert(q[w] == e);
                        assert(q.contains(e));
                    }
                    assert(s.files.dom().contains(e) <==> p.to_set().contains(e));
                }
            }
            assert(t.files.dom() =~= q.to_set());
        }
    }
}

/// Freshly created profiles read back as the placeholder comment.
pub proof fn lemma_create_then_read(s: StoreView, name: Seq<char>)
    requires
        spec_create(s, name).1 is Ok,
    ensures
        spec_read(spec_create(s, name).0, name) == Ok::<Seq<char>, Error>(
            placeholder_content(),
        ),
{
}

/// What was written is exactly what reads back.
pub proof fn lemma_write_then_read(s: StoreView, name: Seq<char>, content: Seq<char>)
    ensures
        spec_read(spec_write(s, name, content), name) == Ok::<Seq<char>, Error>(content),
{
}

/// A successful rename preserves the content bytes, carries an active
/// pointer naming the old profile over to the new name, and forgets the
/// old name.
pub proof fn lemma_rename_effects(s: StoreView, old_name: Seq<char>, new_name: Seq<char>)
    requires
        wf(s),
        spec_rename(s, old_name, new_name).1 is Ok,
    ensures
        spec_read(spec_rename(s, old_name, new_name).0, new_name) == spec_read(s, old_name),
        s.meta.active == old_name ==> spec_rename(s, old_name, new_name).0.meta.active
            == new_name,
        !spec_rename(s, old_name, new_name).0.meta.profiles.contains(old_name),
{
    let t = spec_rename(s, old_name, new_name).0;
    let p = s.meta.profiles;
    let idx = p.index_of(old_name);
    assert(p.contains(old_name));
    assert(0 <= idx < p.len() && p[idx] == old_name);
    assert(s.files.contains_key(old_name));
    assert(old_name != new_name);
    assert(forall|w: int|
        0 <= w < t.meta.profiles.len() ==> #[trigger] t.meta.profiles[w] != old_name);
    if t.meta.profiles.contains(old_name) {
        let w = choose|w: int|
            0 <= w < t.meta.profiles.len() && t.meta.profiles[w] == old_name;
        assert(false);
    }
}

/// Deleting the active profile is always rejected with a conflict, and the
/// store — the profile included — is left exactly as it was.
pub proof fn lemma_delete_active_rejected(s: StoreView, name: Seq<char>)
    requires
        wf(s),
        s.meta.active == name,
        name.len() > 0,
    ensures
        spec_delete(s, name) == (s, Err::<(), Error>(Error::ConflictError)),
        s.meta.profiles.contains(name),
{
}

/// The retention policy never keeps more than the bound, evicts nothing
/// while within it, keeps only entries that were present, and evicts only
/// entries no younger than everything it keeps.
pub proof fn lemma_retention(bs: Seq<EntryView>, max: nat)
    ensures
        bs.len() <= max ==> enforce_retention(bs, max) == bs,
        bs.len() > max ==> enforce_retention(bs, max).len() == max,
        forall|k: EntryView| #[trigger] enforce_retention(bs, max).contains(k) ==> bs.contains(
            k,
        ),
        forall|e: EntryView, k: EntryView|
            #![trigger enforce_retention(bs, max).to_multiset().count(e), enforce_retention(bs, max).contains(k)]
            bs.to_multiset().count(e) > enforce_retention(bs, max).to_multiset().count(e)
                && enforce_retention(bs, max).contains(k) ==> e.mtime <= k.mtime,
    decreases bs.len(),
{
    broadcast use vstd::seq_lib::group_to_multiset_ensures;

    if bs.len() > max {
        lemma_oldest_index(bs);
        let i = oldest_index(bs);
        let bs2 = bs.remove(i);
        lemma_retention(bs2, max);
        bs.remove_ensures(i);
        let r = enforce_retention(bs, max);
        assert(r == enforce_retention(bs2, max));
        assert(bs2.to_multiset() =~= bs.to_multiset().remove(bs[i]));
        assert forall|k: EntryView| #[trigger] r.contains(k) implies bs.contains(k) by {
            assert(bs2.contains(k));
            let j = choose|j: int| 0 <= j < bs2.len() && bs2[j] == k;
            assert(bs2[j] == if j < i {
                bs[j]
            } else {
                bs[j + 1]
            });
            assert(bs.contains(k));
        }
        assert forall|e: EntryView, k: EntryView|
            #![trigger r.to_multiset().count(e), r.contains(k)]
            bs.to_multiset().count(e) > r.to_multiset().count(e) && r.contains(
                k,
            ) implies e.mtime <= k.mtime by {
            if e == bs[i] {
                assert(bs2.contains(k));
                let j = choose|j: int| 0 <= j < bs2.len() && bs2[j] == k;
                let j0: int = if j < i {
                    j
                } else {
                    j + 1
                };
                assert(bs[j0] == k);
                assert(bs[i].mtime <= bs[j0].mtime);
            } else {
                assert(bs2.to_multiset().count(e) == bs.to_multiset().count(e));
            }
        }
    }
}

/// After any capture the backup set is within its bound.
pub proof fn lemma_capture_bounded(s: StoreView, stamp: Seq<char>, mtime: i64)
    ensures
        spec_capture(s, stamp, mtime).backups.len() <= MAX_BACKUPS,
{
    let e = EntryView { id: backup_id(stamp), mtime, content: s.live };
    let p = place_entry(s.backups, e);
    lemma_retention(p, MAX_BACKUPS as nat);
}

/// The retention policy acts on backup entries alone: when every entry
/// carries the recognized extension, so does everything the policy keeps,
/// and everything it evicts was such an entry. A stray file without the
/// extension is never an entry, so the policy never touches it.
pub proof fn lemma_retention_recognized(bs: Seq<EntryView>, max: nat)
    requires
        recognized_ids(bs),
    ensures
        recognized_ids(enforce_retention(bs, max)),
        forall|e: EntryView|
            #[trigger] bs.to_multiset().count(e) > enforce_retention(bs, max).to_multiset().count(
                e,
            ) ==> is_backup_id(e.id),
{
    broadcast use vstd::seq_lib::group_to_multiset_ensures;

    lemma_retention(bs, max);
    let r = enforce_retention(bs, max);
    assert forall|i: int| 0 <= i < r.len() implies is_backup_id((#[trigger] r[i]).id) by {
        assert(r.contains(r[i]));
        assert(bs.contains(r[i]));
        let k = choose|k: int| 0 <= k < bs.len() && bs[k] == r[i];
        assert(is_backup_id(bs[k].id));
    }
    assert forall|e: EntryView|
        #[trigger] bs.to_multiset().count(e) > r.to_multiset().count(e) implies is_backup_id(
        e.id,
    ) by {
        assert(bs.to_multiset().count(e) > 0);
        assert(bs.contains(e));
        let k = choose|k: int| 0 <= k < bs.len() && bs[k] == e;
        assert(is_backup_id(bs[k].id));
    }
}

/// A capture under a fresh identifier grows the backup set by one until
/// the bound is reached, and then holds it exactly at the bound.
pub proof fn lemma_capture_len(s: StoreView, stamp: Seq<char>, mtime: i64)
    requires
        !has_id(s.backups, backup_id(stamp)),
    ensures
        spec_capture(s, stamp, mtime).backups.len() == if s.backups.len() + 1 <= MAX_BACKUPS {
            s.backups.len() + 1
        } else {
            MAX_BACKUPS as nat
        },
{
    let e = EntryView { id: backup_id(stamp), mtime, content: s.live };
    let p = place_entry(s.backups, e);
    assert(p == s.backups.push(e));
    lemma_retention(p, MAX_BACKUPS as nat);
}

/// The entry a run of captures writes at its `j`-th step.
pub open spec fn trace_entry(
    stamps: Seq<Seq<char>>,
    mtimes: Seq<i64>,
    live: Seq<char>,
    j: int,
) -> EntryView {
    EntryView { id: backup_id(stamps[j]), mtime: mtimes[j], content: live }
}

/// After any number of captures — distinct stamps, strictly increasing
/// modification times, starting from an empty backup set — exactly the
/// newest `MAX_BACKUPS` entries remain (all of them while there are
/// fewer), in creation order, each holding the live file's bytes; the
/// oldest were evicted first, and nothing else of the store moved.
pub proof fn lemma_repeated_capture_retention(
    s: StoreView,
    stamps: Seq<Seq<char>>,
    mtimes: Seq<i64>,
)
    requires
        s.backups == Seq::<EntryView>::empty(),
        stamps.len() == mtimes.len(),
        stamps.no_duplicates(),
        forall|i: int, j: int| 0 <= i < j < mtimes.len() ==> mtimes[i] < mtimes[j],
    ensures
        ({
            let n = stamps.len() as int;
            let m: int = if n <= MAX_BACKUPS {
                n
            } else {
                MAX_BACKUPS as int
            };
            let t = capture_trace(s, stamps, mtimes);
            &&& t.backups.len() == m
            &&& forall|i: int|
                0 <= i < m ==> t.backups[i] == trace_entry(stamps, mtimes, s.live, n - m + i)
            &&& t.meta == s.meta
            &&& t.files == s.files
            &&& t.live == s.live
        }),
    decreases stamps.len(),
{
    let n = stamps.len() as int;
    let cap = MAX_BACKUPS as int;
    if n > 0 {
        let fs = stamps.drop_last();
        let fm = mtimes.drop_last();
        assert(forall|k: int| 0 <= k < fs.len() ==> #[trigger] fs[k] == stamps[k]);
        assert(forall|k: int| 0 <= k < fm.len() ==> #[trigger] fm[k] == mtimes[k]);
        assert forall|a: int, b: int|
            0 <= a < fs.len() && 0 <= b < fs.len() && a != b implies fs[a] != fs[b] by {
            assert(stamps.no_duplicates());
        }
        assert(fs.no_duplicates());
        lemma_repeated_capture_retention(s, fs, fm);
        lemma_capture_trace_snoc(s, stamps, mtimes);
        let u = capture_trace(s, fs, fm);
        let m1: int = if n - 1 <= cap {
            n - 1
        } else {
            cap
        };
        let base1 = (n - 1) - m1;
        let e = EntryView { id: backup_id(stamps[n - 1]), mtime: mtimes[n - 1], content: u.live };
        assert forall|k: int| 0 <= k < u.backups.len() implies (#[trigger] u.backups[k]).id
            != e.id by {
            assert(u.backups[k] == trace_entry(fs, fm, s.live, base1 + k));
            if backup_id(fs[base1 + k]) == backup_id(stamps[n - 1]) {
                lemma_backup_id_injective(fs[base1 + k], stamps[n - 1]);
                assert(stamps[base1 + k] == stamps[n - 1]);
            }
        }
        if has_id(u.backups, e.id) {
            let w = choose|w: int| 0 <= w < u.backups.len() && u.backups[w].id == e.id;
            assert(false);
        }
        assert(place_entry(u.backups, e) == u.backups.push(e));
        let p = u.backups.push(e);
        assert(forall|i: int|
            0 <= i < m1 ==> #[trigger] p[i] == trace_entry(stamps, mtimes, s.live, base1 + i));
        assert(p[m1] == trace_entry(stamps, mtimes, s.live, n - 1));
        if m1 < cap {
            assert(p.len() <= cap);
            assert(enforce_retention(p, MAX_BACKUPS as nat) == p);
        } else {
            // the set was full: the first (oldest) entry gives way
            assert(p.len() == cap + 1);
            assert forall|j: int| 0 <= j < p.len() implies p[0].mtime <= (
            #[trigger] p[j]).mtime by {
                if j < m1 {
                    assert(p[j].mtime == mtimes[base1 + j]);
                } else {
                    assert(p[j].mtime == mtimes[n - 1]);
                }
            }
            lemma_oldest_characterization(p, 0);
            assert(oldest_index(p) == 0);
            lemma_oldest_index(p);
            assert(enforce_retention(p, MAX_BACKUPS as nat) == enforce_retention(
                p.remove(0),
                MAX_BACKUPS as nat,
            ));
            p.remove_ensures(0);
            assert(p.remove(0).len() == cap);
            assert(enforce_retention(p.remove(0), MAX_BACKUPS as nat) == p.remove(0));
            let t = capture_trace(s, stamps, mtimes);
            assert forall|i: int| 0 <= i < cap implies t.backups[i] == trace_entry(
                stamps,
                mtimes,
                s.live,
                n - cap + i,
            ) by {
                assert(t.backups[i] == p[i + 1]);
            }
        }
    }
}

/// A restore is always preceded by an implicit capture: when the backup
/// set is still under its bound and the fresh capture's identifier is new,
/// a successful restore leaves exactly one more entry than before — the
/// appended entry holds the pre-restore live bytes — and the live file
/// takes the restored entry's stored content.
pub proof fn lemma_restore_implicit_capture(
    s: StoreView,
    id: Seq<char>,
    stamp: Seq<char>,
    mtime: i64,
)
    requires
        has_id(s.backups, id),
        s.backups.len() < MAX_BACKUPS,
        !has_id(s.backups, backup_id(stamp)),
    ensures
        spec_restore(s, id, stamp, mtime).1 is Ok,
        spec_restore(s, id, stamp, mtime).0.backups == s.backups.push(
            EntryView { id: backup_id(stamp), mtime, content: s.live },
        ),
        spec_restore(s, id, stamp, mtime).0.live == s.backups[id_index(s.backups, id)].content,
{
    let e = EntryView { id: backup_id(stamp), mtime, content: s.live };
    let p = place_entry(s.backups, e);
    assert(p == s.backups.push(e));
    assert(p.len() == s.backups.len() + 1);
    assert(enforce_retention(p, MAX_BACKUPS as nat) == p);
    lemma_id_index(s.backups, id);
    let k = id_index(s.backups, id);
    assert(p[k].id == id);
    assert(has_id(p, id));
    assert forall|j: int| 0 <= j < k implies (#[trigger] p[j]).id != id by {
        assert(p[j] == s.backups[j]);
    }
    lemma_id_index_characterization(p, id, k);
    assert(p[k] == s.backups[k]);
}

/// Activating a known profile succeeds: the live file takes the profile's
/// content and the active pointer its name, after a capture of the
/// previous live bytes enters the backup set (as one fresh entry, when
/// the set is under its bound and the capture's identifier is new).
pub proof fn lemma_activate_known(s: StoreView, name: Seq<char>, stamp: Seq<char>, mtime: i64)
    requires
        wf(s),
        s.meta.profiles.contains(name),
        s.backups.len() < MAX_BACKUPS,
        !has_id(s.backups, backup_id(stamp)),
    ensures
        spec_activate(s, name, stamp, mtime).1 is Ok,
        spec_activate(s, name, stamp, mtime).0.live == s.files[name],
        spec_activate(s, name, stamp, mtime).0.meta.active == name,
        spec_activate(s, name, stamp, mtime).0.meta.profiles == s.meta.profiles,
        spec_activate(s, name, stamp, mtime).0.files == s.files,
        spec_activate(s, name, stamp, mtime).0.backups == s.backups.push(
            EntryView { id: backup_id(stamp), mtime, content: s.live },
        ),
{
    let w = choose|w: int| 0 <= w < s.meta.profiles.len() && s.meta.profiles[w] == name;
    assert(s.files.contains_key(s.meta.profiles[w]));
    let e = EntryView { id: backup_id(stamp), mtime, content: s.live };
    let p = place_entry(s.backups, e);
    assert(p == s.backups.push(e));
    assert(enforce_retention(p, MAX_BACKUPS as nat) == p);
}

/// Activating an unknown profile fails with a not-found error and leaves
/// the whole store — active pointer and live file included — untouched.
pub proof fn lemma_activate_unknown(
    s: StoreView,
    name: Seq<char>,
    stamp: Seq<char>,
    mtime: i64,
)
    requires
        !s.meta.profiles.contains(name),
    ensures
        spec_activate(s, name, stamp, mtime) == (s, Err::<(), Error>(Error::NotFoundError)),
{
}

} // verus!
