use vstd::prelude::*;
use crate::model::{EntryView, is_backup_id, recognized_ids, unique_ids};
use crate::store::{entries_view, BackupEntry};

verus! {

/// Taking the views of a table commutes with removing one entry.
pub proof fn lemma_entries_view_remove(s: Seq<BackupEntry>, i: int)
    requires
        0 <= i < s.len(),
    ensures
        entries_view(s.remove(i)) =~= entries_view(s).remove(i),
{
    s.remove_ensures(i);
    entries_view(s).remove_ensures(i);
}

/// Entries removed one by one never disturb identifier uniqueness.
pub proof fn lemma_unique_ids_remove(bs: Seq<EntryView>, i: int)
    requires
        unique_ids(bs),
        0 <= i < bs.len(),
    ensures
        unique_ids(bs.remove(i)),
{
    bs.remove_ensures(i);
    assert forall|a: int, b: int|
        0 <= a < b < bs.remove(i).len() implies (#[trigger] bs.remove(i)[a]).id
        != (#[trigger] bs.remove(i)[b]).id by {
        assert(bs.remove(i)[a] == if a < i {
            bs[a]
        } else {
            bs[a + 1]
        });
        assert(bs.remove(i)[b] == if b < i {
            bs[b]
        } else {
            bs[b + 1]
        });
    }
}


/// Entries removed one by one all keep the recognized extension.
pub proof fn lemma_recognized_remove(bs: Seq<EntryView>, i: int)
    requires
        recognized_ids(bs),
        0 <= i < bs.len(),
    ensures
        recognized_ids(bs.remove(i)),
{
    bs.remove_ensures(i);
    assert forall|k: int|
        0 <= k < bs.remove(i).len() implies is_backup_id((#[trigger] bs.remove(i)[k]).id) by {
        assert(bs.remove(i)[k] == if k < i {
            bs[k]
        } else {
            bs[k + 1]
        });
    }
}

} // verus!
