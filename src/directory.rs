use vstd::prelude::*;
use crate::histogram::{data_center_label, strip_spaces, NO_DATA_CENTER};
use crate::text::{bytes_equal, copy_bytes};

verus! {

/// Icon shown for a validator on record without one of its own.
pub const MISSING_ICON_URL: &'static str = "https://www.shinobi-systems.com/missing_icon.png";

/// One validator on record; only the vote account is required.
pub struct DirectoryEntry {
    pub vote_account: Vec<u8>,
    pub name: Option<Vec<u8>>,
    pub avatar_url: Option<Vec<u8>>,
    pub data_center_key: Option<Vec<u8>>,
}

/// The icon column of a validator.
pub enum Icon {
    /// Not on record: nothing is shown.
    Absent,
    /// On record without an icon: the fallback icon is shown.
    Fallback,
    /// On record with an icon.
    Url(Vec<u8>),
}

/// The last record of `key` stands at `j`.
pub open spec fn last_record(dir: Seq<DirectoryEntry>, key: Seq<u8>, j: int) -> bool {
    &&& 0 <= j < dir.len()
    &&& dir[j].vote_account@ == key
    &&& forall|k: int| j < k < dir.len() ==> #[trigger] dir[k].vote_account@ != key
}

/// The last record of `key` that names a data center stands at `j`.
pub open spec fn last_placed_record(dir: Seq<DirectoryEntry>, key: Seq<u8>, j: int) -> bool {
    &&& 0 <= j < dir.len()
    &&& dir[j].vote_account@ == key
    &&& dir[j].data_center_key is Some
    &&& forall|k: int| j < k < dir.len() ==> #[trigger] dir[k].vote_account@ != key || dir[k].data_center_key is None
}

/// The name and icon under which `key` is shown: the record's name, or the
/// key itself where the record has none or there is no record; the record's
/// icon, the fallback icon where it has none, nothing where there is no
/// record. A later record of a key overrides an earlier one.
pub fn display_of(dir: &Vec<DirectoryEntry>, key: &Vec<u8>) -> (r: (Vec<u8>, Icon))
    ensures
        (forall|j: int| 0 <= j < dir@.len() ==> #[trigger] dir@[j].vote_account@ != key@) ==> (r.0@ == key@
            && r.1 is Absent),
        forall|j: int|
            last_record(dir@, key@, j) ==> {
                &&& (r.0@ == match dir@[j].name {
                    Some(n) => n@,
                    None => key@,
                })
                &&& (match dir@[j].avatar_url {
                    Some(u) => r.1 matches Icon::Url(v) && v@ == u@,
                    None => r.1 is Fallback,
                })
            },
{
    let mut j: usize = dir.len();
    while j > 0
        invariant
            0 <= j <= dir@.len(),
            forall|k: int| j <= k < dir@.len() ==> #[trigger] dir@[k].vote_account@ != key@,
        decreases j,
    {
        let e = &dir[j - 1];
        if bytes_equal(&e.vote_account, key) {
            let name = match &e.name {
                Some(n) => copy_bytes(n),
                None => copy_bytes(key),
            };
            let icon = match &e.avatar_url {
                Some(u) => Icon::Url(copy_bytes(u)),
                None => Icon::Fallback,
            };
            proof {
                assert(last_record(dir@, key@, j - 1));
                assert forall|i: int| last_record(dir@, key@, i) implies i == j - 1 by {
                    if i < j - 1 {
                        assert(dir@[j - 1].vote_account@ != key@);
                    }
                }
            }
            return (name, icon);
        }
        j = j - 1;
    }
    proof {
        assert forall|i: int| !last_record(dir@, key@, i) by {}
    }
    (copy_bytes(key), Icon::Absent)
}

/// The data-center id written for `key`: that of its last record naming one,
/// with white space removed, or the placeholder.
pub fn data_center_of(dir: &Vec<DirectoryEntry>, key: &Vec<u8>) -> (r: Vec<u8>)
    ensures
        (forall|j: int| !last_placed_record(dir@, key@, j)) ==> r@ == seq![NO_DATA_CENTER],
        forall|j: int|
            last_placed_record(dir@, key@, j) ==> (dir@[j].data_center_key matches Some(d) && r@ == strip_spaces(
                d@,
            )),
{
    let mut j: usize = dir.len();
    while j > 0
        invariant
            0 <= j <= dir@.len(),
            forall|k: int| j <= k < dir@.len() ==> #[trigger] dir@[k].vote_account@ != key@ || dir@[k].data_center_key is None,
        decreases j,
    {
        let e = &dir[j - 1];
        if bytes_equal(&e.vote_account, key) {
            if let Some(d) = &e.data_center_key {
                proof {
                    assert(last_placed_record(dir@, key@, j - 1));
                    assert forall|i: int| last_placed_record(dir@, key@, i) implies i == j - 1 by {
                        if i < j - 1 {
                            assert(dir@[j - 1].vote_account@ != key@ || dir@[j - 1].data_center_key is None);
                        }
                    }
                }
                return data_center_label(Some(d));
            }
        }
        j = j - 1;
    }
    proof {
        assert forall|i: int| !last_placed_record(dir@, key@, i) by {}
    }
    data_center_label(None)
}

} // verus!
