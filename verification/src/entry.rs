//! The credential entry: one named record of the store, with its
//! mathematical model and the well-formedness the engine maintains.

use vstd::prelude::*;
use crate::secure::SecureBytes;

verus! {

/// The mathematical image of one credential entry.
pub ghost struct EntryModel {
    pub name: Seq<u8>,
    pub username: Seq<u8>,
    pub password: Seq<u8>,
    pub created_at: u64,
    pub updated_at: u64,
}

/// One named credential record; `name` is the store's primary key.
/// Timestamps are seconds since the epoch.
pub struct PasswordEntry {
    pub name: Vec<u8>,
    pub username: Vec<u8>,
    pub password: SecureBytes,
    pub created_at: u64,
    pub updated_at: u64,
}

impl View for PasswordEntry {
    type V = EntryModel;

    open spec fn view(&self) -> EntryModel {
        EntryModel {
            name: self.name@,
            username: self.username@,
            password: self.password@,
            created_at: self.created_at,
            updated_at: self.updated_at,
        }
    }
}

/// The models of a sequence of entries.
pub open spec fn models(es: Seq<PasswordEntry>) -> Seq<EntryModel> {
    es.map_values(|e: PasswordEntry| e@)
}

/// A field fits the 32-bit length prefix of the on-disk encoding.
pub open spec fn wf_field(s: Seq<u8>) -> bool {
    s.len() <= u32::MAX
}

/// An entry is well formed: every field fits its length prefix and the
/// update timestamp never precedes the creation timestamp.
pub open spec fn wf_entry(e: EntryModel) -> bool {
    wf_field(e.name) && wf_field(e.username) && wf_field(e.password)
        && e.created_at <= e.updated_at
}

/// Entry names are unique within a store.
pub open spec fn names_unique(es: Seq<EntryModel>) -> bool {
    forall|i: int, j: int| 0 <= i < j < es.len() ==> (#[trigger] es[i]).name != (#[trigger] es[j]).name
}

/// A well-formed entry collection: it fits the 32-bit count of the
/// encoding, names are unique, and each entry is well formed.
pub open spec fn wf_entries(es: Seq<EntryModel>) -> bool {
    es.len() <= u32::MAX && names_unique(es)
        && forall|i: int| 0 <= i < es.len() ==> wf_entry(#[trigger] es[i])
}

/// Some entry carries the given name.
pub open spec fn contains_name(es: Seq<EntryModel>, name: Seq<u8>) -> bool {
    exists|i: int| 0 <= i < es.len() && (#[trigger] es[i]).name == name
}

/// The position of the entry carrying the given name (unique when names
/// are unique).
pub open spec fn index_of_name(es: Seq<EntryModel>, name: Seq<u8>) -> int {
    choose|i: int| 0 <= i < es.len() && (#[trigger] es[i]).name == name
}

/// An independent copy of a byte string.
pub fn clone_bytes(v: &Vec<u8>) -> (r: Vec<u8>)
    ensures
        r@ == v@,
{
    let mut r: Vec<u8> = Vec::new();
    let n = v.len();
    let mut i: usize = 0;
    while i < n
        invariant
            n == v@.len(),
            i <= n,
            r@ == v@.take(i as int),
        decreases n - i,
    {
        r.push(v[i]);
        i = i + 1;
    }
    proof {
        assert(r@ =~= v@);
    }
    r
}

/// Byte-string equality.
pub fn bytes_equal(a: &Vec<u8>, b: &Vec<u8>) -> (r: bool)
    ensures
        r <==> a@ == b@,
{
    if a.len() != b.len() {
        return false;
    }
    let n = a.len();
    let mut i: usize = 0;
    while i < n
        invariant
            n == a@.len(),
            n == b@.len(),
            i <= n,
            forall|j: int| 0 <= j < i ==> a@[j] == b@[j],
        decreases n - i,
    {
        if a[i] != b[i] {
            return false;
        }
        i = i + 1;
    }
    proof {
        assert(a@ =~= b@);
    }
    true
}

impl Clone for PasswordEntry {
    /// A field-for-field copy; the password copy has its own zeroing
    /// responsibility.
    fn clone(&self) -> (r: PasswordEntry)
        ensures
            r@ == self@,
    {
        PasswordEntry {
            name: clone_bytes(&self.name),
            username: clone_bytes(&self.username),
            password: self.password.clone(),
            created_at: self.created_at,
            updated_at: self.updated_at,
        }
    }
}

/// Finds the position of the entry named `name`, if any.
pub fn find_index(entries: &Vec<PasswordEntry>, name: &Vec<u8>) -> (r: Option<usize>)
    ensures
        r is Some ==> r->0 < entries@.len()
            && models(entries@)[r->0 as int].name == name@,
        r is None ==> !contains_name(models(entries@), name@),
{
    let n = entries.len();
    let mut i: usize = 0;
    while i < n
        invariant
            n == entries@.len(),
            i <= n,
            forall|j: int| 0 <= j < i ==> models(entries@)[j].name != name@,
        decreases n - i,
    {
        if bytes_equal(&entries[i].name, name) {
            return Some(i);
        }
        i = i + 1;
    }
    None
}

} // verus!
