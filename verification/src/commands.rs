//! The change command's engine side: replace one entry's password. The
//! surrounding prompting, clipboard and messages live with the caller,
//! which hands in the parsed application name, the new password and the
//! current time, and maps the small integer failure signal to its exit
//! code.

use vstd::prelude::*;
use crate::secure::SecureBytes;
use crate::entry::{EntryModel, contains_name, index_of_name};
use crate::store::PasswordStore;

verus! {

/// Replaces the password of the entry named `app_name` with
/// `new_password`, stamping the change with `now`. Fails with signal 1
/// when no such entry exists — then the store is unchanged.
pub fn callback_exec(
    store: &mut PasswordStore,
    app_name: &Vec<u8>,
    new_password: SecureBytes,
    now: u64,
) -> (r: Result<(), i32>)
    requires
        old(store).wf(),
        new_password@.len() <= u32::MAX,
    ensures
        final(store).wf(),
        final(store).salt_spec() == old(store).salt_spec(),
        final(store).key_spec() == old(store).key_spec(),
        !contains_name(old(store).entries_model(), app_name@) ==> r is Err && r->Err_0 == 1
            && final(store).entries_model() == old(store).entries_model(),
        contains_name(old(store).entries_model(), app_name@) ==> ({
            let es = old(store).entries_model();
            let i = index_of_name(es, app_name@);
            let e = es[i];
            r is Ok && final(store).entries_model() == es.update(
                i,
                EntryModel {
                    name: e.name,
                    username: e.username,
                    password: new_password@,
                    created_at: e.created_at,
                    updated_at: if now >= e.updated_at {
                        now
                    } else {
                        e.updated_at
                    },
                },
            )
        }),
{
    match store.change_password(app_name, new_password, now) {
        Ok(()) => Ok(()),
        Err(_) => Err(1),
    }
}

} // verus!
