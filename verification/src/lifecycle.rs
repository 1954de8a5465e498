//! The hooks the host calls around the life of the module and of each
//! client connection. None of them touches the dataset.

use vstd::prelude::*;
use crate::database::Database;
use crate::schema::Context;

verus! {

/// Called once, when the module is first published. The dataset needs no
/// preparation and is left as it is.
pub fn init(db: &mut Database, _ctx: &Context)
    ensures
        final(db)@ == old(db)@,
{
}

/// Called when a client connects. Connections are not recorded: the dataset
/// is left as it is.
pub fn identity_connected(db: &mut Database, _ctx: &Context)
    ensures
        final(db)@ == old(db)@,
{
}

/// Called when a client disconnects. What the client drew stays: the
/// dataset is left as it is.
pub fn identity_disconnected(db: &mut Database, _ctx: &Context)
    ensures
        final(db)@ == old(db)@,
{
}

} // verus!
