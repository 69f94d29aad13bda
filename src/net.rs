//! Checks on the connection lists of vertex nets.
use crate::{Error, NavConnection, NavResult};
use vstd::prelude::*;

verus! {

/// Connection `c` names only vertices below `n`.
pub open spec fn connection_in_range(n: nat, c: NavConnection) -> bool {
    c.0 < n && c.1 < n
}

/// The error for connection `i`, `c`, which names a vertex at or above `n`:
/// its first such end (the index kept to its low 32 bits).
pub open spec fn connection_error(i: int, c: NavConnection, n: nat) -> Error {
    if c.0 >= n {
        Error::ConnectionVerticeIndexOutOfBounds(i as u32, 0, c.0)
    } else {
        Error::ConnectionVerticeIndexOutOfBounds(i as u32, 1, c.1)
    }
}

/// Checks that every connection joins two of the `vertices_count` vertices;
/// the first that does not gives the error.
pub fn check_connections(vertices_count: usize, connections: &[NavConnection]) -> (r: NavResult<
    (),
>)
    ensures
        r is Ok <==> forall|i: int|
            0 <= i < connections@.len() ==> connection_in_range(
                vertices_count as nat,
                #[trigger] connections@[i],
            ),
        r is Err ==> exists|i: int|
            0 <= i < connections@.len() && !connection_in_range(
                vertices_count as nat,
                #[trigger] connections@[i],
            ) && (forall|j: int|
                0 <= j < i ==> connection_in_range(vertices_count as nat, connections@[j])) && r
                == Err::<(), Error>(connection_error(i, connections@[i], vertices_count as nat)),
{
    let mut i: usize = 0;
    while i < connections.len()
        invariant
            i <= connections@.len(),
            forall|j: int|
                0 <= j < i ==> connection_in_range(vertices_count as nat, #[trigger] connections@[j]),
        decreases connections@.len() - i,
    {
        let c = connections[i];
        if c.0 as usize >= vertices_count {
            return Err(Error::ConnectionVerticeIndexOutOfBounds(#[verifier::truncate] (i as u32), 0, c.0));
        }
        if c.1 as usize >= vertices_count {
            return Err(Error::ConnectionVerticeIndexOutOfBounds(#[verifier::truncate] (i as u32), 1, c.1));
        }
        i = i + 1;
    }
    Ok(())
}

} // verus!
