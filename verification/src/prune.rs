//! Pruning: deciding which destination files no longer belong. A file is
//! removed exactly when it is not the persisted state file itself and the
//! current run did not record its path.

use vstd::prelude::*;
use crate::bytes::bytes_eq;
use crate::scan::{qualifies, scan_expected, step_expected, ExpectedSet};
use crate::paths::out_path;

verus! {

/// Name of the persisted state file under the destination root: `.musync`.
pub open spec fn state_file_name() -> Seq<u8> {
    seq![46u8, 109u8, 117u8, 115u8, 121u8, 110u8, 99u8]
}

/// A destination file is removed exactly when it is not the state file and
/// its path was not recorded by the current run.
pub open spec fn prune_removes(rel: Seq<u8>, expected: Set<Seq<u8>>) -> bool {
    rel != state_file_name() && !expected.contains(rel)
}

/// Name of the persisted state file, as bytes.
pub fn state_file_bytes() -> (r: Vec<u8>)
    ensures
        r@ == state_file_name(),
{
    let v: Vec<u8> = vec![46u8, 109u8, 117u8, 115u8, 121u8, 110u8, 99u8];
    proof {
        assert(v@ =~= state_file_name());
    }
    v
}

/// Whether a destination file (given by its path relative to the
/// destination root) must be deleted after the scan.
pub fn should_remove(rel: &Vec<u8>, expected: &ExpectedSet) -> (r: bool)
    ensures
        r == prune_removes(rel@, expected.as_set()),
{
    let name = state_file_bytes();
    if bytes_eq(rel, &name) {
        false
    } else {
        !expected.contains(rel)
    }
}

/// REMOVAL PROPAGATION: a destination path that no qualifying source file
/// of the current scan maps to is absent from the expected-file set, so the
/// prune pass deletes its file (unless it is the state file itself). In
/// particular, deleting a source file between runs deletes its destination
/// counterpart on the next run.
pub proof fn lemma_removal_propagation(
    s0: Set<Seq<u8>>,
    files: Seq<(Seq<u8>, Seq<u8>)>,
    p: Seq<u8>,
)
    requires
        !s0.contains(p),
        forall|i: int|
            0 <= i < files.len() && qualifies(#[trigger] files[i].0) ==> out_path(files[i].0) != p,
        p != state_file_name(),
    ensures
        !scan_expected(s0, files).contains(p),
        prune_removes(p, scan_expected(s0, files)),
    decreases files.len(),
{
    if files.len() > 0 {
        let s1 = step_expected(s0, files[0].0);
        assert(!s1.contains(p));
        assert forall|i: int|
            0 <= i < files.drop_first().len() && qualifies(
                #[trigger] files.drop_first()[i].0,
            ) implies out_path(files.drop_first()[i].0) != p by {
            assert(files.drop_first()[i] == files[i + 1]);
        }
        lemma_removal_propagation(s1, files.drop_first(), p);
    }
}

} // verus!
