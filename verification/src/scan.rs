//! Scanning and classification: deciding, per source file, whether it takes
//! part in the sync, whether it is new, renamed or unchanged, and recording
//! it in the run's new state and expected-file set.
//!
//! The laws at the end state the run-level guarantees: a rescan of an
//! unchanged source tree changes nothing, unchanged content at a new path is
//! a rename, and filtered files leave no trace.

use vstd::prelude::*;
use crate::bytes::{bytes_eq, copy_bytes, no_newline};
use crate::hashing::{fingerprint, sha512_hex_of};
use crate::paths::{
    extension_of, extension_spec, flatten, lemma_out_path_no_newline, mp3_ext, out_path,
};
use crate::state::StateTable;

verus! {

/// Extensions of the formats that are transcoded before they appear at the
/// destination.
pub open spec fn convertible_ext(e: Seq<u8>) -> bool {
    ||| e == seq![97u8, 105u8, 102u8, 102u8]  // aiff
    ||| e == seq![102u8, 108u8, 97u8, 99u8]  // flac
    ||| e == seq![111u8, 103u8, 103u8]  // ogg
    ||| e == seq![109u8, 111u8, 100u8]  // mod
    ||| e == seq![120u8, 109u8]  // xm
    ||| e == seq![109u8, 52u8, 97u8]  // m4a
}

/// A source file takes part in the sync exactly when its extension is in the
/// convertible set or is already the target extension.
pub open spec fn qualifies(rel: Seq<u8>) -> bool {
    crate::paths::has_extension(rel) && (convertible_ext(extension_spec(rel)) || extension_spec(
        rel,
    ) == mp3_ext())
}

/// Whether an extension is in the convertible set.
fn is_convertible(e: &Vec<u8>) -> (r: bool)
    ensures
        r == convertible_ext(e@),
{
    let aiff: Vec<u8> = vec![97u8, 105u8, 102u8, 102u8];
    let flac: Vec<u8> = vec![102u8, 108u8, 97u8, 99u8];
    let ogg: Vec<u8> = vec![111u8, 103u8, 103u8];
    let tracker_mod: Vec<u8> = vec![109u8, 111u8, 100u8];
    let xm: Vec<u8> = vec![120u8, 109u8];
    let m4a: Vec<u8> = vec![109u8, 52u8, 97u8];
    proof {
        assert(aiff@ =~= seq![97u8, 105u8, 102u8, 102u8]);
        assert(flac@ =~= seq![102u8, 108u8, 97u8, 99u8]);
        assert(ogg@ =~= seq![111u8, 103u8, 103u8]);
        assert(tracker_mod@ =~= seq![109u8, 111u8, 100u8]);
        assert(xm@ =~= seq![120u8, 109u8]);
        assert(m4a@ =~= seq![109u8, 52u8, 97u8]);
    }
    bytes_eq(e, &aiff) || bytes_eq(e, &flac) || bytes_eq(e, &ogg) || bytes_eq(e, &tracker_mod)
        || bytes_eq(e, &xm) || bytes_eq(e, &m4a)
}

/// Whether a source file takes part in the sync, and if so whether it needs
/// transcoding (`Some(true)`) or is already in the target format
/// (`Some(false)`).
pub fn examine(rel: &Vec<u8>) -> (r: Option<bool>)
    ensures
        match r {
            Some(c) => qualifies(rel@) && c == convertible_ext(extension_spec(rel@)),
            None => !qualifies(rel@),
        },
{
    match extension_of(rel) {
        None => None,
        Some(e) => {
            if is_convertible(&e) {
                Some(true)
            } else {
                let mp3: Vec<u8> = vec![109u8, 112u8, 51u8];
                proof {
                    assert(mp3@ =~= mp3_ext());
                }
                if bytes_eq(&e, &mp3) {
                    Some(false)
                } else {
                    None
                }
            }
        },
    }
}

/// The filesystem action that one scanned file calls for.
pub enum Action {
    /// Transcode the source file to the destination path.
    Convert,
    /// Copy the source file to the destination path unchanged.
    Copy,
    /// Move the destination file from the previously stored path to the new
    /// one; the content needs no re-transcoding.
    Rename { from: Vec<u8> },
    /// The destination already holds this content at this path.
    Unchanged,
}

/// What the scan decided for one source file.
pub struct FileOutcome {
    /// The action the caller must perform.
    pub action: Action,
    /// Destination-relative path of the file after this run.
    pub rel_out: Vec<u8>,
    /// Whether another file of this run already produced the same
    /// fingerprint (its state entry was overwritten: last write wins).
    pub collision: bool,
}

/// The expected-file set: every destination-relative path recorded during
/// the current run; what is not in it is pruned afterwards.
pub struct ExpectedSet {
    pub paths: Vec<Vec<u8>>,
}

impl ExpectedSet {
    /// The set of recorded paths.
    pub open spec fn as_set(self) -> Set<Seq<u8>> {
        Set::new(
            |s: Seq<u8>| exists|i: int| 0 <= i < self.paths@.len() && self.paths@[i]@ == s,
        )
    }

    /// An empty set.
    pub fn new() -> (r: ExpectedSet)
        ensures
            r.as_set() == Set::<Seq<u8>>::empty(),
    {
        let r = ExpectedSet { paths: Vec::new() };
        proof {
            assert(r.as_set() =~= Set::<Seq<u8>>::empty());
        }
        r
    }

    /// Record a destination-relative path.
    pub fn insert(&mut self, p: Vec<u8>)
        ensures
            final(self).as_set() == old(self).as_set().insert(p@),
    {
        let ghost ps = p@;
        let ghost n0 = self.paths@.len() as int;
        self.paths.push(p);
        proof {
            let s1 = self.as_set();
            let s0 = old(self).as_set();
            assert forall|s: Seq<u8>| s1.contains(s) implies s0.insert(ps).contains(s) by {
                let i = choose|i: int| 0 <= i < self.paths@.len() && self.paths@[i]@ == s;
                if i < n0 {
                    assert(old(self).paths@[i]@ == s);
                } else {
                    assert(s == ps);
                }
            }
            assert forall|s: Seq<u8>| s0.insert(ps).contains(s) implies s1.contains(s) by {
                if s == ps {
                    assert(self.paths@[n0]@ == s);
                } else {
                    let i = choose|i: int| 0 <= i < old(self).paths@.len() && old(
                        self,
                    ).paths@[i]@ == s;
                    assert(self.paths@[i]@ == s);
                }
            }
            assert(s1 =~= s0.insert(ps));
        }
    }

    /// Whether a path was recorded.
    pub fn contains(&self, p: &Vec<u8>) -> (r: bool)
        ensures
            r == self.as_set().contains(p@),
    {
        let mut i: usize = 0;
        while i < self.paths.len()
            invariant
                i <= self.paths@.len(),
                forall|j: int| 0 <= j < i ==> self.paths@[j]@ != p@,
            decreases self.paths@.len() - i,
        {
            if bytes_eq(&self.paths[i], p) {
                proof {
                    assert(self.paths@[i as int]@ == p@);
                }
                return true;
            }
            i = i + 1;
        }
        false
    }
}

/// The state mapping after one scanned file: a qualifying file binds its
/// content fingerprint to its flattened destination path; any other file
/// changes nothing.
pub open spec fn step_state(
    m: Map<Seq<u8>, Seq<u8>>,
    rel: Seq<u8>,
    data: Seq<u8>,
) -> Map<Seq<u8>, Seq<u8>> {
    if qualifies(rel) {
        m.insert(sha512_hex_of(data), out_path(rel))
    } else {
        m
    }
}

/// The expected-file set after one scanned file.
pub open spec fn step_expected(s: Set<Seq<u8>>, rel: Seq<u8>) -> Set<Seq<u8>> {
    if qualifies(rel) {
        s.insert(out_path(rel))
    } else {
        s
    }
}

/// The state mapping after scanning a whole sequence of files, each given as
/// (relative source path, leading bytes).
pub open spec fn scan_state(
    m: Map<Seq<u8>, Seq<u8>>,
    files: Seq<(Seq<u8>, Seq<u8>)>,
) -> Map<Seq<u8>, Seq<u8>>
    decreases files.len(),
{
    if files.len() == 0 {
        m
    } else {
        scan_state(step_state(m, files[0].0, files[0].1), files.drop_first())
    }
}

/// The expected-file set after scanning a whole sequence of files.
pub open spec fn scan_expected(s: Set<Seq<u8>>, files: Seq<(Seq<u8>, Seq<u8>)>) -> Set<Seq<u8>>
    decreases files.len(),
{
    if files.len() == 0 {
        s
    } else {
        scan_expected(step_expected(s, files[0].0), files.drop_first())
    }
}

/// Classify one regular source file against the prior state, and record it
/// in the run's new state and expected-file set.
///
/// Returns nothing, and records nothing, for a file whose extension is
/// neither convertible nor the target extension. Otherwise the action says
/// whether the file's content is new (convert or copy), moved (rename, with
/// the destination path it was last synced to) or unchanged.
pub fn process_file(
    prior: &StateTable,
    new_state: &mut StateTable,
    expected: &mut ExpectedSet,
    rel_src: &Vec<u8>,
    data: &Vec<u8>,
) -> (r: Option<FileOutcome>)
    requires
        prior.wf(),
        old(new_state).wf(),
        no_newline(rel_src@),
    ensures
        final(new_state).wf(),
        final(new_state).as_map() == step_state(old(new_state).as_map(), rel_src@, data@),
        final(expected).as_set() == step_expected(old(expected).as_set(), rel_src@),
        r is Some <==> qualifies(rel_src@),
        r matches Some(o) ==> {
            let h = sha512_hex_of(data@);
            let out = out_path(rel_src@);
            &&& o.rel_out@ == out
            &&& o.collision == old(new_state).as_map().contains_key(h)
            &&& (o.action is Unchanged <==> prior.as_map().contains_key(h) && prior.as_map()[h]
                == out)
            &&& (o.action is Rename <==> prior.as_map().contains_key(h) && prior.as_map()[h]
                != out)
            &&& (o.action matches Action::Rename { from } ==> from@ == prior.as_map()[h])
            &&& (o.action is Convert <==> !prior.as_map().contains_key(h) && convertible_ext(
                extension_spec(rel_src@),
            ))
            &&& (o.action is Copy <==> !prior.as_map().contains_key(h) && !convertible_ext(
                extension_spec(rel_src@),
            ))
        },
{
    let needs_transcode = match examine(rel_src) {
        None => {
            return None;
        },
        Some(c) => c,
    };
    let h = fingerprint(data);
    proof {
        lemma_out_path_no_newline(rel_src@);
    }
    let out = flatten(rel_src);
    let action = match prior.get(&h) {
        Some(prev) => {
            if !bytes_eq(&prev, &out) {
                Action::Rename { from: prev }
            } else {
                Action::Unchanged
            }
        },
        None => {
            if needs_transcode {
                Action::Convert
            } else {
                Action::Copy
            }
        },
    };
    let collision = new_state.insert(copy_bytes(&h), copy_bytes(&out));
    expected.insert(copy_bytes(&out));
    Some(FileOutcome { action, rel_out: out, collision })
}

/// EXTENSION FILTERING: a source file whose extension is neither in the
/// convertible set nor the target extension contributes no state entry and
/// no expected destination file.
pub proof fn lemma_extension_filtering(
    m: Map<Seq<u8>, Seq<u8>>,
    s: Set<Seq<u8>>,
    rel: Seq<u8>,
    data: Seq<u8>,
)
    requires
        !qualifies(rel),
    ensures
        step_state(m, rel, data) == m,
        step_expected(s, rel) == s,
{
}

/// No two qualifying files of the scan share a fingerprint but disagree on
/// their destination path. Where this fails, which of the colliding files
/// survives in the state depends on traversal order.
pub open spec fn hashes_agree(files: Seq<(Seq<u8>, Seq<u8>)>) -> bool {
    forall|i: int, j: int|
        0 <= i < files.len() && 0 <= j < files.len() && qualifies(#[trigger] files[i].0)
            && qualifies(#[trigger] files[j].0) && sha512_hex_of(files[i].1) == sha512_hex_of(
            files[j].1,
        ) ==> out_path(files[i].0) == out_path(files[j].0)
}

/// A binding that every qualifying file with its fingerprint agrees with
/// survives the whole scan.
proof fn lemma_scan_state_keeps(
    m: Map<Seq<u8>, Seq<u8>>,
    files: Seq<(Seq<u8>, Seq<u8>)>,
    h: Seq<u8>,
    v: Seq<u8>,
)
    requires
        m.contains_key(h),
        m[h] == v,
        forall|i: int|
            0 <= i < files.len() && qualifies(#[trigger] files[i].0) && sha512_hex_of(files[i].1)
                == h ==> out_path(files[i].0) == v,
    ensures
        scan_state(m, files).contains_key(h),
        scan_state(m, files)[h] == v,
    decreases files.len(),
{
    if files.len() > 0 {
        let m1 = step_state(m, files[0].0, files[0].1);
        assert(m1.contains_key(h) && m1[h] == v);
        assert forall|i: int|
            0 <= i < files.drop_first().len() && qualifies(#[trigger] files.drop_first()[i].0)
                && sha512_hex_of(files.drop_first()[i].1) == h implies out_path(
            files.drop_first()[i].0,
        ) == v by {
            assert(files.drop_first()[i] == files[i + 1]);
        }
        lemma_scan_state_keeps(m1, files.drop_first(), h, v);
    }
}

/// After the scan, every qualifying file's fingerprint is bound to that
/// file's destination path.
proof fn lemma_scan_state_records(m: Map<Seq<u8>, Seq<u8>>, files: Seq<(Seq<u8>, Seq<u8>)>, i: int)
    requires
        0 <= i < files.len(),
        qualifies(files[i].0),
        hashes_agree(files),
    ensures
        scan_state(m, files).contains_key(sha512_hex_of(files[i].1)),
        scan_state(m, files)[sha512_hex_of(files[i].1)] == out_path(files[i].0),
    decreases files.len(),
{
    let rest = files.drop_first();
    let m1 = step_state(m, files[0].0, files[0].1);
    assert forall|a: int, b: int|
        0 <= a < rest.len() && 0 <= b < rest.len() && qualifies(#[trigger] rest[a].0) && qualifies(
            #[trigger] rest[b].0,
        ) && sha512_hex_of(rest[a].1) == sha512_hex_of(rest[b].1) implies out_path(rest[a].0)
        == out_path(rest[b].0) by {
        assert(rest[a] == files[a + 1]);
        assert(rest[b] == files[b + 1]);
    }
    if i == 0 {
        let h = sha512_hex_of(files[0].1);
        let v = out_path(files[0].0);
        assert(m1.contains_key(h) && m1[h] == v);
        assert forall|a: int|
            0 <= a < rest.len() && qualifies(#[trigger] rest[a].0) && sha512_hex_of(rest[a].1)
                == h implies out_path(rest[a].0) == v by {
            assert(rest[a] == files[a + 1]);
        }
        lemma_scan_state_keeps(m1, rest, h, v);
    } else {
        assert(rest[i - 1] == files[i]);
        lemma_scan_state_records(m1, rest, i - 1);
    }
}

/// A scan over files whose bindings the mapping already holds leaves the
/// mapping as it is.
proof fn lemma_scan_state_stable(m: Map<Seq<u8>, Seq<u8>>, files: Seq<(Seq<u8>, Seq<u8>)>)
    requires
        forall|i: int|
            0 <= i < files.len() && qualifies(#[trigger] files[i].0) ==> m.contains_key(
                sha512_hex_of(files[i].1),
            ) && m[sha512_hex_of(files[i].1)] == out_path(files[i].0),
    ensures
        scan_state(m, files) == m,
    decreases files.len(),
{
    if files.len() > 0 {
        let m1 = step_state(m, files[0].0, files[0].1);
        if qualifies(files[0].0) {
            assert(m1 =~= m);
        }
        assert forall|i: int|
            0 <= i < files.drop_first().len() && qualifies(
                #[trigger] files.drop_first()[i].0,
            ) implies m1.contains_key(sha512_hex_of(files.drop_first()[i].1)) && m1[sha512_hex_of(
            files.drop_first()[i].1,
        )] == out_path(files.drop_first()[i].0) by {
            assert(files.drop_first()[i] == files[i + 1]);
        }
        lemma_scan_state_stable(m1, files.drop_first());
    }
}

/// IDEMPOTENCE: scanning the same source files again, against the state the
/// first scan produced, yields that state unchanged; and every qualifying
/// file is then already bound to its own destination path, so each one
/// classifies as unchanged and no copy, conversion or rename is called for.
///
/// Needs the scan to be collision-free (`hashes_agree`): when two distinct
/// files share a fingerprint but map to different destination paths, which
/// binding survives depends on traversal order, and a second run can see the
/// other file as renamed.
pub proof fn lemma_idempotence(prior: Map<Seq<u8>, Seq<u8>>, files: Seq<(Seq<u8>, Seq<u8>)>)
    requires
        hashes_agree(files),
    ensures
        scan_state(scan_state(prior, files), files) == scan_state(prior, files),
        forall|i: int|
            0 <= i < files.len() && qualifies(#[trigger] files[i].0) ==> scan_state(
                prior,
                files,
            ).contains_key(sha512_hex_of(files[i].1)) && scan_state(prior, files)[sha512_hex_of(
                files[i].1,
            )] == out_path(files[i].0),
{
    let m1 = scan_state(prior, files);
    assert forall|i: int|
        0 <= i < files.len() && qualifies(#[trigger] files[i].0) implies m1.contains_key(
        sha512_hex_of(files[i].1),
    ) && m1[sha512_hex_of(files[i].1)] == out_path(files[i].0) by {
        lemma_scan_state_records(prior, files, i);
    }
    lemma_scan_state_stable(m1, files);
}

/// RENAME PRESERVATION: a file whose content the prior state already knows,
/// but under a different destination path, classifies as a rename — the
/// scan asks for a move, never a re-transcode — and the new state carries
/// the new path under the same fingerprint.
pub proof fn lemma_rename_preservation(
    prior: Map<Seq<u8>, Seq<u8>>,
    rel_new: Seq<u8>,
    data: Seq<u8>,
)
    requires
        qualifies(rel_new),
        prior.contains_key(sha512_hex_of(data)),
        prior[sha512_hex_of(data)] != out_path(rel_new),
    ensures
        step_state(prior, rel_new, data) == prior.insert(sha512_hex_of(data), out_path(rel_new)),
        step_state(prior, rel_new, data)[sha512_hex_of(data)] == out_path(rel_new),
        step_state(prior, rel_new, data).contains_key(sha512_hex_of(data)),
{
}

} // verus!
