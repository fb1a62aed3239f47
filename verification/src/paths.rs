//! Relative destination paths: flattening a nested source path to at most one
//! directory component plus the file name, and substituting the target
//! extension.
//!
//! Paths are byte strings with `/` as the separator; all paths handled here
//! are relative to a source or destination root.

use vstd::prelude::*;
use crate::bytes::{
    copy_bytes, copy_range, find_from, first_index_of, last_index_of, lemma_first_index_of_is,
    lemma_first_index_of_props, lemma_last_index_of_is, lemma_last_index_of_props, no_newline,
    push_all, rfind, NEWLINE,
};

verus! {

/// Path separator.
pub const SLASH: u8 = 47;

/// Extension separator.
pub const DOT: u8 = 46;

/// The target extension, `mp3`, with its leading dot left off.
pub open spec fn mp3_ext() -> Seq<u8> {
    seq![109u8, 112u8, 51u8]
}

/// A path has an extension when the last `.` lies inside its final
/// component and leaves that component a non-empty stem.
pub open spec fn has_extension(s: Seq<u8>) -> bool {
    last_index_of(s, DOT) > last_index_of(s, SLASH) + 1
}

/// The extension of a path: everything after the last `.`.
/// Meaningful only when `has_extension` holds.
pub open spec fn extension_spec(s: Seq<u8>) -> Seq<u8> {
    s.subrange(last_index_of(s, DOT) + 1, s.len() as int)
}

/// Flattening a path: the first component, the separator that follows it,
/// and the final component; a path with at most one separator is unchanged.
pub open spec fn undepthify_spec(s: Seq<u8>) -> Seq<u8> {
    if last_index_of(s, SLASH) < 0 {
        s
    } else {
        s.subrange(0, first_index_of(s, SLASH))
            + s.subrange(last_index_of(s, SLASH), s.len() as int)
    }
}

/// The path with its extension replaced by the target extension.
/// Meaningful only when `has_extension` holds.
pub open spec fn with_mp3_extension(s: Seq<u8>) -> Seq<u8> {
    s.subrange(0, last_index_of(s, DOT) + 1) + mp3_ext()
}

/// Destination-relative path of a source file: flattened, with the target
/// extension.
pub open spec fn out_path(s: Seq<u8>) -> Seq<u8> {
    with_mp3_extension(undepthify_spec(s))
}

/// Flattening keeps the final component, so it keeps the extension: the
/// flattened path's last separator is its first one, and its last dot is
/// the input's last dot, carried along with the final component.
pub proof fn lemma_undepthify_extension(s: Seq<u8>)
    requires
        has_extension(s),
    ensures
        has_extension(undepthify_spec(s)),
        extension_spec(undepthify_spec(s)) == extension_spec(s),
{
    let sl = last_index_of(s, SLASH);
    let d = last_index_of(s, DOT);
    lemma_last_index_of_props(s, SLASH);
    lemma_last_index_of_props(s, DOT);
    if sl < 0 {
    } else {
        let f = first_index_of(s, SLASH);
        lemma_first_index_of_props(s, SLASH);
        let u = undepthify_spec(s);
        // u = s[0..f] + s[sl..len]; its single region of separators ends at f
        assert(u.len() == f + s.len() - sl);
        assert(u[f] == s[sl]);
        assert forall|j: int| f < j < u.len() implies u[j] != SLASH by {
            assert(u[j] == s[sl + (j - f)]);
        }
        lemma_last_index_of_is(u, SLASH, f);
        // the input's last dot lands at f + (d - sl)
        let d2 = f + (d - sl);
        assert(u[d2] == s[d]);
        assert forall|j: int| d2 < j < u.len() implies u[j] != DOT by {
            assert(u[j] == s[sl + (j - f)]);
        }
        lemma_last_index_of_is(u, DOT, d2);
        assert(extension_spec(u) =~= extension_spec(s));
    }
}

/// A flattened path, and a path given the target extension, hold no bytes
/// that the input did not hold, but for the target extension's own letters;
/// in particular they stay free of line separators.
pub proof fn lemma_out_path_no_newline(s: Seq<u8>)
    requires
        no_newline(s),
        has_extension(s),
    ensures
        no_newline(out_path(s)),
{
    lemma_last_index_of_props(s, SLASH);
    lemma_last_index_of_props(s, DOT);
    lemma_first_index_of_props(s, SLASH);
    let u = undepthify_spec(s);
    assert forall|i: int| 0 <= i < u.len() implies u[i] != NEWLINE by {
        if last_index_of(s, SLASH) >= 0 {
            let f = first_index_of(s, SLASH);
            if i < f {
                assert(u[i] == s[i]);
            } else {
                assert(u[i] == s[last_index_of(s, SLASH) + (i - f)]);
            }
        }
    }
    lemma_undepthify_extension(s);
    lemma_last_index_of_props(u, DOT);
    let o = out_path(s);
    assert forall|i: int| 0 <= i < o.len() implies o[i] != NEWLINE by {
        if i <= last_index_of(u, DOT) {
            assert(o[i] == u[i]);
        } else {
            assert(o[i] == mp3_ext()[i - (last_index_of(u, DOT) + 1)]);
        }
    }
}

/// Flatten a deep relative path: keep the first directory component and the
/// file name, discarding the components between them.
pub fn undepthify(path: &Vec<u8>) -> (r: Vec<u8>)
    ensures
        r@ == undepthify_spec(path@),
{
    match rfind(path, SLASH) {
        None => {
            proof {
                lemma_last_index_of_is(path@, SLASH, -1);
            }
            copy_bytes(path)
        },
        Some(l) => {
            proof {
                lemma_last_index_of_is(path@, SLASH, l as int);
            }
            let f = match find_from(path, 0, SLASH) {
                Some(f) => f,
                None => unreached(),
            };
            proof {
                lemma_first_index_of_is(path@, SLASH, f as int);
            }
            let mut r = copy_range(path, 0, f);
            let tail = copy_range(path, l, path.len());
            push_all(&mut r, &tail);
            r
        },
    }
}

/// Replace the path's extension with the target extension.
pub fn to_mp3_extension(path: &Vec<u8>) -> (r: Vec<u8>)
    requires
        has_extension(path@),
    ensures
        r@ == with_mp3_extension(path@),
{
    proof {
        lemma_last_index_of_props(path@, DOT);
        lemma_last_index_of_props(path@, SLASH);
    }
    let d = match rfind(path, DOT) {
        Some(d) => d,
        None => unreached(),
    };
    proof {
        lemma_last_index_of_is(path@, DOT, d as int);
    }
    let mut r = copy_range(path, 0, d);
    r.push(DOT);
    r.push(109);  // m
    r.push(112);  // p
    r.push(51);  // 3
    assert(r@ =~= with_mp3_extension(path@));
    r
}

/// Destination-relative path of a source file: flattened, with the target
/// extension.
pub fn flatten(path: &Vec<u8>) -> (r: Vec<u8>)
    requires
        has_extension(path@),
    ensures
        r@ == out_path(path@),
{
    let u = undepthify(path);
    proof {
        lemma_undepthify_extension(path@);
    }
    to_mp3_extension(&u)
}

/// The extension of the path, when it has one.
pub fn extension_of(path: &Vec<u8>) -> (r: Option<Vec<u8>>)
    ensures
        match r {
            Some(e) => has_extension(path@) && e@ == extension_spec(path@),
            None => !has_extension(path@),
        },
{
    proof {
        lemma_last_index_of_props(path@, DOT);
        lemma_last_index_of_props(path@, SLASH);
    }
    let n = path.len();
    match rfind(path, DOT) {
        None => {
            proof {
                lemma_last_index_of_is(path@, DOT, -1);
            }
            None
        },
        Some(d) => {
            proof {
                lemma_last_index_of_is(path@, DOT, d as int);
            }
            let sl_ok: bool = match rfind(path, SLASH) {
                None => {
                    proof {
                        lemma_last_index_of_is(path@, SLASH, -1);
                    }
                    d >= 1
                },
                Some(sl) => {
                    proof {
                        lemma_last_index_of_is(path@, SLASH, sl as int);
                    }
                    sl < d && d - sl >= 2
                },
            };
            if sl_ok {
                Some(copy_range(path, d + 1, n))
            } else {
                None
            }
        },
    }
}

} // verus!
