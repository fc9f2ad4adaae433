//! Selection of prebuilt artifacts by target architecture.
//!
//! A build helper walks a source tree and hands the linker every prebuilt
//! artifact that fits the target: files whose name has no extension or the
//! `wasm` extension, and whose stem carries no further extension or one
//! naming the pointer width (`32` or `64`). The walking is file-system work
//! and stays outside the library; the decision over a file name is here.

use vstd::prelude::*;

verus! {

/// The two target architectures, by pointer width.
#[derive(Clone, Copy, Debug, PartialEq, Eq, Structural)]
pub enum Architecture {
    Wasm32,
    Wasm64,
}

/// The index of the last `.` of a name, if any.
pub open spec fn last_dot(t: Seq<u8>) -> Option<int>
    decreases t.len(),
{
    if t.len() == 0 {
        None
    } else if t.last() == 46u8 {
        Some(t.len() - 1)
    } else {
        last_dot(t.drop_last())
    }
}

/// A trailing dot with none after it is what `last_dot` finds.
proof fn lemma_last_dot_is(t: Seq<u8>, i: int)
    requires
        0 <= i < t.len(),
        t[i] == 46u8,
        forall|j: int| i < j < t.len() ==> t[j] != 46u8,
    ensures
        last_dot(t) == Some(i),
    decreases t.len(),
{
    if t.last() != 46u8 {
        assert(forall|j: int| i < j < t.drop_last().len() ==> t.drop_last()[j] != 46u8);
        lemma_last_dot_is(t.drop_last(), i);
    }
}

/// Where no byte is a dot, `last_dot` finds nothing.
proof fn lemma_last_dot_none(t: Seq<u8>)
    requires
        forall|j: int| 0 <= j < t.len() ==> t[j] != 46u8,
    ensures
        last_dot(t) is None,
    decreases t.len(),
{
    if t.len() > 0 {
        lemma_last_dot_none(t.drop_last());
    }
}

/// The extension of a file name: what follows the last dot, none when there
/// is no dot or the name starts with its only dot.
pub open spec fn ext_of(name: Seq<u8>) -> Option<Seq<u8>> {
    match last_dot(name) {
        None => None,
        Some(i) => if i == 0 {
            None
        } else {
            Some(name.skip(i + 1))
        },
    }
}

/// The stem of a file name: what precedes the extension.
pub open spec fn stem_of(name: Seq<u8>) -> Seq<u8> {
    match last_dot(name) {
        None => name,
        Some(i) => if i == 0 {
            name
        } else {
            name.take(i)
        },
    }
}

/// The `wasm` extension.
pub open spec fn wasm_ext() -> Seq<u8> {
    seq![119u8, 97u8, 115u8, 109u8]
}

/// The pointer-width tag an architecture selects: `32` or `64`.
pub open spec fn arch_tag(arch: Architecture) -> Seq<u8> {
    match arch {
        Architecture::Wasm32 => seq![51u8, 50u8],
        Architecture::Wasm64 => seq![54u8, 52u8],
    }
}

/// Whether a file name names a prebuilt artifact for this architecture: its
/// extension, if any, is `wasm`, and its stem's extension, if any, is the
/// architecture's pointer-width tag.
pub open spec fn artifact_matches(arch: Architecture, name: Seq<u8>) -> bool {
    &&& (ext_of(name) is None || ext_of(name) == Some(wasm_ext()))
    &&& (ext_of(stem_of(name)) is None || ext_of(stem_of(name)) == Some(arch_tag(arch)))
}

/// Find the last dot of `name[..hi]`.
fn last_dot_upto(name: &Vec<u8>, hi: usize) -> (r: Option<usize>)
    requires
        hi <= name@.len(),
    ensures
        match last_dot(name@.take(hi as int)) {
            None => r is None,
            Some(i) => r == Some(i as usize) && 0 <= i < hi && name@[i] == 46u8,
        },
{
    let ghost t = name@.take(hi as int);
    let mut k: usize = hi;
    while k > 0
        invariant
            0 <= k <= hi <= name@.len(),
            t == name@.take(hi as int),
            forall|j: int| k <= j < hi ==> name@[j] != 46u8,
        decreases k,
    {
        if name[k - 1] == 46 {
            proof {
                assert(t[k - 1] == name@[k - 1]);
                assert forall|j: int| k - 1 < j < t.len() implies t[j] != 46u8 by {
                    assert(t[j] == name@[j]);
                }
                lemma_last_dot_is(t, k - 1);
            }
            return Some(k - 1);
        }
        proof {
            assert(name@[k - 1] != 46u8);
        }
        k = k - 1;
    }
    proof {
        assert forall|j: int| 0 <= j < t.len() implies t[j] != 46u8 by {
            assert(t[j] == name@[j]);
        }
        lemma_last_dot_none(t);
    }
    None
}

/// Decide whether a file name names a prebuilt artifact for this
/// architecture.
pub fn wasm_artifact_matches(arch: Architecture, name: &Vec<u8>) -> (r: bool)
    ensures
        r == artifact_matches(arch, name@),
{
    let len = name.len();
    proof {
        assert(name@.take(len as int) =~= name@);
    }
    let mut stem_hi: usize = len;
    match last_dot_upto(name, len) {
        None => {},
        Some(i) => {
            if i > 0 {
                proof {
                    assert(ext_of(name@) == Some(name@.skip(i + 1)));
                }
                let ok = len - i == 5 && name[i + 1] == 119 && name[i + 2] == 97 && name[i + 3]
                    == 115 && name[i + 4] == 109;
                if !ok {
                    proof {
                        if name@.skip(i + 1) == wasm_ext() {
                            assert(name@.skip(i + 1).len() == 4);
                            assert(name@[i + 1] == name@.skip(i + 1)[0]);
                            assert(name@[i + 2] == name@.skip(i + 1)[1]);
                            assert(name@[i + 3] == name@.skip(i + 1)[2]);
                            assert(name@[i + 4] == name@.skip(i + 1)[3]);
                        }
                    }
                    return false;
                }
                proof {
                    assert(name@.skip(i + 1) =~= wasm_ext());
                }
                stem_hi = i;
            }
        },
    }
    let ghost stem = stem_of(name@);
    proof {
        assert(stem =~= name@.take(stem_hi as int));
    }
    match last_dot_upto(name, stem_hi) {
        None => {
            proof {
                assert(ext_of(stem) is None);
            }
            true
        },
        Some(i) => {
            if i == 0 {
                proof {
                    assert(ext_of(stem) is None);
                }
                return true;
            }
            proof {
                assert(stem.skip(i + 1) =~= name@.subrange(i + 1, stem_hi as int));
                assert(ext_of(stem) == Some(stem.skip(i + 1)));
            }
            let tag0: u8 = match arch {
                Architecture::Wasm32 => 51,
                Architecture::Wasm64 => 54,
            };
            let tag1: u8 = match arch {
                Architecture::Wasm32 => 50,
                Architecture::Wasm64 => 52,
            };
            let ok = stem_hi - i == 3 && name[i + 1] == tag0 && name[i + 2] == tag1;
            proof {
                if ok {
                    assert(stem.skip(i + 1) =~= arch_tag(arch));
                } else {
                    if stem.skip(i + 1) == arch_tag(arch) {
                        assert(stem.skip(i + 1).len() == 2);
                        assert(name@[i + 1] == stem.skip(i + 1)[0]);
                        assert(name@[i + 2] == stem.skip(i + 1)[1]);
                    }
                }
            }
            ok
        },
    }
}

} // verus!
