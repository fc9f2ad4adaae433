//! Assembly extraction: finding the sentinel custom sections of a scanned
//! payload and splitting their data into assembly blocks.
//!
//! A sentinel section's data is a concatenation of text blocks, each closed
//! by one null byte. The null byte is purely a delimiter — block text never
//! contains one — so the data is split on every null and zero-length pieces
//! are dropped. Blocks keep their order inside a section, and sections keep
//! file order, so a payload with several sentinel sections yields their
//! blocks concatenated in encountered order.

use vstd::prelude::*;

use crate::error::WeaveError;
use crate::scan::{custom_data, custom_name, scan, scan_spec, Frame, ScanSpec, Section};

verus! {

/// The fixed name of the sentinel custom section, `js_bindgen.assembly`.
pub open spec fn sentinel_name() -> Seq<u8> {
    seq![
        106u8, 115u8, 95u8, 98u8, 105u8, 110u8, 100u8, 103u8, 101u8, 110u8, 46u8, 97u8, 115u8,
        115u8, 101u8, 109u8, 98u8, 108u8, 121u8,
    ]
}

/// The sentinel name as a byte vector.
pub fn sentinel_name_vec() -> (r: Vec<u8>)
    ensures
        r@ == sentinel_name(),
{
    let r: Vec<u8> = vec![
        106u8, 115u8, 95u8, 98u8, 105u8, 110u8, 100u8, 103u8, 101u8, 110u8, 46u8, 97u8, 115u8,
        115u8, 101u8, 109u8, 98u8, 108u8, 121u8,
    ];
    proof {
        assert(r@ =~= sentinel_name());
    }
    r
}

/// A custom section frame whose name is the sentinel.
pub open spec fn is_sentinel(f: Frame) -> bool {
    f.id == 0 && custom_name(f.content) == Some(sentinel_name())
}

/// The index of the first null byte of `d`, if any.
pub open spec fn nul_pos(d: Seq<u8>) -> Option<int>
    decreases d.len(),
{
    if d.len() == 0 {
        None
    } else if d[0] == 0 {
        Some(0)
    } else {
        match nul_pos(d.skip(1)) {
            None => None,
            Some(i) => Some(i + 1),
        }
    }
}

/// `nul_pos` finds the first null byte: nothing before it is null, and a
/// `None` means there is none at all.
pub proof fn lemma_nul_pos(d: Seq<u8>)
    ensures
        match nul_pos(d) {
            None => forall|j: int| 0 <= j < d.len() ==> d[j] != 0,
            Some(i) => 0 <= i < d.len() && d[i] == 0 && forall|j: int| 0 <= j < i ==> d[j] != 0,
        },
    decreases d.len(),
{
    if d.len() > 0 && d[0] != 0 {
        lemma_nul_pos(d.skip(1));
        match nul_pos(d.skip(1)) {
            None => {
                assert forall|j: int| 0 <= j < d.len() implies d[j] != 0 by {
                    if j > 0 {
                        assert(d.skip(1)[j - 1] != 0);
                    }
                }
            },
            Some(i) => {
                assert(d[i + 1] == d.skip(1)[i]);
                assert forall|j: int| 0 <= j < i + 1 implies d[j] != 0 by {
                    if j > 0 {
                        assert(d.skip(1)[j - 1] != 0);
                    }
                }
            },
        }
    }
}

/// Conversely, a null byte with none before it is what `nul_pos` finds.
pub proof fn lemma_nul_pos_is(d: Seq<u8>, i: int)
    requires
        0 <= i < d.len(),
        d[i] == 0,
        forall|j: int| 0 <= j < i ==> d[j] != 0,
    ensures
        nul_pos(d) == Some(i),
    decreases d.len(),
{
    if d[0] != 0 {
        lemma_nul_pos_is(d.skip(1), i - 1);
    }
}

/// And where no byte is null, `nul_pos` finds nothing.
pub proof fn lemma_nul_pos_none(d: Seq<u8>)
    requires
        forall|j: int| 0 <= j < d.len() ==> d[j] != 0,
    ensures
        nul_pos(d) is None,
    decreases d.len(),
{
    if d.len() > 0 {
        lemma_nul_pos_none(d.skip(1));
    }
}

/// Split `d` on every null byte, keeping zero-length pieces.
pub open spec fn split_pieces(d: Seq<u8>) -> Seq<Seq<u8>>
    decreases d.len(),
    via split_pieces_decreases
{
    match nul_pos(d) {
        None => seq![d],
        Some(i) => seq![d.take(i)] + split_pieces(d.skip(i + 1)),
    }
}

#[via_fn]
proof fn split_pieces_decreases(d: Seq<u8>) {
    lemma_nul_pos(d);
}

/// Keeping a piece means it has bytes.
pub open spec fn nonempty_pred() -> spec_fn(Seq<u8>) -> bool {
    |p: Seq<u8>| p.len() > 0
}

/// The assembly blocks of one sentinel data payload: the non-empty pieces
/// between null delimiters, in order.
pub open spec fn nonempty_blocks(d: Seq<u8>) -> Seq<Seq<u8>> {
    split_pieces(d).filter(nonempty_pred())
}

/// The blocks one frame contributes: none unless it is a sentinel section.
pub open spec fn frame_blocks(f: Frame) -> Seq<Seq<u8>> {
    if is_sentinel(f) {
        nonempty_blocks(custom_data(f.content))
    } else {
        Seq::empty()
    }
}

/// The block contribution of a frame, as a function value.
pub open spec fn frame_blocks_fn() -> spec_fn(Frame) -> Seq<Seq<u8>> {
    |f: Frame| frame_blocks(f)
}

/// All assembly blocks of a frame sequence, in file order.
pub open spec fn blocks_spec(fs: Seq<Frame>) -> Seq<Seq<u8>> {
    fs.flat_map(frame_blocks_fn())
}

/// The byte sequences a vector of byte vectors holds.
pub open spec fn views_of(s: Seq<Vec<u8>>) -> Seq<Seq<u8>> {
    s.map_values(|v: Vec<u8>| v@)
}

/// Copy `s[lo..hi]` into a fresh vector.
pub fn copy_range(s: &Vec<u8>, lo: usize, hi: usize) -> (r: Vec<u8>)
    requires
        lo <= hi <= s@.len(),
    ensures
        r@ == s@.subrange(lo as int, hi as int),
{
    let mut r: Vec<u8> = Vec::new();
    let mut i: usize = lo;
    while i < hi
        invariant
            lo <= i <= hi <= s@.len(),
            r@ == s@.subrange(lo as int, i as int),
        decreases hi - i,
    {
        r.push(s[i]);
        proof {
            assert(r@ =~= s@.subrange(lo as int, i + 1));
        }
        i = i + 1;
    }
    r
}

/// Whether `s[lo..hi]` equals `t`.
pub fn bytes_eq_range(s: &Vec<u8>, lo: usize, hi: usize, t: &Vec<u8>) -> (r: bool)
    requires
        lo <= hi <= s@.len(),
    ensures
        r == (s@.subrange(lo as int, hi as int) == t@),
{
    if hi - lo != t.len() {
        return false;
    }
    let mut i: usize = 0;
    while i < t.len()
        invariant
            0 <= i <= t@.len(),
            lo <= hi <= s@.len(),
            hi - lo == t@.len(),
            forall|j: int| 0 <= j < i ==> s@[lo + j] == t@[j],
        decreases t@.len() - i,
    {
        if s[lo + i] != t[i] {
            assert(s@.subrange(lo as int, hi as int)[i as int] != t@[i as int]);
            return false;
        }
        i = i + 1;
    }
    proof {
        assert(s@.subrange(lo as int, hi as int) =~= t@);
    }
    true
}

/// Split `s[lo..hi]` on null bytes and append the non-empty pieces to `out`.
pub fn split_into(s: &Vec<u8>, lo: usize, hi: usize, out: &mut Vec<Vec<u8>>)
    requires
        lo <= hi <= s@.len(),
    ensures
        views_of(final(out)@) == views_of(old(out)@) + nonempty_blocks(
            s@.subrange(lo as int, hi as int),
        ),
{
    let ghost d = s@.subrange(lo as int, hi as int);
    let mut ps: usize = lo;
    let mut q: usize = lo;
    while q < hi
        invariant
            lo <= ps <= q <= hi <= s@.len(),
            d == s@.subrange(lo as int, hi as int),
            forall|j: int| ps <= j < q ==> s@[j] != 0,
            views_of(old(out)@) + nonempty_blocks(d) == views_of(out@) + nonempty_blocks(
                s@.subrange(ps as int, hi as int),
            ),
        decreases hi - q,
    {
        if s[q] == 0 {
            let ghost rem = s@.subrange(ps as int, hi as int);
            proof {
                assert(rem[q - ps] == 0);
                lemma_nul_pos_is(rem, q - ps);
                assert(rem.take(q - ps) =~= s@.subrange(ps as int, q as int));
                assert(rem.skip(q - ps + 1) =~= s@.subrange(q + 1, hi as int));
                lemma_split_step(rem, q - ps);
            }
            if q > ps {
                let piece = copy_range(s, ps, q);
                let ghost pc = piece@;
                out.push(piece);
                proof {
                    lemma_filter_single(pc);
                    assert(views_of(out@) =~= views_of(out@.drop_last()).push(pc));
                }
            } else {
                proof {
                    lemma_filter_single(rem.take(0));
                    assert(rem.take(0).len() == 0);
                }
            }
            proof {
                assert(views_of(old(out)@) + nonempty_blocks(d) =~= views_of(out@)
                    + nonempty_blocks(s@.subrange(q + 1, hi as int)));
            }
            ps = q + 1;
        }
        q = q + 1;
    }
    let ghost rem = s@.subrange(ps as int, hi as int);
    proof {
        lemma_nul_pos_none(rem);
        assert(split_pieces(rem) == seq![rem]);
        lemma_filter_single(rem);
    }
    if ps < hi {
        let piece = copy_range(s, ps, hi);
        let ghost pc = piece@;
        out.push(piece);
        proof {
            assert(views_of(out@) =~= views_of(out@.drop_last()).push(pc));
            assert(views_of(out@) =~= views_of(old(out)@) + nonempty_blocks(d));
        }
    } else {
        proof {
            assert(rem.len() == 0);
            assert(views_of(out@) =~= views_of(old(out)@) + nonempty_blocks(d));
        }
    }
}

/// Splitting at the first null keeps the prefix as one piece.
proof fn lemma_split_step(d: Seq<u8>, i: int)
    requires
        nul_pos(d) == Some(i),
        0 <= i < d.len(),
    ensures
        split_pieces(d) == seq![d.take(i)] + split_pieces(d.skip(i + 1)),
        nonempty_blocks(d) == seq![d.take(i)].filter(nonempty_pred()) + nonempty_blocks(
            d.skip(i + 1),
        ),
{
    Seq::filter_distributes_over_add(seq![d.take(i)], split_pieces(d.skip(i + 1)), nonempty_pred());
}

/// Filtering a one-piece sequence keeps the piece exactly when it is
/// non-empty.
proof fn lemma_filter_single(p: Seq<u8>)
    ensures
        seq![p].filter(nonempty_pred()) == if p.len() > 0 {
            seq![p]
        } else {
            Seq::<Seq<u8>>::empty()
        },
{
    reveal(Seq::filter);
    let pred = nonempty_pred();
    assert(seq![p].drop_last() =~= Seq::<Seq<u8>>::empty());
    assert(Seq::<Seq<u8>>::empty().filter(pred) == Seq::<Seq<u8>>::empty());
    assert(seq![p].last() == p);
    assert(pred(p) == (p.len() > 0));
    if p.len() > 0 {
        assert(Seq::<Seq<u8>>::empty().push(p) =~= seq![p]);
    }
}

/// Block extraction: a data payload of the form
/// `b1 ++ 0x00 ++ "" ++ 0x00 ++ b2 ++ 0x00`, where `b1` and `b2` hold no
/// null byte, yields exactly the blocks `[b1, b2]` — the zero-length piece
/// between the two inner delimiters is dropped.
pub proof fn lemma_block_extraction(b1: Seq<u8>, b2: Seq<u8>)
    requires
        b1.len() > 0,
        b2.len() > 0,
        forall|j: int| 0 <= j < b1.len() ==> b1[j] != 0,
        forall|j: int| 0 <= j < b2.len() ==> b2[j] != 0,
    ensures
        nonempty_blocks(b1 + seq![0u8] + seq![0u8] + b2 + seq![0u8]) == seq![b1, b2],
{
    let d1 = b1 + seq![0u8] + seq![0u8] + b2 + seq![0u8];
    let d2 = seq![0u8] + b2 + seq![0u8];
    let d3 = b2 + seq![0u8];
    let n1 = b1.len() as int;
    let n2 = b2.len() as int;

    assert(d1[n1] == 0);
    lemma_nul_pos_is(d1, n1);
    assert(d1.take(n1) =~= b1);
    assert(d1.skip(n1 + 1) =~= d2);
    lemma_split_step(d1, n1);

    assert(d2[0] == 0);
    lemma_nul_pos_is(d2, 0);
    assert(d2.take(0) =~= Seq::<u8>::empty());
    assert(d2.skip(1) =~= d3);
    lemma_split_step(d2, 0);

    assert(d3[n2] == 0);
    lemma_nul_pos_is(d3, n2);
    assert(d3.take(n2) =~= b2);
    assert(d3.skip(n2 + 1) =~= Seq::<u8>::empty());
    lemma_split_step(d3, n2);

    lemma_nul_pos_none(Seq::<u8>::empty());
    assert(split_pieces(Seq::<u8>::empty()) == seq![Seq::<u8>::empty()]);
    lemma_filter_single(Seq::<u8>::empty());
    lemma_filter_single(b1);
    lemma_filter_single(b2);

    assert(nonempty_blocks(d3) =~= seq![b2]);
    assert(nonempty_blocks(d2) =~= seq![b2]);
    assert(nonempty_blocks(d1) =~= seq![b1, b2]);
}

/// Extract every assembly block of a binary module payload, in file order:
/// scan it, take the sentinel custom sections, split their data on null
/// bytes, and drop zero-length pieces. Errors are the scanner's.
pub fn extract_blocks(s: &Vec<u8>) -> (r: Result<Vec<Vec<u8>>, WeaveError>)
    ensures
        match scan_spec(s@) {
            ScanSpec::Sections(fs) => r is Ok && views_of(r->Ok_0@) == blocks_spec(fs),
            ScanSpec::Unsupported => r == Err::<Vec<Vec<u8>>, WeaveError>(
                WeaveError::UnsupportedEncoding,
            ),
            ScanSpec::Malformed => r == Err::<Vec<Vec<u8>>, WeaveError>(
                WeaveError::MalformedContainer,
            ),
        },
{
    let sections = match scan(s) {
        Ok(v) => v,
        Err(e) => {
            return Err(e);
        },
    };
    let ghost fs = scan_spec(s@)->Sections_0;
    let sent = sentinel_name_vec();
    let mut out: Vec<Vec<u8>> = Vec::new();
    let mut j: usize = 0;
    let frame_count = sections.len() - 2;
    proof {
        assert(fs.take(0) =~= Seq::<Frame>::empty());
        assert(Seq::<Frame>::empty().flat_map(frame_blocks_fn()) =~= Seq::<Seq<u8>>::empty());
    }
    while j < frame_count
        invariant
            scan_spec(s@) is Sections,
            fs == scan_spec(s@)->Sections_0,
            sections@.len() == fs.len() + 2,
            frame_count == fs.len(),
            sent@ == sentinel_name(),
            0 <= j <= frame_count,
            forall|i: int| 0 <= i < fs.len() ==> crate::scan::section_matches(
                #[trigger] sections@[i + 1],
                fs[i],
                s@,
            ),
            views_of(out@) == blocks_spec(fs.take(j as int)),
        decreases frame_count - j,
    {
        let sec = sections[j + 1];
        proof {
            fs.lemma_flat_map_take_append(frame_blocks_fn(), j as int);
        }
        match sec {
            Section::Custom { lo, hi, name_lo, name_hi } => {
                if bytes_eq_range(s, name_lo, name_hi, &sent) {
                    proof {
                        assert(is_sentinel(fs[j as int]));
                        assert(s@.subrange(name_hi as int, hi as int) == custom_data(
                            fs[j as int].content,
                        ));
                    }
                    split_into(s, name_hi, hi, &mut out);
                } else {
                    proof {
                        assert(!is_sentinel(fs[j as int]));
                        assert(frame_blocks(fs[j as int]) =~= Seq::<Seq<u8>>::empty());
                        assert(views_of(out@) =~= blocks_spec(fs.take(j + 1)));
                    }
                }
            },
            Section::Generic { .. } => {
                proof {
                    assert(!is_sentinel(fs[j as int]));
                    assert(frame_blocks(fs[j as int]) =~= Seq::<Seq<u8>>::empty());
                    assert(views_of(out@) =~= blocks_spec(fs.take(j + 1)));
                }
            },
            _ => {
                proof {
                    assert(false);
                }
            },
        }
        proof {
            assert(views_of(out@) =~= blocks_spec(fs.take(j + 1)));
        }
        j = j + 1;
    }
    proof {
        assert(fs.take(frame_count as int) =~= fs);
    }
    Ok(out)
}

} // verus!
