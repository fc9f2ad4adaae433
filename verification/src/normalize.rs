//! The post-link normalizer: re-scan a linked artifact, drop every sentinel
//! custom section, and re-emit the rest behind a canonical module header.
//!
//! Every surviving section is re-framed as its tag byte, the minimal LEB128
//! encoding of its content length, and the content copied verbatim, in
//! original order. The header is always rewritten to the canonical module
//! header, whatever the linker produced.

use vstd::prelude::*;

use crate::error::WeaveError;
use crate::extract::{bytes_eq_range, is_sentinel, sentinel_name_vec};
use crate::leb::{
    leb_dec, leb_enc, leb_write, lemma_leb_bound_values, lemma_leb_dec_bound, lemma_leb_enc_len,
    lemma_leb_minimal, lemma_leb_roundtrip, LEB_MAX_BYTES,
};
use crate::scan::{
    custom_name, frames_wf, header_is_component, header_is_module, parse_frames, scan, scan_spec,
    section_matches, Frame, ScanSpec, Section,
};

verus! {

/// The canonical module header: magic, version 1, layer 0.
pub open spec fn canonical_header() -> Seq<u8> {
    seq![0u8, 0x61u8, 0x73u8, 0x6du8, 1u8, 0u8, 0u8, 0u8]
}

/// The canonical module header as a byte vector.
pub fn canonical_header_vec() -> (r: Vec<u8>)
    ensures
        r@ == canonical_header(),
{
    let r: Vec<u8> = vec![0u8, 0x61u8, 0x73u8, 0x6du8, 1u8, 0u8, 0u8, 0u8];
    proof {
        assert(r@ =~= canonical_header());
    }
    r
}

/// A frame survives normalization unless it is a sentinel custom section.
pub open spec fn keep_frame(f: Frame) -> bool {
    !is_sentinel(f)
}

/// The survival test as a function value.
pub open spec fn keep_pred() -> spec_fn(Frame) -> bool {
    |f: Frame| keep_frame(f)
}

/// One re-emitted frame: tag byte, minimal LEB128 content length, content.
pub open spec fn emit_frame(f: Frame) -> Seq<u8> {
    seq![f.id] + leb_enc(f.content.len()) + f.content
}

/// Frames re-emitted in order.
pub open spec fn emit_frames(fs: Seq<Frame>) -> Seq<u8>
    decreases fs.len(),
{
    if fs.len() == 0 {
        Seq::empty()
    } else {
        emit_frame(fs[0]) + emit_frames(fs.skip(1))
    }
}

/// Every frame's content length fits the 32-bit size field.
pub open spec fn frames_sized(fs: Seq<Frame>) -> bool {
    forall|i: int| 0 <= i < fs.len() ==> (#[trigger] fs[i]).content.len() < 0x1_0000_0000
}

/// The normalized artifact for a scanned frame sequence: the canonical
/// header, then every kept frame re-emitted in original order.
pub open spec fn normalized_spec(fs: Seq<Frame>) -> Seq<u8> {
    canonical_header() + emit_frames(fs.filter(keep_pred()))
}

/// Whether every section size field of a framed byte string is minimally
/// encoded (re-emission only changes the bytes of non-minimal size fields).
pub open spec fn min_sized(t: Seq<u8>) -> bool
    decreases t.len(),
    via min_sized_decreases
{
    t.len() == 0 || match leb_dec(t.skip(1)) {
        None => true,
        Some((size, n)) => {
            if 1 + n + size > t.len() {
                true
            } else {
                n == leb_enc(size).len() && min_sized(t.skip(1 + n + size as int))
            }
        },
    }
}

#[via_fn]
proof fn min_sized_decreases(t: Seq<u8>) {
    if t.len() != 0 && leb_dec(t.skip(1)) is Some {
        lemma_leb_dec_bound(t.skip(1), LEB_MAX_BYTES as nat);
    }
}

/// Emitting after a push appends the one frame's bytes.
proof fn lemma_emit_frames_push(fs: Seq<Frame>, f: Frame)
    ensures
        emit_frames(fs.push(f)) == emit_frames(fs) + emit_frame(f),
    decreases fs.len(),
{
    if fs.len() == 0 {
        assert(fs.push(f)[0] == f);
        assert(fs.push(f).skip(1) =~= Seq::<Frame>::empty());
        assert(emit_frames(fs.push(f)) == emit_frame(f) + emit_frames(Seq::<Frame>::empty()));
        assert(emit_frames(Seq::<Frame>::empty()) == Seq::<u8>::empty());
        assert(emit_frames(fs) == Seq::<u8>::empty());
        assert(emit_frame(f) + Seq::<u8>::empty() =~= emit_frame(f));
        assert(Seq::<u8>::empty() + emit_frame(f) =~= emit_frame(f));
    } else {
        assert(fs.push(f)[0] == fs[0]);
        assert(fs.push(f).skip(1) =~= fs.skip(1).push(f));
        lemma_emit_frames_push(fs.skip(1), f);
        assert(emit_frame(fs[0]) + (emit_frames(fs.skip(1)) + emit_frame(f)) =~= (emit_frame(fs[0])
            + emit_frames(fs.skip(1))) + emit_frame(f));
    }
}

/// Parsed frames all fit the 32-bit size field.
pub proof fn lemma_parse_sized(t: Seq<u8>)
    requires
        parse_frames(t) is Some,
    ensures
        frames_sized(parse_frames(t)->Some_0),
    decreases t.len(),
{
    lemma_leb_bound_values();
    if t.len() != 0 {
        lemma_leb_dec_bound(t.skip(1), LEB_MAX_BYTES as nat);
        let size = leb_dec(t.skip(1))->Some_0.0;
        let n = leb_dec(t.skip(1))->Some_0.1;
        lemma_parse_sized(t.skip(1 + n + size as int));
        let fs = parse_frames(t)->Some_0;
        let rest = parse_frames(t.skip(1 + n + size as int))->Some_0;
        assert forall|i: int| 0 <= i < fs.len() implies (#[trigger] fs[i]).content.len()
            < 0x1_0000_0000 by {
            if i > 0 {
                assert(fs[i] == rest[i - 1]);
            }
        }
    }
}

/// Re-parsing re-emitted frames gives the frames back.
pub proof fn lemma_parse_emit(fs: Seq<Frame>)
    requires
        frames_sized(fs),
    ensures
        parse_frames(emit_frames(fs)) == Some(fs),
    decreases fs.len(),
{
    lemma_leb_bound_values();
    if fs.len() == 0 {
        assert(parse_frames(emit_frames(fs)) == Some(Seq::<Frame>::empty()));
        assert(Seq::<Frame>::empty() =~= fs);
    } else {
        let f = fs[0];
        let t = emit_frames(fs);
        let enc = leb_enc(f.content.len());
        let size = f.content.len();
        let rest_bytes = emit_frames(fs.skip(1));
        lemma_leb_enc_len(size);
        lemma_leb_roundtrip(size, f.content + rest_bytes);
        assert(t.skip(1) =~= enc + (f.content + rest_bytes));
        let n = enc.len() as int;
        assert(leb_dec(t.skip(1)) == Some((size, n)));
        assert(t.len() == 1 + n + size + rest_bytes.len());
        assert(t.subrange(1 + n, 1 + n + size as int) =~= f.content);
        assert(t.skip(1 + n + size as int) =~= rest_bytes);
        assert forall|i: int| 0 <= i < fs.skip(1).len() implies (#[trigger] fs.skip(
            1,
        )[i]).content.len() < 0x1_0000_0000 by {
            assert(fs.skip(1)[i] == fs[i + 1]);
        }
        lemma_parse_emit(fs.skip(1));
        assert(t[0] == f.id);
        assert(seq![Frame { id: t[0], content: t.subrange(1 + n, 1 + n + size as int) }] + fs.skip(
            1,
        ) =~= fs);
    }
}

/// Every element of a filtered sequence is an element of the original.
proof fn lemma_filter_membership(fs: Seq<Frame>)
    ensures
        forall|i: int| 0 <= i < fs.filter(keep_pred()).len() ==> fs.contains(
            #[trigger] fs.filter(keep_pred())[i],
        ),
    decreases fs.len(),
{
    reveal(Seq::filter);
    if fs.len() > 0 {
        let kept = fs.filter(keep_pred());
        let dl = fs.drop_last();
        lemma_filter_membership(dl);
        assert forall|i: int| 0 <= i < kept.len() implies fs.contains(#[trigger] kept[i]) by {
            if i < dl.filter(keep_pred()).len() {
                assert(kept[i] == dl.filter(keep_pred())[i]);
                assert(dl.contains(kept[i]));
                let j = choose|j: int| 0 <= j < dl.len() && dl[j] == kept[i];
                assert(fs[j] == kept[i]);
            } else {
                assert(kept[i] == fs.last());
                assert(fs[fs.len() - 1] == kept[i]);
            }
        }
    }
}

/// Filtering a sequence whose elements all pass the test changes nothing.
proof fn lemma_filter_all_kept(fs: Seq<Frame>)
    requires
        forall|i: int| 0 <= i < fs.len() ==> keep_frame(#[trigger] fs[i]),
    ensures
        fs.filter(keep_pred()) == fs,
    decreases fs.len(),
{
    reveal(Seq::filter);
    if fs.len() > 0 {
        let dl = fs.drop_last();
        assert forall|i: int| 0 <= i < dl.len() implies keep_frame(#[trigger] dl[i]) by {
            assert(dl[i] == fs[i]);
        }
        lemma_filter_all_kept(dl);
        assert(keep_frame(fs.last()));
        assert(dl.filter(keep_pred()).push(fs.last()) =~= fs);
    }
}

/// The frames kept by normalization are still well formed and sized.
proof fn lemma_kept_props(fs: Seq<Frame>)
    requires
        frames_sized(fs),
        frames_wf(fs),
    ensures
        frames_sized(fs.filter(keep_pred())),
        frames_wf(fs.filter(keep_pred())),
        forall|i: int| 0 <= i < fs.filter(keep_pred()).len() ==> keep_frame(
            #[trigger] fs.filter(keep_pred())[i],
        ),
{
    let kept = fs.filter(keep_pred());
    lemma_filter_membership(fs);
    assert forall|i: int| 0 <= i < kept.len() implies (#[trigger] kept[i]).content.len()
        < 0x1_0000_0000 by {
        let j = choose|j: int| 0 <= j < fs.len() && fs[j] == kept[i];
        assert(fs[j].content.len() < 0x1_0000_0000);
    }
    assert forall|i: int| 0 <= i < kept.len() && (#[trigger] kept[i]).id == 0 implies custom_name(
        kept[i].content,
    ) is Some by {
        let j = choose|j: int| 0 <= j < fs.len() && fs[j] == kept[i];
        assert(fs[j].id == 0 ==> custom_name(fs[j].content) is Some);
    }
    assert forall|i: int| 0 <= i < kept.len() implies keep_frame(#[trigger] kept[i]) by {
        fs.lemma_filter_pred(keep_pred(), i);
    }
}

/// Scanning a normalized artifact succeeds and yields exactly the kept
/// frames, in their original relative order.
pub proof fn lemma_scan_normalized(fs: Seq<Frame>)
    requires
        frames_sized(fs),
        frames_wf(fs),
    ensures
        scan_spec(normalized_spec(fs)) == ScanSpec::Sections(fs.filter(keep_pred())),
{
    let kept = fs.filter(keep_pred());
    let t = normalized_spec(fs);
    lemma_kept_props(fs);
    assert(header_is_module(t));
    assert(!header_is_component(t));
    assert(t.skip(8) =~= emit_frames(kept));
    lemma_parse_emit(kept);
}

/// Normalizing is idempotent: normalizing an already-normalized artifact
/// re-emits it byte for byte.
pub proof fn lemma_normalize_idempotent(s: Seq<u8>)
    requires
        scan_spec(s) is Sections,
    ensures
        ({
            let t = normalized_spec(scan_spec(s)->Sections_0);
            &&& scan_spec(t) is Sections
            &&& normalized_spec(scan_spec(t)->Sections_0) == t
        }),
{
    let fs = scan_spec(s)->Sections_0;
    lemma_parse_sized(s.skip(8));
    lemma_scan_normalized(fs);
    let kept = fs.filter(keep_pred());
    lemma_kept_props(fs);
    lemma_filter_all_kept(kept);
}

/// Normalization preserves section order: the scan of the output is the
/// input's frame sequence filtered in place, so every surviving section
/// keeps its relative position.
pub proof fn lemma_section_order_preserved(s: Seq<u8>)
    requires
        scan_spec(s) is Sections,
    ensures
        scan_spec(normalized_spec(scan_spec(s)->Sections_0)) == ScanSpec::Sections(
            scan_spec(s)->Sections_0.filter(keep_pred()),
        ),
{
    lemma_parse_sized(s.skip(8));
    lemma_scan_normalized(scan_spec(s)->Sections_0);
}

/// Re-emitting minimally framed input reproduces it.
proof fn lemma_emit_parsed(t: Seq<u8>)
    requires
        parse_frames(t) is Some,
        min_sized(t),
    ensures
        emit_frames(parse_frames(t)->Some_0) == t,
    decreases t.len(),
{
    lemma_leb_bound_values();
    if t.len() == 0 {
        assert(emit_frames(parse_frames(t)->Some_0) =~= t);
    } else {
        lemma_leb_dec_bound(t.skip(1), LEB_MAX_BYTES as nat);
        let size = leb_dec(t.skip(1))->Some_0.0;
        let n = leb_dec(t.skip(1))->Some_0.1;
        lemma_leb_minimal(t.skip(1), size, n);
        let f = Frame { id: t[0], content: t.subrange(1 + n, 1 + n + size as int) };
        let rest_bytes = t.skip(1 + n + size as int);
        lemma_emit_parsed(rest_bytes);
        let fs = parse_frames(t)->Some_0;
        assert(fs == seq![f] + parse_frames(rest_bytes)->Some_0);
        assert(fs[0] == f);
        assert(fs.skip(1) =~= parse_frames(rest_bytes)->Some_0);
        assert(t.skip(1).subrange(0, n) =~= t.subrange(1, 1 + n));
        assert(emit_frame(f) =~= t.subrange(0, 1 + n + size as int));
        assert(emit_frames(fs) == emit_frame(f) + emit_frames(fs.skip(1)));
        assert(t.subrange(0, 1 + n + size as int) + rest_bytes =~= t);
    }
}

/// A no-op round trip: normalizing a module with no sentinel section and
/// minimally encoded size fields reproduces its bytes behind the canonical
/// header.
pub proof fn lemma_roundtrip_noop(s: Seq<u8>)
    requires
        scan_spec(s) is Sections,
        min_sized(s.skip(8)),
        forall|i: int|
            0 <= i < scan_spec(s)->Sections_0.len() ==> keep_frame(
                #[trigger] scan_spec(s)->Sections_0[i],
            ),
    ensures
        normalized_spec(scan_spec(s)->Sections_0) == canonical_header() + s.skip(8),
{
    let fs = scan_spec(s)->Sections_0;
    lemma_filter_all_kept(fs);
    lemma_emit_parsed(s.skip(8));
}

/// Append `s[lo..hi]` to `out`.
fn extend_range(s: &Vec<u8>, lo: usize, hi: usize, out: &mut Vec<u8>)
    requires
        lo <= hi <= s@.len(),
    ensures
        final(out)@ == old(out)@ + s@.subrange(lo as int, hi as int),
{
    let mut i: usize = lo;
    while i < hi
        invariant
            lo <= i <= hi <= s@.len(),
            out@ == old(out)@ + s@.subrange(lo as int, i as int),
        decreases hi - i,
    {
        out.push(s[i]);
        proof {
            assert(out@ =~= old(out)@ + s@.subrange(lo as int, i + 1));
        }
        i = i + 1;
    }
}

/// Normalize a linked artifact: re-scan it, drop every sentinel custom
/// section, and re-emit the canonical module header followed by every other
/// section's bytes in original order. Errors are the scanner's.
pub fn normalize(s: &Vec<u8>) -> (r: Result<Vec<u8>, WeaveError>)
    ensures
        match scan_spec(s@) {
            ScanSpec::Sections(fs) => r is Ok && r->Ok_0@ == normalized_spec(fs),
            ScanSpec::Unsupported => r == Err::<Vec<u8>, WeaveError>(
                WeaveError::UnsupportedEncoding,
            ),
            ScanSpec::Malformed => r == Err::<Vec<u8>, WeaveError>(WeaveError::MalformedContainer),
        },
{
    let sections = match scan(s) {
        Ok(v) => v,
        Err(e) => {
            return Err(e);
        },
    };
    let ghost fs = scan_spec(s@)->Sections_0;
    proof {
        lemma_parse_sized(s@.skip(8));
    }
    let sent = sentinel_name_vec();
    let mut out: Vec<u8> = canonical_header_vec();
    let mut j: usize = 0;
    let frame_count = sections.len() - 2;
    proof {
        assert(fs.take(0) =~= Seq::<Frame>::empty());
        assert(Seq::<Frame>::empty().filter(keep_pred()) =~= Seq::<Frame>::empty());
        assert(out@ =~= canonical_header() + emit_frames(fs.take(0).filter(keep_pred())));
    }
    while j < frame_count
        invariant
            scan_spec(s@) is Sections,
            fs == scan_spec(s@)->Sections_0,
            frames_sized(fs),
            sections@.len() == fs.len() + 2,
            frame_count == fs.len(),
            sent@ == crate::extract::sentinel_name(),
            0 <= j <= frame_count,
            forall|i: int| 0 <= i < fs.len() ==> section_matches(
                #[trigger] sections@[i + 1],
                fs[i],
                s@,
            ),
            out@ == canonical_header() + emit_frames(fs.take(j as int).filter(keep_pred())),
        decreases frame_count - j,
    {
        let sec = sections[j + 1];
        let ghost f = fs[j as int];
        proof {
            assert(fs.take(j + 1) =~= fs.take(j as int).push(f));
            fs.take(j as int).lemma_filter_push(f, keep_pred());
            if keep_frame(f) {
                lemma_emit_frames_push(fs.take(j as int).filter(keep_pred()), f);
            }
        }
        match sec {
            Section::Custom { lo, hi, name_lo, name_hi } => {
                if bytes_eq_range(s, name_lo, name_hi, &sent) {
                    proof {
                        assert(is_sentinel(f));
                        assert(!keep_frame(f));
                    }
                } else {
                    proof {
                        assert(keep_frame(f));
                        assert(f.content.len() == hi - lo);
                    }
                    out.push(0u8);
                    leb_write(&mut out, (hi - lo) as u32);
                    extend_range(s, lo, hi, &mut out);
                    proof {
                        assert(out@ =~= canonical_header() + emit_frames(
                            fs.take(j + 1).filter(keep_pred()),
                        ));
                    }
                }
            },
            Section::Generic { id, lo, hi } => {
                proof {
                    assert(keep_frame(f));
                    assert(f.content.len() == hi - lo);
                }
                out.push(id);
                leb_write(&mut out, (hi - lo) as u32);
                extend_range(s, lo, hi, &mut out);
                proof {
                    assert(out@ =~= canonical_header() + emit_frames(
                        fs.take(j + 1).filter(keep_pred()),
                    ));
                }
            },
            _ => {
                proof {
                    assert(false);
                }
            },
        }
        proof {
            assert(out@ =~= canonical_header() + emit_frames(fs.take(j + 1).filter(keep_pred())));
        }
        j = j + 1;
    }
    proof {
        assert(fs.take(frame_count as int) =~= fs);
    }
    Ok(out)
}

} // verus!
