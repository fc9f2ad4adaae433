//! The container scanner: one pass over a binary module payload, producing
//! its sections in file order.
//!
//! A payload is an 8-byte header (magic, version, layer) followed by framed
//! sections, each an id byte, an LEB128 content size, and that many content
//! bytes. The scanner types custom sections (id 0, a named payload) and
//! leaves every other kind opaque: a `Generic` section carries its tag and
//! the exact byte range of its content, so a caller can copy it verbatim.
//! Entries inside a code section carry no bytes of their own — they are
//! subsumed by that section's generic range — so the scanner never reports
//! them separately and nothing can duplicate them into rewritten output.

use vstd::prelude::*;

use crate::error::WeaveError;
use crate::leb::{leb_dec, leb_read, lemma_leb_dec_bound, LEB_MAX_BYTES};

verus! {

/// The container encoding named by the header. Only `Module` is supported;
/// detecting `Component` is fatal before any section is reported.
#[derive(Clone, Copy, Debug, PartialEq, Eq, Structural)]
pub enum Encoding {
    Module,
    Component,
}

/// One section of a scanned payload. Ranges index into the scanned buffer.
#[derive(Clone, Copy, Debug, PartialEq, Eq, Structural)]
pub enum Section {
    /// The header; always `Module` in a scanner result.
    Version { encoding: Encoding },
    /// A custom section: `lo..hi` is its whole content, `name_lo..name_hi`
    /// the name bytes, and `name_hi..hi` the data.
    Custom { lo: usize, hi: usize, name_lo: usize, name_hi: usize },
    /// Any other section kind, copied verbatim by range: `lo..hi` is the
    /// content, `id` the tag byte.
    Generic { id: u8, lo: usize, hi: usize },
    /// End of the payload.
    End,
}

/// The mathematical shape of one framed section: its tag and content bytes.
pub struct Frame {
    pub id: u8,
    pub content: Seq<u8>,
}

/// What scanning a byte string yields.
pub enum ScanSpec {
    /// A module with these frames, in file order.
    Sections(Seq<Frame>),
    /// A component-encoded container.
    Unsupported,
    /// Structurally invalid bytes.
    Malformed,
}

/// The first half of the canonical header: `\0asm`.
pub open spec fn header_magic_ok(s: Seq<u8>) -> bool {
    s.len() >= 8 && s[0] == 0u8 && s[1] == 0x61u8 && s[2] == 0x73u8 && s[3] == 0x6du8
}

/// A header whose layer field names the component encoding.
pub open spec fn header_is_component(s: Seq<u8>) -> bool {
    header_magic_ok(s) && s[6] == 1u8 && s[7] == 0u8
}

/// A module header: version 1, layer 0.
pub open spec fn header_is_module(s: Seq<u8>) -> bool {
    header_magic_ok(s) && s[4] == 1u8 && s[5] == 0u8 && s[6] == 0u8 && s[7] == 0u8
}

/// Parse the framed sections that follow the header: id byte, LEB128 size,
/// content. `None` on the first structurally invalid byte sequence.
pub open spec fn parse_frames(s: Seq<u8>) -> Option<Seq<Frame>>
    decreases s.len(),
    via parse_frames_decreases
{
    if s.len() == 0 {
        Some(Seq::empty())
    } else {
        match leb_dec(s.skip(1)) {
            None => None,
            Some((size, n)) => {
                if 1 + n + size > s.len() {
                    None
                } else {
                    match parse_frames(s.skip(1 + n + size as int)) {
                        None => None,
                        Some(rest) => Some(
                            seq![Frame { id: s[0], content: s.subrange(1 + n, 1 + n + size) }]
                                + rest,
                        ),
                    }
                }
            },
        }
    }
}

#[via_fn]
proof fn parse_frames_decreases(s: Seq<u8>) {
    if s.len() != 0 && leb_dec(s.skip(1)) is Some {
        lemma_leb_dec_bound(s.skip(1), LEB_MAX_BYTES as nat);
    }
}

/// The name of a custom section's content: an LEB128 length, then that many
/// name bytes. `None` when the length field is broken or overruns.
pub open spec fn custom_name(content: Seq<u8>) -> Option<Seq<u8>> {
    match leb_dec(content) {
        None => None,
        Some((nl, n)) => {
            if n + nl > content.len() {
                None
            } else {
                Some(content.subrange(n, n + nl))
            }
        },
    }
}

/// What follows the name in a custom section's content.
pub open spec fn custom_data(content: Seq<u8>) -> Seq<u8> {
    match leb_dec(content) {
        None => Seq::empty(),
        Some((nl, n)) => {
            if n + nl > content.len() {
                Seq::empty()
            } else {
                content.skip(n + nl)
            }
        },
    }
}

/// Every custom frame's name parses.
pub open spec fn frames_wf(fs: Seq<Frame>) -> bool {
    forall|i: int| 0 <= i < fs.len() && (#[trigger] fs[i]).id == 0 ==> custom_name(fs[i].content) is Some
}

/// The outcome of scanning `s` as a binary module payload.
pub open spec fn scan_spec(s: Seq<u8>) -> ScanSpec {
    if !header_magic_ok(s) {
        ScanSpec::Malformed
    } else if header_is_component(s) {
        ScanSpec::Unsupported
    } else if !header_is_module(s) {
        ScanSpec::Malformed
    } else {
        match parse_frames(s.skip(8)) {
            None => ScanSpec::Malformed,
            Some(fs) => {
                if frames_wf(fs) {
                    ScanSpec::Sections(fs)
                } else {
                    ScanSpec::Malformed
                }
            },
        }
    }
}

/// One reported section describes one frame of the scanned buffer `s`.
pub open spec fn section_matches(sec: Section, f: Frame, s: Seq<u8>) -> bool {
    match sec {
        Section::Custom { lo, hi, name_lo, name_hi } => {
            &&& f.id == 0
            &&& lo <= hi <= s.len()
            &&& s.subrange(lo as int, hi as int) == f.content
            &&& custom_name(f.content) is Some
            &&& lo <= name_lo <= name_hi <= hi
            &&& s.subrange(name_lo as int, name_hi as int) == custom_name(f.content)->Some_0
            &&& s.subrange(name_hi as int, hi as int) == custom_data(f.content)
        },
        Section::Generic { id, lo, hi } => {
            &&& f.id == id
            &&& id != 0
            &&& lo <= hi <= s.len()
            &&& s.subrange(lo as int, hi as int) == f.content
        },
        _ => false,
    }
}

/// A scanner result: the version first, then one section per frame in file
/// order, then the end marker.
pub open spec fn sections_match(v: Seq<Section>, fs: Seq<Frame>, s: Seq<u8>) -> bool {
    &&& v.len() == fs.len() + 2
    &&& v[0] == (Section::Version { encoding: Encoding::Module })
    &&& v[v.len() - 1] == Section::End
    &&& forall|i: int| 0 <= i < fs.len() ==> section_matches(#[trigger] v[i + 1], fs[i], s)
}

/// Frames already scanned, followed by whatever the remaining bytes hold.
pub open spec fn parse_join(done: Seq<Frame>, rest_bytes: Seq<u8>) -> Option<Seq<Frame>> {
    match parse_frames(rest_bytes) {
        None => None,
        Some(rest) => Some(done + rest),
    }
}

/// Scan a binary module payload into its sections, in file order.
///
/// Fails with `UnsupportedEncoding` the instant the header names the
/// component encoding — no section is inspected — and with
/// `MalformedContainer` on the first structurally invalid byte sequence.
pub fn scan(s: &Vec<u8>) -> (r: Result<Vec<Section>, WeaveError>)
    ensures
        match scan_spec(s@) {
            ScanSpec::Sections(fs) => r is Ok && sections_match(r->Ok_0@, fs, s@),
            ScanSpec::Unsupported => r == Err::<Vec<Section>, WeaveError>(
                WeaveError::UnsupportedEncoding,
            ),
            ScanSpec::Malformed => r == Err::<Vec<Section>, WeaveError>(
                WeaveError::MalformedContainer,
            ),
        },
{
    let len = s.len();
    if len < 8 {
        return Err(WeaveError::MalformedContainer);
    }
    if !(s[0] == 0 && s[1] == 0x61 && s[2] == 0x73 && s[3] == 0x6d) {
        return Err(WeaveError::MalformedContainer);
    }
    if s[6] == 1 && s[7] == 0 {
        return Err(WeaveError::UnsupportedEncoding);
    }
    if !(s[4] == 1 && s[5] == 0 && s[6] == 0 && s[7] == 0) {
        return Err(WeaveError::MalformedContainer);
    }
    let mut out: Vec<Section> = Vec::new();
    out.push(Section::Version { encoding: Encoding::Module });
    let ghost mut done: Seq<Frame> = Seq::empty();
    let mut pos: usize = 8;
    while pos < len
        invariant
            8 <= pos <= len,
            len == s@.len(),
            header_is_module(s@),
            !header_is_component(s@),
            out@.len() == done.len() + 1,
            out@[0] == (Section::Version { encoding: Encoding::Module }),
            forall|i: int| 0 <= i < done.len() ==> section_matches(
                #[trigger] out@[i + 1],
                done[i],
                s@,
            ),
            frames_wf(done),
            parse_frames(s@.skip(8)) == parse_join(done, s@.skip(pos as int)),
        decreases len - pos,
    {
        let ghost tail = s@.skip(pos as int);
        let id = s[pos];
        proof {
            assert(tail.skip(1) =~= s@.subrange(pos + 1, len as int));
        }
        let size_q = leb_read(s, pos + 1, len);
        if size_q.is_none() {
            proof {
                assert(parse_frames(tail) is None);
            }
            return Err(WeaveError::MalformedContainer);
        }
        let (size, q) = size_q.unwrap();
        let ghost n = q - (pos + 1);
        if (size as usize) > len - q {
            proof {
                assert(1 + n + size as nat > tail.len());
                assert(parse_frames(tail) is None);
            }
            return Err(WeaveError::MalformedContainer);
        }
        let hi = q + size as usize;
        let ghost cur = Frame { id, content: s@.subrange(q as int, hi as int) };
        proof {
            assert(tail.subrange(1 + n, 1 + n + size as int) =~= s@.subrange(q as int, hi as int));
            assert(tail.skip(1 + n + size as int) =~= s@.skip(hi as int));
            assert(parse_frames(tail) == parse_join(seq![cur], s@.skip(hi as int)));
            assert(parse_join(done, tail) == parse_join(done.push(cur), s@.skip(hi as int))) by {
                if parse_frames(s@.skip(hi as int)) is Some {
                    let rest = parse_frames(s@.skip(hi as int))->Some_0;
                    assert(done + (seq![cur] + rest) =~= done.push(cur) + rest);
                }
            }
        }
        if id == 0 {
            proof {
                assert(leb_dec(s@.subrange(q as int, hi as int)) == leb_dec(cur.content));
            }
            let name_len_p = leb_read(s, q, hi);
            if name_len_p.is_none() {
                proof {
                    lemma_bad_frame_means_malformed(s@, done, cur, hi as int);
                }
                return Err(WeaveError::MalformedContainer);
            }
            let (name_len, p) = name_len_p.unwrap();
            if (name_len as usize) > hi - p {
                proof {
                    lemma_bad_frame_means_malformed(s@, done, cur, hi as int);
                }
                return Err(WeaveError::MalformedContainer);
            }
            let name_hi = p + name_len as usize;
            let sec = Section::Custom { lo: q, hi, name_lo: p, name_hi };
            proof {
                let ghost n2 = p - q;
                assert(cur.content.subrange(n2, n2 + name_len as int) =~= s@.subrange(
                    p as int,
                    name_hi as int,
                ));
                assert(cur.content.skip(n2 + name_len as int) =~= s@.subrange(
                    name_hi as int,
                    hi as int,
                ));
                assert(section_matches(sec, cur, s@));
            }
            out.push(sec);
        } else {
            let sec = Section::Generic { id, lo: q, hi };
            proof {
                assert(section_matches(sec, cur, s@));
            }
            out.push(sec);
        }
        proof {
            done = done.push(cur);
        }
        pos = hi;
    }
    proof {
        assert(s@.skip(pos as int) =~= Seq::<u8>::empty());
        assert(parse_frames(s@.skip(pos as int)) == Some(Seq::<Frame>::empty()));
        assert(done + Seq::<Frame>::empty() =~= done);
        assert(parse_frames(s@.skip(8)) == Some(done));
    }
    out.push(Section::End);
    proof {
        assert(sections_match(out@, done, s@));
    }
    Ok(out)
}

/// If the frame at the front of the unscanned remainder is a custom section
/// whose name does not parse, the whole payload is malformed: either some
/// later frame fails to parse, or the parsed frames are not well formed.
proof fn lemma_bad_frame_means_malformed(s: Seq<u8>, done: Seq<Frame>, cur: Frame, hi: int)
    requires
        header_is_module(s),
        !header_is_component(s),
        0 <= hi <= s.len(),
        cur.id == 0,
        custom_name(cur.content) is None,
        parse_frames(s.skip(8)) == parse_join(done.push(cur), s.skip(hi)),
    ensures
        scan_spec(s) == ScanSpec::Malformed,
{
    if parse_frames(s.skip(hi)) is Some {
        let rest = parse_frames(s.skip(hi))->Some_0;
        let fs = done.push(cur) + rest;
        assert(fs[done.len() as int] == cur);
        assert(!frames_wf(fs));
    }
}

} // verus!
