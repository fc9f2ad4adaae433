//! Per-object weaving: turning one scanned input into assembler jobs, naming
//! companion objects, building the assembler and linker command lines, and
//! formatting assembler failure diagnostics.

use vstd::prelude::*;

use crate::archive::ArMember;
use crate::error::WeaveError;
use crate::extract::{blocks_spec, extract_blocks, views_of};
use crate::link::object_suffix;
use crate::scan::{scan_spec, ScanSpec};

verus! {

/// The decimal digits of `n`, most significant first.
pub open spec fn dec_str(n: nat) -> Seq<u8>
    decreases n,
{
    if n < 10 {
        seq![(48 + n) as u8]
    } else {
        dec_str(n / 10) + seq![(48 + n % 10) as u8]
    }
}

/// The `.asm.` infix of companion object names.
pub open spec fn asm_infix() -> Seq<u8> {
    seq![46u8, 97u8, 115u8, 109u8, 46u8]
}

/// The deterministic path of the companion object assembled from block
/// number `n` (zero-based) of the source file at `source`:
/// `<source>.asm.<n>.o`.
pub open spec fn companion_path_spec(source: Seq<u8>, n: nat) -> Seq<u8> {
    source + asm_infix() + dec_str(n) + object_suffix()
}

/// Append the decimal digits of `n` to `out`.
fn push_dec(out: &mut Vec<u8>, n: usize)
    ensures
        final(out)@ == old(out)@ + dec_str(n as nat),
    decreases n,
{
    if n < 10 {
        out.push(48 + n as u8);
        proof {
            assert(out@ =~= old(out)@ + dec_str(n as nat));
        }
    } else {
        assert(n / 10 < n) by (nonlinear_arith)
            requires
                n >= 10,
        ;
        push_dec(out, n / 10);
        out.push(48 + (n % 10) as u8);
        proof {
            assert(out@ =~= old(out)@ + dec_str(n as nat));
        }
    }
}

/// The companion object path for block number `index` of `source`.
pub fn companion_path(source: &Vec<u8>, index: usize) -> (r: Vec<u8>)
    ensures
        r@ == companion_path_spec(source@, index as nat),
{
    let mut r = crate::link::clone_bytes(source);
    r.push(46u8);
    r.push(97u8);
    r.push(115u8);
    r.push(109u8);
    r.push(46u8);
    proof {
        assert(r@ =~= source@ + asm_infix());
    }
    push_dec(&mut r, index);
    r.push(46u8);
    r.push(111u8);
    proof {
        assert(r@ =~= companion_path_spec(source@, index as nat));
    }
    r
}

/// The path an archive member counts as: the member's name beside the
/// archive, that is the archive path with everything after its last `/`
/// replaced by the name.
pub open spec fn member_source_spec(archive_path: Seq<u8>, name: Seq<u8>) -> Seq<u8> {
    dir_prefix(archive_path) + name
}

/// Everything up to and including the last `/`, or nothing.
pub open spec fn dir_prefix(p: Seq<u8>) -> Seq<u8>
    decreases p.len(),
{
    if p.len() == 0 {
        Seq::empty()
    } else if p[p.len() - 1] == 47u8 {
        p
    } else {
        dir_prefix(p.drop_last())
    }
}

/// The path an archive member's companions are named after.
pub fn member_source_path(archive_path: &Vec<u8>, name: &Vec<u8>) -> (r: Vec<u8>)
    ensures
        r@ == member_source_spec(archive_path@, name@),
{
    let mut hi: usize = archive_path.len();
    proof {
        assert(archive_path@.take(hi as int) =~= archive_path@);
    }
    while hi > 0 && archive_path[hi - 1] != 47
        invariant
            0 <= hi <= archive_path@.len(),
            dir_prefix(archive_path@) == dir_prefix(archive_path@.take(hi as int)),
        decreases hi,
    {
        proof {
            assert(archive_path@.take(hi as int).drop_last() =~= archive_path@.take(hi - 1));
        }
        hi = hi - 1;
    }
    proof {
        if hi > 0 {
            assert(dir_prefix(archive_path@.take(hi as int)) == archive_path@.take(hi as int));
        } else {
            assert(archive_path@.take(0) =~= Seq::<u8>::empty());
        }
    }
    let mut r = crate::extract::copy_range(archive_path, 0, hi);
    let mut i: usize = 0;
    while i < name.len()
        invariant
            0 <= i <= name@.len(),
            r@ == archive_path@.subrange(0, hi as int) + name@.take(i as int),
        decreases name@.len() - i,
    {
        r.push(name[i]);
        proof {
            assert(r@ =~= archive_path@.subrange(0, hi as int) + name@.take(i + 1));
        }
        i = i + 1;
    }
    proof {
        assert(name@.take(name@.len() as int) =~= name@);
        assert(archive_path@.subrange(0, hi as int) =~= archive_path@.take(hi as int));
    }
    r
}

/// Pushing a vector appends its bytes to the collection's view.
proof fn lemma_views_push(s: Seq<Vec<u8>>, v: Vec<u8>)
    ensures
        views_of(s.push(v)) == views_of(s).push(v@),
{
    assert forall|k: int| 0 <= k < s.len() + 1 implies views_of(s.push(v))[k] == views_of(s).push(
        v@,
    )[k] by {
        if k < s.len() {
            assert(s.push(v)[k] == s[k]);
        } else {
            assert(s.push(v)[k] == v);
        }
    }
    assert(views_of(s.push(v)) =~= views_of(s).push(v@));
}

/// One assembler job: the block text to assemble and the companion object
/// path its output is written to.
pub struct AsmJob {
    pub companion: Vec<u8>,
    pub text: Vec<u8>,
}

/// The jobs one source file's blocks produce, numbered from zero.
pub open spec fn jobs_match(jobs: Seq<AsmJob>, source: Seq<u8>, blocks: Seq<Seq<u8>>) -> bool {
    &&& jobs.len() == blocks.len()
    &&& forall|k: int|
        0 <= k < blocks.len() ==> (#[trigger] jobs[k]).text@ == blocks[k] && jobs[k].companion@
            == companion_path_spec(source, k as nat)
}

/// Scan one object's bytes and produce its assembler jobs: one per
/// assembly block, in order, each named `<source>.asm.<k>.o` with `k` the
/// zero-based occurrence counter within this source. Errors are the
/// scanner's; a source with no sentinel section yields no jobs.
pub fn assemble_jobs(source: &Vec<u8>, object: &Vec<u8>) -> (r: Result<Vec<AsmJob>, WeaveError>)
    ensures
        match scan_spec(object@) {
            ScanSpec::Sections(fs) => r is Ok && jobs_match(r->Ok_0@, source@, blocks_spec(fs)),
            ScanSpec::Unsupported => r == Err::<Vec<AsmJob>, WeaveError>(
                WeaveError::UnsupportedEncoding,
            ),
            ScanSpec::Malformed => r == Err::<Vec<AsmJob>, WeaveError>(
                WeaveError::MalformedContainer,
            ),
        },
{
    let mut blocks = match extract_blocks(object) {
        Ok(v) => v,
        Err(e) => {
            return Err(e);
        },
    };
    let ghost all = views_of(blocks@);
    let total: usize = blocks.len();
    let mut jobs: Vec<AsmJob> = Vec::new();
    let mut idx: usize = 0;
    proof {
        assert(all.len() == total);
        assert(views_of(blocks@) =~= all.skip(0));
    }
    while blocks.len() > 0
        invariant
            0 <= idx <= all.len(),
            all.len() <= usize::MAX,
            jobs@.len() == idx,
            views_of(blocks@) == all.skip(idx as int),
            blocks@.len() == all.len() - idx,
            forall|k: int|
                0 <= k < idx ==> (#[trigger] jobs@[k]).text@ == all[k] && jobs@[k].companion@
                    == companion_path_spec(source@, k as nat),
        decreases blocks@.len(),
    {
        let ghost prev = blocks@;
        let text = blocks.remove(0);
        proof {
            assert(views_of(prev)[0] == text@);
            assert(text@ == all.skip(idx as int)[0]);
            assert forall|k: int| 0 <= k < blocks@.len() implies views_of(blocks@)[k] == all.skip(
                idx + 1,
            )[k] by {
                assert(blocks@[k] == prev[k + 1]);
                assert(views_of(prev)[k + 1] == all.skip(idx as int)[k + 1]);
            }
            assert(views_of(blocks@) =~= all.skip(idx + 1));
        }
        let companion = companion_path(source, idx);
        jobs.push(AsmJob { companion, text });
        idx = idx + 1;
    }
    proof {
        assert(jobs_match(jobs@, source@, all));
    }
    Ok(jobs)
}

/// The companion-path and block-text pairs one source's blocks produce.
pub open spec fn pairs_for(source: Seq<u8>, blocks: Seq<Seq<u8>>) -> Seq<(Seq<u8>, Seq<u8>)> {
    Seq::new(blocks.len(), |k: int| (companion_path_spec(source, k as nat), blocks[k]))
}

/// The jobs of a whole archive: every member scanned in archive order, each
/// member's blocks numbered from zero against its own derived path. The
/// first scan failure is the archive's.
pub open spec fn archive_jobs_spec(path: Seq<u8>, ms: Seq<ArMember>) -> Result<
    Seq<(Seq<u8>, Seq<u8>)>,
    WeaveError,
>
    decreases ms.len(),
{
    if ms.len() == 0 {
        Ok(Seq::empty())
    } else {
        match scan_spec(ms[0].data) {
            ScanSpec::Sections(fs) => match archive_jobs_spec(path, ms.skip(1)) {
                Ok(rest) => Ok(
                    pairs_for(member_source_spec(path, ms[0].name), blocks_spec(fs)) + rest,
                ),
                Err(e) => Err(e),
            },
            ScanSpec::Unsupported => Err(WeaveError::UnsupportedEncoding),
            ScanSpec::Malformed => Err(WeaveError::MalformedContainer),
        }
    }
}

/// Jobs describe companion-path and block-text pairs one to one.
pub open spec fn jobs_pairs_match(jobs: Seq<AsmJob>, pairs: Seq<(Seq<u8>, Seq<u8>)>) -> bool {
    &&& jobs.len() == pairs.len()
    &&& forall|k: int|
        0 <= k < pairs.len() ==> (#[trigger] jobs[k]).companion@ == pairs[k].0 && jobs[k].text@
            == pairs[k].1
}

/// Scan every member of a static archive and produce the assembler jobs of
/// all of them, in archive order. A malformed archive, and the first
/// member whose scan fails, are fatal.
pub fn archive_jobs(archive_path: &Vec<u8>, archive: &Vec<u8>) -> (r: Result<
    Vec<AsmJob>,
    WeaveError,
>)
    ensures
        match crate::archive::archive_members(archive@) {
            None => r == Err::<Vec<AsmJob>, WeaveError>(WeaveError::MalformedArchive),
            Some(ms) => match archive_jobs_spec(archive_path@, ms) {
                Ok(pairs) => r is Ok && jobs_pairs_match(r->Ok_0@, pairs),
                Err(e) => r == Err::<Vec<AsmJob>, WeaveError>(e),
            },
        },
{
    let members = match crate::archive::resolve_archive(archive) {
        Ok(v) => v,
        Err(e) => {
            return Err(e);
        },
    };
    let ghost ms = crate::archive::archive_members(archive@)->Some_0;
    let mut out: Vec<AsmJob> = Vec::new();
    let ghost mut pairs_done: Seq<(Seq<u8>, Seq<u8>)> = Seq::empty();
    let mut i: usize = 0;
    proof {
        assert(ms.skip(0) =~= ms);
        if archive_jobs_spec(archive_path@, ms) is Ok {
            assert(pairs_done + archive_jobs_spec(archive_path@, ms)->Ok_0 =~= archive_jobs_spec(
                archive_path@,
                ms,
            )->Ok_0);
        }
    }
    while i < members.len()
        invariant
            0 <= i <= members@.len(),
            crate::archive::archive_members(archive@) == Some(ms),
            members@.len() == ms.len(),
            crate::archive::members_match(members@, ms, archive@),
            out@.len() == pairs_done.len(),
            jobs_pairs_match(out@, pairs_done),
            archive_jobs_spec(archive_path@, ms) == (match archive_jobs_spec(
                archive_path@,
                ms.skip(i as int),
            ) {
                Ok(rest) => Ok::<Seq<(Seq<u8>, Seq<u8>)>, WeaveError>(pairs_done + rest),
                Err(e) => Err(e),
            }),
        decreases members@.len() - i,
    {
        let ghost m = ms[i as int];
        proof {
            assert(ms.skip(i as int)[0] == m);
            assert(ms.skip(i as int).skip(1) =~= ms.skip(i + 1));
        }
        let mref = &members[i];
        let bytes = crate::extract::copy_range(archive, mref.lo, mref.hi);
        let source = member_source_path(archive_path, &mref.name);
        let mut jobs = match assemble_jobs(&source, &bytes) {
            Ok(v) => v,
            Err(e) => {
                proof {
                    assert(archive_jobs_spec(archive_path@, ms.skip(i as int)) == Err::<
                        Seq<(Seq<u8>, Seq<u8>)>,
                        WeaveError,
                    >(e));
                }
                return Err(e);
            },
        };
        let ghost fs = scan_spec(m.data)->Sections_0;
        let ghost new_pairs = pairs_for(member_source_spec(archive_path@, m.name), blocks_spec(fs));
        let ghost old_out = out@;
        let ghost old_jobs = jobs@;
        let ghost old_pairs = pairs_done;
        proof {
            assert(jobs_pairs_match(jobs@, new_pairs));
        }
        out.append(&mut jobs);
        proof {
            pairs_done = pairs_done + new_pairs;
            assert forall|k: int|
                0 <= k < pairs_done.len() implies (#[trigger] out@[k]).companion@ == pairs_done[k].0
                && out@[k].text@ == pairs_done[k].1 by {
                if k < old_out.len() {
                    assert(out@[k] == old_out[k]);
                } else {
                    assert(out@[k] == old_jobs[k - old_out.len()]);
                    assert(pairs_done[k] == new_pairs[k - old_out.len()]);
                }
            }
            if archive_jobs_spec(archive_path@, ms.skip(i + 1)) is Ok {
                let rest = archive_jobs_spec(archive_path@, ms.skip(i + 1))->Ok_0;
                assert(old_pairs + (new_pairs + rest) =~= pairs_done + rest);
            }
        }
        i = i + 1;
    }
    proof {
        assert(ms.skip(i as int) =~= Seq::<ArMember>::empty());
        assert(pairs_done + Seq::<(Seq<u8>, Seq<u8>)>::empty() =~= pairs_done);
    }
    Ok(out)
}

/// The argument vector for the underlying linker: the original arguments
/// minus the program name, with every companion object path appended.
pub fn linker_invocation(args: &Vec<Vec<u8>>, companions: &Vec<Vec<u8>>) -> (r: Vec<Vec<u8>>)
    requires
        args@.len() >= 1,
    ensures
        views_of(r@) == views_of(args@).skip(1) + views_of(companions@),
{
    let mut r: Vec<Vec<u8>> = Vec::new();
    let mut i: usize = 1;
    while i < args.len()
        invariant
            1 <= i <= args@.len(),
            r@.len() == i - 1,
            views_of(r@) == views_of(args@).subrange(1, i as int),
        decreases args@.len() - i,
    {
        let c = crate::link::clone_bytes(&args[i]);
        let ghost prev = r@;
        let ghost cv = c@;
        r.push(c);
        proof {
            assert forall|k: int| 0 <= k < r@.len() implies views_of(r@)[k] == views_of(
                args@,
            ).subrange(1, i + 1)[k] by {
                if k < prev.len() {
                    assert(r@[k] == prev[k]);
                    assert(views_of(prev)[k] == views_of(args@).subrange(1, i as int)[k]);
                } else {
                    assert(r@[k]@ == cv);
                }
            }
            assert(views_of(r@) =~= views_of(args@).subrange(1, i + 1));
        }
        i = i + 1;
    }
    let mut j: usize = 0;
    while j < companions.len()
        invariant
            0 <= j <= companions@.len(),
            r@.len() == args@.len() - 1 + j,
            views_of(r@) == views_of(args@).skip(1) + views_of(companions@).take(j as int),
        decreases companions@.len() - j,
    {
        let c = crate::link::clone_bytes(&companions[j]);
        let ghost prev = r@;
        let ghost cv = c@;
        r.push(c);
        proof {
            lemma_views_push(prev, r@[prev.len() as int]);
            assert(r@ == prev.push(r@[prev.len() as int]));
            assert(cv == views_of(companions@)[j as int]);
            assert(views_of(companions@).take(j as int).push(cv) =~= views_of(companions@).take(
                j + 1,
            ));
            assert((views_of(args@).skip(1) + views_of(companions@).take(j as int)).push(cv) =~= (
            views_of(args@).skip(1) + views_of(companions@).take(j + 1)));
        }
        j = j + 1;
    }
    proof {
        assert(views_of(companions@).take(companions@.len() as int) =~= views_of(companions@));
    }
    r
}

/// `-arch=` as bytes.
pub open spec fn arch_option_prefix() -> Seq<u8> {
    seq![45u8, 97u8, 114u8, 99u8, 104u8, 61u8]
}

/// `-mattr=+reference-types,+call-indirect-overlong` as bytes: the fixed
/// feature set every assembler invocation enables.
pub open spec fn feature_option() -> Seq<u8> {
    seq![
        45u8, 109u8, 97u8, 116u8, 116u8, 114u8, 61u8, 43u8, 114u8, 101u8, 102u8, 101u8, 114u8,
        101u8, 110u8, 99u8, 101u8, 45u8, 116u8, 121u8, 112u8, 101u8, 115u8, 44u8, 43u8, 99u8,
        97u8, 108u8, 108u8, 45u8, 105u8, 110u8, 100u8, 105u8, 114u8, 101u8, 99u8, 116u8, 45u8,
        111u8, 118u8, 101u8, 114u8, 108u8, 111u8, 110u8, 103u8,
    ]
}

/// `-filetype=obj` as bytes.
pub open spec fn filetype_option() -> Seq<u8> {
    seq![45u8, 102u8, 105u8, 108u8, 101u8, 116u8, 121u8, 112u8, 101u8, 61u8, 111u8, 98u8, 106u8]
}

/// The three assembler arguments for a target architecture: the
/// architecture selector, the fixed feature set, and object output.
pub fn assembler_args(arch: &Vec<u8>) -> (r: Vec<Vec<u8>>)
    ensures
        views_of(r@) == seq![
            arch_option_prefix() + arch@,
            feature_option(),
            filetype_option(),
        ],
{
    let mut first: Vec<u8> = vec![45u8, 97u8, 114u8, 99u8, 104u8, 61u8];
    proof {
        assert(first@ =~= arch_option_prefix());
    }
    let mut i: usize = 0;
    while i < arch.len()
        invariant
            0 <= i <= arch@.len(),
            first@ == arch_option_prefix() + arch@.take(i as int),
        decreases arch@.len() - i,
    {
        first.push(arch[i]);
        proof {
            assert(first@ =~= arch_option_prefix() + arch@.take(i + 1));
        }
        i = i + 1;
    }
    proof {
        assert(arch@.take(arch@.len() as int) =~= arch@);
    }
    let second: Vec<u8> = vec![
        45u8, 109u8, 97u8, 116u8, 116u8, 114u8, 61u8, 43u8, 114u8, 101u8, 102u8, 101u8, 114u8,
        101u8, 110u8, 99u8, 101u8, 45u8, 116u8, 121u8, 112u8, 101u8, 115u8, 44u8, 43u8, 99u8,
        97u8, 108u8, 108u8, 45u8, 105u8, 110u8, 100u8, 105u8, 114u8, 101u8, 99u8, 116u8, 45u8,
        111u8, 118u8, 101u8, 114u8, 108u8, 111u8, 110u8, 103u8,
    ];
    let third: Vec<u8> = vec![
        45u8, 102u8, 105u8, 108u8, 101u8, 116u8, 121u8, 112u8, 101u8, 61u8, 111u8, 98u8, 106u8,
    ];
    proof {
        assert(second@ =~= feature_option());
        assert(third@ =~= filetype_option());
    }
    let r: Vec<Vec<u8>> = vec![first, second, third];
    proof {
        assert(views_of(r@) =~= seq![
            arch_option_prefix() + arch@,
            feature_option(),
            filetype_option(),
        ]);
    }
    r
}

/// `------ llvm-mc stdout ------` as bytes.
pub open spec fn stdout_label() -> Seq<u8> {
    seq![
        45u8, 45u8, 45u8, 45u8, 45u8, 45u8, 32u8, 108u8, 108u8, 118u8, 109u8, 45u8, 109u8, 99u8,
        32u8, 115u8, 116u8, 100u8, 111u8, 117u8, 116u8, 32u8, 45u8, 45u8, 45u8, 45u8, 45u8, 45u8,
    ]
}

/// `------ llvm-mc stderr ------` as bytes.
pub open spec fn stderr_label() -> Seq<u8> {
    seq![
        45u8, 45u8, 45u8, 45u8, 45u8, 45u8, 32u8, 108u8, 108u8, 118u8, 109u8, 45u8, 109u8, 99u8,
        32u8, 115u8, 116u8, 100u8, 101u8, 114u8, 114u8, 32u8, 45u8, 45u8, 45u8, 45u8, 45u8, 45u8,
    ]
}

/// One labeled capture: nothing when the capture is empty; otherwise the
/// label line, the capture verbatim, a closing newline, and one more blank
/// line unless the capture already ended in a newline.
pub open spec fn capture_note(label: Seq<u8>, capture: Seq<u8>) -> Seq<u8> {
    if capture.len() == 0 {
        Seq::empty()
    } else {
        label + seq![10u8] + capture + seq![10u8] + if capture.last() == 10u8 {
            Seq::<u8>::empty()
        } else {
            seq![10u8]
        }
    }
}

/// The diagnostics printed when the assembler fails: its standard output,
/// then its standard error, each non-empty capture under its label.
pub open spec fn failure_note_spec(stdout: Seq<u8>, stderr: Seq<u8>) -> Seq<u8> {
    capture_note(stdout_label(), stdout) + capture_note(stderr_label(), stderr)
}

/// Append one labeled capture to `out`.
fn push_capture(out: &mut Vec<u8>, label: &Vec<u8>, capture: &Vec<u8>)
    ensures
        final(out)@ == old(out)@ + capture_note(label@, capture@),
{
    if capture.len() == 0 {
        proof {
            assert(out@ =~= old(out)@ + capture_note(label@, capture@));
        }
        return ;
    }
    let mut i: usize = 0;
    while i < label.len()
        invariant
            0 <= i <= label@.len(),
            out@ == old(out)@ + label@.take(i as int),
        decreases label@.len() - i,
    {
        out.push(label[i]);
        proof {
            assert(out@ =~= old(out)@ + label@.take(i + 1));
        }
        i = i + 1;
    }
    out.push(10u8);
    let mut j: usize = 0;
    proof {
        assert(label@.take(label@.len() as int) =~= label@);
    }
    while j < capture.len()
        invariant
            0 <= j <= capture@.len(),
            out@ == old(out)@ + label@ + seq![10u8] + capture@.take(j as int),
        decreases capture@.len() - j,
    {
        out.push(capture[j]);
        proof {
            assert(out@ =~= old(out)@ + label@ + seq![10u8] + capture@.take(j + 1));
        }
        j = j + 1;
    }
    out.push(10u8);
    proof {
        assert(capture@.take(capture@.len() as int) =~= capture@);
    }
    if capture[capture.len() - 1] != 10 {
        out.push(10u8);
        proof {
            assert(out@ =~= old(out)@ + capture_note(label@, capture@));
        }
    } else {
        proof {
            assert(out@ =~= old(out)@ + capture_note(label@, capture@));
        }
    }
}

/// The `------ llvm-mc stdout ------` label as a byte vector.
fn stdout_label_vec() -> (r: Vec<u8>)
    ensures
        r@ == stdout_label(),
{
    let r: Vec<u8> = vec![
        45u8, 45u8, 45u8, 45u8, 45u8, 45u8, 32u8, 108u8, 108u8, 118u8, 109u8, 45u8, 109u8, 99u8,
        32u8, 115u8, 116u8, 100u8, 111u8, 117u8, 116u8, 32u8, 45u8, 45u8, 45u8, 45u8, 45u8, 45u8,
    ];
    proof {
        assert(r@ =~= stdout_label());
    }
    r
}

/// The `------ llvm-mc stderr ------` label as a byte vector.
fn stderr_label_vec() -> (r: Vec<u8>)
    ensures
        r@ == stderr_label(),
{
    let r: Vec<u8> = vec![
        45u8, 45u8, 45u8, 45u8, 45u8, 45u8, 32u8, 108u8, 108u8, 118u8, 109u8, 45u8, 109u8, 99u8,
        32u8, 115u8, 116u8, 100u8, 101u8, 114u8, 114u8, 32u8, 45u8, 45u8, 45u8, 45u8, 45u8, 45u8,
    ];
    proof {
        assert(r@ =~= stderr_label());
    }
    r
}

/// The diagnostics for a failed assembler run, ready to write to the
/// standard error stream: every non-empty capture verbatim under its label,
/// trailing newline normalized. An assembler failure is fatal and never
/// retried.
pub fn assembler_failure_note(stdout: &Vec<u8>, stderr: &Vec<u8>) -> (r: Vec<u8>)
    ensures
        r@ == failure_note_spec(stdout@, stderr@),
{
    let mut r: Vec<u8> = Vec::new();
    let out_label = stdout_label_vec();
    let err_label = stderr_label_vec();
    proof {
        assert(r@ =~= Seq::<u8>::empty());
    }
    push_capture(&mut r, &out_label, stdout);
    push_capture(&mut r, &err_label, stderr);
    proof {
        assert(Seq::<u8>::empty() + capture_note(stdout_label(), stdout@) =~= capture_note(
            stdout_label(),
            stdout@,
        ));
    }
    r
}

/// `` `llvm-mc` process failed with status: `` as bytes.
pub open spec fn failed_status_prefix() -> Seq<u8> {
    seq![
        96u8, 108u8, 108u8, 118u8, 109u8, 45u8, 109u8, 99u8, 96u8, 32u8, 112u8, 114u8, 111u8,
        99u8, 101u8, 115u8, 115u8, 32u8, 102u8, 97u8, 105u8, 108u8, 101u8, 100u8, 32u8, 119u8,
        105u8, 116u8, 104u8, 32u8, 115u8, 116u8, 97u8, 116u8, 117u8, 115u8, 58u8, 32u8,
    ]
}

/// The error message carried by an assembler failure, given the rendered
/// exit status: the fixed prefix, the status text, and a newline.
pub open spec fn failed_message_spec(status: Seq<u8>) -> Seq<u8> {
    failed_status_prefix() + status + seq![10u8]
}

/// Build the assembler failure message around a rendered exit status.
pub fn assembly_failed_message(status: &Vec<u8>) -> (r: Vec<u8>)
    ensures
        r@ == failed_message_spec(status@),
{
    let mut r: Vec<u8> = vec![
        96u8, 108u8, 108u8, 118u8, 109u8, 45u8, 109u8, 99u8, 96u8, 32u8, 112u8, 114u8, 111u8,
        99u8, 101u8, 115u8, 115u8, 32u8, 102u8, 97u8, 105u8, 108u8, 101u8, 100u8, 32u8, 119u8,
        105u8, 116u8, 104u8, 32u8, 115u8, 116u8, 97u8, 116u8, 117u8, 115u8, 58u8, 32u8,
    ];
    proof {
        assert(r@ =~= failed_status_prefix());
    }
    let mut i: usize = 0;
    while i < status.len()
        invariant
            0 <= i <= status@.len(),
            r@ == failed_status_prefix() + status@.take(i as int),
        decreases status@.len() - i,
    {
        r.push(status[i]);
        proof {
            assert(r@ =~= failed_status_prefix() + status@.take(i + 1));
        }
        i = i + 1;
    }
    r.push(10u8);
    proof {
        assert(status@.take(status@.len() as int) =~= status@);
        assert(r@ =~= failed_message_spec(status@));
    }
    r
}

} // verus!
