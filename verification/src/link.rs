//! The link orchestrator's decisions, as pure functions over the argument
//! vector and over object bytes.
//!
//! A run is a drop-in replacement for a linker invocation: the argument
//! vector is scanned for the target architecture (`-m<arch>`, defaulting to
//! `wasm32`) and the output path (the argument after `-o`, required);
//! positional arguments naming archives or objects are scanned for embedded
//! assembly blocks; each block becomes one assembler job with a
//! deterministic companion object path; and the underlying linker is handed
//! the original arguments plus every companion path. The process and file
//! work itself — reading inputs, spawning the assembler and the linker,
//! writing companions — stays outside the library, which only decides what
//! to run and what to write.
//!
//! Arguments are byte strings, exactly as the operating system hands them
//! over; flag recognition is purely structural.

use vstd::prelude::*;

use crate::error::WeaveError;
use crate::extract::{copy_range, views_of};

verus! {

/// How one positional argument is processed.
#[derive(Clone, Copy, Debug, PartialEq, Eq, Structural)]
pub enum InputKind {
    /// A static archive; every member is scanned.
    Archive,
    /// A standalone object; scanned directly.
    Object,
}

/// One positional argument the run will scan.
pub struct LinkInput {
    pub path: Vec<u8>,
    pub kind: InputKind,
}

/// What the argument vector determines: the target architecture, the output
/// path to normalize after a successful link, and the inputs to scan.
pub struct LinkPlan {
    pub arch: Vec<u8>,
    pub output: Vec<u8>,
    pub inputs: Vec<LinkInput>,
}

/// `a` ends in `suffix`.
pub open spec fn ends_with(a: Seq<u8>, suffix: Seq<u8>) -> bool {
    a.len() >= suffix.len() && a.skip(a.len() - suffix.len()) == suffix
}

/// The default target architecture, `wasm32`.
pub open spec fn default_arch() -> Seq<u8> {
    seq![119u8, 97u8, 115u8, 109u8, 51u8, 50u8]
}

/// The `-o` flag.
pub open spec fn output_flag() -> Seq<u8> {
    seq![45u8, 111u8]
}

/// The `.rlib` suffix marking a static archive.
pub open spec fn archive_suffix() -> Seq<u8> {
    seq![46u8, 114u8, 108u8, 105u8, 98u8]
}

/// The `.o` suffix marking a standalone object.
pub open spec fn object_suffix() -> Seq<u8> {
    seq![46u8, 111u8]
}

/// An architecture selector: `-m<arch>` with nothing or anything but an
/// `=` right after the `m`.
pub open spec fn is_arch_flag(a: Seq<u8>) -> bool {
    a.len() >= 2 && a[0] == 45u8 && a[1] == 109u8 && !(a.len() >= 3 && a[2] == 61u8)
}

/// The target architecture an argument vector selects: what follows `-m` in
/// the first architecture selector, or the default.
pub open spec fn arch_of(args: Seq<Seq<u8>>) -> Seq<u8>
    decreases args.len(),
{
    if args.len() == 0 {
        default_arch()
    } else if is_arch_flag(args[0]) {
        args[0].skip(2)
    } else {
        arch_of(args.skip(1))
    }
}

/// The output path: the argument right after the first literal `-o`, and
/// none when `-o` is absent or stands last.
pub open spec fn output_of(args: Seq<Seq<u8>>) -> Option<Seq<u8>>
    decreases args.len(),
{
    if args.len() == 0 {
        None
    } else if args[0] == output_flag() {
        if args.len() >= 2 {
            Some(args[1])
        } else {
            None
        }
    } else {
        output_of(args.skip(1))
    }
}

/// How one argument is treated: flags are skipped, `.rlib` names an
/// archive, `.o` a standalone object, anything else is ignored.
pub open spec fn input_kind_of(a: Seq<u8>) -> Option<InputKind> {
    if a.len() >= 1 && a[0] == 45u8 {
        None
    } else if ends_with(a, archive_suffix()) {
        Some(InputKind::Archive)
    } else if ends_with(a, object_suffix()) {
        Some(InputKind::Object)
    } else {
        None
    }
}

/// The inputs an argument vector names, in order.
pub open spec fn inputs_of(args: Seq<Seq<u8>>) -> Seq<(Seq<u8>, InputKind)>
    decreases args.len(),
{
    if args.len() == 0 {
        Seq::empty()
    } else {
        match input_kind_of(args[0]) {
            None => inputs_of(args.skip(1)),
            Some(k) => seq![(args[0], k)] + inputs_of(args.skip(1)),
        }
    }
}

/// The paths and kinds a vector of inputs holds.
pub open spec fn inputs_view(s: Seq<LinkInput>) -> Seq<(Seq<u8>, InputKind)> {
    s.map_values(|i: LinkInput| (i.path@, i.kind))
}

/// Copy a whole byte vector.
pub fn clone_bytes(v: &Vec<u8>) -> (r: Vec<u8>)
    ensures
        r@ == v@,
{
    let r = copy_range(v, 0, v.len());
    proof {
        assert(v@.subrange(0, v@.len() as int) =~= v@);
    }
    r
}

/// `a` ends in `suffix`, executably.
fn ends_with_bytes(a: &Vec<u8>, suffix: &Vec<u8>) -> (r: bool)
    ensures
        r == ends_with(a@, suffix@),
{
    if a.len() < suffix.len() {
        return false;
    }
    let r = crate::extract::bytes_eq_range(a, a.len() - suffix.len(), a.len(), suffix);
    proof {
        assert(a@.subrange(a@.len() - suffix@.len(), a@.len() as int) =~= a@.skip(
            a@.len() - suffix@.len(),
        ));
    }
    r
}

/// The default architecture as a byte vector.
fn default_arch_vec() -> (r: Vec<u8>)
    ensures
        r@ == default_arch(),
{
    let r: Vec<u8> = vec![119u8, 97u8, 115u8, 109u8, 51u8, 50u8];
    proof {
        assert(r@ =~= default_arch());
    }
    r
}

/// Find the target architecture in an argument vector.
fn find_arch(args: &Vec<Vec<u8>>) -> (r: Vec<u8>)
    ensures
        r@ == arch_of(views_of(args@)),
{
    let ghost v = views_of(args@);
    let mut i: usize = 0;
    proof {
        assert(v.skip(0) =~= v);
    }
    while i < args.len()
        invariant
            0 <= i <= args@.len(),
            v == views_of(args@),
            arch_of(v) == arch_of(v.skip(i as int)),
        decreases args@.len() - i,
    {
        let a = &args[i];
        proof {
            assert(v.skip(i as int)[0] == a@);
            assert(v.skip(i as int).skip(1) =~= v.skip(i + 1));
        }
        if a.len() >= 2 && a[0] == 45 && a[1] == 109 && !(a.len() >= 3 && a[2] == 61) {
            proof {
                assert(is_arch_flag(a@));
            }
            let r = copy_range(a, 2, a.len());
            proof {
                assert(a@.subrange(2, a@.len() as int) =~= a@.skip(2));
            }
            return r;
        }
        proof {
            assert(!is_arch_flag(a@));
        }
        i = i + 1;
    }
    proof {
        assert(v.skip(i as int) =~= Seq::<Seq<u8>>::empty());
    }
    default_arch_vec()
}

/// Find the output path in an argument vector; its absence is the fatal
/// configuration error `MissingOutputPath`.
fn find_output(args: &Vec<Vec<u8>>) -> (r: Result<Vec<u8>, WeaveError>)
    ensures
        match output_of(views_of(args@)) {
            None => r == Err::<Vec<u8>, WeaveError>(WeaveError::MissingOutputPath),
            Some(o) => r is Ok && r->Ok_0@ == o,
        },
{
    let ghost v = views_of(args@);
    let mut i: usize = 0;
    proof {
        assert(v.skip(0) =~= v);
    }
    while i < args.len()
        invariant
            0 <= i <= args@.len(),
            v == views_of(args@),
            output_of(v) == output_of(v.skip(i as int)),
        decreases args@.len() - i,
    {
        let a = &args[i];
        proof {
            assert(v.skip(i as int)[0] == a@);
            assert(v.skip(i as int).skip(1) =~= v.skip(i + 1));
        }
        if a.len() == 2 && a[0] == 45 && a[1] == 111 {
            proof {
                assert(a@ =~= output_flag());
            }
            if i + 1 < args.len() {
                proof {
                    assert(v.skip(i as int)[1] == v[i + 1]);
                }
                return Ok(clone_bytes(&args[i + 1]));
            } else {
                proof {
                    assert(v.skip(i as int).len() < 2);
                }
                return Err(WeaveError::MissingOutputPath);
            }
        }
        proof {
            assert(a@ != output_flag());
        }
        i = i + 1;
    }
    proof {
        assert(v.skip(i as int) =~= Seq::<Seq<u8>>::empty());
    }
    Err(WeaveError::MissingOutputPath)
}

/// Collect the inputs an argument vector names, in order.
fn find_inputs(args: &Vec<Vec<u8>>) -> (r: Vec<LinkInput>)
    ensures
        inputs_view(r@) == inputs_of(views_of(args@)),
{
    let ghost v = views_of(args@);
    let rlib = archive_suffix_vec();
    let obj = object_suffix_vec();
    let mut out: Vec<LinkInput> = Vec::new();
    let mut i: usize = 0;
    proof {
        assert(v.skip(0) =~= v);
        assert(inputs_view(out@) =~= Seq::<(Seq<u8>, InputKind)>::empty());
        assert(Seq::<(Seq<u8>, InputKind)>::empty() + inputs_of(v) =~= inputs_of(v));
    }
    while i < args.len()
        invariant
            0 <= i <= args@.len(),
            v == views_of(args@),
            rlib@ == archive_suffix(),
            obj@ == object_suffix(),
            inputs_of(v) == inputs_view(out@) + inputs_of(v.skip(i as int)),
        decreases args@.len() - i,
    {
        let a = &args[i];
        proof {
            assert(v.skip(i as int)[0] == a@);
            assert(v.skip(i as int).skip(1) =~= v.skip(i + 1));
        }
        let is_flag = a.len() >= 1 && a[0] == 45;
        if !is_flag && ends_with_bytes(a, &rlib) {
            push_input(&mut out, a, InputKind::Archive, Ghost(v), Ghost(i as int));
        } else if !is_flag && ends_with_bytes(a, &obj) {
            push_input(&mut out, a, InputKind::Object, Ghost(v), Ghost(i as int));
        } else {
            proof {
                assert(input_kind_of(a@) is None);
            }
        }
        i = i + 1;
    }
    proof {
        assert(v.skip(i as int) =~= Seq::<Seq<u8>>::empty());
        assert(inputs_view(out@) + Seq::<(Seq<u8>, InputKind)>::empty() =~= inputs_view(out@));
    }
    out
}

/// Append one recognized input, keeping the collection invariant.
fn push_input(
    out: &mut Vec<LinkInput>,
    a: &Vec<u8>,
    kind: InputKind,
    Ghost(v): Ghost<Seq<Seq<u8>>>,
    Ghost(i): Ghost<int>,
)
    requires
        0 <= i < v.len(),
        v[i] == a@,
        input_kind_of(a@) == Some(kind),
        inputs_of(v) == inputs_view(old(out)@) + inputs_of(v.skip(i)),
    ensures
        inputs_of(v) == inputs_view(final(out)@) + inputs_of(v.skip(i + 1)),
{
    proof {
        assert(v.skip(i)[0] == a@);
        assert(v.skip(i).skip(1) =~= v.skip(i + 1));
    }
    let path = clone_bytes(a);
    out.push(LinkInput { path, kind });
    proof {
        assert(inputs_view(out@) =~= inputs_view(old(out)@).push((a@, kind)));
        assert(inputs_view(old(out)@) + (seq![(a@, kind)] + inputs_of(v.skip(i + 1))) =~= (
        inputs_view(old(out)@).push((a@, kind))) + inputs_of(v.skip(i + 1)));
    }
}

/// The `.rlib` suffix as a byte vector.
fn archive_suffix_vec() -> (r: Vec<u8>)
    ensures
        r@ == archive_suffix(),
{
    let r: Vec<u8> = vec![46u8, 114u8, 108u8, 105u8, 98u8];
    proof {
        assert(r@ =~= archive_suffix());
    }
    r
}

/// The `.o` suffix as a byte vector.
fn object_suffix_vec() -> (r: Vec<u8>)
    ensures
        r@ == object_suffix(),
{
    let r: Vec<u8> = vec![46u8, 111u8];
    proof {
        assert(r@ =~= object_suffix());
    }
    r
}

/// Parse a full link argument vector (program name included) into a plan:
/// the architecture the first `-m` flag selects (default `wasm32`), the
/// output path after the first `-o` (absence is fatal), and every
/// positional argument naming an archive or an object, in order.
pub fn plan_link(args: &Vec<Vec<u8>>) -> (r: Result<LinkPlan, WeaveError>)
    ensures
        match output_of(views_of(args@)) {
            None => r == Err::<LinkPlan, WeaveError>(WeaveError::MissingOutputPath),
            Some(o) => r is Ok && r->Ok_0.arch@ == arch_of(views_of(args@)) && r->Ok_0.output@ == o
                && inputs_view(r->Ok_0.inputs@) == inputs_of(views_of(args@)),
        },
{
    let output = match find_output(args) {
        Ok(o) => o,
        Err(e) => {
            return Err(e);
        },
    };
    let arch = find_arch(args);
    let inputs = find_inputs(args);
    Ok(LinkPlan { arch, output, inputs })
}

} // verus!
