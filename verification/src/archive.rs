//! The archive resolver: one pass over a static archive, yielding each
//! member's name and raw bytes in archive order.
//!
//! The dialect is the one linkers produce for static libraries: the global
//! magic `!<arch>\n`, then members, each under a 60-byte header whose name
//! field is space-padded, whose size field is decimal digits then spaces,
//! and whose last two bytes are `` ` `` and a newline. Member data is padded
//! to even offsets. A symbol table member (named `/` or `/SYM64/`) carries
//! no payload member and is skipped; a name table member (named `//`)
//! provides the long names that later members reference as `/<offset>`;
//! short names end in `/` or are space-padded. Malformed framing is fatal:
//! no partial member list is produced.

use vstd::prelude::*;

use crate::error::WeaveError;
use crate::extract::copy_range;

verus! {

/// A decimal digit.
pub open spec fn is_digit(b: u8) -> bool {
    48 <= b <= 57
}

/// Powers of ten.
pub open spec fn pow10(k: nat) -> nat
    decreases k,
{
    if k == 0 {
        1
    } else {
        10 * pow10((k - 1) as nat)
    }
}

/// The value of a digit run, most significant first; non-digits count as
/// zero.
pub open spec fn dec_value(t: Seq<u8>) -> nat
    decreases t.len(),
{
    if t.len() == 0 {
        0
    } else {
        dec_value(t.drop_last()) * 10 + (if is_digit(t.last()) {
            (t.last() - 48) as nat
        } else {
            0
        })
    }
}

/// How many leading bytes of `t` are digits.
pub open spec fn digits_prefix_len(t: Seq<u8>) -> int
    decreases t.len(),
{
    if t.len() == 0 || !is_digit(t[0]) {
        0
    } else {
        1 + digits_prefix_len(t.skip(1))
    }
}

/// A header field: a digit run, then only spaces.
pub open spec fn dec_field_value(t: Seq<u8>) -> Option<nat> {
    let k = digits_prefix_len(t);
    if k == 0 || !all_spaces(t.skip(k)) {
        None
    } else {
        Some(dec_value(t.take(k)))
    }
}

/// Every byte is a space.
pub open spec fn all_spaces(t: Seq<u8>) -> bool {
    forall|j: int| 0 <= j < t.len() ==> t[j] == 32u8
}

/// A name field with its space padding dropped.
pub open spec fn trim_spaces(t: Seq<u8>) -> Seq<u8>
    decreases t.len(),
{
    if t.len() == 0 {
        t
    } else if t.last() == 32u8 {
        trim_spaces(t.drop_last())
    } else {
        t
    }
}

/// `pow10` grows with its exponent.
proof fn lemma_pow10_mono(a: nat, b: nat)
    requires
        a <= b,
    ensures
        pow10(a) <= pow10(b),
    decreases b,
{
    if a < b {
        lemma_pow10_mono(a, (b - 1) as nat);
        assert(pow10(b) == 10 * pow10((b - 1) as nat));
        assert(pow10((b - 1) as nat) <= 10 * pow10((b - 1) as nat)) by (nonlinear_arith)
            requires
                pow10((b - 1) as nat) >= 0,
        ;
    }
}

/// A digit run's value stays under ten to its length.
proof fn lemma_dec_value_bound(t: Seq<u8>)
    ensures
        dec_value(t) < pow10(t.len()),
    decreases t.len(),
{
    if t.len() > 0 {
        lemma_dec_value_bound(t.drop_last());
        assert(pow10(t.len()) == 10 * pow10((t.len() - 1) as nat));
        assert(dec_value(t.drop_last()) * 10 <= (pow10((t.len() - 1) as nat) - 1) * 10)
            by (nonlinear_arith)
            requires
                dec_value(t.drop_last()) <= pow10((t.len() - 1) as nat) - 1,
        ;
    }
}

/// Sixteen digits stay under two to the sixty-fourth.
proof fn lemma_pow10_16()
    ensures
        pow10(16) == 0x2386f26fc10000,
{
    reveal_with_fuel(pow10, 17);
}

/// The digit prefix is what a front-to-back scan finds.
proof fn lemma_digits_prefix(t: Seq<u8>, k: int)
    requires
        0 <= k <= t.len(),
        forall|j: int| 0 <= j < k ==> is_digit(#[trigger] t[j]),
        k == t.len() || !is_digit(t[k]),
    ensures
        digits_prefix_len(t) == k,
    decreases t.len(),
{
    if t.len() > 0 && is_digit(t[0]) {
        assert(k >= 1) by {
            assert(!(k == 0) || !is_digit(t[0]));
        }
        assert forall|j: int| 0 <= j < k - 1 implies is_digit(#[trigger] t.skip(1)[j]) by {
            assert(t.skip(1)[j] == t[j + 1]);
        }
        if k - 1 < t.skip(1).len() {
            assert(t.skip(1)[k - 1] == t[k]);
        }
        lemma_digits_prefix(t.skip(1), k - 1);
    }
}

/// Unfolding `dec_value` one digit at a time from the front.
proof fn lemma_dec_value_step(t: Seq<u8>, i: int)
    requires
        0 <= i < t.len(),
    ensures
        dec_value(t.take(i + 1)) == dec_value(t.take(i)) * 10 + (if is_digit(t[i]) {
            (t[i] - 48) as nat
        } else {
            0
        }),
{
    assert(t.take(i + 1).drop_last() =~= t.take(i));
    assert(t.take(i + 1).last() == t[i]);
}

/// Read the digit run starting at `lo`: its value and its end position.
fn parse_dec_digits(s: &Vec<u8>, lo: usize, hi: usize) -> (r: (u64, usize))
    requires
        lo <= hi <= s@.len(),
        hi - lo <= 16,
    ensures
        ({
            let sub = s@.subrange(lo as int, hi as int);
            &&& r.1 - lo == digits_prefix_len(sub)
            &&& lo <= r.1 <= hi
            &&& r.0 as nat == dec_value(sub.take(r.1 - lo))
            &&& r.0 < 0x2386f26fc10000
        }),
{
    let ghost sub = s@.subrange(lo as int, hi as int);
    let mut i: usize = lo;
    let mut acc: u64 = 0;
    proof {
        assert(sub.take(0) =~= Seq::<u8>::empty());
        lemma_pow10_16();
    }
    while i < hi && s[i] >= 48 && s[i] <= 57
        invariant
            lo <= i <= hi <= s@.len(),
            hi - lo <= 16,
            sub == s@.subrange(lo as int, hi as int),
            forall|j: int| 0 <= j < i - lo ==> is_digit(#[trigger] sub[j]),
            acc as nat == dec_value(sub.take(i - lo)),
            acc < 0x2386f26fc10000,
        decreases hi - i,
    {
        proof {
            lemma_dec_value_bound(sub.take(i - lo));
            lemma_pow10_mono((i - lo) as nat, 15);
            reveal_with_fuel(pow10, 17);
            lemma_dec_value_step(sub, i - lo);
            assert(sub[i - lo] == s@[i as int]);
        }
        acc = acc * 10 + ((s[i] - 48) as u64);
        i = i + 1;
    }
    proof {
        if i < hi {
            assert(sub[i - lo] == s@[i as int]);
            assert(!is_digit(sub[i - lo]));
        }
        lemma_digits_prefix(sub, i - lo);
    }
    (acc, i)
}

/// Parse a size field: a digit run, then only spaces.
fn parse_size_field(s: &Vec<u8>, lo: usize, hi: usize) -> (r: Option<u64>)
    requires
        lo <= hi <= s@.len(),
        hi - lo <= 16,
    ensures
        match dec_field_value(s@.subrange(lo as int, hi as int)) {
            None => r is None,
            Some(v) => r == Some(v as u64) && v == (v as u64) as nat && v < 0x2386f26fc10000,
        },
{
    let ghost sub = s@.subrange(lo as int, hi as int);
    let (value, end) = parse_dec_digits(s, lo, hi);
    if end == lo {
        return None;
    }
    let mut i: usize = end;
    while i < hi
        invariant
            end <= i <= hi <= s@.len(),
            lo < end,
            sub == s@.subrange(lo as int, hi as int),
            end - lo == digits_prefix_len(sub),
            value as nat == dec_value(sub.take(end - lo)),
            value < 0x2386f26fc10000,
            forall|j: int| end - lo <= j < i - lo ==> sub[j] == 32u8,
        decreases hi - i,
    {
        if s[i] != 32 {
            proof {
                assert(sub[i - lo] == s@[i as int]);
                assert(sub.skip(end - lo)[i - end] != 32u8);
                assert(!all_spaces(sub.skip(end - lo)));
            }
            return None;
        }
        proof {
            assert(sub[i - lo] == s@[i as int]);
        }
        i = i + 1;
    }
    proof {
        assert forall|j: int| 0 <= j < sub.skip(end - lo).len() implies #[trigger] sub.skip(
            end - lo,
        )[j] == 32u8 by {
            assert(sub.skip(end - lo)[j] == sub[j + end - lo]);
        }
        assert(all_spaces(sub.skip(end - lo)));
    }
    Some(value)
}

/// The first newline of `t`, if any.
pub open spec fn lf_pos(t: Seq<u8>) -> Option<int>
    decreases t.len(),
{
    if t.len() == 0 {
        None
    } else if t[0] == 10u8 {
        Some(0)
    } else {
        match lf_pos(t.skip(1)) {
            None => None,
            Some(i) => Some(i + 1),
        }
    }
}

/// A newline with none before it is what `lf_pos` finds.
proof fn lemma_lf_pos_is(t: Seq<u8>, i: int)
    requires
        0 <= i < t.len(),
        t[i] == 10u8,
        forall|j: int| 0 <= j < i ==> t[j] != 10u8,
    ensures
        lf_pos(t) == Some(i),
    decreases t.len(),
{
    if t[0] != 10u8 {
        lemma_lf_pos_is(t.skip(1), i - 1);
    }
}

/// Where no byte is a newline, `lf_pos` finds nothing.
proof fn lemma_lf_pos_none(t: Seq<u8>)
    requires
        forall|j: int| 0 <= j < t.len() ==> t[j] != 10u8,
    ensures
        lf_pos(t) is None,
    decreases t.len(),
{
    if t.len() > 0 {
        lemma_lf_pos_none(t.skip(1));
    }
}

/// The name a name-table entry at `off` resolves to: the bytes up to the
/// entry's newline (or the table's end), less the one trailing `/`. An
/// offset past the table, or an empty name, is malformed.
pub open spec fn gnu_long_name(tab: Seq<u8>, off: nat) -> Option<Seq<u8>> {
    if off > tab.len() {
        None
    } else {
        let rest = tab.skip(off as int);
        let entry = match lf_pos(rest) {
            None => rest,
            Some(j) => rest.take(j),
        };
        let name = if entry.len() > 0 && entry.last() == 47u8 {
            entry.drop_last()
        } else {
            entry
        };
        if name.len() == 0 {
            None
        } else {
            Some(name)
        }
    }
}

/// Resolve a long name from the name table.
fn resolve_long_name(tab: &Vec<u8>, off: u64) -> (r: Option<Vec<u8>>)
    ensures
        match gnu_long_name(tab@, off as nat) {
            None => r is None,
            Some(nm) => r is Some && r->0@ == nm,
        },
{
    if off > tab.len() as u64 {
        return None;
    }
    let start = off as usize;
    let ghost rest = tab@.skip(start as int);
    let mut j: usize = start;
    while j < tab.len() && tab[j] != 10
        invariant
            start <= j <= tab@.len(),
            start == off as nat,
            rest == tab@.skip(start as int),
            forall|k: int| 0 <= k < j - start ==> rest[k] != 10u8,
        decreases tab@.len() - j,
    {
        proof {
            assert(rest[j - start] == tab@[j as int]);
        }
        j = j + 1;
    }
    let ghost entry = rest.take(j - start);
    proof {
        if j < tab.len() {
            assert(rest[j - start] == tab@[j as int]);
            lemma_lf_pos_is(rest, j - start);
        } else {
            lemma_lf_pos_none(rest);
            assert(rest.take(j - start) =~= rest);
        }
        assert(entry =~= tab@.subrange(start as int, j as int));
    }
    let mut end = j;
    if end > start && tab[end - 1] == 47 {
        end = end - 1;
        proof {
            assert(entry.last() == tab@[j - 1]);
            assert(entry.drop_last() =~= tab@.subrange(start as int, end as int));
        }
    } else {
        proof {
            if entry.len() > 0 {
                assert(entry.last() == tab@[j - 1]);
            }
        }
    }
    if end == start {
        return None;
    }
    Some(copy_range(tab, start, end))
}

/// One archive member: its resolved name and its raw bytes.
pub struct ArMember {
    pub name: Seq<u8>,
    pub data: Seq<u8>,
}

/// The symbol table names: `/` and `/SYM64/`.
pub open spec fn is_symtab_name(t: Seq<u8>) -> bool {
    t == seq![47u8] || t == seq![47u8, 83u8, 89u8, 77u8, 54u8, 52u8, 47u8]
}

/// The name table's own name: `//`.
pub open spec fn is_nametab_name(t: Seq<u8>) -> bool {
    t == seq![47u8, 47u8]
}

/// A reference into the name table: `/` then only digits.
pub open spec fn is_long_ref(t: Seq<u8>) -> bool {
    t.len() >= 2 && t[0] == 47u8 && digits_prefix_len(t.skip(1)) == t.len() - 1
}

/// The name a trimmed name field resolves to, given the name table seen so
/// far: a table reference, or a short name with its closing `/` dropped.
pub open spec fn member_name(t: Seq<u8>, tab: Option<Seq<u8>>) -> Option<Seq<u8>> {
    if is_long_ref(t) {
        match tab {
            None => None,
            Some(tb) => gnu_long_name(tb, dec_value(t.skip(1))),
        }
    } else if t.len() == 0 {
        None
    } else if t.last() == 47u8 {
        if t.len() == 1 {
            None
        } else {
            Some(t.drop_last())
        }
    } else {
        Some(t)
    }
}

/// Parse the members from offset `i` on, with the name table seen so far.
pub open spec fn parse_members_at(s: Seq<u8>, i: int, tab: Option<Seq<u8>>) -> Option<
    Seq<ArMember>,
>
    decreases s.len() - i,
{
    if i >= s.len() {
        Some(Seq::empty())
    } else if i + 60 > s.len() {
        None
    } else if s[i + 58] != 96u8 || s[i + 59] != 10u8 {
        None
    } else {
        match dec_field_value(s.subrange(i + 48, i + 58)) {
            None => None,
            Some(size) => {
                if i + 60 + size > s.len() {
                    None
                } else {
                    let data = s.subrange(i + 60, i + 60 + size);
                    let next0 = i + 60 + size + (if size % 2 == 1 {
                        1int
                    } else {
                        0int
                    });
                    let next = if next0 > s.len() {
                        s.len() as int
                    } else {
                        next0
                    };
                    let t = trim_spaces(s.subrange(i, i + 16));
                    if is_symtab_name(t) {
                        parse_members_at(s, next, tab)
                    } else if is_nametab_name(t) {
                        parse_members_at(s, next, Some(data))
                    } else {
                        match member_name(t, tab) {
                            None => None,
                            Some(nm) => match parse_members_at(s, next, tab) {
                                None => None,
                                Some(rest) => Some(seq![ArMember { name: nm, data }] + rest),
                            },
                        }
                    }
                }
            },
        }
    }
}

/// The archive magic, `!<arch>\n`.
pub open spec fn ar_magic() -> Seq<u8> {
    seq![33u8, 60u8, 97u8, 114u8, 99u8, 104u8, 62u8, 10u8]
}

/// The members of an archive, in archive order, or nothing on malformed
/// framing.
pub open spec fn archive_members(s: Seq<u8>) -> Option<Seq<ArMember>> {
    if s.len() >= 8 && s.subrange(0, 8) == ar_magic() {
        parse_members_at(s, 8, None)
    } else {
        None
    }
}

/// One resolved member: its name and the range of its bytes in the archive.
pub struct MemberRef {
    pub name: Vec<u8>,
    pub lo: usize,
    pub hi: usize,
}

/// A resolver result describes the parsed members one to one.
pub open spec fn members_match(v: Seq<MemberRef>, ms: Seq<ArMember>, s: Seq<u8>) -> bool {
    &&& v.len() == ms.len()
    &&& forall|i: int|
        0 <= i < ms.len() ==> (#[trigger] v[i]).name@ == ms[i].name && v[i].lo <= v[i].hi
            <= s.len() && s.subrange(v[i].lo as int, v[i].hi as int) == ms[i].data
}

/// Trim the trailing spaces of `s[lo..hi]`, returning the end of what is
/// left.
fn trimmed_end(s: &Vec<u8>, lo: usize, hi: usize) -> (r: usize)
    requires
        lo <= hi <= s@.len(),
    ensures
        lo <= r <= hi,
        trim_spaces(s@.subrange(lo as int, hi as int)) == s@.subrange(lo as int, r as int),
{
    let ghost sub = s@.subrange(lo as int, hi as int);
    let mut r: usize = hi;
    proof {
        assert(sub.take(r - lo) =~= sub);
    }
    while r > lo && s[r - 1] == 32
        invariant
            lo <= r <= hi <= s@.len(),
            sub == s@.subrange(lo as int, hi as int),
            trim_spaces(sub) == trim_spaces(sub.take(r - lo)),
        decreases r,
    {
        proof {
            assert(sub.take(r - lo).last() == s@[r - 1]);
            assert(sub.take(r - lo).drop_last() =~= sub.take(r - 1 - lo));
        }
        r = r - 1;
    }
    proof {
        if r > lo {
            assert(sub.take(r - lo).last() == s@[r - 1]);
        }
        assert(trim_spaces(sub.take(r - lo)) == sub.take(r - lo));
        assert(sub.take(r - lo) =~= s@.subrange(lo as int, r as int));
    }
    r
}

/// How a trimmed name field is classed.
enum NameKind {
    SymTab,
    NameTab,
    LongRef,
    Plain,
}

/// A non-digit bounds the digit prefix.
proof fn lemma_digits_prefix_le(t: Seq<u8>, k: int)
    requires
        0 <= k < t.len(),
        !is_digit(t[k]),
    ensures
        digits_prefix_len(t) <= k,
    decreases t.len(),
{
    if t.len() > 0 && is_digit(t[0]) {
        assert(t.skip(1)[k - 1] == t[k]);
        lemma_digits_prefix_le(t.skip(1), k - 1);
    }
}

/// Class the trimmed name field `s[lo..hi]`.
fn classify_name(s: &Vec<u8>, lo: usize, hi: usize) -> (r: NameKind)
    requires
        lo <= hi <= s@.len(),
    ensures
        ({
            let t = s@.subrange(lo as int, hi as int);
            match r {
                NameKind::SymTab => is_symtab_name(t),
                NameKind::NameTab => is_nametab_name(t),
                NameKind::LongRef => is_long_ref(t),
                NameKind::Plain => !is_symtab_name(t) && !is_nametab_name(t) && !is_long_ref(t),
            }
        }),
{
    let ghost t = s@.subrange(lo as int, hi as int);
    let tlen = hi - lo;
    if tlen == 1 && s[lo] == 47 {
        proof {
            assert(t =~= seq![47u8]);
        }
        return NameKind::SymTab;
    }
    if tlen == 7 && s[lo] == 47 && s[lo + 1] == 83 && s[lo + 2] == 89 && s[lo + 3] == 77 && s[lo
        + 4] == 54 && s[lo + 5] == 52 && s[lo + 6] == 47 {
        proof {
            assert(t =~= seq![47u8, 83u8, 89u8, 77u8, 54u8, 52u8, 47u8]);
        }
        return NameKind::SymTab;
    }
    if tlen == 2 && s[lo] == 47 && s[lo + 1] == 47 {
        proof {
            assert(t =~= seq![47u8, 47u8]);
        }
        return NameKind::NameTab;
    }
    proof {
        assert(t.len() == tlen);
        assert(!is_symtab_name(t)) by {
            if t == seq![47u8] {
                assert(t.len() == 1 && t[0] == 47u8);
            }
            if t == seq![47u8, 83u8, 89u8, 77u8, 54u8, 52u8, 47u8] {
                assert(t.len() == 7 && t[0] == 47u8 && t[1] == 83u8 && t[2] == 89u8 && t[3] == 77u8
                    && t[4] == 54u8 && t[5] == 52u8 && t[6] == 47u8);
            }
        }
        assert(!is_nametab_name(t)) by {
            if t == seq![47u8, 47u8] {
                assert(t.len() == 2 && t[0] == 47u8 && t[1] == 47u8);
            }
        }
    }
    if tlen >= 2 && s[lo] == 47 {
        let mut j: usize = lo + 1;
        while j < hi
            invariant
                lo + 1 <= j <= hi <= s@.len(),
                t == s@.subrange(lo as int, hi as int),
                t.len() >= 2,
                t[0] == 47u8,
                !is_symtab_name(t),
                !is_nametab_name(t),
                forall|k: int| 0 <= k < j - lo - 1 ==> is_digit(#[trigger] t.skip(1)[k]),
            decreases hi - j,
        {
            proof {
                assert(t.skip(1)[j - lo - 1] == s@[j as int]);
            }
            if !(s[j] >= 48 && s[j] <= 57) {
                proof {
                    lemma_digits_prefix_le(t.skip(1), j - lo - 1);
                }
                return NameKind::Plain;
            }
            j = j + 1;
        }
        proof {
            lemma_digits_prefix(t.skip(1), (tlen - 1) as int);
            assert(is_long_ref(t));
        }
        return NameKind::LongRef;
    }
    proof {
        assert(!is_long_ref(t)) by {
            if t.len() >= 2 {
                assert(t[0] == s@[lo as int]);
            }
        }
    }
    NameKind::Plain
}

/// Resolve a static archive into its members, in archive order. Fails with
/// `MalformedArchive` on broken framing: a bad magic, a truncated or
/// ill-terminated header, a bad size or name field, or a dangling name
/// table reference. Symbol table and name table members are consumed here
/// and yield no member.
#[verifier::rlimit(100)]
pub fn resolve_archive(s: &Vec<u8>) -> (r: Result<Vec<MemberRef>, WeaveError>)
    ensures
        match archive_members(s@) {
            None => r == Err::<Vec<MemberRef>, WeaveError>(WeaveError::MalformedArchive),
            Some(ms) => r is Ok && members_match(r->Ok_0@, ms, s@),
        },
{
    let len = s.len();
    if len < 8 {
        return Err(WeaveError::MalformedArchive);
    }
    if !(s[0] == 33 && s[1] == 60 && s[2] == 97 && s[3] == 114 && s[4] == 99 && s[5] == 104 && s[6]
        == 62 && s[7] == 10) {
        proof {
            if s@.subrange(0, 8) == ar_magic() {
                assert(s@[0] == s@.subrange(0, 8)[0]);
                assert(s@[1] == s@.subrange(0, 8)[1]);
                assert(s@[2] == s@.subrange(0, 8)[2]);
                assert(s@[3] == s@.subrange(0, 8)[3]);
                assert(s@[4] == s@.subrange(0, 8)[4]);
                assert(s@[5] == s@.subrange(0, 8)[5]);
                assert(s@[6] == s@.subrange(0, 8)[6]);
                assert(s@[7] == s@.subrange(0, 8)[7]);
            }
        }
        return Err(WeaveError::MalformedArchive);
    }
    proof {
        assert(s@.subrange(0, 8) =~= ar_magic());
    }
    let mut out: Vec<MemberRef> = Vec::new();
    let ghost mut done: Seq<ArMember> = Seq::empty();
    let mut tab: Option<Vec<u8>> = None;
    let ghost mut spec_tab: Option<Seq<u8>> = None;
    let mut pos: usize = 8;
    proof {
        if parse_members_at(s@, 8, None) is Some {
            assert(done + parse_members_at(s@, 8, None)->Some_0 =~= parse_members_at(
                s@,
                8,
                None,
            )->Some_0);
        }
    }
    while pos < len
        invariant
            8 <= pos <= len,
            len == s@.len(),
            spec_tab == (match tab {
                Option::<Vec<u8>>::None => Option::<Seq<u8>>::None,
                Option::<Vec<u8>>::Some(t) => Option::<Seq<u8>>::Some(t@),
            }),
            out@.len() == done.len(),
            members_match(out@, done, s@),
            parse_members_at(s@, 8, None) == (match parse_members_at(s@, pos as int, spec_tab) {
                None => None::<Seq<ArMember>>,
                Some(rest) => Some(done + rest),
            }),
        decreases len - pos,
    {
        let ghost old_tab = spec_tab;
        let ghost step = parse_members_at(s@, pos as int, old_tab);
        if len - pos < 60 {
            proof {
                assert(pos + 60 > s@.len());
                assert(step is None);
            }
            return Err(WeaveError::MalformedArchive);
        }
        if !(s[pos + 58] == 96 && s[pos + 59] == 10) {
            proof {
                assert(step is None);
            }
            return Err(WeaveError::MalformedArchive);
        }
        let size = match parse_size_field(s, pos + 48, pos + 58) {
            None => {
                proof {
                    assert(step is None);
                }
                return Err(WeaveError::MalformedArchive);
            },
            Some(v) => v,
        };
        let ghost spec_size = dec_field_value(s@.subrange(pos + 48, pos + 58))->Some_0;
        proof {
            assert(spec_size == size as nat);
        }
        if size > (len - pos - 60) as u64 {
            proof {
                assert(pos + 60 + spec_size > s@.len());
                assert(step is None);
            }
            return Err(WeaveError::MalformedArchive);
        }
        let data_lo = pos + 60;
        let data_hi = data_lo + size as usize;
        let ghost data = s@.subrange(data_lo as int, data_hi as int);
        let next = if size % 2 == 1 && data_hi < len {
            data_hi + 1
        } else {
            data_hi
        };
        proof {
            let next0 = pos + 60 + spec_size + (if spec_size % 2 == 1 {
                1int
            } else {
                0int
            });
            assert(next as int == (if next0 > s@.len() {
                s@.len() as int
            } else {
                next0
            }));
        }
        let ghost t = trim_spaces(s@.subrange(pos as int, pos + 16));
        let name_end = trimmed_end(s, pos, pos + 16);
        let tlen = name_end - pos;
        proof {
            assert(t == s@.subrange(pos as int, name_end as int));
        }
        let kind = classify_name(s, pos, name_end);
        match kind {
            NameKind::SymTab => {
                proof {
                    assert(is_symtab_name(t));
                    assert(step == parse_members_at(s@, next as int, old_tab));
                }
            },
            NameKind::NameTab => {
                proof {
                    assert(is_nametab_name(t));
                    assert(!is_symtab_name(t));
                    assert(step == parse_members_at(s@, next as int, Some(data)));
                }
                let table = copy_range(s, data_lo, data_hi);
                proof {
                    spec_tab = Some(data);
                }
                tab = Some(table);
            },
            NameKind::LongRef => {
                proof {
                    assert(is_long_ref(t));
                    assert(!is_symtab_name(t) && !is_nametab_name(t)) by {
                        assert(t.skip(1).len() == t.len() - 1);
                        if t == seq![47u8, 47u8] {
                            assert(is_digit(t.skip(1)[0]) || digits_prefix_len(t.skip(1)) == 0);
                            assert(t.skip(1)[0] == 47u8);
                        }
                        if t == seq![47u8, 83u8, 89u8, 77u8, 54u8, 52u8, 47u8] {
                            assert(t.skip(1)[0] == 83u8);
                            lemma_digits_prefix_le(t.skip(1), 0);
                        }
                    }
                }
                let (off, _end) = parse_dec_digits(s, pos + 1, name_end);
                proof {
                    assert(s@.subrange(pos + 1, name_end as int) =~= t.skip(1));
                    assert(t.skip(1).take(t.len() - 1) =~= t.skip(1));
                    assert(off as nat == dec_value(t.skip(1)));
                }
                let name = match &tab {
                    Option::<Vec<u8>>::None => {
                        proof {
                            assert(member_name(t, old_tab) is None);
                            assert(step is None);
                        }
                        return Err(WeaveError::MalformedArchive);
                    },
                    Option::<Vec<u8>>::Some(table) => {
                        match resolve_long_name(table, off) {
                            None => {
                                proof {
                                    assert(member_name(t, old_tab) is None);
                                    assert(step is None);
                                }
                                return Err(WeaveError::MalformedArchive);
                            },
                            Some(nm) => nm,
                        }
                    },
                };
                proof {
                    assert(member_name(t, old_tab) == Some(name@));
                }
                let ghost m = ArMember { name: name@, data };
                let ghost old_done = done;
                let ghost old_out = out@;
                out.push(MemberRef { name, lo: data_lo, hi: data_hi });
                proof {
                    done = done.push(m);
                    assert(step == (match parse_members_at(s@, next as int, old_tab) {
                        None => None::<Seq<ArMember>>,
                        Some(rest) => Some(seq![m] + rest),
                    }));
                    if parse_members_at(s@, next as int, old_tab) is Some {
                        let rest = parse_members_at(s@, next as int, old_tab)->Some_0;
                        assert(old_done + (seq![m] + rest) =~= done + rest);
                    }
                    assert forall|i2: int|
                        0 <= i2 < done.len() implies (#[trigger] out@[i2]).name@ == done[i2].name
                        && out@[i2].lo <= out@[i2].hi <= s@.len() && s@.subrange(
                        out@[i2].lo as int,
                        out@[i2].hi as int,
                    ) == done[i2].data by {
                        if i2 < old_done.len() {
                            assert(out@[i2] == old_out[i2]);
                            assert(done[i2] == old_done[i2]);
                        }
                    }
                }
            },
            NameKind::Plain => {
                proof {
                    assert(!is_long_ref(t) && !is_symtab_name(t) && !is_nametab_name(t));
                }
                if tlen == 0 {
                    proof {
                        assert(member_name(t, old_tab) is None);
                        assert(step is None);
                    }
                    return Err(WeaveError::MalformedArchive);
                }
                let name_hi = if s[pos + tlen - 1] == 47 {
                    name_end - 1
                } else {
                    name_end
                };
                proof {
                    assert(t.last() == s@[name_end - 1]);
                }
                if name_hi == pos {
                    proof {
                        assert(t.len() == 1 && t.last() == 47u8);
                        assert(member_name(t, old_tab) is None);
                        assert(step is None);
                    }
                    return Err(WeaveError::MalformedArchive);
                }
                proof {
                    if s@[name_end - 1] == 47u8 {
                        assert(t.drop_last() =~= s@.subrange(pos as int, name_hi as int));
                    }
                    assert(member_name(t, old_tab) == Some(
                        s@.subrange(pos as int, name_hi as int),
                    ));
                }
                let name = copy_range(s, pos, name_hi);
                let ghost m = ArMember { name: name@, data };
                let ghost old_done = done;
                let ghost old_out = out@;
                out.push(MemberRef { name, lo: data_lo, hi: data_hi });
                proof {
                    done = done.push(m);
                    assert(step == (match parse_members_at(s@, next as int, old_tab) {
                        None => None::<Seq<ArMember>>,
                        Some(rest) => Some(seq![m] + rest),
                    }));
                    if parse_members_at(s@, next as int, old_tab) is Some {
                        let rest = parse_members_at(s@, next as int, old_tab)->Some_0;
                        assert(old_done + (seq![m] + rest) =~= done + rest);
                    }
                    assert forall|i2: int|
                        0 <= i2 < done.len() implies (#[trigger] out@[i2]).name@ == done[i2].name
                        && out@[i2].lo <= out@[i2].hi <= s@.len() && s@.subrange(
                        out@[i2].lo as int,
                        out@[i2].hi as int,
                    ) == done[i2].data by {
                        if i2 < old_done.len() {
                            assert(out@[i2] == old_out[i2]);
                            assert(done[i2] == old_done[i2]);
                        }
                    }
                }
            },
        }
        pos = next;
    }
    proof {
        assert(parse_members_at(s@, pos as int, spec_tab) == Some(Seq::<ArMember>::empty()));
        assert(done + Seq::<ArMember>::empty() =~= done);
    }
    Ok(out)
}

} // verus!
