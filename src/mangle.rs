//! Shortening mangled symbol names.

use vstd::prelude::*;
use crate::diff::{is_prefix, starts_with};
use crate::slices::copy_range;

verus! {

/// The legacy mangling prefix `__ZN`.
pub open spec fn mangle_prefix() -> Seq<u8> {
    seq![0x5fu8, 0x5f, 0x5a, 0x4e]
}

/// `n` without every leading repetition of `p`.
pub open spec fn trim_start_all(n: Seq<u8>, p: Seq<u8>) -> Seq<u8>
    decreases n.len(),
{
    if p.len() > 0 && is_prefix(p, n) {
        trim_start_all(n.subrange(p.len() as int, n.len() as int), p)
    } else {
        n
    }
}

/// `n` without its trailing `E`s.
pub open spec fn trim_end_e(n: Seq<u8>) -> Seq<u8>
    decreases n.len(),
{
    if n.len() > 0 && n.last() == 0x45 {
        trim_end_e(n.drop_last())
    } else {
        n
    }
}

/// `n` without its leading decimal digits.
pub open spec fn skip_digits(n: Seq<u8>) -> Seq<u8>
    decreases n.len(),
{
    if n.len() > 0 && 0x30 <= n[0] <= 0x39 {
        skip_digits(n.subrange(1, n.len() as int))
    } else {
        n
    }
}

/// The shortened form of a legacy mangled name.
pub open spec fn stripped(n: Seq<u8>) -> Seq<u8> {
    if is_prefix(mangle_prefix(), n) {
        skip_digits(trim_end_e(trim_start_all(n, mangle_prefix())))
    } else {
        n
    }
}

/// Shortens a legacy mangled name: a name that starts with `__ZN` loses
/// every leading `__ZN`, every trailing `E` and then its leading digits;
/// other names stay as they are.
pub fn strip_mangled(name: &Vec<u8>) -> (r: Vec<u8>)
    ensures
        r@ == stripped(name@),
{
    let prefix: Vec<u8> = vec![0x5f, 0x5f, 0x5a, 0x4e];
    assert(prefix@ == mangle_prefix());
    if !starts_with(name, &prefix) {
        let r = copy_range(name, 0, name.len());
        assert(name@.subrange(0, name.len() as int) =~= name@);
        return r;
    }
    let mut start: usize = 0;
    assert(name@.subrange(0, name.len() as int) =~= name@);
    while name.len() - start >= 4 && name[start] == 0x5f && name[start + 1] == 0x5f && name[start + 2] == 0x5a
        && name[start + 3] == 0x4e
        invariant
            start <= name.len(),
            trim_start_all(name@.subrange(start as int, name.len() as int), mangle_prefix()) == trim_start_all(
                name@,
                mangle_prefix(),
            ),
        decreases name.len() - start,
    {
        proof {
            let rest = name@.subrange(start as int, name.len() as int);
            assert(rest.subrange(0, 4) =~= mangle_prefix());
            assert(rest.subrange(4, rest.len() as int) =~= name@.subrange(start + 4, name.len() as int));
        }
        start += 4;
    }
    proof {
        let rest = name@.subrange(start as int, name.len() as int);
        if is_prefix(mangle_prefix(), rest) {
            assert(rest.subrange(0, 4)[0] == name@[start as int]);
            assert(rest.subrange(0, 4)[1] == name@[start + 1]);
            assert(rest.subrange(0, 4)[2] == name@[start + 2]);
            assert(rest.subrange(0, 4)[3] == name@[start + 3]);
        }
        assert(name@.subrange(0, name.len() as int) =~= name@);
    }
    let mut end: usize = name.len();
    while end > start && name[end - 1] == 0x45
        invariant
            start <= end <= name.len(),
            trim_end_e(name@.subrange(start as int, end as int)) == trim_end_e(
                trim_start_all(name@, mangle_prefix()),
            ),
        decreases end,
    {
        assert(name@.subrange(start as int, end as int).drop_last() =~= name@.subrange(start as int, end - 1));
        end -= 1;
    }
    let mut first: usize = start;
    while first < end && 0x30 <= name[first] && name[first] <= 0x39
        invariant
            start <= first <= end <= name.len(),
            end == start || name@[end - 1] != 0x45,
            skip_digits(name@.subrange(first as int, end as int)) == stripped(name@),
        decreases end - first,
    {
        assert(name@.subrange(first as int, end as int).subrange(1, (end - first) as int) =~= name@.subrange(first + 1, end as int));
        first += 1;
    }
    copy_range(name, first, end)
}

} // verus!
