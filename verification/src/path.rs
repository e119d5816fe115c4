//! The name under which a watched file appears in the document: the last
//! component of its path.

use crate::search::occurs_at;
use crate::text::{bytes_of, lemma_boundaries_around_ascii, slice};
use vstd::prelude::*;
use vstd::utf8::*;

verus! {

/// The byte that parts the components of a path, `/`.
pub const SEPARATOR: u8 = 0x2f;

/// The byte of a full stop, `.`.
pub const DOT: u8 = 0x2e;

/// The offset of the last separator in `path`, or -1 where it has none.
pub open spec fn last_separator(path: Seq<u8>) -> int
    decreases path.len(),
{
    if path.len() == 0 {
        -1
    } else if path.last() == SEPARATOR {
        path.len() - 1
    } else {
        last_separator(path.drop_last())
    }
}

/// The name of the file that `path` leads to: its last component, where
/// empty components (which repeated or trailing separators leave) and the
/// component `.` do not count. There is none where no component is left, or
/// where the last one is `..`.
pub open spec fn base_name(path: Seq<u8>) -> Option<Seq<u8>>
    decreases path.len(),
{
    let cut = last_separator(path);
    let last = path.subrange(cut + 1, path.len() as int);
    if last.len() == 0 || last == seq![DOT] {
        if 0 <= cut < path.len() {
            base_name(path.subrange(0, cut))
        } else {
            None
        }
    } else if last == seq![DOT, DOT] {
        None
    } else {
        Some(last)
    }
}

/// What `last_separator` means: where it is an offset, a separator stands
/// there, and no separator follows it.
pub proof fn lemma_last_separator(path: Seq<u8>)
    ensures
        -1 <= last_separator(path) < path.len(),
        last_separator(path) >= 0 ==> path[last_separator(path)] == SEPARATOR,
        forall|j: int| last_separator(path) < j < path.len() ==> path[j] != SEPARATOR,
    decreases path.len(),
{
    if path.len() != 0 && path.last() != SEPARATOR {
        let shorter = path.drop_last();
        lemma_last_separator(shorter);
        assert forall|j: int| last_separator(path) < j < path.len() implies path[j]
            != SEPARATOR by {
            if j < shorter.len() {
                assert(shorter[j] == path[j]);
            }
        }
    }
}

/// The name of a file is a plain component of its path: it is never empty,
/// never `.` or `..`, holds no separator, and stands in the path.
pub proof fn law_base_name_is_a_plain_component(path: Seq<u8>)
    ensures
        base_name(path) matches Some(name) ==> {
            &&& name.len() > 0
            &&& name != seq![DOT]
            &&& name != seq![DOT, DOT]
            &&& forall|j: int| 0 <= j < name.len() ==> name[j] != SEPARATOR
            &&& exists|at: int| occurs_at(path, name, at)
        },
    decreases path.len(),
{
    lemma_last_separator(path);
    let cut = last_separator(path);
    let last = path.subrange(cut + 1, path.len() as int);
    if last.len() == 0 || last == seq![DOT] {
        if 0 <= cut < path.len() {
            let parent = path.subrange(0, cut);
            law_base_name_is_a_plain_component(parent);
            if base_name(parent) is Some {
                let name = base_name(parent)->0;
                let at = choose|at: int| occurs_at(parent, name, at);
                assert(path.subrange(at, at + name.len()) =~= parent.subrange(at, at + name.len()));
                assert(occurs_at(path, name, at));
            }
        }
    } else if last == seq![DOT, DOT] {
    } else {
        assert(occurs_at(path, last, cut + 1));
    }
}

/// The name of the file that `path` leads to, as a part of `path`.
pub fn file_name(path: &str) -> (name: Option<&str>)
    ensures
        match name {
            Some(name) => base_name(bytes_of(path@)) == Some(bytes_of(name@)),
            None => base_name(bytes_of(path@)) is None,
        },
{
    let bytes = path.as_bytes();
    let ghost all = bytes_of(path@);
    proof {
        encode_utf8_valid_utf8(path@);
        is_char_boundary_start_end_of_seq(all);
    }
    let mut end: usize = bytes.len();
    assert(all.subrange(0, end as int) =~= all);
    loop
        invariant
            bytes@ == all,
            all == bytes_of(path@),
            valid_utf8(all),
            end <= bytes.len(),
            is_char_boundary(all, end as int),
            base_name(all) == base_name(all.subrange(0, end as int)),
        decreases end,
    {
        let ghost prefix = all.subrange(0, end as int);
        let mut begin: usize = end;
        while begin > 0 && bytes[begin - 1] != SEPARATOR
            invariant
                bytes@ == all,
                begin <= end <= bytes.len(),
                forall|j: int| begin <= j < end ==> all[j] != SEPARATOR,
            decreases begin,
        {
            begin -= 1;
        }
        proof {
            lemma_last_separator(prefix);
            assert(last_separator(prefix) == begin - 1) by {
                let cut = last_separator(prefix);
                if cut >= begin {
                    assert(prefix[cut] == all[cut]);
                }
                if cut < begin - 1 {
                    assert(prefix[begin - 1] == all[begin - 1]);
                }
            }
            assert(prefix.subrange(begin as int, end as int) =~= all.subrange(
                begin as int,
                end as int,
            ));
            if begin > 0 {
                lemma_boundaries_around_ascii(all, begin - 1);
                assert(prefix.subrange(0, begin - 1) =~= all.subrange(0, begin - 1));
            }
        }
        let length: usize = end - begin;
        let ghost last = all.subrange(begin as int, end as int);
        if length == 0 || (length == 1 && bytes[begin] == DOT) {
            assert(last.len() == 0 || last =~= seq![DOT]);
            if begin == 0 {
                return None;
            }
            end = begin - 1;
        } else if length == 2 && bytes[begin] == DOT && bytes[begin + 1] == DOT {
            assert(last =~= seq![DOT, DOT]);
            return None;
        } else {
            assert(last != seq![DOT]) by {
                if last == seq![DOT] {
                    assert(last.len() == 1);
                    assert(last[0] == DOT);
                }
            }
            return Some(slice(path, begin, end));
        }
    }
}

} // verus!
