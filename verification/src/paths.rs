//! The extension of a path, as a Unix path reads it.
//!
//! The file name is the last component: the last segment between slashes
//! that is neither empty nor `.`, and none where that segment is `..` or
//! there is no such segment. The extension is what follows the last dot in
//! the file name, and there is none where the name has no dot or its only
//! dot opens it.

use vstd::prelude::*;

verus! {

/// Where the segment of `p` that ends at `end` begins: just after the last
/// slash before `end`, or at the start.
pub open spec fn segment_start(p: Seq<u8>, end: int) -> int
    decreases end,
{
    if end <= 0 {
        0
    } else if p[end - 1] == 47 {
        end
    } else {
        segment_start(p, end - 1)
    }
}

/// Whether a segment is one a path's components skip: empty, or `.`.
pub open spec fn skipped(seg: Seq<u8>) -> bool {
    seg.len() == 0 || seg == seq![46u8]
}

/// The last segment of `p[..end]` that is not skipped, if there is one.
pub open spec fn last_segment(p: Seq<u8>, end: int) -> Option<Seq<u8>>
    decreases end,
{
    if end <= 0 || end > p.len() {
        None
    } else {
        let from = segment_start(p, end);
        proof {
            lemma_segment_start(p, end);
        }
        let seg = p.subrange(from, end);
        if !skipped(seg) {
            Some(seg)
        } else if from == 0 {
            None
        } else {
            last_segment(p, from - 1)
        }
    }
}

pub proof fn lemma_segment_start(p: Seq<u8>, end: int)
    requires
        0 <= end <= p.len(),
    ensures
        0 <= segment_start(p, end) <= end,
        segment_start(p, end) > 0 ==> p[segment_start(p, end) - 1] == 47,
        forall|j: int| segment_start(p, end) <= j < end ==> p[j] != 47,
    decreases end,
{
    if end > 0 && p[end - 1] != 47 {
        lemma_segment_start(p, end - 1);
    }
}

/// The file name of a path.
pub open spec fn file_name(p: Seq<u8>) -> Option<Seq<u8>> {
    match last_segment(p, p.len() as int) {
        Some(seg) => if seg == seq![46u8, 46u8] {
            None
        } else {
            Some(seg)
        },
        None => None,
    }
}

/// Where the last dot in `name[..end]` is, if there is one.
pub open spec fn last_dot(name: Seq<u8>, end: int) -> Option<int>
    decreases end,
{
    if end <= 0 {
        None
    } else if name[end - 1] == 46 {
        Some(end - 1)
    } else {
        last_dot(name, end - 1)
    }
}

/// The extension of a path, without its dot.
pub open spec fn extension(p: Seq<u8>) -> Option<Seq<u8>> {
    match file_name(p) {
        Some(name) => match last_dot(name, name.len() as int) {
            Some(d) => if d == 0 {
                None
            } else {
                Some(name.subrange(d + 1, name.len() as int))
            },
            None => None,
        },
        None => None,
    }
}

/// Whether a path has the extension `ext`, in any case of ASCII letters.
pub open spec fn has_extension(p: Seq<u8>, ext: Seq<u8>) -> bool {
    match extension(p) {
        Some(e) => crate::text::lower(e) == crate::text::lower(ext),
        None => false,
    }
}

fn segment_start_exec(p: &[u8], end: usize) -> (r: usize)
    requires
        end <= p@.len(),
    ensures
        r == segment_start(p@, end as int),
{
    let mut i = end;
    while i > 0 && p[i - 1] != 47
        invariant
            i <= end <= p@.len(),
            segment_start(p@, i as int) == segment_start(p@, end as int),
        decreases i,
    {
        i = i - 1;
    }
    i
}

/// The file name of a path, as where it begins and ends.
pub fn file_name_range(p: &[u8]) -> (r: Option<(usize, usize)>)
    ensures
        match file_name(p@) {
            Some(name) => r matches Some((a, b)) && a <= b <= p@.len() && p@.subrange(
                a as int,
                b as int,
            ) == name,
            None => r is None,
        },
{
    let mut end = p.len();
    loop
        invariant
            end <= p@.len(),
            last_segment(p@, p@.len() as int) == last_segment(p@, end as int),
        decreases end,
    {
        if end == 0 {
            return None;
        }
        let from = segment_start_exec(p, end);
        proof {
            lemma_segment_start(p@, end as int);
        }
        let len = end - from;
        let is_dot = len == 1 && p[from] == 46;
        proof {
            let seg = p@.subrange(from as int, end as int);
            if len == 1 {
                assert(seg[0] == p@[from as int]);
                assert(is_dot <==> seg =~= seq![46u8]);
            } else {
                assert(seg.len() != 1);
            }
        }
        if len != 0 && !is_dot {
            let ghost seg = p@.subrange(from as int, end as int);
            if len == 2 && p[from] == 46 && p[from + 1] == 46 {
                assert(seg =~= seq![46u8, 46u8]);
                return None;
            }
            assert(len == 2 ==> seg[0] == p@[from as int] && seg[1] == p@[from + 1]);
            assert(seg != seq![46u8, 46u8]);
            return Some((from, end));
        }
        if from == 0 {
            return None;
        }
        end = from - 1;
    }
}

/// Whether a path has the extension `ext`, in any case of ASCII letters.
pub fn has_extension_exec(p: &[u8], ext: &[u8]) -> (r: bool)
    ensures
        r == has_extension(p@, ext@),
{
    match file_name_range(p) {
        None => false,
        Some((a, b)) => {
            let ghost name = p@.subrange(a as int, b as int);
            let mut i = b;
            while i > a && p[i - 1] != 46
                invariant
                    a <= i <= b <= p@.len(),
                    name == p@.subrange(a as int, b as int),
                    last_dot(name, (i - a) as int) == last_dot(name, name.len() as int),
                decreases i,
            {
                assert(name[i - a - 1] == p@[i - 1]);
                i = i - 1;
            }
            if i == a {
                return false;
            }
            assert(name[i - a - 1] == p@[i - 1]);
            if i - 1 == a {
                return false;
            }
            let e = crate::text::lower_exec(crate::text::copy_range(p, i, b).as_slice());
            let want = crate::text::lower_exec(ext);
            proof {
                assert(name.subrange(i - a, name.len() as int) =~= p@.subrange(i as int, b as int));
            }
            crate::text::same(e.as_slice(), want.as_slice())
        },
    }
}

} // verus!
