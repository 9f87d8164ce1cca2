use vstd::prelude::*;

verus! {

/// The page of `s` selected by `page` and `page_size`.
///
/// A negative page size means no limit: the whole sequence. Otherwise the
/// result is the `page_size` elements starting at `page * page_size`
/// (a non-positive page reads as the first page), clipped to the sequence.
pub open spec fn page_slice<T>(s: Seq<T>, page: i32, page_size: i32) -> Seq<T> {
    if page_size < 0 {
        s
    } else {
        let start_raw = if page <= 0 {
            0int
        } else {
            page as int * page_size as int
        };
        let start = if start_raw > s.len() {
            s.len() as int
        } else {
            start_raw
        };
        let end_raw = start + page_size as int;
        let end = if end_raw > s.len() {
            s.len() as int
        } else {
            end_raw
        };
        s.subrange(start, end)
    }
}

/// Copies the selected page out of `v`; the executable side of
/// [`page_slice`].
pub fn take_page<T: Copy>(v: &Vec<T>, page: i32, page_size: i32) -> (r: Vec<T>)
    ensures
        r@ == page_slice(v@, page, page_size),
{
    let mut out: Vec<T> = Vec::new();
    if page_size < 0 {
        let mut i: usize = 0;
        while i < v.len()
            invariant
                i <= v@.len(),
                out@ == v@.take(i as int),
            decreases v@.len() - i,
        {
            out.push(v[i]);
            proof {
                assert(v@.take(i as int + 1) =~= v@.take(i as int).push(v@[i as int]));
            }
            i = i + 1;
        }
        proof {
            assert(v@.take(v@.len() as int) =~= v@);
        }
        return out;
    }
    let len64 = v.len() as u64;
    let start_raw: u64 = if page <= 0 {
        0
    } else {
        proof {
            assert((page as u64) * (page_size as u64) <= 0x8000_0000u64 * 0x8000_0000u64) by (
            nonlinear_arith)
                requires
                    0 < page as u64 <= 0x8000_0000u64,
                    0 <= page_size as u64 <= 0x8000_0000u64,
            ;
        }
        (page as u64) * (page_size as u64)
    };
    let start: u64 = if start_raw > len64 {
        len64
    } else {
        start_raw
    };
    let end: u64 = if len64 - start > page_size as u64 {
        start + (page_size as u64)
    } else {
        len64
    };
    let mut i: usize = start as usize;
    while i < end as usize
        invariant
            start <= i <= end,
            end <= v@.len(),
            page_size >= 0,
            end as int == (if start + page_size as int > v@.len() {
                v@.len() as int
            } else {
                start + page_size as int
            }),
            start as int == (if page <= 0 {
                0int
            } else if page as int * page_size as int > v@.len() {
                v@.len() as int
            } else {
                page as int * page_size as int
            }),
            out@ == v@.subrange(start as int, i as int),
        decreases end - i,
    {
        out.push(v[i]);
        proof {
            assert(v@.subrange(start as int, i as int + 1) =~= v@.subrange(
                start as int,
                i as int,
            ).push(v@[i as int]));
        }
        i = i + 1;
    }
    proof {
        assert(out@ == page_slice(v@, page, page_size));
    }
    out
}

} // verus!
