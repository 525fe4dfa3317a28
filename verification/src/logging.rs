//! What the kernel's log lines say about where they come from.

use vstd::prelude::*;
use vstd::string::StrSliceExecFns;

verus! {

/// Where the file name in `path` starts: just after its last `/`, or at 0 when it has none.
pub open spec fn file_name_start(path: Seq<char>) -> int
    decreases path.len(),
{
    if path.len() == 0 {
        0
    } else if path.last() == '/' {
        path.len() as int
    } else {
        file_name_start(path.drop_last())
    }
}

proof fn lemma_file_name_start_bounds(path: Seq<char>)
    ensures
        0 <= file_name_start(path) <= path.len(),
    decreases path.len(),
{
    if path.len() > 0 {
        lemma_file_name_start_bounds(path.drop_last());
    }
}

/// The file name a log line shows for a record from `path`: the part after the last
/// `/`, or the whole path when it has none; `???` when the record has no path.
pub fn log_file_name<'a>(path: Option<&'a str>) -> (r: &'a str)
    ensures
        match path {
            Some(p) => r@ == p@.skip(file_name_start(p@)),
            None => r@ == "???"@,
        },
{
    match path {
        None => "???",
        Some(p) => {
            let len = p.unicode_len();
            let mut start: usize = 0;
            let mut count: usize = 0;
            broadcast use vstd::string::axiom_spec_iter;

            for ch in it: p.chars()
                invariant
                    it.seq() == p@,
                    0 <= it.index() <= p@.len(),
                    count == it.index(),
                    len == p@.len(),
                    start == file_name_start(p@.take(it.index())),
            {
                proof {
                    lemma_file_name_start_bounds(p@.take(it.index() + 1));
                    assert(p@.take(it.index() + 1).drop_last() =~= p@.take(it.index() as int));
                    assert(p@.take(it.index() + 1).last() == ch);
                }
                count = count + 1;
                if ch == '/' {
                    start = count;
                }
            }
            proof {
                assert(p@.take(p@.len() as int) =~= p@);
                lemma_file_name_start_bounds(p@);
            }
            let name = p.substring_char(start, count);
            proof {
                assert(name@ =~= p@.skip(file_name_start(p@)));
            }
            name
        },
    }
}

} // verus!
