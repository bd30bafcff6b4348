//! Interpreting the list of input sources: named files in order, with any
//! number of dash markers collapsing to one pass over standard input.

use vstd::prelude::*;

use crate::order::str_eq;

verus! {

/// The view of the marker that designates standard input.
pub open spec fn dash() -> Seq<char> {
    "-"@
}

/// The views of a sequence of strings.
pub open spec fn views_of(s: Seq<String>) -> Seq<Seq<char>> {
    s.map_values(|x: String| x@)
}

/// The source names with every dash marker removed, order kept.
pub open spec fn kept_files(s: Seq<Seq<char>>) -> Seq<Seq<char>>
    decreases s.len(),
{
    if s.len() == 0 {
        Seq::empty()
    } else if s.last() == dash() {
        kept_files(s.drop_last())
    } else {
        kept_files(s.drop_last()).push(s.last())
    }
}

/// Whether some source name is the dash marker.
pub open spec fn has_dash(s: Seq<Seq<char>>) -> bool {
    exists|i: int| 0 <= i < s.len() && s[i] == dash()
}

/// The parsed source list: the named files, in their original order with
/// dash markers removed, and whether standard input was requested (a dash
/// marker present, or no sources given at all).
pub struct FilePathParser {
    pub files: Vec<String>,
    pub has_stdin: bool,
}

impl FilePathParser {
    /// Parses the source list.
    pub fn new(files: Vec<String>) -> (r: FilePathParser)
        ensures
            views_of(r.files@) == kept_files(views_of(files@)),
            r.has_stdin == (files@.len() == 0 || has_dash(views_of(files@))),
    {
        let n = files.len();
        let mut kept: Vec<String> = Vec::new();
        let mut saw_dash = false;
        let mut i: usize = 0;
        proof {
            assert(views_of(files@.subrange(0, 0)) =~= Seq::empty());
            assert(views_of(kept@) =~= Seq::empty());
        }
        while i < n
            invariant
                n == files@.len(),
                i <= n,
                views_of(kept@) == kept_files(views_of(files@.subrange(0, i as int))),
                saw_dash == has_dash(views_of(files@.subrange(0, i as int))),
            decreases n - i,
        {
            let ghost pre = views_of(files@.subrange(0, i as int));
            let ghost post = views_of(files@.subrange(0, i + 1));
            proof {
                assert(files@.subrange(0, i + 1).drop_last() =~= files@.subrange(0, i as int));
                assert(post.drop_last() =~= pre);
                assert(post.last() == files@[i as int]@);
            }
            let is_dash = str_eq(files[i].as_str(), "-");
            if is_dash {
                saw_dash = true;
                proof {
                    assert(kept_files(post) == kept_files(pre));
                    assert(post[i as int] == dash());
                    assert(has_dash(post));
                }
            } else {
                kept.push(files[i].clone());
                proof {
                    assert(kept_files(post) == kept_files(pre).push(files@[i as int]@));
                    assert(views_of(kept@) =~= kept_files(post));
                    assert forall|j: int| 0 <= j < i + 1 && #[trigger] post[j] == dash() implies
                        0 <= j < i && pre[j] == dash() by {
                        assert(post[i as int] != dash());
                    }
                    assert(has_dash(post) == has_dash(pre));
                }
            }
            i = i + 1;
        }
        proof {
            assert(files@.subrange(0, n as int) =~= files@);
        }
        FilePathParser { files: kept, has_stdin: saw_dash || n == 0 }
    }
}

} // verus!
