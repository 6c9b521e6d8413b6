//! Paths as plain strings, with `/` between components.

use vstd::prelude::*;
use vstd::string::*;

verus! {

/// The path of `name` inside the directory `base`. A name that starts at the
/// root stands alone; otherwise the name follows the directory, with one
/// separator put between them unless the directory is empty or already ends
/// in one.
pub open spec fn joined(base: Seq<char>, name: Seq<char>) -> Seq<char> {
    if name.len() > 0 && name[0] == '/' {
        name
    } else if base.len() > 0 && base.last() != '/' {
        base + seq!['/'] + name
    } else {
        base + name
    }
}

/// The path reached from `root` by stepping into each name of `trail` in turn.
pub open spec fn descended(root: Seq<char>, trail: Seq<Seq<char>>) -> Seq<char>
    decreases trail.len(),
{
    if trail.len() == 0 {
        root
    } else {
        joined(descended(root, trail.drop_last()), trail.last())
    }
}

/// Joins a directory and a name into the path of the entry.
pub fn join(base: &str, name: &str) -> (r: String)
    ensures
        r@ == joined(base@, name@),
{
    let n: usize = name.unicode_len();
    if n > 0 && name.get_char(0) == '/' {
        return name.to_owned();
    }
    let b: usize = base.unicode_len();
    let mut out: String = base.to_owned();
    if b > 0 && base.get_char(b - 1) != '/' {
        proof {
            reveal_strlit("/");
            assert("/"@ =~= seq!['/']);
        }
        out.append("/");
    }
    out.append(name);
    out
}

} // verus!
