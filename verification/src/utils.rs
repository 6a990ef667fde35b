//! Path normalization: turning a user-supplied root into a glob pattern.

use vstd::prelude::*;

use crate::text::to_chars;

verus! {

/// The recursive wildcard appended to a directory root.
pub open spec fn glob_suffix() -> Seq<char> {
    seq!['/', '*', '*', '/', '*']
}

/// What `normalize_path` returns: a root that ends in a path separator or is
/// the current-directory marker gets the recursive wildcard appended; an
/// input that already holds a wildcard is passed through; any other input is
/// treated as a plain directory root.
pub open spec fn normalize_spec(s: Seq<char>) -> Seq<char> {
    if (s.len() > 0 && s.last() == '/') || s =~= seq!['.'] {
        s + glob_suffix()
    } else if s.contains('*') {
        s
    } else {
        s + glob_suffix()
    }
}

/// Normalize a root path into a glob pattern, appending a recursive
/// wildcard to directory-style roots and passing explicit patterns through.
pub fn normalize_path(input: &str) -> (r: String)
    ensures
        r@ == normalize_spec(input@),
{
    let cs = to_chars(input);
    proof {
        reveal_strlit("/**/*");
        reveal_strlit(".");
        assert("/**/*"@ =~= glob_suffix());
        assert("."@ =~= seq!['.']);
    }
    let n = cs.len();
    let ends_sep = n > 0 && cs[n - 1] == '/';
    let is_dot = n == 1 && cs[0] == '.';
    if ends_sep || is_dot {
        proof {
            if is_dot {
                assert(input@ =~= seq!['.']);
            }
        }
        let r = String::from_str(input).concat("/**/*");
        return r;
    }
    let mut i: usize = 0;
    let mut has_star = false;
    while i < n
        invariant
            n == cs.len(),
            cs@ == input@,
            i <= n,
            !has_star ==> !input@.take(i as int).contains('*'),
            has_star ==> input@.contains('*'),
        decreases n - i,
    {
        if cs[i] == '*' {
            has_star = true;
        }
        proof {
            if !has_star {
                assert forall|k: int| 0 <= k < i + 1 implies #[trigger] input@.take(i + 1)[k] != '*' by {
                    if k < i {
                        assert(input@.take(i as int)[k] != '*');
                    }
                }
            }
        }
        i = i + 1;
    }
    proof {
        if !has_star {
            assert(input@.take(n as int) =~= input@);
        }
        assert(!(input@.len() > 0 && input@.last() == '/'));
        assert(!(input@ =~= seq!['.']));
    }
    if has_star {
        String::from_str(input)
    } else {
        String::from_str(input).concat("/**/*")
    }
}

} // verus!
