//! Rendering printed diff lines into patch-format text: the one
//! decision in assembling the input blob, namely which line origins
//! carry their origin character into the text.

use vstd::prelude::*;

verus! {

/// Origins that patch-format output prints before the line content:
/// added, removed and context lines. Other origins (headers, hunk
/// lines, binary notices) already carry their text in full.
pub open spec fn is_printed_origin(c: char) -> bool {
    c == '+' || c == '-' || c == ' '
}

/// What one printed diff line contributes to the assembled text.
pub open spec fn format_line_spec(origin: char, content: Seq<char>) -> Seq<char> {
    if is_printed_origin(origin) {
        seq![origin] + content
    } else {
        content
    }
}

/// Renders one printed diff line: a printed origin is prefixed to the
/// line content, any other origin's content passes through unchanged.
pub fn format_diff_line(origin: char, content: &str) -> (r: String)
    ensures
        r@ == format_line_spec(origin, content@),
{
    let mut r = String::new();
    if origin == '+' {
        r.append("+");
        proof {
            reveal_strlit("+");
            assert("+"@ =~= seq!['+']);
        }
    } else if origin == '-' {
        r.append("-");
        proof {
            reveal_strlit("-");
            assert("-"@ =~= seq!['-']);
        }
    } else if origin == ' ' {
        r.append(" ");
        proof {
            reveal_strlit(" ");
            assert(" "@ =~= seq![' ']);
        }
    }
    r.append(content);
    proof {
        assert(r@ =~= format_line_spec(origin, content@));
    }
    r
}

} // verus!
