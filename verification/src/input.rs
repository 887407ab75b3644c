//! Sanitizing of the single-line search buffer.
//!
//! The search box is a text buffer in which a line break is repurposed as a
//! "submit" signal, never as content: after every keystroke the buffer is
//! rebuilt without line breaks, and whether one was seen is reported.

use vstd::prelude::*;

verus! {

/// The buffer's characters with every line break removed.
pub open spec fn without_newlines(s: Seq<char>) -> Seq<char> {
    s.filter(|c: char| c != '\n')
}

/// Some character of the buffer is a line break.
pub open spec fn has_newline(s: Seq<char>) -> bool {
    s.contains('\n')
}

/// Relies on String::push from std: appends exactly one character.
#[verifier::external_body]
fn push_char(s: &mut String, c: char)
    ensures
        final(s)@ == old(s)@.push(c),
{
    s.push(c);
}

/// Rebuilds the search buffer without any line-break character and reports
/// whether one was present: a line break typed into the single-line search
/// box means "submit" and is never kept as content.
pub fn sanitize_search(buffer: &str) -> (res: (String, bool))
    ensures
        res.0@ == without_newlines(buffer@),
        res.1 == has_newline(buffer@),
{
    let len = buffer.unicode_len();
    let mut cleaned = String::new();
    let mut submitted = false;
    let mut i: usize = 0;
    proof {
        reveal(Seq::filter);
        assert(buffer@.take(0) =~= Seq::<char>::empty());
    }
    while i < len
        invariant
            len == buffer@.len(),
            i <= len,
            cleaned@ == without_newlines(buffer@.take(i as int)),
            submitted == has_newline(buffer@.take(i as int)),
        decreases len - i,
    {
        let c = buffer.get_char(i);
        if c == '\n' {
            submitted = true;
        } else {
            push_char(&mut cleaned, c);
        }
        proof {
            reveal(Seq::filter);
            let pre = buffer@.take(i as int);
            let post = buffer@.take(i as int + 1);
            assert(post.drop_last() =~= pre);
            assert(post.last() == buffer@[i as int]);
            if c == '\n' {
                assert(post[i as int] == '\n');
            } else {
                if has_newline(pre) {
                    let k = choose|k: int| 0 <= k < pre.len() && pre[k] == '\n';
                    assert(post[k] == '\n');
                }
                if has_newline(post) {
                    let k = choose|k: int| 0 <= k < post.len() && post[k] == '\n';
                    assert(k < i ==> pre[k] == '\n');
                }
            }
        }
        i = i + 1;
    }
    proof {
        assert(buffer@.take(len as int) =~= buffer@);
    }
    (cleaned, submitted)
}

} // verus!
