//! The stream-observer feature's text handling.  Watching streams, posting
//! announcements and the timers driving them live outside; what belongs to
//! the engine is the escaping of announcement text.

use vstd::prelude::*;

verus! {

/// Namespace of the stream-watching tasks; the tasks themselves run in the
/// surrounding process.
pub struct TwitchScheduler;

/// The characters that carry markdown meaning in an announcement.
pub open spec fn spec_is_markdown(c: char) -> bool {
    c == '_' || c == '*' || c == '~' || c == '`' || c == '|'
}

/// A single character, escaped when it carries markdown meaning.
pub open spec fn spec_escape_char(c: char) -> Seq<char> {
    if spec_is_markdown(c) {
        seq!['\\', c]
    } else {
        seq![c]
    }
}

/// The whole text with every markdown character escaped.
pub open spec fn spec_escape(s: Seq<char>) -> Seq<char>
    decreases s.len(),
{
    if s.len() == 0 {
        Seq::empty()
    } else {
        spec_escape(s.drop_last()) + spec_escape_char(s.last())
    }
}

impl TwitchScheduler {
    /// Escapes markdown control characters in a stream title before it is
    /// posted.
    pub fn escape(text: &str) -> (r: String)
        ensures
            r@ == spec_escape(text@),
    {
        let mut out = String::new();
        proof {
            assert(out@ =~= spec_escape(Seq::<char>::empty()));
        }
        for c in it: text.chars()
            invariant
                it.seq() == text@,
                out@ == spec_escape(text@.take(it.index() as int)),
        {
            proof {
                let t = text@.take(it.index() + 1);
                assert(t.drop_last() =~= text@.take(it.index() as int));
                assert(t.last() == text@[it.index() as int]);
            }
            if c == '_' || c == '*' || c == '~' || c == '`' || c == '|' {
                out.push('\\');
            }
            out.push(c);
            proof {
                assert(out@ =~= spec_escape(text@.take(it.index() as int))
                    + spec_escape_char(c));
            }
        }
        proof {
            assert(text@.take(text@.len() as int) =~= text@);
        }
        out
    }
}

} // verus!
