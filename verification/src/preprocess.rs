//! Normalization of inbound message content before it enters the engine:
//! lowercasing, newline flattening, de-obfuscation of cursive lookalike
//! letters, compatibility decomposition, removal of everything that is not
//! plain ASCII text, and trimming of trailing digits and surrounding
//! spaces.  Content that is empty after normalization is rejected.

use vstd::prelude::*;

use unicode_normalization::UnicodeNormalization;

use crate::bucket::ascii_seq;
use crate::error::BotError;
use crate::similarity::scorable;

verus! {

/// First codepoint of the cursive lookalike alphabet: its fifty-two
/// letters stand for `A`..`Z` then `a`..`z`.
pub const CURSIVE_BASE: u32 = 0x1D608;

/// What `str::to_lowercase` returns for the given characters.
pub uninterp spec fn lower_of(s: Seq<char>) -> Seq<char>;

/// Relies on `str::to_lowercase`: the Unicode lowercase mapping depends on
/// the characters alone.
#[verifier::external_body]
fn lowercase_chars(s: &str) -> (r: Vec<char>)
    ensures
        r@ == lower_of(s@),
{
    s.to_lowercase().chars().collect()
}

/// What NFKD compatibility decomposition returns for the given characters.
pub uninterp spec fn nfkd_of(s: Seq<char>) -> Seq<char>;

/// Relies on `unicode_normalization`'s `nfkd`: compatibility decomposition
/// depends on the characters alone.
#[verifier::external_body]
fn nfkd_chars(v: &Vec<char>) -> (r: Vec<char>)
    ensures
        r@ == nfkd_of(v@),
{
    v.iter().cloned().nfkd().collect()
}

/// Newlines become spaces and cursive lookalike letters become the plain
/// letters they imitate; everything else passes through.
pub open spec fn spec_deob_char(c: char) -> char {
    if c == '\n' {
        ' '
    } else if CURSIVE_BASE <= (c as u32) && (c as u32) < CURSIVE_BASE + 26 {
        ((65 + (c as u32 - CURSIVE_BASE)) as u8) as char
    } else if CURSIVE_BASE + 26 <= (c as u32) && (c as u32) < CURSIVE_BASE + 52 {
        ((97 + (c as u32 - CURSIVE_BASE - 26)) as u8) as char
    } else {
        c
    }
}

pub open spec fn spec_deobfuscate(s: Seq<char>) -> Seq<char> {
    s.map_values(|c: char| spec_deob_char(c))
}

fn deobfuscate(v: &Vec<char>) -> (r: Vec<char>)
    ensures
        r@ == spec_deobfuscate(v@),
{
    let mut r: Vec<char> = Vec::new();
    let mut i: usize = 0;
    proof {
        assert(r@ =~= spec_deobfuscate(v@.take(0)));
    }
    while i < v.len()
        invariant
            i <= v@.len(),
            r@ == spec_deobfuscate(v@.take(i as int)),
        decreases v@.len() - i,
    {
        let c = v[i];
        let x = c as u32;
        let d: char = if c == '\n' {
            ' '
        } else if CURSIVE_BASE <= x && x < CURSIVE_BASE + 26 {
            (65 + (x - CURSIVE_BASE)) as u8 as char
        } else if CURSIVE_BASE + 26 <= x && x < CURSIVE_BASE + 52 {
            (97 + (x - CURSIVE_BASE - 26)) as u8 as char
        } else {
            c
        };
        r.push(d);
        proof {
            assert(spec_deobfuscate(v@.take(i + 1)) =~= spec_deobfuscate(v@.take(i as int)).push(
                spec_deob_char(v@[i as int]),
            ));
        }
        i += 1;
    }
    proof {
        assert(v@.take(v@.len() as int) =~= v@);
    }
    r
}

/// ASCII punctuation, as `char::is_ascii_punctuation` defines it.
pub open spec fn spec_is_punct(c: char) -> bool {
    ||| 33 <= (c as u32) && (c as u32) <= 47
    ||| 58 <= (c as u32) && (c as u32) <= 64
    ||| 91 <= (c as u32) && (c as u32) <= 96
    ||| 123 <= (c as u32) && (c as u32) <= 126
}

/// ASCII control characters, as `char::is_control` classifies them within
/// the ASCII range.
pub open spec fn spec_is_control(c: char) -> bool {
    (c as u32) < 32 || (c as u32) == 127
}

/// True for the characters that survive the cleanup: ASCII that is neither
/// punctuation nor a control character.
pub open spec fn spec_keep_char(c: char) -> bool {
    (c as u32) < 128 && !spec_is_punct(c) && !spec_is_control(c)
}

/// The surviving characters as bytes, in order.
pub open spec fn spec_ascii_clean(s: Seq<char>) -> Seq<u8>
    decreases s.len(),
{
    if s.len() == 0 {
        Seq::empty()
    } else {
        let rest = spec_ascii_clean(s.drop_last());
        if spec_keep_char(s.last()) {
            rest.push((s.last() as u32) as u8)
        } else {
            rest
        }
    }
}

/// Everything the cleanup emits is ASCII.
pub proof fn lemma_ascii_clean_ascii(s: Seq<char>)
    ensures
        ascii_seq(spec_ascii_clean(s)),
    decreases s.len(),
{
    if s.len() > 0 {
        lemma_ascii_clean_ascii(s.drop_last());
        let r = spec_ascii_clean(s);
        let rest = spec_ascii_clean(s.drop_last());
        assert forall|i: int| 0 <= i < r.len() implies r[i] < 128 by {
            if spec_keep_char(s.last()) {
                assert(r == rest.push((s.last() as u32) as u8));
                if i < rest.len() {
                    assert(r[i] == rest[i]);
                } else {
                    assert((s.last() as u32) < 128);
                    assert(r[i] == (s.last() as u32) as u8);
                }
            } else {
                assert(r == rest);
            }
        }
    }
}

fn ascii_clean(v: &Vec<char>) -> (r: Vec<u8>)
    ensures
        r@ == spec_ascii_clean(v@),
{
    let mut r: Vec<u8> = Vec::new();
    let mut i: usize = 0;
    proof {
        assert(v@.take(0) =~= Seq::<char>::empty());
    }
    while i < v.len()
        invariant
            i <= v@.len(),
            r@ == spec_ascii_clean(v@.take(i as int)),
        decreases v@.len() - i,
    {
        let c = v[i];
        let x = c as u32;
        let punct = (33 <= x && x <= 47) || (58 <= x && x <= 64) || (91 <= x && x <= 96) || (123
            <= x && x <= 126);
        let control = x < 32 || x == 127;
        proof {
            let t = v@.take(i + 1);
            assert(t.drop_last() =~= v@.take(i as int));
            assert(t.last() == v@[i as int]);
        }
        if x < 128 && !punct && !control {
            r.push(x as u8);
        }
        i += 1;
    }
    proof {
        assert(v@.take(v@.len() as int) =~= v@);
    }
    r
}

/// The content with its trailing decimal digits removed.
pub open spec fn spec_trim_digits(s: Seq<u8>) -> Seq<u8>
    decreases s.len(),
{
    if s.len() > 0 && 48 <= s.last() && s.last() <= 57 {
        spec_trim_digits(s.drop_last())
    } else {
        s
    }
}

/// The content with its surrounding spaces removed: trailing spaces first,
/// then leading ones.
pub open spec fn spec_trim_spaces(s: Seq<u8>) -> Seq<u8>
    decreases s.len(),
{
    if s.len() > 0 && s.last() == 32 {
        spec_trim_spaces(s.drop_last())
    } else if s.len() > 0 && s[0] == 32 {
        spec_trim_spaces(s.drop_first())
    } else {
        s
    }
}

/// Trimming keeps only bytes that already stood in the content.
pub proof fn lemma_trim_digits_ascii(s: Seq<u8>)
    requires
        ascii_seq(s),
    ensures
        ascii_seq(spec_trim_digits(s)),
        spec_trim_digits(s).len() <= s.len(),
    decreases s.len(),
{
    if s.len() > 0 && 48 <= s.last() && s.last() <= 57 {
        assert(forall|i: int| 0 <= i < s.drop_last().len() ==> s.drop_last()[i] == s[i]);
        lemma_trim_digits_ascii(s.drop_last());
    }
}

pub proof fn lemma_trim_spaces_ascii(s: Seq<u8>)
    requires
        ascii_seq(s),
    ensures
        ascii_seq(spec_trim_spaces(s)),
        spec_trim_spaces(s).len() <= s.len(),
    decreases s.len(),
{
    if s.len() > 0 && s.last() == 32 {
        assert(forall|i: int| 0 <= i < s.drop_last().len() ==> s.drop_last()[i] == s[i]);
        lemma_trim_spaces_ascii(s.drop_last());
    } else if s.len() > 0 && s[0] == 32 {
        assert(forall|i: int| 0 <= i < s.drop_first().len() ==> s.drop_first()[i] == s[i + 1]);
        lemma_trim_spaces_ascii(s.drop_first());
    }
}

fn trim_digits(v: &mut Vec<u8>)
    ensures
        final(v)@ == spec_trim_digits(old(v)@),
{
    while v.len() > 0 && v[v.len() - 1] >= 48 && v[v.len() - 1] <= 57
        invariant
            spec_trim_digits(v@) == spec_trim_digits(old(v)@),
        decreases v@.len(),
    {
        v.pop();
        proof {
            assert(v@ =~= v@);
        }
    }
    proof {
        assert(spec_trim_digits(v@) == v@);
    }
}

fn trim_spaces(v: &mut Vec<u8>)
    ensures
        final(v)@ == spec_trim_spaces(old(v)@),
{
    while v.len() > 0 && v[v.len() - 1] == 32
        invariant
            spec_trim_spaces(v@) == spec_trim_spaces(old(v)@),
        decreases v@.len(),
    {
        v.pop();
    }
    while v.len() > 0 && v[0] == 32
        invariant
            spec_trim_spaces(v@) == spec_trim_spaces(old(v)@),
            v@.len() == 0 || v@.last() != 32,
        decreases v@.len(),
    {
        v.remove(0);
        proof {
            assert(v@ =~= v@);
        }
    }
    proof {
        assert(spec_trim_spaces(v@) == v@);
    }
}

/// The normal form of a message content: lowercased, de-obfuscated,
/// decomposed, stripped to plain ASCII text, and trimmed.
pub open spec fn spec_normalized(s: Seq<char>) -> Seq<u8> {
    spec_trim_spaces(
        spec_trim_digits(spec_ascii_clean(nfkd_of(spec_deobfuscate(lower_of(s))))),
    )
}

/// Normalizes a message content; content that normalizes to nothing (or
/// that no machine-sized buffer could score) is rejected.
pub fn preprocess_content(content: &str) -> (r: Result<Vec<u8>, BotError>)
    ensures
        match r {
            Ok(v) => {
                &&& v@ == spec_normalized(content@)
                &&& v@.len() > 0
                &&& ascii_seq(v@)
                &&& scorable(v@)
            },
            Err(e) => {
                &&& spec_normalized(content@).len() == 0 || spec_normalized(content@).len()
                    >= usize::MAX
                &&& e@ == "Message must not contain only punctuation."@
            },
        },
{
    let lowered = lowercase_chars(content);
    let mapped = deobfuscate(&lowered);
    let decomposed = nfkd_chars(&mapped);
    let mut cleaned = ascii_clean(&decomposed);
    proof {
        lemma_ascii_clean_ascii(decomposed@);
    }
    trim_digits(&mut cleaned);
    trim_spaces(&mut cleaned);
    proof {
        lemma_trim_digits_ascii(spec_ascii_clean(nfkd_of(spec_deobfuscate(lower_of(content@)))));
        lemma_trim_spaces_ascii(
            spec_trim_digits(spec_ascii_clean(nfkd_of(spec_deobfuscate(lower_of(content@))))),
        );
    }
    if cleaned.len() == 0 || cleaned.len() == usize::MAX {
        Err(BotError::new("Message must not contain only punctuation.".to_owned()))
    } else {
        Ok(cleaned)
    }
}

} // verus!
