//! Character classification helpers used by text shaping.
use vstd::prelude::*;

verus! {

/// The Unicode bidirectional formatting characters: the embeddings and
/// overrides (U+202A..=U+202E), the isolates (U+2066..=U+2069), and the
/// marks LRM, RLM and ALM.
pub open spec fn spec_is_bidi_control(c: char) -> bool {
    ||| ('\u{202A}' <= c && c <= '\u{202E}')
    ||| ('\u{2066}' <= c && c <= '\u{2069}')
    ||| c == '\u{200E}'
    ||| c == '\u{200F}'
    ||| c == '\u{061C}'
}

/// Returns whether `c` is a bidirectional control character.
pub fn is_bidi_control(c: char) -> (res: bool)
    ensures
        res == spec_is_bidi_control(c),
{
    if '\u{202A}' <= c && c <= '\u{202E}' {
        true
    } else if '\u{2066}' <= c && c <= '\u{2069}' {
        true
    } else {
        c == '\u{200E}' || c == '\u{200F}' || c == '\u{061C}'
    }
}

} // verus!
