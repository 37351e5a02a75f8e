use vstd::prelude::*;
use vstd::string::*;

verus! {

/// The text that a byte string decodes to when each invalid UTF-8 sequence is
/// replaced by U+FFFD.
pub uninterp spec fn lossy_text(b: Seq<u8>) -> Seq<char>;

/// Relies on `String::from_utf8_lossy`: the decoded text depends on the bytes
/// alone, and no bytes decode to no text.
#[verifier::external_body]
fn decode_lossy(b: &[u8]) -> (r: String)
    ensures
        r@ == lossy_text(b@),
        b@.len() == 0 ==> r@.len() == 0,
{
    String::from_utf8_lossy(b).into_owned()
}

/// The line that appending `contents` to a file writes: the bytes decoded as
/// UTF-8, invalid sequences replaced, followed by a newline.
pub fn line_of(contents: &[u8]) -> (r: String)
    ensures
        r@ == lossy_text(contents@).push('\n'),
        contents@.len() == 0 ==> r@ == seq!['\n'],
{
    let text = decode_lossy(contents);
    proof {
        reveal_strlit("\n");
        assert("\n"@ =~= seq!['\n']);
    }
    let r = text.concat("\n");
    proof {
        assert(r@ =~= lossy_text(contents@).push('\n'));
    }
    r
}

} // verus!
