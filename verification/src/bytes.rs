//! Bytes of a file as text.
use vstd::prelude::*;
use vstd::utf8::*;

verus! {

/// `String::from_utf8` makes a string of bytes that are valid UTF-8, and of no others; the string
/// holds the characters that the bytes encode.
#[verifier::external_body]
pub(crate) fn string_from_utf8(bytes: Vec<u8>) -> (r: Option<String>)
    ensures
        r is Some <==> valid_utf8(bytes@),
        r matches Some(s) ==> s@ == decode_utf8(bytes@),
{
    String::from_utf8(bytes).ok()
}

/// The characters that `String::from_utf8_lossy` reads from bytes.
pub uninterp spec fn utf8_lossy(bytes: Seq<u8>) -> Seq<char>;

/// `String::from_utf8_lossy` reads the characters of bytes, with replacement characters for what is
/// not valid UTF-8; bytes that are valid UTF-8 give the characters that they encode.
#[verifier::external_body]
pub(crate) fn string_from_utf8_lossy(bytes: &[u8]) -> (s: String)
    ensures
        s@ == utf8_lossy(bytes@),
        valid_utf8(bytes@) ==> s@ == decode_utf8(bytes@),
{
    String::from_utf8_lossy(bytes).into_owned()
}

/// The bytes up to the first zero byte, or all of them.
pub open spec fn before_zero(data: Seq<u8>) -> Seq<u8>
    decreases data.len(),
{
    if data.len() == 0 || data[0] == 0 {
        Seq::empty()
    } else {
        seq![data[0]] + before_zero(data.skip(1))
    }
}

/// The bytes from an offset up to the next zero byte, or to the end.
pub fn bytes_before_zero(data: &[u8], offset: usize) -> (bytes: Vec<u8>)
    requires
        offset <= data@.len(),
    ensures
        bytes@ == before_zero(data@.skip(offset as int)),
{
    let n: usize = data.len();
    let mut bytes: Vec<u8> = Vec::new();
    let mut i: usize = offset;
    let ghost all = before_zero(data@.skip(offset as int));
    assert(all =~= bytes@ + before_zero(data@.skip(i as int)));
    while i < n && data[i] != 0
        invariant
            n == data@.len(),
            offset <= i <= n,
            all == bytes@ + before_zero(data@.skip(i as int)),
        decreases n - i,
    {
        proof {
            let rest = data@.skip(i as int);
            assert(rest[0] == data@[i as int]);
            assert(rest.skip(1) =~= data@.skip(i + 1));
            assert(all =~= bytes@.push(data@[i as int]) + before_zero(data@.skip(i + 1)));
        }
        bytes.push(data[i]);
        i = i + 1;
    }
    proof {
        let rest = data@.skip(i as int);
        if i < n {
            assert(rest[0] == data@[i as int]);
        }
        assert(before_zero(rest) =~= Seq::<u8>::empty());
        assert(bytes@ =~= all);
    }
    bytes
}

/// What stands before the first zero byte holds no zero byte, and is followed by one unless it is
/// everything.
pub proof fn law_text_ends_at_the_first_zero(data: Seq<u8>)
    ensures
        before_zero(data).is_prefix_of(data),
        !before_zero(data).contains(0u8),
        before_zero(data).len() < data.len() ==> data[before_zero(data).len() as int] == 0,
    decreases data.len(),
{
    if data.len() > 0 && data[0] != 0 {
        let rest = data.skip(1);
        law_text_ends_at_the_first_zero(rest);
        let b = before_zero(data);
        let r = before_zero(rest);
        assert(b =~= data.take(b.len() as int)) by {
            assert forall|i: int| 0 <= i < b.len() implies b[i] == data[i] by {
                if i > 0 {
                    assert(r[i - 1] == rest.take(r.len() as int)[i - 1]);
                }
            }
        }
        assert forall|i: int| 0 <= i < b.len() implies b[i] != 0 by {
            if i > 0 {
                assert(r.contains(r[i - 1]));
            }
        }
    } else {
        assert(before_zero(data) =~= data.take(0));
    }
}

} // verus!
