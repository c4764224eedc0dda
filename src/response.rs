use vstd::prelude::*;

verus! {

/// Length of the status trailer that the card appends to every response.
pub const TRAILER_LEN: usize = 2;

/// The command that asks a contactless card for its unique identifier
/// (class FF, instruction CA, no parameters, full length expected).
pub open spec fn identify_command_spec() -> Seq<u8> {
    seq![0xFFu8, 0xCAu8, 0x00u8, 0x00u8, 0x00u8]
}

/// The bytes to send to a freshly connected card.
pub fn identify_command() -> (r: Vec<u8>)
    ensures
        r@ == identify_command_spec(),
{
    let r: Vec<u8> = vec![0xFFu8, 0xCAu8, 0x00u8, 0x00u8, 0x00u8];
    assert(r@ =~= identify_command_spec());
    r
}

/// A response too short to hold the status trailer.
#[derive(Debug, Clone, Copy, PartialEq, Eq)]
pub struct MalformedResponse {
    pub len: usize,
}

/// The identifier carried by a well-formed raw response: all but the trailer.
pub open spec fn identifier_of(raw: Seq<u8>) -> Seq<u8>
    recommends
        raw.len() >= 2,
{
    raw.subrange(0, raw.len() - 2)
}

/// Strips the status trailer off a raw card response.
pub fn extract_identifier(raw: &Vec<u8>) -> (r: Result<Vec<u8>, MalformedResponse>)
    ensures
        r is Ok <==> raw@.len() >= 2,
        r matches Ok(id) ==> id@ == identifier_of(raw@),
        r matches Err(e) ==> e.len == raw@.len(),
{
    let n = raw.len();
    if n < TRAILER_LEN {
        return Err(MalformedResponse { len: n });
    }
    let mut id: Vec<u8> = Vec::new();
    let mut i: usize = 0;
    while i < n - TRAILER_LEN
        invariant
            n == raw@.len(),
            n >= 2,
            i <= n - 2,
            id@ == raw@.subrange(0, i as int),
        decreases n - 2 - i,
    {
        id.push(raw[i]);
        i += 1;
        assert(id@ =~= raw@.subrange(0, i as int));
    }
    Ok(id)
}

/// The lowercase hexadecimal digits, indexed by value.
pub open spec fn hex_digits() -> Seq<char> {
    seq!['0', '1', '2', '3', '4', '5', '6', '7', '8', '9', 'a', 'b', 'c', 'd', 'e', 'f']
}

/// Lowercase hexadecimal text of a byte string, two digits per byte,
/// high nibble first.
pub open spec fn hex_lower(b: Seq<u8>) -> Seq<char>
    decreases b.len(),
{
    if b.len() == 0 {
        Seq::empty()
    } else {
        let last = b.last();
        hex_lower(b.drop_last()) + seq![hex_digits()[last as int / 16], hex_digits()[last as int % 16]]
    }
}

/// Relies on hex::encode: lowercase digits from the table `0123456789abcdef`,
/// the high nibble of each byte before the low one, in input order.
#[verifier::external_body]
fn to_hex(b: &Vec<u8>) -> (r: String)
    ensures
        r@ == hex_lower(b@),
{
    hex::encode(b)
}

/// The hexadecimal token under which an identifier is delivered.
pub fn identifier_token(id: &Vec<u8>) -> (r: String)
    ensures
        r@ == hex_lower(id@),
{
    to_hex(id)
}

/// Every `{}` of `t`, taken from left to right without overlap, replaced by `tok`.
pub open spec fn fill_template(t: Seq<char>, tok: Seq<char>) -> Seq<char>
    decreases t.len(),
{
    if t.len() == 0 {
        Seq::empty()
    } else if t.len() >= 2 && t[0] == '{' && t[1] == '}' {
        tok + fill_template(t.skip(2), tok)
    } else {
        seq![t[0]] + fill_template(t.skip(1), tok)
    }
}

/// Substitutes `token` for each `{}` placeholder of `template`.
pub fn fill_placeholder(template: &str, token: &str) -> (r: String)
    ensures
        r@ == fill_template(template@, token@),
{
    let n = template.unicode_len();
    let mut out = String::new();
    let mut i: usize = 0;
    assert(template@.skip(0) =~= template@);
    assert(out@ + fill_template(template@, token@) =~= fill_template(template@, token@));
    while i < n
        invariant
            n == template@.len(),
            i <= n,
            out@ + fill_template(template@.skip(i as int), token@) == fill_template(template@, token@),
        decreases n - i,
    {
        let ghost rest = template@.skip(i as int);
        if i + 1 < n && template.get_char(i) == '{' && template.get_char(i + 1) == '}' {
            out.append(token);
            assert(rest.skip(2) =~= template@.skip(i + 2));
            assert(fill_template(rest, token@) == token@ + fill_template(rest.skip(2), token@));
            i += 2;
        } else {
            let c = template.substring_char(i, i + 1);
            out.append(c);
            assert(c@ =~= seq![rest[0]]);
            assert(rest.skip(1) =~= template@.skip(i + 1));
            i += 1;
        }
    }
    assert(template@.skip(n as int) =~= Seq::<char>::empty());
    assert(out@ =~= out@ + Seq::<char>::empty());
    out
}

} // verus!
