//! Resolution of patch URIs from a URI template and an entry index.
//!
//! The `{id}` placeholder of a template is replaced by the entry index written
//! in base32hex (RFC 4648, without padding) over the index's big-endian bytes,
//! leading zero bytes dropped.
use vstd::prelude::*;

verus! {

/// The base32hex digit of value `v` (`0`-`9`, then `A`-`V`).
pub open spec fn digit_char(v: u8) -> char {
    if v < 10 {
        (48 + v) as u8 as char
    } else {
        (55 + v) as u8 as char
    }
}

/// The `k` lowest base-32 digits of `p`, most significant first.
pub open spec fn base32_digits(p: nat, k: nat) -> Seq<char>
    decreases k,
{
    if k == 0 {
        seq![]
    } else {
        base32_digits(p / 32, (k - 1) as nat).push(digit_char((p % 32) as u8))
    }
}

/// The base32hex text of an entry index: its significant bytes (at least
/// one) are padded with zero bits up to a multiple of five bits, and each
/// group of five bits gives one digit.
pub open spec fn entry_id(index: u32) -> Seq<char> {
    if index < 0x100 {
        base32_digits(index as nat * 4, 2)
    } else if index < 0x1_0000 {
        base32_digits(index as nat * 16, 4)
    } else if index < 0x100_0000 {
        base32_digits(index as nat * 2, 5)
    } else {
        base32_digits(index as nat * 8, 7)
    }
}

/// The placeholder in a URI template that stands for the entry id.
pub open spec fn id_placeholder() -> Seq<char> {
    seq!['{', 'i', 'd', '}']
}

/// `s` with every non-overlapping occurrence of `pat`, found from the left,
/// replaced by `to`.
pub open spec fn replaced(s: Seq<char>, pat: Seq<char>, to: Seq<char>) -> Seq<char>
    decreases s.len(),
{
    if pat.len() == 0 || s.len() < pat.len() {
        s
    } else if s.subrange(0, pat.len() as int) == pat {
        to + replaced(s.subrange(pat.len() as int, s.len() as int), pat, to)
    } else {
        seq![s[0]] + replaced(s.subrange(1, s.len() as int), pat, to)
    }
}

/// The URI that `template` resolves to for entry `index`.
pub open spec fn expand_template(template: Seq<char>, index: u32) -> Seq<char> {
    replaced(template, id_placeholder(), entry_id(index))
}

/// Relies on `String::push`: appends one character to the string.
#[verifier::external_body]
fn push_char(s: &mut String, c: char)
    ensures
        final(s)@ == old(s)@.push(c),
{
    s.push(c)
}

/// Relies on `str::replace`: all non-overlapping matches of `pat`, taken from
/// the left, are replaced by `to`.
#[verifier::external_body]
fn replace_all(s: &str, pat: &str, to: &str) -> (r: String)
    requires
        pat@.len() > 0,
    ensures
        r@ == replaced(s@, pat@, to@),
{
    s.replace(pat, to)
}

/// The base32hex digit of value `v`.
fn digit(v: u8) -> (c: char)
    requires
        v < 32,
    ensures
        c == digit_char(v),
{
    if v < 10 {
        (48 + v) as char
    } else {
        (55 + v) as char
    }
}

/// Appends the `k` lowest base-32 digits of `p` to `s`.
fn push_base32_digits(s: &mut String, p: u64, k: usize)
    ensures
        final(s)@ == old(s)@ + base32_digits(p as nat, k as nat),
    decreases k,
{
    if k > 0 {
        push_base32_digits(s, p / 32, k - 1);
        let c = digit((p % 32) as u8);
        push_char(s, c);
        assert(final(s)@ =~= old(s)@ + base32_digits(p as nat, k as nat));
    } else {
        assert(old(s)@ + base32_digits(p as nat, k as nat) =~= old(s)@);
    }
}

/// The base32hex id of entry `index`.
pub fn entry_id_string(index: u32) -> (r: String)
    ensures
        r@ == entry_id(index),
{
    let mut s = String::new();
    if index < 0x100 {
        push_base32_digits(&mut s, index as u64 * 4, 2);
    } else if index < 0x1_0000 {
        push_base32_digits(&mut s, index as u64 * 16, 4);
    } else if index < 0x100_0000 {
        push_base32_digits(&mut s, index as u64 * 2, 5);
    } else {
        push_base32_digits(&mut s, index as u64 * 8, 7);
    }
    assert(s@ =~= entry_id(index));
    s
}

/// Resolves `template` for entry `index`: each `{id}` becomes the entry's id.
pub fn resolve_uri(template: &str, index: u32) -> (r: String)
    ensures
        r@ == expand_template(template@, index),
{
    let id = entry_id_string(index);
    let placeholder = "{id}";
    proof {
        reveal_strlit("{id}");
        assert(placeholder@ =~= id_placeholder());
    }
    replace_all(template, placeholder, id.as_str())
}

} // verus!
