//! UTF-16 code units of text, and the two calls into std that convert between
//! strings and code units.
use vstd::prelude::*;

verus! {

/// The UTF-16 code units of one character.
pub open spec fn char_units(c: char) -> Seq<u16> {
    let v = c as int;
    if v < 0x10000 {
        seq![v as u16]
    } else {
        seq![(0xD800 + (v - 0x10000) / 0x400) as u16, (0xDC00 + (v - 0x10000) % 0x400) as u16]
    }
}

/// The UTF-16 code units of a run of characters.
pub open spec fn utf16_of(s: Seq<char>) -> Seq<u16>
    decreases s.len(),
{
    if s.len() == 0 {
        Seq::empty()
    } else {
        char_units(s[0]) + utf16_of(s.drop_first())
    }
}

/// Whether a run of code units is well-formed UTF-16.
pub open spec fn is_utf16(u: Seq<u16>) -> bool {
    exists|s: Seq<char>| utf16_of(s) == u
}

/// The text that a well-formed run of code units stands for.
pub open spec fn text_of(u: Seq<u16>) -> Seq<char> {
    choose|s: Seq<char>| utf16_of(s) == u
}

/// Relies on `str::encode_utf16`: the string's UTF-16 code units, in order.
#[verifier::external_body]
pub(crate) fn encode_utf16(s: &str) -> (r: Vec<u16>)
    ensures
        r@ == utf16_of(s@),
{
    s.encode_utf16().collect()
}

/// Relies on `String::from_utf16`: it fails exactly on ill-formed UTF-16, and
/// otherwise returns the string whose code units were given.
#[verifier::external_body]
pub(crate) fn decode_utf16(units: &[u16]) -> (r: Option<String>)
    ensures
        r is Some <==> is_utf16(units@),
        r matches Some(s) ==> utf16_of(s@) == units@,
{
    String::from_utf16(units).ok()
}

proof fn lemma_char_units(c: char)
    ensures
        1 <= char_units(c).len() <= 2,
        char_units(c).len() == 1 <==> (char_units(c)[0] < 0xD800 || char_units(c)[0] > 0xDFFF),
        char_units(c).len() == 1 ==> char_units(c)[0] as int == c as int,
        char_units(c).len() == 2 ==> 0xD800 <= char_units(c)[0] < 0xDC00 && 0xDC00
            <= char_units(c)[1] < 0xE000 && c as int == 0x10000 + (char_units(c)[0] - 0xD800)
            * 0x400 + (char_units(c)[1] - 0xDC00),
{
    let v = c as int;
    assert((0 <= v <= 0xD7FF) || (0xE000 <= v <= 0x10FFFF));
    if v >= 0x10000 {
        let w = v - 0x10000;
        assert(0 <= w / 0x400 < 0x400);
        assert(w == (w / 0x400) * 0x400 + w % 0x400);
    }
}

/// Distinct texts have distinct code units.
pub proof fn lemma_utf16_injective(a: Seq<char>, b: Seq<char>)
    requires
        utf16_of(a) == utf16_of(b),
    ensures
        a == b,
    decreases a.len(),
{
    if a.len() == 0 {
        if b.len() > 0 {
            lemma_char_units(b[0]);
        }
        assert(a =~= b);
    } else {
        lemma_char_units(a[0]);
        if b.len() == 0 {
            assert(utf16_of(a).len() > 0);
        } else {
            lemma_char_units(b[0]);
            let ua = char_units(a[0]);
            let ub = char_units(b[0]);
            assert(utf16_of(a)[0] == ua[0]);
            assert(utf16_of(b)[0] == ub[0]);
            if ua.len() == 2 {
                assert(utf16_of(a)[1] == ua[1]);
                assert(utf16_of(b)[1] == ub[1]);
            }
            assert(ua.len() == ub.len());
            assert(a[0] as int == b[0] as int);
            assert(ua == ub);
            let ra = utf16_of(a.drop_first());
            let rb = utf16_of(b.drop_first());
            assert(ra =~= utf16_of(a).subrange(ua.len() as int, utf16_of(a).len() as int));
            assert(rb =~= utf16_of(b).subrange(ub.len() as int, utf16_of(b).len() as int));
            lemma_utf16_injective(a.drop_first(), b.drop_first());
            assert(a =~= seq![a[0]] + a.drop_first());
            assert(b =~= seq![b[0]] + b.drop_first());
        }
    }
}

/// The code units of a text name that text back.
pub proof fn lemma_text_of_utf16(s: Seq<char>)
    ensures
        is_utf16(utf16_of(s)),
        text_of(utf16_of(s)) == s,
{
    let u = utf16_of(s);
    assert(utf16_of(s) == u);
    let t = text_of(u);
    lemma_utf16_injective(t, s);
}

/// The text of a run of code units below `0x80`: one character per unit.
pub open spec fn ascii_chars(u: Seq<u16>) -> Seq<char> {
    Seq::new(u.len(), |i: int| (u[i] as u32) as char)
}

/// A run of code units below `0x80` is well-formed UTF-16, one character each.
pub proof fn lemma_ascii_utf16(u: Seq<u16>)
    requires
        forall|i: int| 0 <= i < u.len() ==> u[i] < 0x80,
    ensures
        utf16_of(ascii_chars(u)) == u,
        is_utf16(u),
    decreases u.len(),
{
    let s = ascii_chars(u);
    if u.len() == 0 {
        assert(utf16_of(s) =~= u);
    } else {
        lemma_ascii_utf16(u.drop_first());
        assert(s.drop_first() =~= ascii_chars(u.drop_first()));
        assert(s[0] as int == u[0] as int);
        assert(utf16_of(s) =~= u);
    }
}

} // verus!
