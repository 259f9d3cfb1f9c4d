//! UTF-16 text for the Windows API.

use vstd::prelude::*;
use crate::text::chars_of;

verus! {

/// The UTF-16 code units of one character: itself below U+10000, else a
/// high/low surrogate pair.
pub open spec fn utf16_of_char(c: char) -> Seq<u16> {
    let v = c as u32;
    if v < 0x10000 {
        seq![v as u16]
    } else {
        let u = (v - 0x10000) as u32;
        seq![(0xD800 + u / 0x400) as u16, (0xDC00 + u % 0x400) as u16]
    }
}

/// The UTF-16 encoding of a character sequence (`str::encode_utf16`).
pub open spec fn utf16_encode(s: Seq<char>) -> Seq<u16>
    decreases s.len(),
{
    if s.len() == 0 {
        Seq::empty()
    } else {
        utf16_encode(s.drop_last()) + utf16_of_char(s.last())
    }
}

/// The units of one character: a BMP character is one unit, never a low
/// surrogate, and 0 only for U+0000; any other character is a high
/// surrogate followed by a low one.
proof fn lemma_char_units(c: char)
    ensures
        (c as u32) < 0x10000 ==> {
            &&& utf16_of_char(c).len() == 1
            &&& utf16_of_char(c)[0] == c as u32
            &&& !(0xDC00 <= utf16_of_char(c)[0] <= 0xDFFF)
        },
        (c as u32) >= 0x10000 ==> {
            &&& utf16_of_char(c).len() == 2
            &&& 0xD800 <= utf16_of_char(c)[0] <= 0xDBFF
            &&& 0xDC00 <= utf16_of_char(c)[1] <= 0xDFFF
        },
{
    vstd::utf8::char_is_scalar(c);
    let v = c as u32;
    if v >= 0x10000 {
        let u = (v - 0x10000) as u32;
        assert(u <= 0xFFFFF);
        assert(u / 0x400 <= 0x3FF) by (nonlinear_arith)
            requires
                u <= 0xFFFFF,
        ;
        assert(u % 0x400 < 0x400) by (nonlinear_arith);
    }
}

/// Two characters with the same units are the same character.
proof fn lemma_char_units_injective(a: char, b: char)
    requires
        utf16_of_char(a) == utf16_of_char(b),
    ensures
        a == b,
{
    lemma_char_units(a);
    lemma_char_units(b);
    let va = a as u32;
    let vb = b as u32;
    if va >= 0x10000 && vb >= 0x10000 {
        vstd::utf8::char_is_scalar(a);
        vstd::utf8::char_is_scalar(b);
        let ua = (va - 0x10000) as u32;
        let ub = (vb - 0x10000) as u32;
        assert(ua / 0x400 <= 0x3FF && ub / 0x400 <= 0x3FF) by (nonlinear_arith)
            requires
                ua <= 0xFFFFF,
                ub <= 0xFFFFF,
        ;
        assert(ua % 0x400 < 0x400 && ub % 0x400 < 0x400) by (nonlinear_arith);
        assert(utf16_of_char(a)[0] == utf16_of_char(b)[0]);
        assert(utf16_of_char(a)[1] == utf16_of_char(b)[1]);
        assert(ua / 0x400 == ub / 0x400);
        assert(ua % 0x400 == ub % 0x400);
        assert(ua == ub) by (nonlinear_arith)
            requires
                ua / 0x400 == ub / 0x400,
                ua % 0x400 == ub % 0x400,
        ;
    } else if va < 0x10000 && vb < 0x10000 {
        assert(utf16_of_char(a)[0] == utf16_of_char(b)[0]);
    } else {
        assert(utf16_of_char(a).len() == utf16_of_char(b).len());
    }
    vstd::utf8::char_u32_cast(a, va);
    vstd::utf8::char_u32_cast(b, vb);
}

/// Distinct texts have distinct UTF-16 encodings.
pub proof fn lemma_utf16_encode_injective(a: Seq<char>, b: Seq<char>)
    requires
        utf16_encode(a) == utf16_encode(b),
    ensures
        a == b,
    decreases a.len() + b.len(),
{
    if a.len() == 0 || b.len() == 0 {
        if a.len() > 0 {
            lemma_char_units(a.last());
            assert(utf16_encode(a).len() == utf16_encode(a.drop_last()).len() + utf16_of_char(
                a.last(),
            ).len());
        }
        if b.len() > 0 {
            lemma_char_units(b.last());
            assert(utf16_encode(b).len() == utf16_encode(b.drop_last()).len() + utf16_of_char(
                b.last(),
            ).len());
        }
        assert(a.len() == 0 && b.len() == 0);
        assert(a =~= b);
    } else {
        let ea = utf16_encode(a.drop_last());
        let eb = utf16_encode(b.drop_last());
        let ua = utf16_of_char(a.last());
        let ub = utf16_of_char(b.last());
        let e = utf16_encode(a);
        lemma_char_units(a.last());
        lemma_char_units(b.last());
        assert(e == ea + ua);
        assert(e == eb + ub);
        assert(e.last() == ua.last());
        assert(e.last() == ub.last());
        assert(ua.len() == ub.len());
        assert(ua =~= e.subrange(e.len() - ua.len(), e.len() as int));
        assert(ub =~= e.subrange(e.len() - ub.len(), e.len() as int));
        assert(ea =~= e.subrange(0, e.len() - ua.len()));
        assert(eb =~= e.subrange(0, e.len() - ub.len()));
        lemma_char_units_injective(a.last(), b.last());
        lemma_utf16_encode_injective(a.drop_last(), b.drop_last());
        assert(a =~= a.drop_last().push(a.last()));
        assert(b =~= b.drop_last().push(b.last()));
    }
}

/// A text encodes to at least as many units as it has characters.
pub proof fn lemma_utf16_encode_len(s: Seq<char>)
    ensures
        utf16_encode(s).len() >= s.len(),
    decreases s.len(),
{
    if s.len() > 0 {
        lemma_utf16_encode_len(s.drop_last());
        lemma_char_units(s.last());
    }
}

/// A text without U+0000 encodes to units none of which is 0.
pub proof fn lemma_utf16_encode_nonzero(s: Seq<char>)
    requires
        !s.contains('\0'),
    ensures
        forall|k: int| 0 <= k < utf16_encode(s).len() ==> utf16_encode(s)[k] != 0,
    decreases s.len(),
{
    if s.len() > 0 {
        let t = s.drop_last();
        assert(!t.contains('\0')) by {
            if t.contains('\0') {
                let k = choose|k: int| 0 <= k < t.len() && t[k] == '\0';
                assert(s[k] == '\0');
            }
        }
        lemma_utf16_encode_nonzero(t);
        let c = s.last();
        assert(s[s.len() - 1] == c);
        lemma_char_units(c);
        if (c as u32) == 0 {
            vstd::utf8::char_u32_cast(c, 0u32);
            vstd::utf8::char_u32_cast('\0', 0u32);
        }
        let e = utf16_encode(s);
        assert forall|k: int| 0 <= k < e.len() implies e[k] != 0 by {
            if k < utf16_encode(t).len() {
                assert(e[k] == utf16_encode(t)[k]);
            } else {
                assert(e[k] == utf16_of_char(c)[k - utf16_encode(t).len()]);
            }
        }
    }
}

/// `s` as a NUL-terminated UTF-16 string.
pub fn to_wide(s: &str) -> (w: Vec<u16>)
    ensures
        w@ == utf16_encode(s@).push(0u16),
{
    let cs = chars_of(s);
    let mut w: Vec<u16> = Vec::new();
    let mut i: usize = 0;
    while i < cs.len()
        invariant
            cs@ == s@,
            i <= cs.len(),
            w@ == utf16_encode(s@.take(i as int)),
        decreases cs.len() - i,
    {
        let c = cs[i];
        let v = c as u32;
        assert(s@.take(i + 1).drop_last() =~= s@.take(i as int));
        assert(s@.take(i + 1).last() == c);
        if v < 0x10000 {
            w.push(v as u16);
            assert(w@ =~= utf16_encode(s@.take(i + 1)));
        } else {
            let u = v - 0x10000;
            proof {
                vstd::utf8::char_is_scalar(c);
            }
            assert(u <= 0xFFFFF);
            w.push((0xD800 + u / 0x400) as u16);
            w.push((0xDC00 + u % 0x400) as u16);
            assert(w@ =~= utf16_encode(s@.take(i + 1)));
        }
        i = i + 1;
    }
    assert(s@.take(cs.len() as int) =~= s@);
    w.push(0u16);
    w
}

} // verus!
