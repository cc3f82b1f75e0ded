//! Classical substitution ciphers: Caesar and Vigenere. Both work on
//! ASCII text, shift letters within their case, and leave every other
//! character unchanged.
use vstd::prelude::*;

use crate::chars::push_char;

verus! {

/// Every character of the sequence is ASCII.
pub open spec fn all_ascii(s: Seq<char>) -> bool {
    forall|i: int| 0 <= i < s.len() ==> '\0' <= #[trigger] s[i] <= '\u{7f}'
}

/// A letter shifted forward by `key` places within its own case;
/// any other character is returned unchanged.
pub open spec fn enc_char(c: char, key: u8) -> char {
    if 'A' <= c && c <= 'Z' {
        if c as u32 + key as u32 > 'Z' as u32 {
            ((c as u32 + key as u32 - 26) as u8) as char
        } else {
            ((c as u32 + key as u32) as u8) as char
        }
    } else if 'a' <= c && c <= 'z' {
        if c as u32 + key as u32 > 'z' as u32 {
            ((c as u32 + key as u32 - 26) as u8) as char
        } else {
            ((c as u32 + key as u32) as u8) as char
        }
    } else {
        c
    }
}

/// A letter shifted backward by `key` places within its own case;
/// any other character is returned unchanged.
pub open spec fn dec_char(c: char, key: u8) -> char {
    if 'A' <= c && c <= 'Z' {
        if (c as int - key as int) < ('A' as u32 as int) {
            ((c as int - key as int + 26) as u8) as char
        } else {
            ((c as int - key as int) as u8) as char
        }
    } else if 'a' <= c && c <= 'z' {
        if (c as int - key as int) < ('a' as u32 as int) {
            ((c as int - key as int + 26) as u8) as char
        } else {
            ((c as int - key as int) as u8) as char
        }
    } else {
        c
    }
}

/// The shift value a key character contributes: letters map to 0..=25 by
/// alphabet position (case-insensitively), anything else maps to 0.
pub open spec fn key_val(c: char) -> u8 {
    if 'a' <= c && c <= 'z' {
        (c as u32 - 'a' as u32) as u8
    } else if 'A' <= c && c <= 'Z' {
        (c as u32 - 'A' as u32) as u8
    } else {
        0
    }
}

/// The shift values of a whole key.
pub open spec fn key_vals(key: Seq<char>) -> Seq<u8> {
    key.map_values(|c: char| key_val(c))
}

/// Vigenere encryption of `text` with the shift values `key`, starting at
/// key position `j`. The key position advances (cyclically) only on
/// letters; other characters pass through unchanged.
pub open spec fn vig_enc(text: Seq<char>, key: Seq<u8>, j: int) -> Seq<char>
    decreases text.len(),
{
    if text.len() == 0 || key.len() == 0 {
        Seq::empty()
    } else {
        let jj = if j == key.len() {
            0
        } else {
            j
        };
        let c = text[0];
        if ('A' <= c && c <= 'Z') || ('a' <= c && c <= 'z') {
            seq![enc_char(c, key[jj])] + vig_enc(text.drop_first(), key, jj + 1)
        } else {
            seq![c] + vig_enc(text.drop_first(), key, jj)
        }
    }
}

/// Vigenere decryption, the exact inverse walk of `vig_enc`.
pub open spec fn vig_dec(text: Seq<char>, key: Seq<u8>, j: int) -> Seq<char>
    decreases text.len(),
{
    if text.len() == 0 || key.len() == 0 {
        Seq::empty()
    } else {
        let jj = if j == key.len() {
            0
        } else {
            j
        };
        let c = text[0];
        if ('A' <= c && c <= 'Z') || ('a' <= c && c <= 'z') {
            seq![dec_char(c, key[jj])] + vig_dec(text.drop_first(), key, jj + 1)
        } else {
            seq![c] + vig_dec(text.drop_first(), key, jj)
        }
    }
}

/// The shift values of the key, or `None` when the key or the text is not
/// ASCII.
fn _vigenere_aux(key: &str, text: &str) -> (r: Option<Vec<u8>>)
    ensures
        r is Some <==> (all_ascii(key@) && all_ascii(text@)),
        r is Some ==> r->Some_0@ == key_vals(key@),
{
    if !key.is_ascii() || !text.is_ascii() {
        return None;
    }
    let n = key.unicode_len();
    let mut vals: Vec<u8> = Vec::new();
    let mut i: usize = 0;
    while i < n
        invariant
            n == key@.len(),
            i <= n,
            vals@ == key_vals(key@.take(i as int)),
        decreases n - i,
    {
        let c = key.get_char(i);
        let v: u8 = if 'a' <= c && c <= 'z' {
            (c as u32 as u8) - ('a' as u32 as u8)
        } else if 'A' <= c && c <= 'Z' {
            (c as u32 as u8) - ('A' as u32 as u8)
        } else {
            0
        };
        vals.push(v);
        proof {
            assert(key@.take(i as int).map_values(|kc: char| key_val(kc)).push(key_val(key@[i as int]))
                =~= key@.take(i as int + 1).map_values(|kc: char| key_val(kc)));
        }
        i += 1;
    }
    proof {
        assert(key@.take(n as int) =~= key@);
    }
    Some(vals)
}

/// Encrypts `text` with the Vigenere cipher under `key`; `None` when
/// either string is not ASCII. A nonempty text needs a nonempty key.
pub fn vigenere_encrypt(text: &str, key: &str) -> (r: Option<String>)
    requires
        (all_ascii(key@) && all_ascii(text@) && key@.len() == 0) ==> text@.len() == 0,
    ensures
        r is Some <==> (all_ascii(key@) && all_ascii(text@)),
        r is Some ==> r->Some_0@ == vig_enc(text@, key_vals(key@), 0),
{
    let vals = match _vigenere_aux(key, text) {
        Some(v) => v,
        None => {
            return None;
        },
    };
    let n = text.unicode_len();
    let klen = vals.len();
    let mut result = String::new();
    let mut j: usize = 0;
    let mut i: usize = 0;
    proof {
        assert(text@.skip(0) =~= text@);
    }
    while i < n
        invariant
            n == text@.len(),
            i <= n,
            vals@ == key_vals(key@),
            klen == vals@.len(),
            i < n ==> klen > 0,
            j <= klen,
            vig_enc(text@, vals@, 0) == result@ + vig_enc(text@.skip(i as int), vals@, j as int),
        decreases n - i,
    {
        if j == klen {
            j = 0;
        }
        let c = text.get_char(i);
        proof {
            assert(text@.skip(i as int)[0] == text@[i as int]);
            assert(text@.skip(i as int).drop_first() =~= text@.skip(i as int + 1));
        }
        let k = vals[j];
        if ('A' <= c && c <= 'Z') || ('a' <= c && c <= 'z') {
            let v: u8 = if c <= 'Z' {
                if c as u32 as u8 + k > ('Z' as u32 as u8) {
                    c as u32 as u8 + k - 26
                } else {
                    c as u32 as u8 + k
                }
            } else {
                if c as u32 as u8 + k > ('z' as u32 as u8) {
                    c as u32 as u8 + k - 26
                } else {
                    c as u32 as u8 + k
                }
            };
            push_char(&mut result, v as char);
            proof {
                assert(v as char == enc_char(c, k));
                assert(result@ + vig_enc(text@.skip(i as int + 1), vals@, j as int + 1)
                    =~= result@.drop_last() + (seq![enc_char(c, k)] + vig_enc(
                    text@.skip(i as int + 1),
                    vals@,
                    j as int + 1,
                )));
            }
            j += 1;
        } else {
            push_char(&mut result, c);
            proof {
                assert(result@ + vig_enc(text@.skip(i as int + 1), vals@, j as int)
                    =~= result@.drop_last() + (seq![c] + vig_enc(
                    text@.skip(i as int + 1),
                    vals@,
                    j as int,
                )));
            }
        }
        i += 1;
    }
    proof {
        assert(text@.skip(n as int) =~= Seq::<char>::empty());
        if klen == 0 {
            assert(result@ =~= vig_enc(text@, vals@, 0));
        }
    }
    Some(result)
}

/// Decrypts `text` with the Vigenere cipher under `key`; `None` when
/// either string is not ASCII. A nonempty text needs a nonempty key.
pub fn vigenere_decrypt(text: &str, key: &str) -> (r: Option<String>)
    requires
        (all_ascii(key@) && all_ascii(text@) && key@.len() == 0) ==> text@.len() == 0,
    ensures
        r is Some <==> (all_ascii(key@) && all_ascii(text@)),
        r is Some ==> r->Some_0@ == vig_dec(text@, key_vals(key@), 0),
{
    let vals = match _vigenere_aux(key, text) {
        Some(v) => v,
        None => {
            return None;
        },
    };
    let n = text.unicode_len();
    let klen = vals.len();
    let mut result = String::new();
    let mut j: usize = 0;
    let mut i: usize = 0;
    proof {
        assert(text@.skip(0) =~= text@);
    }
    while i < n
        invariant
            n == text@.len(),
            i <= n,
            vals@ == key_vals(key@),
            klen == vals@.len(),
            i < n ==> klen > 0,
            j <= klen,
            vig_dec(text@, vals@, 0) == result@ + vig_dec(text@.skip(i as int), vals@, j as int),
        decreases n - i,
    {
        if j == klen {
            j = 0;
        }
        let c = text.get_char(i);
        proof {
            assert(text@.skip(i as int)[0] == text@[i as int]);
            assert(text@.skip(i as int).drop_first() =~= text@.skip(i as int + 1));
        }
        let k = vals[j];
        if ('A' <= c && c <= 'Z') || ('a' <= c && c <= 'z') {
            let v: u8 = if c <= 'Z' {
                if c as u32 as u8 - k < ('A' as u32 as u8) {
                    c as u32 as u8 - k + 26
                } else {
                    c as u32 as u8 - k
                }
            } else {
                if c as u32 as u8 - k < ('a' as u32 as u8) {
                    c as u32 as u8 - k + 26
                } else {
                    c as u32 as u8 - k
                }
            };
            push_char(&mut result, v as char);
            proof {
                assert(v as char == dec_char(c, k));
                assert(result@ + vig_dec(text@.skip(i as int + 1), vals@, j as int + 1)
                    =~= result@.drop_last() + (seq![dec_char(c, k)] + vig_dec(
                    text@.skip(i as int + 1),
                    vals@,
                    j as int + 1,
                )));
            }
            j += 1;
        } else {
            push_char(&mut result, c);
            proof {
                assert(result@ + vig_dec(text@.skip(i as int + 1), vals@, j as int)
                    =~= result@.drop_last() + (seq![c] + vig_dec(
                    text@.skip(i as int + 1),
                    vals@,
                    j as int,
                )));
            }
        }
        i += 1;
    }
    proof {
        assert(text@.skip(n as int) =~= Seq::<char>::empty());
        if klen == 0 {
            assert(result@ =~= vig_dec(text@, vals@, 0));
        }
    }
    Some(result)
}

/// Encrypts ASCII text with a Caesar shift of `key` (at most 25): every
/// letter moves forward `key` places within its case, everything else is
/// kept; `None` when the text is not ASCII or the key is too large.
pub fn caesar_encrypt(text: &str, key: u8) -> (r: Option<String>)
    ensures
        r is Some <==> (all_ascii(text@) && key <= 25),
        r is Some ==> r->Some_0@ == text@.map_values(|c: char| enc_char(c, key)),
{
    if !text.is_ascii() || key > 25 {
        return None;
    }
    let n = text.unicode_len();
    let mut result = String::new();
    let mut i: usize = 0;
    while i < n
        invariant
            n == text@.len(),
            i <= n,
            key <= 25,
            result@ == text@.take(i as int).map_values(|c: char| enc_char(c, key)),
        decreases n - i,
    {
        let c = text.get_char(i);
        let v: char = if ('A' <= c && c <= 'Z') || ('a' <= c && c <= 'z') {
            let b: u8 = if c <= 'Z' {
                if c as u32 as u8 + key > ('Z' as u32 as u8) {
                    c as u32 as u8 + key - 26
                } else {
                    c as u32 as u8 + key
                }
            } else {
                if c as u32 as u8 + key > ('z' as u32 as u8) {
                    c as u32 as u8 + key - 26
                } else {
                    c as u32 as u8 + key
                }
            };
            b as char
        } else {
            c
        };
        push_char(&mut result, v);
        proof {
            assert(v == enc_char(text@[i as int], key));
            assert(text@.take(i as int).map_values(|cc: char| enc_char(cc, key)).push(
                enc_char(text@[i as int], key),
            ) =~= text@.take(i as int + 1).map_values(|cc: char| enc_char(cc, key)));
        }
        i += 1;
    }
    proof {
        assert(text@.take(n as int) =~= text@);
    }
    Some(result)
}

/// Decrypts ASCII text with a Caesar shift of `key` (at most 25): every
/// letter moves backward `key` places within its case, everything else is
/// kept; `None` when the text is not ASCII or the key is too large.
pub fn caesar_decrypt(text: &str, key: u8) -> (r: Option<String>)
    ensures
        r is Some <==> (all_ascii(text@) && key <= 25),
        r is Some ==> r->Some_0@ == text@.map_values(|c: char| dec_char(c, key)),
{
    if !text.is_ascii() || key > 25 {
        return None;
    }
    let n = text.unicode_len();
    let mut result = String::new();
    let mut i: usize = 0;
    while i < n
        invariant
            n == text@.len(),
            i <= n,
            key <= 25,
            result@ == text@.take(i as int).map_values(|c: char| dec_char(c, key)),
        decreases n - i,
    {
        let c = text.get_char(i);
        let v: char = if ('A' <= c && c <= 'Z') || ('a' <= c && c <= 'z') {
            let b: u8 = if c <= 'Z' {
                if c as u32 as u8 - key < ('A' as u32 as u8) {
                    c as u32 as u8 - key + 26
                } else {
                    c as u32 as u8 - key
                }
            } else {
                if c as u32 as u8 - key < ('a' as u32 as u8) {
                    c as u32 as u8 - key + 26
                } else {
                    c as u32 as u8 - key
                }
            };
            b as char
        } else {
            c
        };
        push_char(&mut result, v);
        proof {
            assert(v == dec_char(text@[i as int], key));
            assert(text@.take(i as int).map_values(|cc: char| dec_char(cc, key)).push(
                dec_char(text@[i as int], key),
            ) =~= text@.take(i as int + 1).map_values(|cc: char| dec_char(cc, key)));
        }
        i += 1;
    }
    proof {
        assert(text@.take(n as int) =~= text@);
    }
    Some(result)
}

} // verus!
