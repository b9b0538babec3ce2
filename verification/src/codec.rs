//! The durable backend's on-disk encoding of a note: one JSON object with
//! the string fields `key`, `workspace`, `title` and `body`, in a fixed
//! canonical rendering. Encoding is total over notes with a canonical key;
//! decoding accepts exactly the canonical rendering and is proved to be
//! its inverse, so unreadable payloads are told apart from encoded notes.

use vstd::prelude::*;

use crate::keys::is_canonical_key;
use crate::keys::is_lower_hex_char;
use crate::store::NoteData;

verus! {

/// The lowercase hexadecimal digit with value `v`.
pub open spec fn hex_digit_char(v: int) -> char {
    if v < 10 {
        ((48 + v) as u32) as char
    } else {
        ((87 + v) as u32) as char
    }
}

/// The value of a lowercase hexadecimal digit.
pub open spec fn hex_val(c: char) -> int {
    if c as u32 <= 57 {
        c as u32 - 48
    } else {
        c as u32 - 87
    }
}

/// What one character of a field is rendered as: quote and backslash get
/// a backslash escape, control characters a four-digit hexadecimal
/// escape, and every other character stands for itself.
pub open spec fn esc_char(c: char) -> Seq<char> {
    if c == '"' {
        seq!['\\', '"']
    } else if c == '\\' {
        seq!['\\', '\\']
    } else if (c as u32) < 32 {
        seq!['\\', 'u', '0', '0', hex_digit_char((c as u32) as int / 16), hex_digit_char(
            (c as u32) as int % 16,
        )]
    } else {
        seq![c]
    }
}

/// The rendering of a whole field.
pub open spec fn spec_escape(s: Seq<char>) -> Seq<char>
    decreases s.len(),
{
    if s.len() == 0 {
        Seq::empty()
    } else {
        esc_char(s[0]) + spec_escape(s.drop_first())
    }
}

/// Whether two hexadecimal digits form the canonical escape of a control
/// character (a value below 32).
pub open spec fn is_control_pair(h: char, l: char) -> bool {
    &&& is_lower_hex_char(h)
    &&& is_lower_hex_char(l)
    &&& 16 * hex_val(h) + hex_val(l) < 32
}

/// The control character a canonical escape pair stands for.
pub open spec fn pair_char(h: char, l: char) -> char {
    ((16 * hex_val(h) + hex_val(l)) as u32) as char
}

/// Reads one rendered field from the front of `s`, up to and including
/// the closing quote: the field's characters, and how many characters of
/// `s` were consumed. `None` when `s` does not start with a canonically
/// rendered, quote-terminated field.
pub open spec fn spec_unescape(s: Seq<char>) -> Option<(Seq<char>, int)>
    decreases s.len(),
{
    if s.len() == 0 {
        None
    } else if s[0] == '"' {
        Some((Seq::empty(), 1))
    } else if s[0] == '\\' {
        if s.len() < 2 {
            None
        } else if s[1] == '"' || s[1] == '\\' {
            match spec_unescape(s.skip(2)) {
                Some(tn) => Some((seq![s[1]] + tn.0, 2 + tn.1)),
                None => None,
            }
        } else if s[1] == 'u' {
            if s.len() >= 6 && s[2] == '0' && s[3] == '0' && is_control_pair(s[4], s[5]) {
                match spec_unescape(s.skip(6)) {
                    Some(tn) => Some((seq![pair_char(s[4], s[5])] + tn.0, 6 + tn.1)),
                    None => None,
                }
            } else {
                None
            }
        } else {
            None
        }
    } else if (s[0] as u32) < 32 {
        None
    } else {
        match spec_unescape(s.skip(1)) {
            Some(tn) => Some((seq![s[0]] + tn.0, 1 + tn.1)),
            None => None,
        }
    }
}

/// A canonical hexadecimal digit keeps its value through the rendering.
pub proof fn lemma_hex_digit_roundtrip(v: int)
    requires
        0 <= v < 16,
    ensures
        is_lower_hex_char(hex_digit_char(v)),
        hex_val(hex_digit_char(v)) == v,
{
}

/// Rendering one more character appends that character's rendering.
pub proof fn lemma_escape_push(s: Seq<char>, c: char)
    ensures
        spec_escape(s.push(c)) == spec_escape(s) + esc_char(c),
    decreases s.len(),
{
    if s.len() == 0 {
        assert(s.push(c)[0] == c);
        assert(s.push(c).drop_first() =~= Seq::<char>::empty());
        assert(spec_escape(s.push(c).drop_first()) =~= Seq::<char>::empty());
        assert(esc_char(c) + Seq::<char>::empty() =~= esc_char(c));
        assert(spec_escape(s.push(c)) =~= esc_char(c));
        assert(spec_escape(s) + esc_char(c) =~= esc_char(c));
    } else {
        lemma_escape_push(s.drop_first(), c);
        assert(s.push(c).drop_first() =~= s.drop_first().push(c));
        assert(spec_escape(s.push(c)) =~= esc_char(s[0]) + spec_escape(s.drop_first().push(c)));
        assert(esc_char(s[0]) + (spec_escape(s.drop_first()) + esc_char(c)) =~= spec_escape(s)
            + esc_char(c));
    }
}

/// Reading a rendered field followed by its closing quote gives back the
/// field, whatever follows the quote.
pub proof fn lemma_unescape_of_escape(a: Seq<char>, rest: Seq<char>)
    ensures
        spec_unescape(spec_escape(a) + seq!['"'] + rest) == Some(
            (a, spec_escape(a).len() + 1 as int),
        ),
    decreases a.len(),
{
    let s = spec_escape(a) + seq!['"'] + rest;
    if a.len() == 0 {
        assert(s[0] == '"');
        assert(a =~= Seq::<char>::empty());
    } else {
        let c = a[0];
        let a2 = a.drop_first();
        lemma_unescape_of_escape(a2, rest);
        let s2 = spec_escape(a2) + seq!['"'] + rest;
        assert(spec_escape(a) =~= esc_char(c) + spec_escape(a2));
        if c == '"' || c == '\\' {
            assert(s[0] == '\\' && s[1] == c);
            assert(s.skip(2) =~= s2);
            assert(seq![s[1]] + a2 =~= a);
        } else if (c as u32) < 32 {
            let cu = (c as u32) as int;
            lemma_hex_digit_roundtrip(cu / 16);
            lemma_hex_digit_roundtrip(cu % 16);
            assert(s[0] == '\\' && s[1] == 'u' && s[2] == '0' && s[3] == '0');
            assert(s[4] == hex_digit_char(cu / 16) && s[5] == hex_digit_char(cu % 16));
            assert(16 * hex_val(s[4]) + hex_val(s[5]) == cu);
            assert(is_control_pair(s[4], s[5]));
            assert(pair_char(s[4], s[5]) == c) by {
                vstd::utf8::char_u32_cast(c, c as u32);
            }
            assert(s.skip(6) =~= s2);
            assert(seq![pair_char(s[4], s[5])] + a2 =~= a);
        } else {
            assert(s[0] == c);
            assert(s.skip(1) =~= s2);
            assert(seq![s[0]] + a2 =~= a);
        }
    }
}

/// A successful read consumed exactly the rendering of what it returned,
/// closing quote included.
pub proof fn lemma_unescape_sound(s: Seq<char>, t: Seq<char>, n: int)
    requires
        spec_unescape(s) == Some((t, n)),
    ensures
        1 <= n <= s.len(),
        s.subrange(0, n) == spec_escape(t) + seq!['"'],
    decreases s.len(),
{
    if s[0] == '"' {
        assert(s.subrange(0, 1) =~= spec_escape(t) + seq!['"']);
    } else if s[0] == '\\' {
        if s[1] == '"' || s[1] == '\\' {
            let tn = spec_unescape(s.skip(2)).unwrap();
            lemma_unescape_sound(s.skip(2), tn.0, tn.1);
            assert(t =~= seq![s[1]] + tn.0);
            assert(t[0] == s[1] && t.drop_first() =~= tn.0);
            assert(esc_char(s[1]) =~= seq!['\\', s[1]]);
            assert(spec_escape(t) =~= seq!['\\', s[1]] + spec_escape(tn.0));
            assert(s.skip(2).subrange(0, tn.1) =~= s.subrange(2, n));
            assert(s.subrange(0, 2) =~= seq!['\\', s[1]]);
            assert(s.subrange(0, n) =~= s.subrange(0, 2) + s.subrange(2, n));
            assert(s.subrange(0, n) =~= spec_escape(t) + seq!['"']);
        } else {
            let tn = spec_unescape(s.skip(6)).unwrap();
            lemma_unescape_sound(s.skip(6), tn.0, tn.1);
            let c = pair_char(s[4], s[5]);
            assert(t =~= seq![c] + tn.0);
            assert((c as u32) as int == 16 * hex_val(s[4]) + hex_val(s[5])) by {
                assert(0 <= 16 * hex_val(s[4]) + hex_val(s[5]) < 32);
            }
            assert(esc_char(c) =~= seq!['\\', 'u', '0', '0', hex_digit_char((c as u32) as int / 16),
                hex_digit_char((c as u32) as int % 16)]);
            assert(hex_digit_char((c as u32) as int / 16) == s[4] && hex_digit_char(
                (c as u32) as int % 16,
            ) == s[5]) by {
                lemma_lower_hex_canonical(s[4]);
                lemma_lower_hex_canonical(s[5]);
            }
            assert(t[0] == c && t.drop_first() =~= tn.0);
            assert(spec_escape(t) =~= seq!['\\', 'u', '0', '0', s[4], s[5]] + spec_escape(tn.0));
            assert(s.skip(6).subrange(0, tn.1) =~= s.subrange(6, n));
            assert(s.subrange(0, 6) =~= seq!['\\', 'u', '0', '0', s[4], s[5]]);
            assert(s.subrange(0, n) =~= s.subrange(0, 6) + s.subrange(6, n));
            assert(s.subrange(0, n) =~= spec_escape(t) + seq!['"']);
        }
    } else {
        let tn = spec_unescape(s.skip(1)).unwrap();
        lemma_unescape_sound(s.skip(1), tn.0, tn.1);
        assert(t =~= seq![s[0]] + tn.0);
        assert(esc_char(s[0]) =~= seq![s[0]]);
        assert(t[0] == s[0] && t.drop_first() =~= tn.0);
        assert(spec_escape(t) =~= seq![s[0]] + spec_escape(tn.0));
        assert(s.skip(1).subrange(0, tn.1) =~= s.subrange(1, n));
        assert(s.subrange(0, 1) =~= seq![s[0]]);
        assert(s.subrange(0, n) =~= s.subrange(0, 1) + s.subrange(1, n));
        assert(s.subrange(0, n) =~= spec_escape(t) + seq!['"']);
    }
}

/// The opening of the object up to the key field's opening quote.
pub open spec fn open_key() -> Seq<char> {
    seq!['{', '"', 'k', 'e', 'y', '"', ':', '"']
}

/// From the key field's closing quote to the workspace field's opening quote.
pub open spec fn sep_workspace() -> Seq<char> {
    seq![',', '"', 'w', 'o', 'r', 'k', 's', 'p', 'a', 'c', 'e', '"', ':', '"']
}

/// From the workspace field's closing quote to the title field's opening quote.
pub open spec fn sep_title() -> Seq<char> {
    seq![',', '"', 't', 'i', 't', 'l', 'e', '"', ':', '"']
}

/// From the title field's closing quote to the body field's opening quote.
pub open spec fn sep_body() -> Seq<char> {
    seq![',', '"', 'b', 'o', 'd', 'y', '"', ':', '"']
}

/// The canonical rendering of a note: one object with the four fields in
/// a fixed order, each field's characters rendered by `spec_escape`.
pub open spec fn spec_encode_note(n: NoteData) -> Seq<char> {
    open_key() + spec_escape(n.key) + seq!['"'] + sep_workspace() + spec_escape(n.workspace)
        + seq!['"'] + sep_title() + spec_escape(n.title) + seq!['"'] + sep_body() + spec_escape(
        n.body,
    ) + seq!['"', '}']
}

/// Reads a whole rendered note. `None` unless `s` is exactly the
/// canonical rendering of a note whose key is in canonical form.
pub open spec fn spec_decode_note(s: Seq<char>) -> Option<NoteData> {
    if open_key().is_prefix_of(s) {
        match spec_unescape(s.skip(8)) {
            Some(kn) => {
                let p1: int = 8 + kn.1;
                if p1 <= s.len() && sep_workspace().is_prefix_of(s.skip(p1)) {
                    match spec_unescape(s.skip(p1 + 14)) {
                        Some(wn) => {
                            let p2: int = p1 + 14 + wn.1;
                            if p2 <= s.len() && sep_title().is_prefix_of(s.skip(p2)) {
                                match spec_unescape(s.skip(p2 + 10)) {
                                    Some(tn) => {
                                        let p3: int = p2 + 10 + tn.1;
                                        if p3 <= s.len() && sep_body().is_prefix_of(s.skip(p3)) {
                                            match spec_unescape(s.skip(p3 + 9)) {
                                                Some(bn) => {
                                                    let p4: int = p3 + 9 + bn.1;
                                                    if p4 + 1 == s.len() && s[p4] == '}'
                                                        && is_canonical_key(kn.0) {
                                                        Some(
                                                            NoteData {
                                                                key: kn.0,
                                                                workspace: wn.0,
                                                                title: tn.0,
                                                                body: bn.0,
                                                            },
                                                        )
                                                    } else {
                                                        None
                                                    }
                                                },
                                                None => None,
                                            }
                                        } else {
                                            None
                                        }
                                    },
                                    None => None,
                                }
                            } else {
                                None
                            }
                        },
                        None => None,
                    }
                } else {
                    None
                }
            },
            None => None,
        }
    } else {
        None
    }
}

/// Decoding is a left inverse of encoding: the canonical rendering of a
/// note with a canonical key reads back as exactly that note.
/// A sequence that continues with a separator continues past it with the
/// separator's remainder.
proof fn lemma_sep_step(s: Seq<char>, p: int, sep: Seq<char>, rest: Seq<char>)
    requires
        0 <= p <= s.len(),
        s.skip(p) == sep + rest,
    ensures
        sep.is_prefix_of(s.skip(p)),
        p + sep.len() <= s.len(),
        s.skip(p + sep.len()) == rest,
{
    broadcast use vstd::seq_lib::lemma_seq_skip_len;
    broadcast use vstd::seq_lib::lemma_seq_skip_index;

    assert(s.skip(p).len() == s.len() - p);
    assert(s.skip(p).len() == sep.len() + rest.len());
    assert(s.skip(p + sep.len() as int).len() == rest.len());
    assert(sep =~= s.skip(p).subrange(0, sep.len() as int)) by {
        assert forall|j: int| 0 <= j < sep.len() implies s.skip(p).subrange(
            0,
            sep.len() as int,
        )[j] == sep[j] by {
            assert(s.skip(p)[j] == (sep + rest)[j]);
        }
    }
    assert(s.skip(p + sep.len()) =~= rest) by {
        assert forall|j: int| 0 <= j < rest.len() implies s.skip(p + sep.len() as int)[j]
            == rest[j] by {
            assert((sep + rest)[sep.len() + j] == rest[j]);
            assert(s.skip(p)[sep.len() + j] == s[p + sep.len() + j]);
            assert(s.skip(p + sep.len() as int)[j] == s[p + sep.len() + j]);
        }
        assert(s.skip(p + sep.len() as int).len() == rest.len());
    }
}

/// A sequence that continues with a rendered, quote-terminated field
/// reads that field there and continues past its closing quote.
proof fn lemma_field_step(s: Seq<char>, p: int, a: Seq<char>, rest: Seq<char>)
    requires
        0 <= p <= s.len(),
        s.skip(p) == spec_escape(a) + seq!['"'] + rest,
    ensures
        spec_unescape(s.skip(p)) == Some((a, spec_escape(a).len() + 1 as int)),
        p + spec_escape(a).len() + 1 <= s.len(),
        s.skip(p + spec_escape(a).len() + 1) == rest,
{
    lemma_unescape_of_escape(a, rest);
    let k: int = spec_escape(a).len() as int + 1;
    let body = spec_escape(a) + seq!['"'];
    assert(s.skip(p) == body + rest) by {
        assert(spec_escape(a) + seq!['"'] + rest =~= body + rest);
    }
    lemma_sep_step(s, p, body, rest);
}

/// Where the key field of a rendered note ends (the position just past
/// its closing quote).
pub open spec fn enc_p1(n: NoteData) -> int {
    9 + spec_escape(n.key).len() as int
}

/// Where the workspace field of a rendered note ends.
pub open spec fn enc_p2(n: NoteData) -> int {
    enc_p1(n) + 15 + spec_escape(n.workspace).len() as int
}

/// Where the title field of a rendered note ends.
pub open spec fn enc_p3(n: NoteData) -> int {
    enc_p2(n) + 11 + spec_escape(n.title).len() as int
}

/// Where the body field of a rendered note ends.
pub open spec fn enc_p4(n: NoteData) -> int {
    enc_p3(n) + 10 + spec_escape(n.body).len() as int
}

/// The four fields of a rendered note sit at the expected positions and
/// read back as themselves.
#[verifier::rlimit(100)]
proof fn lemma_encode_shape(n: NoteData)
    ensures
        spec_encode_note(n).len() == enc_p4(n) + 1,
        open_key().is_prefix_of(spec_encode_note(n)),
        spec_unescape(spec_encode_note(n).skip(8)) == Some((n.key, enc_p1(n) - 8)),
        enc_p1(n) <= spec_encode_note(n).len(),
        sep_workspace().is_prefix_of(spec_encode_note(n).skip(enc_p1(n))),
        spec_unescape(spec_encode_note(n).skip(enc_p1(n) + 14)) == Some(
            (n.workspace, enc_p2(n) - enc_p1(n) - 14),
        ),
        enc_p2(n) <= spec_encode_note(n).len(),
        sep_title().is_prefix_of(spec_encode_note(n).skip(enc_p2(n))),
        spec_unescape(spec_encode_note(n).skip(enc_p2(n) + 10)) == Some(
            (n.title, enc_p3(n) - enc_p2(n) - 10),
        ),
        enc_p3(n) <= spec_encode_note(n).len(),
        sep_body().is_prefix_of(spec_encode_note(n).skip(enc_p3(n))),
        spec_unescape(spec_encode_note(n).skip(enc_p3(n) + 9)) == Some(
            (n.body, enc_p4(n) - enc_p3(n) - 9),
        ),
        spec_encode_note(n)[enc_p4(n)] == '}',
{
    let s = spec_encode_note(n);
    let r4 = seq!['}'];
    let f4 = spec_escape(n.body) + seq!['"'] + r4;
    let r3 = sep_body() + f4;
    let f3 = spec_escape(n.title) + seq!['"'] + r3;
    let r2 = sep_title() + f3;
    let f2 = spec_escape(n.workspace) + seq!['"'] + r2;
    let r1 = sep_workspace() + f2;
    let f1 = spec_escape(n.key) + seq!['"'] + r1;
    assert(s.skip(0) =~= open_key() + f1);
    lemma_sep_step(s, 0, open_key(), f1);
    assert(open_key().is_prefix_of(s)) by {
        assert(s.skip(0) =~= s);
    }
    lemma_field_step(s, 8, n.key, r1);
    lemma_sep_step(s, enc_p1(n), sep_workspace(), f2);
    lemma_field_step(s, enc_p1(n) + 14, n.workspace, r2);
    lemma_sep_step(s, enc_p2(n), sep_title(), f3);
    lemma_field_step(s, enc_p2(n) + 10, n.title, r3);
    lemma_sep_step(s, enc_p3(n), sep_body(), f4);
    lemma_field_step(s, enc_p3(n) + 9, n.body, r4);
    assert(s.skip(enc_p4(n)) == r4);
    assert(s.len() == enc_p4(n) + 1) by {
        assert(s.skip(enc_p4(n)).len() == 1);
    }
    assert(s[enc_p4(n)] == '}') by {
        assert(s.skip(enc_p4(n))[0] == '}');
    }
}

/// Decoding is a left inverse of encoding: the canonical rendering of a
/// note with a canonical key reads back as exactly that note.
#[verifier::rlimit(100)]
pub proof fn lemma_decode_of_encode(n: NoteData)
    requires
        is_canonical_key(n.key),
    ensures
        spec_decode_note(spec_encode_note(n)) == Some(n),
{
    lemma_encode_shape(n);
    let s = spec_encode_note(n);
    assert(spec_decode_note(s) == Some(
        NoteData { key: n.key, workspace: n.workspace, title: n.title, body: n.body },
    ));
    assert((NoteData { key: n.key, workspace: n.workspace, title: n.title, body: n.body }) =~= n);
}

/// Decoding is sound: whatever reads back as a note is exactly that
/// note's canonical rendering, and the note's key is canonical.
#[verifier::rlimit(100)]
pub proof fn lemma_decode_sound(s: Seq<char>, n: NoteData)
    requires
        spec_decode_note(s) == Some(n),
    ensures
        is_canonical_key(n.key),
        s == spec_encode_note(n),
{
    let kn = spec_unescape(s.skip(8)).unwrap();
    let p1: int = 8 + kn.1;
    let wn = spec_unescape(s.skip(p1 + 14)).unwrap();
    let p2: int = p1 + 14 + wn.1;
    let tn = spec_unescape(s.skip(p2 + 10)).unwrap();
    let p3: int = p2 + 10 + tn.1;
    let bn = spec_unescape(s.skip(p3 + 9)).unwrap();
    let p4: int = p3 + 9 + bn.1;
    lemma_unescape_sound(s.skip(8), kn.0, kn.1);
    lemma_unescape_sound(s.skip(p1 + 14), wn.0, wn.1);
    lemma_unescape_sound(s.skip(p2 + 10), tn.0, tn.1);
    lemma_unescape_sound(s.skip(p3 + 9), bn.0, bn.1);
    assert(s.subrange(0, 8) =~= open_key());
    assert(s.subrange(8, p1) =~= s.skip(8).subrange(0, kn.1));
    assert(s.subrange(p1, p1 + 14) =~= sep_workspace());
    assert(s.subrange(p1 + 14, p2) =~= s.skip(p1 + 14).subrange(0, wn.1));
    assert(s.subrange(p2, p2 + 10) =~= sep_title());
    assert(s.subrange(p2 + 10, p3) =~= s.skip(p2 + 10).subrange(0, tn.1));
    assert(s.subrange(p3, p3 + 9) =~= sep_body());
    assert(s.subrange(p3 + 9, p4) =~= s.skip(p3 + 9).subrange(0, bn.1));
    assert(s.subrange(p4, p4 + 1) =~= seq!['}']);
    assert(s =~= s.subrange(0, 8) + s.subrange(8, p1) + s.subrange(p1, p1 + 14) + s.subrange(
        p1 + 14,
        p2,
    ) + s.subrange(p2, p2 + 10) + s.subrange(p2 + 10, p3) + s.subrange(p3, p3 + 9) + s.subrange(
        p3 + 9,
        p4,
    ) + s.subrange(p4, p4 + 1));
    assert(spec_encode_note(n) =~= open_key() + (spec_escape(n.key) + seq!['"']) + sep_workspace()
        + (spec_escape(n.workspace) + seq!['"']) + sep_title() + (spec_escape(n.title) + seq!['"'])
        + sep_body() + (spec_escape(n.body) + seq!['"']) + seq!['}']);
    assert(s == spec_encode_note(n));
}

/// A lowercase hexadecimal digit is the canonical rendering of its value.
pub proof fn lemma_lower_hex_canonical(c: char)
    requires
        is_lower_hex_char(c),
    ensures
        hex_digit_char(hex_val(c)) == c,
{
    assert(((c as u32) as u32) as char == c) by {
        vstd::utf8::char_u32_cast(c, c as u32);
    }
}

/// Relies on `String::push`: appends exactly the one character.
#[verifier::external_body]
fn push_char(out: &mut String, c: char)
    ensures
        final(out)@ == old(out)@ + seq![c],
{
    out.push(c);
}

/// The lowercase hexadecimal digit with value `v`, as a character.
fn hex_digit(v: u8) -> (c: char)
    requires
        v < 16,
    ensures
        c == hex_digit_char(v as int),
{
    let u: u8 = if v < 10 {
        48 + v
    } else {
        87 + v
    };
    proof {
        vstd::utf8::char_u32_cast((u as char), (u as char) as u32);
        assert((u as char) as u32 == u as u32);
    }
    u as char
}

/// The value of a lowercase hexadecimal digit, or `None` for any other
/// character.
fn lower_hex_val(c: char) -> (r: Option<u8>)
    ensures
        r matches Some(v) ==> is_lower_hex_char(c) && v as int == hex_val(c) && v < 16,
        r is None ==> !is_lower_hex_char(c),
{
    let cu = c as u32;
    if 48 <= cu && cu <= 57 {
        Some((cu - 48) as u8)
    } else if 97 <= cu && cu <= 102 {
        Some((cu - 87) as u8)
    } else {
        None
    }
}

/// Appends the rendering of the field `s` to `out`.
fn escape_append(out: &mut String, s: &str)
    ensures
        final(out)@ == old(out)@ + spec_escape(s@),
{
    let n = s.unicode_len();
    let mut i: usize = 0;
    while i < n
        invariant
            0 <= i <= n,
            n == s@.len(),
            out@ == old(out)@ + spec_escape(s@.take(i as int)),
        decreases n - i,
    {
        let c = s.get_char(i);
        proof {
            lemma_escape_push(s@.take(i as int), c);
            assert(s@.take(i + 1 as int) =~= s@.take(i as int).push(c));
        }
        let cu = c as u32;
        if c == '"' {
            out.append("\\\"");
            proof {
                reveal_strlit("\\\"");
                assert(("\\\"")@ =~= esc_char(c));
                assert(out@ =~= old(out)@ + spec_escape(s@.take(i + 1 as int)));
            }
        } else if c == '\\' {
            out.append("\\\\");
            proof {
                reveal_strlit("\\\\");
                assert(("\\\\")@ =~= esc_char(c));
                assert(out@ =~= old(out)@ + spec_escape(s@.take(i + 1 as int)));
            }
        } else if cu < 32 {
            out.append("\\u00");
            let hi = (cu / 16) as u8;
            let lo = (cu % 16) as u8;
            let dh = hex_digit(hi);
            let dl = hex_digit(lo);
            push_char(out, dh);
            push_char(out, dl);
            proof {
                reveal_strlit("\\u00");
                assert(("\\u00")@ + seq![dh] + seq![dl] =~= esc_char(c));
                assert(out@ =~= old(out)@ + spec_escape(s@.take(i + 1 as int)));
            }
        } else {
            push_char(out, c);
            proof {
                assert(seq![c] =~= esc_char(c));
                assert(out@ =~= old(out)@ + spec_escape(s@.take(i + 1 as int)));
            }
        }
        i = i + 1;
    }
    proof {
        assert(s@.take(n as int) =~= s@);
    }
}

/// How a partial read continues: what was already read and consumed is
/// put in front of whatever the rest of the read gives.
pub open spec fn continue_unescape(
    prefix: Seq<char>,
    consumed: int,
    rest: Option<(Seq<char>, int)>,
) -> Option<(Seq<char>, int)> {
    match rest {
        Some(tn) => Some((prefix + tn.0, consumed + tn.1)),
        None => None,
    }
}

/// Reads one rendered, quote-terminated field of `s` starting at `start`:
/// the field's characters and the position just past the closing quote.
fn unescape_prefix(s: &str, start: usize) -> (r: Option<(String, usize)>)
    requires
        start <= s@.len(),
    ensures
        (match spec_unescape(s@.skip(start as int)) {
            Some(tn) => r matches Some(p) && p.0@ == tn.0 && p.1 == start + tn.1,
            None => r is None,
        }),
{
    broadcast use vstd::seq_lib::lemma_seq_skip_len;
    broadcast use vstd::seq_lib::lemma_seq_skip_index;

    let n = s.unicode_len();
    let mut i: usize = start;
    let mut out = String::new();
    proof {
        let x = spec_unescape(s@.skip(start as int));
        if x is Some {
            assert(Seq::<char>::empty() + x.unwrap().0 =~= x.unwrap().0);
        }
    }
    while i < n
        invariant
            start <= i <= n,
            n == s@.len(),
            spec_unescape(s@.skip(start as int)) == continue_unescape(
                out@,
                i - start,
                spec_unescape(s@.skip(i as int)),
            ),
        decreases n - i,
    {
        let c = s.get_char(i);
        let ghost rem = s@.skip(i as int);
        proof {
            assert(rem[0] == s@[i as int]);
        }
        if c == '"' {
            proof {
                assert(spec_unescape(rem) == Some((Seq::<char>::empty(), 1 as int)));
                assert(out@ + Seq::<char>::empty() =~= out@);
            }
            return Some((out, i + 1));
        } else if c == '\\' {
            if n - i < 2 {
                return None;
            }
            let c2 = s.get_char(i + 1);
            proof {
                assert(rem[1] == s@[i + 1 as int]);
            }
            if c2 == '"' || c2 == '\\' {
                proof {
                    assert(rem.skip(2) =~= s@.skip(i + 2 as int));
                    let x = spec_unescape(s@.skip(i + 2 as int));
                    if x is Some {
                        assert((out@ + seq![c2]) + x.unwrap().0 =~= out@ + (seq![c2]
                            + x.unwrap().0));
                    }
                }
                push_char(&mut out, c2);
                i = i + 2;
            } else if c2 == 'u' {
                if n - i < 6 {
                    return None;
                }
                let c3 = s.get_char(i + 2);
                let c4 = s.get_char(i + 3);
                let c5 = s.get_char(i + 4);
                let c6 = s.get_char(i + 5);
                proof {
                    assert(rem[2] == s@[i + 2 as int] && rem[3] == s@[i + 3 as int]);
                    assert(rem[4] == s@[i + 4 as int] && rem[5] == s@[i + 5 as int]);
                }
                if c3 != '0' || c4 != '0' {
                    return None;
                }
                let h = match lower_hex_val(c5) {
                    Some(v) => v,
                    None => {
                        return None;
                    },
                };
                let l = match lower_hex_val(c6) {
                    Some(v) => v,
                    None => {
                        return None;
                    },
                };
                let code: u8 = 16 * h + l;
                if code >= 32 {
                    return None;
                }
                let cc = code as char;
                proof {
                    assert(is_control_pair(c5, c6));
                    assert(cc == pair_char(c5, c6)) by {
                        vstd::utf8::char_u32_cast(cc, cc as u32);
                    }
                    assert(rem.skip(6) =~= s@.skip(i + 6 as int));
                    let x = spec_unescape(s@.skip(i + 6 as int));
                    if x is Some {
                        assert((out@ + seq![cc]) + x.unwrap().0 =~= out@ + (seq![cc]
                            + x.unwrap().0));
                    }
                }
                push_char(&mut out, cc);
                i = i + 6;
            } else {
                return None;
            }
        } else if (c as u32) < 32 {
            return None;
        } else {
            proof {
                assert(rem.skip(1) =~= s@.skip(i + 1 as int));
                let x = spec_unescape(s@.skip(i + 1 as int));
                if x is Some {
                    assert((out@ + seq![c]) + x.unwrap().0 =~= out@ + (seq![c] + x.unwrap().0));
                }
            }
            push_char(&mut out, c);
            i = i + 1;
        }
    }
    proof {
        assert(s@.skip(i as int).len() == 0);
    }
    None
}

/// Whether `s` holds exactly `lit` starting at position `at`.
fn match_lit(s: &str, at: usize, lit: &str) -> (r: bool)
    requires
        at <= s@.len(),
    ensures
        r == (at + lit@.len() <= s@.len() && lit@.is_prefix_of(s@.skip(at as int))),
{
    broadcast use vstd::seq_lib::lemma_seq_skip_len;
    broadcast use vstd::seq_lib::lemma_seq_skip_index;

    let m = lit.unicode_len();
    let n = s.unicode_len();
    if m > n - at {
        return false;
    }
    let mut j: usize = 0;
    while j < m
        invariant
            0 <= j <= m,
            m == lit@.len(),
            n == s@.len(),
            at + m <= n,
            forall|k: int| 0 <= k < j ==> s@[at + k] == lit@[k],
        decreases m - j,
    {
        if s.get_char(at + j) != lit.get_char(j) {
            proof {
                assert(s@.skip(at as int)[j as int] == s@[at + j as int]);
                assert(!lit@.is_prefix_of(s@.skip(at as int)));
            }
            return false;
        }
        j = j + 1;
    }
    proof {
        assert(lit@ =~= s@.skip(at as int).subrange(0, m as int));
    }
    true
}

/// Renders the four fields of a note as its canonical on-disk text.
pub fn encode_fields(key: &str, workspace: &str, title: &str, body: &str) -> (r: String)
    ensures
        r@ == spec_encode_note(
            (NoteData { key: key@, workspace: workspace@, title: title@, body: body@ }),
        ),
{
    let ghost nd = NoteData { key: key@, workspace: workspace@, title: title@, body: body@ };
    let mut out = String::new();
    out.append("{\"key\":\"");
    escape_append(&mut out, key);
    out.append("\",\"workspace\":\"");
    escape_append(&mut out, workspace);
    out.append("\",\"title\":\"");
    escape_append(&mut out, title);
    out.append("\",\"body\":\"");
    escape_append(&mut out, body);
    out.append("\"}");
    proof {
        reveal_strlit("{\"key\":\"");
        reveal_strlit("\",\"workspace\":\"");
        reveal_strlit("\",\"title\":\"");
        reveal_strlit("\",\"body\":\"");
        reveal_strlit("\"}");
        assert(("{\"key\":\"")@ =~= open_key());
        assert(("\",\"workspace\":\"")@ =~= seq!['"'] + sep_workspace());
        assert(("\",\"title\":\"")@ =~= seq!['"'] + sep_title());
        assert(("\",\"body\":\"")@ =~= seq!['"'] + sep_body());
        assert(("\"}")@ =~= seq!['"', '}']);
        assert(out@ =~= spec_encode_note(nd));
    }
    out
}

/// Reads the canonical on-disk text of a note back into its four fields:
/// key, workspace, title and body. `None` unless `s` is exactly the
/// canonical rendering of a note whose key is in canonical form.
#[verifier::rlimit(100)]
pub fn decode_fields(s: &str) -> (r: Option<(String, String, String, String)>)
    ensures
        (match spec_decode_note(s@) {
            Some(nd) => r matches Some(q) && q.0@ == nd.key && q.1@ == nd.workspace && q.2@
                == nd.title && q.3@ == nd.body,
            None => r is None,
        }),
{
    broadcast use vstd::seq_lib::lemma_seq_skip_len;

    proof {
        reveal_strlit("{\"key\":\"");
        reveal_strlit(",\"workspace\":\"");
        reveal_strlit(",\"title\":\"");
        reveal_strlit(",\"body\":\"");
        assert(("{\"key\":\"")@ =~= open_key());
        assert((",\"workspace\":\"")@ =~= sep_workspace());
        assert((",\"title\":\"")@ =~= sep_title());
        assert((",\"body\":\"")@ =~= sep_body());
        assert(s@.skip(0) =~= s@);
    }
    let n = s.unicode_len();
    if !match_lit(s, 0, "{\"key\":\"") {
        return None;
    }
    let (key, e1) = match unescape_prefix(s, 8) {
        Some(p) => p,
        None => {
            return None;
        },
    };
    proof {
        let kn = spec_unescape(s@.skip(8)).unwrap();
        lemma_unescape_sound(s@.skip(8), kn.0, kn.1);
    }
    if !match_lit(s, e1, ",\"workspace\":\"") {
        return None;
    }
    let (workspace, e2) = match unescape_prefix(s, e1 + 14) {
        Some(p) => p,
        None => {
            return None;
        },
    };
    proof {
        let wn = spec_unescape(s@.skip(e1 + 14 as int)).unwrap();
        lemma_unescape_sound(s@.skip(e1 + 14 as int), wn.0, wn.1);
    }
    if !match_lit(s, e2, ",\"title\":\"") {
        return None;
    }
    let (title, e3) = match unescape_prefix(s, e2 + 10) {
        Some(p) => p,
        None => {
            return None;
        },
    };
    proof {
        let tn = spec_unescape(s@.skip(e2 + 10 as int)).unwrap();
        lemma_unescape_sound(s@.skip(e2 + 10 as int), tn.0, tn.1);
    }
    if !match_lit(s, e3, ",\"body\":\"") {
        return None;
    }
    let (body, e4) = match unescape_prefix(s, e3 + 9) {
        Some(p) => p,
        None => {
            return None;
        },
    };
    proof {
        let bn = spec_unescape(s@.skip(e3 + 9 as int)).unwrap();
        lemma_unescape_sound(s@.skip(e3 + 9 as int), bn.0, bn.1);
    }
    if !(e4 < n) {
        return None;
    }
    if s.get_char(e4) != '}' {
        return None;
    }
    if e4 + 1 != n {
        return None;
    }
    if !crate::keys::check_canonical_key(key.as_str()) {
        return None;
    }
    Some((key, workspace, title, body))
}

} // verus!
