//! Rendering the tagged faces as a JSON document: an array of objects with
//! the string fields "Tag", "Alter" and "Koordinaten", in that order.

use vstd::prelude::*;
use vstd::string::{StringExecFns, StrSliceExecFns};
use crate::model::TaggedFace;
use crate::numfmt::{digit_char, digit_str};

verus! {

/// Lower-case hexadecimal digit characters.
pub open spec fn hexdigit(d: nat) -> char
    recommends
        d < 16,
{
    if d < 10 {
        digit_char(d)
    } else if d == 10 {
        'a'
    } else if d == 11 {
        'b'
    } else if d == 12 {
        'c'
    } else if d == 13 {
        'd'
    } else if d == 14 {
        'e'
    } else {
        'f'
    }
}

/// How one character appears inside a JSON string literal: quotes and
/// backslashes are escaped, control characters become \u00xx, everything
/// else stands as itself.
pub open spec fn esc_char(c: char) -> Seq<char> {
    if c == '"' {
        seq!['\\', '"']
    } else if c == '\\' {
        seq!['\\', '\\']
    } else if (c as u32) < 32 {
        seq![
            '\\',
            'u',
            '0',
            '0',
            hexdigit((c as u32 / 16) as nat),
            hexdigit((c as u32 % 16) as nat),
        ]
    } else {
        seq![c]
    }
}

/// A whole string escaped for use inside a JSON string literal.
pub open spec fn esc_seq(s: Seq<char>) -> Seq<char>
    decreases s.len(),
{
    if s.len() == 0 {
        Seq::empty()
    } else {
        esc_seq(s.drop_last()) + esc_char(s.last())
    }
}

/// One face as a JSON object: {"Tag":"...","Alter":"...","Koordinaten":"..."}.
pub open spec fn face_json(f: TaggedFace) -> Seq<char> {
    seq!['{', '"', 'T', 'a', 'g', '"', ':', '"'] + esc_seq(f.tag@) + seq![
        '"',
        ',',
        '"',
        'A',
        'l',
        't',
        'e',
        'r',
        '"',
        ':',
        '"',
    ] + esc_seq(f.age@) + seq![
        '"',
        ',',
        '"',
        'K',
        'o',
        'o',
        'r',
        'd',
        'i',
        'n',
        'a',
        't',
        'e',
        'n',
        '"',
        ':',
        '"',
    ] + esc_seq(f.coordinates@) + seq!['"', '}']
}

/// The face objects joined with commas.
pub open spec fn faces_json_items(faces: Seq<TaggedFace>) -> Seq<char>
    decreases faces.len(),
{
    if faces.len() == 0 {
        Seq::empty()
    } else if faces.len() == 1 {
        face_json(faces[0])
    } else {
        face_json(faces[0]) + seq![','] + faces_json_items(faces.drop_first())
    }
}

/// The whole document: a JSON array of face objects.
pub open spec fn faces_json(faces: Seq<TaggedFace>) -> Seq<char> {
    seq!['['] + faces_json_items(faces) + seq![']']
}

/// Appending one face appends its object, with a comma before it unless it
/// is the first.
proof fn lemma_items_push(a: Seq<TaggedFace>, f: TaggedFace)
    ensures
        a.len() == 0 ==> faces_json_items(a.push(f)) == face_json(f),
        a.len() > 0 ==> faces_json_items(a.push(f)) == faces_json_items(a) + seq![',']
            + face_json(f),
    decreases a.len(),
{
    let s = a.push(f);
    if a.len() == 0 {
        assert(s.len() == 1);
        assert(s[0] == f);
    } else {
        assert(s[0] == a[0]);
        assert(s.drop_first() =~= a.drop_first().push(f));
        lemma_items_push(a.drop_first(), f);
        if a.len() == 1 {
            assert(faces_json_items(s) == face_json(a[0]) + seq![','] + face_json(f));
        } else {
            assert(faces_json_items(s) == face_json(a[0]) + seq![','] + (faces_json_items(
                a.drop_first(),
            ) + seq![','] + face_json(f)));
            assert(face_json(a[0]) + seq![','] + (faces_json_items(a.drop_first()) + seq![',']
                + face_json(f)) =~= (face_json(a[0]) + seq![','] + faces_json_items(
                a.drop_first(),
            )) + seq![','] + face_json(f));
        }
    }
}

/// Appends `s`, escaped for a JSON string literal, to `out`.
fn append_escaped(out: &mut String, s: &str)
    ensures
        final(out)@ == old(out)@ + esc_seq(s@),
{
    let n = s.unicode_len();
    let mut i: usize = 0;
    proof {
        assert(s@.take(0) =~= Seq::<char>::empty());
        assert(out@ + Seq::<char>::empty() =~= out@);
    }
    while i < n
        invariant
            i <= n,
            n == s@.len(),
            out@ == old(out)@ + esc_seq(s@.take(i as int)),
        decreases n - i,
    {
        let c = s.get_char(i);
        proof {
            assert(s@.take(i as int + 1).drop_last() =~= s@.take(i as int));
            assert(s@.take(i as int + 1).last() == s@[i as int]);
        }
        if c == '"' {
            out.append("\\\"");
            proof {
                reveal_strlit("\\\"");
                assert(("\\\"")@ =~= seq!['\\', '"']);
            }
        } else if c == '\\' {
            out.append("\\\\");
            proof {
                reveal_strlit("\\\\");
                assert(("\\\\")@ =~= seq!['\\', '\\']);
            }
        } else if (c as u32) < 32 {
            let cv = c as u32;
            out.append("\\u00");
            out.append(digit_str((cv / 16) as u64));
            let low = cv % 16;
            let ls: &'static str = if low < 10 {
                digit_str(low as u64)
            } else if low == 10 {
                "a"
            } else if low == 11 {
                "b"
            } else if low == 12 {
                "c"
            } else if low == 13 {
                "d"
            } else if low == 14 {
                "e"
            } else {
                "f"
            };
            proof {
                reveal_strlit("a");
                reveal_strlit("b");
                reveal_strlit("c");
                reveal_strlit("d");
                reveal_strlit("e");
                reveal_strlit("f");
                reveal_strlit("\\u00");
                assert(("\\u00")@ =~= seq!['\\', 'u', '0', '0']);
                assert(ls@ =~= seq![hexdigit((c as u32 % 16) as nat)]);
                assert(hexdigit((c as u32 / 16) as nat) == digit_char((c as u32 / 16) as nat));
            }
            out.append(ls);
        } else {
            let piece = s.substring_char(i, i + 1);
            out.append(piece);
            proof {
                assert(piece@ =~= seq![s@[i as int]]);
            }
        }
        proof {
            assert(out@ =~= old(out)@ + esc_seq(s@.take(i as int + 1)));
        }
        i += 1;
    }
    proof {
        assert(s@.take(n as int) =~= s@);
    }
}

/// Serializes the tagged faces as a JSON array of objects whose "Tag",
/// "Alter" and "Koordinaten" fields hold the faces' strings.
pub fn face_data_json(faces: &Vec<TaggedFace>) -> (r: String)
    ensures
        r@ == faces_json(faces@),
{
    let mut out = String::new();
    out.append("[");
    let n = faces.len();
    let mut i: usize = 0;
    proof {
        reveal_strlit("[");
        assert(("[")@ =~= seq!['[']);
        assert(faces@.take(0) =~= Seq::<TaggedFace>::empty());
        assert(out@ =~= seq!['['] + faces_json_items(faces@.take(0)));
    }
    while i < n
        invariant
            i <= n,
            n == faces@.len(),
            out@ == seq!['['] + faces_json_items(faces@.take(i as int)),
        decreases n - i,
    {
        if i > 0 {
            out.append(",");
        }
        let f = &faces[i];
        out.append("{\"Tag\":\"");
        append_escaped(&mut out, f.tag.as_str());
        out.append("\",\"Alter\":\"");
        append_escaped(&mut out, f.age.as_str());
        out.append("\",\"Koordinaten\":\"");
        append_escaped(&mut out, f.coordinates.as_str());
        out.append("\"}");
        proof {
            reveal_strlit(",");
            reveal_strlit("{\"Tag\":\"");
            reveal_strlit("\",\"Alter\":\"");
            reveal_strlit("\",\"Koordinaten\":\"");
            reveal_strlit("\"}");
            assert((",")@ =~= seq![',']);
            assert(("{\"Tag\":\"")@ =~= seq!['{', '"', 'T', 'a', 'g', '"', ':', '"']);
            assert(("\",\"Alter\":\"")@ =~= seq![
                '"',
                ',',
                '"',
                'A',
                'l',
                't',
                'e',
                'r',
                '"',
                ':',
                '"',
            ]);
            assert(("\",\"Koordinaten\":\"")@ =~= seq![
                '"',
                ',',
                '"',
                'K',
                'o',
                'o',
                'r',
                'd',
                'i',
                'n',
                'a',
                't',
                'e',
                'n',
                '"',
                ':',
                '"',
            ]);
            assert(("\"}")@ =~= seq!['"', '}']);
            lemma_items_push(faces@.take(i as int), faces@[i as int]);
            assert(faces@.take(i as int + 1) =~= faces@.take(i as int).push(faces@[i as int]));
            assert(out@ =~= seq!['['] + faces_json_items(faces@.take(i as int + 1)));
        }
        i += 1;
    }
    out.append("]");
    proof {
        reveal_strlit("]");
        assert(("]")@ =~= seq![']']);
        assert(faces@.take(n as int) =~= faces@);
        assert(out@ =~= faces_json(faces@));
    }
    out
}

proof fn lemma_items_determined(a: Seq<TaggedFace>, b: Seq<TaggedFace>)
    requires
        a.len() == b.len(),
        forall|i: int|
            0 <= i < a.len() ==> (#[trigger] a[i]).tag@ == b[i].tag@ && a[i].age@ == b[i].age@
                && a[i].coordinates@ == b[i].coordinates@,
    ensures
        faces_json_items(a) == faces_json_items(b),
    decreases a.len(),
{
    if a.len() == 0 {
    } else if a.len() == 1 {
        assert(face_json(a[0]) == face_json(b[0]));
    } else {
        assert forall|i: int|
            0 <= i < a.drop_first().len() implies (#[trigger] a.drop_first()[i]).tag@
                == b.drop_first()[i].tag@ && a.drop_first()[i].age@ == b.drop_first()[i].age@
                && a.drop_first()[i].coordinates@ == b.drop_first()[i].coordinates@ by {
            assert(a.drop_first()[i] == a[i + 1]);
            assert(b.drop_first()[i] == b[i + 1]);
        }
        lemma_items_determined(a.drop_first(), b.drop_first());
        assert(face_json(a[0]) == face_json(b[0]));
    }
}

/// The JSON text depends only on the faces' field texts: two face lists
/// that agree fieldwise render the same document.
pub proof fn lemma_faces_json_determined(a: Seq<TaggedFace>, b: Seq<TaggedFace>)
    requires
        a.len() == b.len(),
        forall|i: int|
            0 <= i < a.len() ==> (#[trigger] a[i]).tag@ == b[i].tag@ && a[i].age@ == b[i].age@
                && a[i].coordinates@ == b[i].coordinates@,
    ensures
        faces_json(a) == faces_json(b),
{
    lemma_items_determined(a, b);
}

} // verus!
