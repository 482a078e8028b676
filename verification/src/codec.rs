//! Canonical byte serialization of transfer records.
//!
//! Every receptacle's copy of a transfer is flattened to a list of byte
//! fields and serialized to one comparable byte key: each field is written as
//! a four-byte little-endian length followed by the field's bytes.  Two
//! reports vote together exactly when their keys are byte-identical, so the
//! encoding is paired with a decoder and a round-trip proof.

use vstd::bytes::{
    spec_u32_from_le_bytes, spec_u32_to_le_bytes, u32_from_le_bytes, u32_to_le_bytes,
};
use vstd::prelude::*;

verus! {

/// True exactly when the two vectors hold the same bytes.
pub fn bytes_eq(a: &Vec<u8>, b: &Vec<u8>) -> (r: bool)
    ensures
        r <==> a@ == b@,
{
    if a.len() != b.len() {
        return false;
    }
    let mut i: usize = 0;
    while i < a.len()
        invariant
            i <= a@.len(),
            a@.len() == b@.len(),
            forall|j: int| 0 <= j < i ==> a@[j] == b@[j],
        decreases a@.len() - i,
    {
        if a[i] != b[i] {
            return false;
        }
        i = i + 1;
    }
    proof {
        assert(a@ =~= b@);
    }
    true
}

/// One length-prefixed field: four little-endian length bytes, then the bytes.
pub open spec fn spec_enc_field(f: Seq<u8>) -> Seq<u8> {
    spec_u32_to_le_bytes(f.len() as u32) + f
}

/// The canonical key of a field list: the fields in order, each
/// length-prefixed.  An empty list encodes to the empty key.
pub open spec fn spec_enc_fields(fs: Seq<Seq<u8>>) -> Seq<u8>
    decreases fs.len(),
{
    if fs.len() == 0 {
        Seq::empty()
    } else {
        spec_enc_field(fs[0]) + spec_enc_fields(fs.drop_first())
    }
}

/// Parses a canonical key back into its field list; `None` on any
/// truncated length prefix or field body.
pub open spec fn spec_dec_fields(s: Seq<u8>) -> Option<Seq<Seq<u8>>>
    decreases s.len(),
{
    if s.len() == 0 {
        Some(Seq::empty())
    } else if s.len() < 4 {
        None
    } else {
        let n = spec_u32_from_le_bytes(s.subrange(0, 4)) as int;
        if s.len() < 4 + n {
            None
        } else {
            match spec_dec_fields(s.subrange(4 + n, s.len() as int)) {
                Some(rest) => Some(seq![s.subrange(4, 4 + n)] + rest),
                None => None,
            }
        }
    }
}

/// All fields of the list are short enough for a four-byte length prefix.
pub open spec fn fields_encodable(fs: Seq<Seq<u8>>) -> bool {
    forall|i: int| 0 <= i < fs.len() ==> #[trigger] fs[i].len() <= u32::MAX
}

/// Appending one field to a list appends its length-prefixed bytes to the key.
pub proof fn lemma_enc_fields_push(fs: Seq<Seq<u8>>, f: Seq<u8>)
    ensures
        spec_enc_fields(fs.push(f)) == spec_enc_fields(fs) + spec_enc_field(f),
    decreases fs.len(),
{
    if fs.len() == 0 {
        assert(fs.push(f)[0] == f);
        assert(fs.push(f).drop_first() =~= Seq::<Seq<u8>>::empty());
        assert(spec_enc_fields(Seq::<Seq<u8>>::empty()) == Seq::<u8>::empty());
        assert(spec_enc_fields(fs.push(f)) =~= spec_enc_field(f));
        assert(spec_enc_fields(fs) + spec_enc_field(f) =~= spec_enc_field(f));
    } else {
        assert(fs.push(f)[0] == fs[0]);
        assert(fs.push(f).drop_first() =~= fs.drop_first().push(f));
        lemma_enc_fields_push(fs.drop_first(), f);
        assert(spec_enc_fields(fs.push(f)) =~= spec_enc_fields(fs) + spec_enc_field(f));
    }
}

/// Decoding a canonical key recovers exactly the fields that produced it.
pub proof fn lemma_dec_enc_fields(fs: Seq<Seq<u8>>)
    requires
        fields_encodable(fs),
    ensures
        spec_dec_fields(spec_enc_fields(fs)) == Some(fs),
    decreases fs.len(),
{
    vstd::bytes::lemma_auto_spec_u32_to_from_le_bytes();
    if fs.len() == 0 {
        assert(spec_dec_fields(spec_enc_fields(fs)) == Some(Seq::<Seq<u8>>::empty()));
        assert(Seq::<Seq<u8>>::empty() =~= fs);
    } else {
        let f = fs[0];
        let s = spec_enc_fields(fs);
        let n = f.len() as int;
        assert(spec_u32_to_le_bytes(f.len() as u32).len() == 4);
        assert(s =~= spec_enc_field(f) + spec_enc_fields(fs.drop_first()));
        assert(s.len() >= 4 + n);
        assert(s.subrange(0, 4) =~= spec_u32_to_le_bytes(f.len() as u32));
        assert(spec_u32_from_le_bytes(s.subrange(0, 4)) == f.len() as u32);
        assert(s.subrange(4, 4 + n) =~= f);
        assert(s.subrange(4 + n, s.len() as int) =~= spec_enc_fields(fs.drop_first()));
        lemma_dec_enc_fields(fs.drop_first());
        assert(seq![f] + fs.drop_first() =~= fs);
    }
}

/// Serializes a field list to its canonical key.
pub fn enc_fields(fields: &Vec<Vec<u8>>) -> (r: Vec<u8>)
    requires
        fields_encodable(fields.deep_view()),
    ensures
        r@ == spec_enc_fields(fields.deep_view()),
{
    let mut r: Vec<u8> = Vec::new();
    let mut i: usize = 0;
    while i < fields.len()
        invariant
            i <= fields@.len(),
            fields_encodable(fields.deep_view()),
            r@ == spec_enc_fields(fields.deep_view().take(i as int)),
        decreases fields@.len() - i,
    {
        let f: &Vec<u8> = &fields[i];
        assert(f@ =~= fields.deep_view()[i as int]);
        let mut prefix = u32_to_le_bytes(f.len() as u32);
        r.append(&mut prefix);
        let mut j: usize = 0;
        let ghost r_mid = r@;
        while j < f.len()
            invariant
                j <= f@.len(),
                r@ == r_mid + f@.take(j as int),
            decreases f@.len() - j,
        {
            r.push(f[j]);
            assert(r@ =~= r_mid + f@.take(j + 1));
            j = j + 1;
        }
        proof {
            assert(f@.take(f@.len() as int) =~= f@);
            lemma_enc_fields_push(fields.deep_view().take(i as int), f@);
            assert(fields.deep_view().take(i as int).push(f@) =~~= fields.deep_view().take(
                i + 1,
            ));
        }
        i = i + 1;
    }
    proof {
        assert(fields.deep_view().take(fields@.len() as int) =~= fields.deep_view());
    }
    r
}

/// Parses a canonical key; `None` exactly when the spec-level decoder fails.
pub fn dec_fields(s: &Vec<u8>) -> (r: Option<Vec<Vec<u8>>>)
    ensures
        match r {
            Some(fs) => spec_dec_fields(s@) == Some(fs.deep_view()),
            None => spec_dec_fields(s@) is None,
        },
{
    let mut out: Vec<Vec<u8>> = Vec::new();
    let mut pos: usize = 0;
    let slen: usize = s.len();
    proof {
        assert(s@.subrange(0, s@.len() as int) =~= s@);
        assert(out.deep_view() =~= Seq::<Seq<u8>>::empty());
        if let Some(rest) = spec_dec_fields(s@) {
            assert(out.deep_view() + rest =~= rest);
        }
    }
    loop
        invariant
            pos <= s@.len(),
            slen == s@.len(),
            spec_dec_fields(s@) == match spec_dec_fields(s@.subrange(pos as int, s@.len() as int)) {
                Some(rest) => Some(out.deep_view() + rest),
                None => None::<Seq<Seq<u8>>>,
            },
        ensures
            spec_dec_fields(s@) == Some(out.deep_view()),
        decreases s@.len() - pos + 1,
    {
        proof {
            vstd::bytes::lemma_auto_spec_u32_to_from_le_bytes();
        }
        let ghost suffix = s@.subrange(pos as int, s@.len() as int);
        if pos == s.len() {
            proof {
                assert(suffix =~= Seq::<u8>::empty());
                assert(out.deep_view() + Seq::<Seq<u8>>::empty() =~= out.deep_view());
            }
            break;
        }
        let rem = s.len() - pos;
        if rem < 4 {
            return None;
        }
        let mut lenbuf: Vec<u8> = Vec::new();
        lenbuf.push(s[pos]);
        lenbuf.push(s[pos + 1]);
        lenbuf.push(s[pos + 2]);
        lenbuf.push(s[pos + 3]);
        proof {
            assert(lenbuf@ =~= suffix.subrange(0, 4));
        }
        let n32 = u32_from_le_bytes(lenbuf.as_slice());
        let n = n32 as usize;
        if n > rem - 4 {
            proof {
                assert(suffix.len() < 4 + n);
            }
            return None;
        }
        let mut field: Vec<u8> = Vec::new();
        let mut k: usize = 0;
        while k < n
            invariant
                k <= n,
                pos + 4 + n <= slen,
                slen == s@.len(),
                field@ == s@.subrange(pos + 4, pos + 4 + k as int),
            decreases n - k,
        {
            field.push(s[pos + 4 + k]);
            assert(field@ =~= s@.subrange(pos + 4, pos + 4 + (k + 1)));
            k = k + 1;
        }
        proof {
            assert(field@ =~= suffix.subrange(4, 4 + n as int));
        }
        let ghost old_out = out.deep_view();
        let ghost field_view = field@;
        out.push(field);
        pos = pos + 4 + n;
        proof {
            let new_suffix = s@.subrange(pos as int, s@.len() as int);
            assert(new_suffix =~= suffix.subrange(4 + n as int, suffix.len() as int));
            assert(out.deep_view() =~~= old_out.push(field_view));
            match spec_dec_fields(new_suffix) {
                Some(rest) => {
                    assert(spec_dec_fields(suffix) == Some(seq![field_view] + rest));
                    assert(old_out + (seq![field_view] + rest) =~= out.deep_view() + rest);
                },
                None => {
                    assert(spec_dec_fields(suffix) is None);
                },
            }
        }
    }
    Some(out)
}

} // verus!
