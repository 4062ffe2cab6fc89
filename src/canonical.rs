//! The canonical wire format: flat u32 token ids and slot strings, little-endian.

use vstd::prelude::*;
use vstd::math::min;
use vstd::string::StringExecFns;
use vstd::utf8::{decode_utf8, encode_utf8, valid_utf8};
use crate::decode::{emit_atom_text, lemma_expand_push, lemma_render_push, string_views};
use crate::encode::{EncTok, EncodeResult};
use crate::interner::Interner;
use crate::render::{expand, render, slot_texts, slot_total, slots_known, templates_known, toks_known};
use crate::template::Template;

verus! {

pub const MAGIC: u32 = 0x57494C4C;

pub const VERSION: u32 = 1;

/// Why canonical bytes were rejected.
#[derive(Clone, Copy, Debug, PartialEq, Eq, Structural)]
pub enum CanonicalError {
    BadMagic,
    BadVersion,
    Truncated,
    BadUtf8,
}

/// The wire id of a token: template ids as they are, atom ids above the template range.
pub open spec fn token_id(t: EncTok, template_count: u32) -> int {
    match t {
        EncTok::Template(id) => id as int,
        EncTok::LiteralAtom(a) => template_count + a,
    }
}

/// The token a wire id stands for.
pub open spec fn token_of_id_spec(id: u32, template_count: u32) -> EncTok {
    if id < template_count {
        EncTok::Template(id)
    } else {
        EncTok::LiteralAtom((id - template_count) as u32)
    }
}

/// The token a wire id stands for: below `template_count` a template, else the atom
/// `id - template_count`.
pub fn token_of_id(id: u32, template_count: u32) -> (r: EncTok)
    ensures
        r == token_of_id_spec(id, template_count),
{
    if id < template_count {
        EncTok::Template(id)
    } else {
        EncTok::LiteralAtom(id - template_count)
    }
}

/// The tokens of a wire id stream.
pub fn from_canonical_ids(toks: &[u32], template_count: u32) -> (r: Vec<EncTok>)
    ensures
        r@.len() == toks@.len(),
        forall|i: int| 0 <= i < toks@.len() ==> #[trigger] r@[i] == token_of_id_spec(toks@[i], template_count),
{
    let mut r: Vec<EncTok> = Vec::new();
    let mut i: usize = 0;
    while i < toks.len()
        invariant
            i <= toks@.len(),
            r@.len() == i,
            forall|k: int| 0 <= k < i ==> #[trigger] r@[k] == token_of_id_spec(toks@[k], template_count),
        decreases toks@.len() - i,
    {
        r.push(token_of_id(toks[i], template_count));
        i = i + 1;
    }
    r
}

/// Wire ids and slot strings of an encoded result.
pub fn to_canonical(enc: &EncodeResult, interner: &Interner, template_count: usize) -> (r: (Vec<u32>, Vec<String>))
    requires
        slots_known(interner, enc.slots@),
        forall|i: int| 0 <= i < enc.toks@.len() ==> token_id(#[trigger] enc.toks@[i], 0) + template_count <= u32::MAX
            || enc.toks@[i] is Template,
        template_count <= u32::MAX,
    ensures
        r.0@.len() == enc.toks@.len(),
        forall|i: int| 0 <= i < enc.toks@.len() ==> #[trigger] r.0@[i] as int == token_id(enc.toks@[i], template_count as u32),
        string_views(r.1@) == slot_texts(interner, enc.slots@),
{
    let tc = template_count as u32;
    let mut toks: Vec<u32> = Vec::new();
    let mut i: usize = 0;
    while i < enc.toks.len()
        invariant
            i <= enc.toks@.len(),
            tc == template_count,
            template_count <= u32::MAX,
            forall|k: int| 0 <= k < enc.toks@.len() ==> token_id(#[trigger] enc.toks@[k], 0) + template_count <= u32::MAX
                || enc.toks@[k] is Template,
            toks@.len() == i,
            forall|k: int| 0 <= k < i ==> #[trigger] toks@[k] as int == token_id(enc.toks@[k], tc),
        decreases enc.toks@.len() - i,
    {
        match enc.toks[i] {
            EncTok::Template(id) => toks.push(id),
            EncTok::LiteralAtom(a) => {
                assert(token_id(enc.toks@[i as int], 0) + template_count <= u32::MAX);
                toks.push(tc + a);
            },
        }
        i = i + 1;
    }
    let mut slots: Vec<String> = Vec::new();
    let mut k: usize = 0;
    while k < enc.slots.len()
        invariant
            k <= enc.slots@.len(),
            slots_known(interner, enc.slots@),
            string_views(slots@) == slot_texts(interner, enc.slots@).take(k as int),
        decreases enc.slots@.len() - k,
    {
        let p = enc.slots[k].payload;
        let ghost s0 = slots@;
        let text = String::from_str(interner.payload_str(p));
        assert(text@ == slot_texts(interner, enc.slots@)[k as int]);
        slots.push(text);
        assert(string_views(slots@) =~= string_views(s0).push(text@));
        k = k + 1;
        assert(string_views(slots@) =~= slot_texts(interner, enc.slots@).take(k as int));
    }
    assert(slot_texts(interner, enc.slots@).take(k as int) =~= slot_texts(interner, enc.slots@));
    (toks, slots)
}

/// The tokens of a wire id stream, as a sequence.
pub open spec fn toks_of_ids(toks: Seq<u32>, template_count: u32) -> Seq<EncTok> {
    toks.map_values(|id: u32| token_of_id_spec(id, template_count))
}

/// Rebuilds text from wire ids and slot strings. A slot atom past the last slot
/// string contributes nothing.
pub fn decode_canonical(interner: &Interner, templates: &[Template], toks: &[u32], slots: &[String]) -> (r: String)
    requires
        interner.wf(),
        templates@.len() <= u32::MAX,
        templates_known(interner, templates@),
        toks_known(interner, templates@, toks_of_ids(toks@, templates@.len() as u32)),
    ensures
        r@ == render(
            interner,
            expand(templates@, toks_of_ids(toks@, templates@.len() as u32)),
            string_views(slots@),
        ),
{
    let tc = templates.len() as u32;
    let ghost tpl = templates@;
    let ghost all = toks_of_ids(toks@, tc);
    let ghost st = string_views(slots@);
    let mut out = String::new();
    let mut cursor: usize = 0;
    let mut i: usize = 0;
    proof {
        assert(all.take(0) =~= Seq::<EncTok>::empty());
    }
    while i < toks.len()
        invariant
            i <= toks@.len(),
            tc == tpl.len(),
            tpl == templates@,
            all == toks_of_ids(toks@, tc),
            st == string_views(slots@),
            interner.wf(),
            templates_known(interner, tpl),
            toks_known(interner, tpl, all),
            out@ == render(interner, expand(tpl, all.take(i as int)), st),
            cursor as nat == min(slot_total(interner, expand(tpl, all.take(i as int))) as int, slots@.len() as int),
        decreases toks@.len() - i,
    {
        let ghost before = expand(tpl, all.take(i as int));
        proof {
            lemma_expand_push(tpl, all, i as int);
        }
        let tok = token_of_id(toks[i], tc);
        assert(tok == all[i as int]);
        match tok {
            EncTok::Template(tid) => {
                assert(toks_known(interner, tpl, all) ==> tid < tpl.len());
                let t = &templates[tid as usize];
                let mut j: usize = 0;
                proof {
                    assert(before + t.atoms@.take(0) =~= before);
                }
                while j < t.atoms.len()
                    invariant
                        j <= t.atoms@.len(),
                        t == tpl[tid as int],
                        tid < tpl.len(),
                        st == string_views(slots@),
                        interner.wf(),
                        templates_known(interner, tpl),
                        out@ == render(interner, before + t.atoms@.take(j as int), st),
                        cursor as nat == min(slot_total(interner, before + t.atoms@.take(j as int)) as int,
                            slots@.len() as int),
                    decreases t.atoms@.len() - j,
                {
                    let aid = t.atoms[j];
                    proof {
                        assert(templates_known(interner, tpl) ==> tpl[tid as int].atoms@[j as int] < interner.atoms().len());
                        lemma_render_push(interner, before + t.atoms@.take(j as int), aid, st);
                        assert((before + t.atoms@.take(j as int)).push(aid) =~= before + t.atoms@.take(j + 1));
                    }
                    emit_atom_text(interner, aid, slots, &mut out, &mut cursor);
                    j = j + 1;
                }
                proof {
                    assert(t.atoms@.take(j as int) =~= t.atoms@);
                }
            },
            EncTok::LiteralAtom(aid) => {
                proof {
                    lemma_render_push(interner, before, aid, st);
                    assert(before.push(aid) =~= before + seq![aid]);
                }
                emit_atom_text(interner, aid, slots, &mut out, &mut cursor);
            },
        }
        i = i + 1;
    }
    proof {
        assert(all.take(i as int) =~= all);
    }
    out
}

/// Little-endian bytes of a `u32`.
#[verifier::opaque]
pub open spec fn le32(x: u32) -> Seq<u8> {
    seq![
        (x % 256) as u8,
        ((x / 256) % 256) as u8,
        ((x / 65536) % 256) as u8,
        ((x / 16777216) % 256) as u8,
    ]
}

/// Little-endian bytes of a `u64`.
pub open spec fn le64(x: u64) -> Seq<u8> {
    le32((x % 4294967296) as u32) + le32((x / 4294967296) as u32)
}

/// The `u32` stored little-endian at `b[off..off + 4]`.
#[verifier::opaque]
pub open spec fn u32_at(b: Seq<u8>, off: int) -> int {
    b[off] + 256 * b[off + 1] + 65536 * b[off + 2] + 16777216 * b[off + 3]
}

/// The `u64` stored little-endian at `b[off..off + 8]`.
#[verifier::opaque]
pub open spec fn u64_at(b: Seq<u8>, off: int) -> int {
    u32_at(b, off) + 4294967296 * u32_at(b, off + 4)
}

/// The id section: each id in four bytes.
pub open spec fn ids_bytes(toks: Seq<u32>) -> Seq<u8>
    decreases toks.len(),
{
    if toks.len() == 0 {
        Seq::empty()
    } else {
        ids_bytes(toks.drop_last()) + le32(toks.last())
    }
}

/// The slot section: each slot as its byte length and its bytes.
pub open spec fn slots_bytes(slots: Seq<Seq<u8>>) -> Seq<u8>
    decreases slots.len(),
{
    if slots.len() == 0 {
        Seq::empty()
    } else {
        slots_bytes(slots.drop_last()) + le32(slots.last().len() as u32) + slots.last()
    }
}

/// The header: magic and version.
pub open spec fn header_bytes() -> Seq<u8> {
    le32(MAGIC) + le32(VERSION)
}

/// The whole canonical encoding of wire ids and slot byte strings.
pub open spec fn canonical_bytes(toks: Seq<u32>, slots: Seq<Seq<u8>>) -> Seq<u8> {
    header_bytes() + le64(toks.len() as u64) + ids_bytes(toks) + le64(slots.len() as u64) + slots_bytes(slots)
}

/// The UTF-8 bytes of some strings.
pub open spec fn utf8_views(v: Seq<String>) -> Seq<Seq<u8>> {
    v.map_values(|s: String| encode_utf8(s@))
}

fn push_u32(out: &mut Vec<u8>, x: u32)
    ensures
        final(out)@ == old(out)@ + le32(x),
{
    reveal(le32);
    out.push((x % 256) as u8);
    out.push(((x / 256) % 256) as u8);
    out.push(((x / 65536) % 256) as u8);
    out.push(((x / 16777216) % 256) as u8);
    assert(final(out)@ =~= old(out)@ + le32(x));
}

fn push_u64(out: &mut Vec<u8>, x: u64)
    ensures
        final(out)@ == old(out)@ + le64(x),
{
    push_u32(out, (x % 4294967296) as u32);
    push_u32(out, (x / 4294967296) as u32);
    assert(final(out)@ =~= old(out)@ + le64(x));
}

fn push_bytes(out: &mut Vec<u8>, b: &[u8])
    ensures
        final(out)@ == old(out)@ + b@,
{
    let ghost o0 = out@;
    let mut j: usize = 0;
    while j < b.len()
        invariant
            j <= b@.len(),
            out@ == o0 + b@.take(j as int),
        decreases b@.len() - j,
    {
        out.push(b[j]);
        j = j + 1;
        assert(out@ =~= o0 + b@.take(j as int));
    }
    assert(b@.take(j as int) =~= b@);
}

fn copy_range(b: &[u8], start: usize, len: usize) -> (r: Vec<u8>)
    requires
        start + len <= b@.len(),
    ensures
        r@ == b@.subrange(start as int, start + len),
{
    let n = b.len();
    let mut buf: Vec<u8> = Vec::new();
    let mut j: usize = 0;
    while j < len
        invariant
            n == b@.len(),
            start + len <= b@.len(),
            j <= len,
            buf@ == b@.subrange(start as int, start + j),
        decreases len - j,
    {
        buf.push(b[start + j]);
        j = j + 1;
        assert(buf@ =~= b@.subrange(start as int, start + j));
    }
    buf
}

/// Serialises wire ids and slot strings in the canonical format.
pub fn write_canonical(toks: &[u32], slots: &[String]) -> (r: Vec<u8>)
    requires
        forall|k: int| 0 <= k < slots@.len() ==> (#[trigger] utf8_views(slots@)[k]).len() <= u32::MAX,
    ensures
        r@ == canonical_bytes(toks@, utf8_views(slots@)),
{
    let mut out: Vec<u8> = Vec::new();
    push_u32(&mut out, MAGIC);
    push_u32(&mut out, VERSION);
    push_u64(&mut out, toks.len() as u64);
    let ghost head = out@;
    let mut i: usize = 0;
    proof {
        assert(toks@.take(0) =~= Seq::<u32>::empty());
        assert(out@ =~= head + ids_bytes(toks@.take(0)));
    }
    while i < toks.len()
        invariant
            i <= toks@.len(),
            out@ == head + ids_bytes(toks@.take(i as int)),
        decreases toks@.len() - i,
    {
        push_u32(&mut out, toks[i]);
        i = i + 1;
        proof {
            assert(toks@.take(i as int).drop_last() =~= toks@.take(i - 1));
            assert(out@ =~= head + ids_bytes(toks@.take(i as int)));
        }
    }
    proof {
        assert(toks@.take(i as int) =~= toks@);
    }
    push_u64(&mut out, slots.len() as u64);
    let ghost mid = out@;
    let ghost sv = utf8_views(slots@);
    let mut k: usize = 0;
    proof {
        assert(sv.take(0) =~= Seq::<Seq<u8>>::empty());
        assert(out@ =~= mid + slots_bytes(sv.take(0)));
    }
    while k < slots.len()
        invariant
            k <= slots@.len(),
            sv == utf8_views(slots@),
            forall|q: int| 0 <= q < slots@.len() ==> (#[trigger] utf8_views(slots@)[q]).len() <= u32::MAX,
            out@ == mid + slots_bytes(sv.take(k as int)),
        decreases slots@.len() - k,
    {
        let b = slots[k].as_str().as_bytes();
        assert(b@ == sv[k as int]);
        let ghost before = out@;
        push_u32(&mut out, b.len() as u32);
        push_bytes(&mut out, b);
        k = k + 1;
        proof {
            assert(sv.take(k as int).drop_last() =~= sv.take(k - 1));
            assert(out@ =~= mid + slots_bytes(sv.take(k as int)));
        }
    }
    proof {
        assert(sv.take(k as int) =~= sv);
        assert(out@ =~= canonical_bytes(toks@, sv));
    }
    out
}

/// Relies on String::from_utf8: `Ok` exactly for valid UTF-8, keeping the bytes.
#[verifier::external_body]
fn string_from_utf8(b: Vec<u8>) -> (r: Option<String>)
    ensures
        r is Some <==> valid_utf8(b@),
        r matches Some(s) ==> encode_utf8(s@) == b@,
{
    String::from_utf8(b).ok()
}

proof fn lemma_u32_roundtrip(b: Seq<u8>, off: int)
    requires
        0 <= off,
        off + 4 <= b.len(),
    ensures
        0 <= u32_at(b, off) <= u32::MAX,
        le32(u32_at(b, off) as u32) == b.subrange(off, off + 4),
{
    reveal(u32_at);
    let v = u32_at(b, off);
    let b0 = b[off] as int;
    let b1 = b[off + 1] as int;
    let b2 = b[off + 2] as int;
    let b3 = b[off + 3] as int;
    assert(v % 256 == b0) by (nonlinear_arith)
        requires v == b0 + 256 * b1 + 65536 * b2 + 16777216 * b3, 0 <= b0 < 256, 0 <= b1 < 256, 0 <= b2 < 256, 0 <= b3 < 256;
    assert((v / 256) % 256 == b1) by (nonlinear_arith)
        requires v == b0 + 256 * b1 + 65536 * b2 + 16777216 * b3, 0 <= b0 < 256, 0 <= b1 < 256, 0 <= b2 < 256, 0 <= b3 < 256;
    assert((v / 65536) % 256 == b2) by (nonlinear_arith)
        requires v == b0 + 256 * b1 + 65536 * b2 + 16777216 * b3, 0 <= b0 < 256, 0 <= b1 < 256, 0 <= b2 < 256, 0 <= b3 < 256;
    assert((v / 16777216) % 256 == b3) by (nonlinear_arith)
        requires v == b0 + 256 * b1 + 65536 * b2 + 16777216 * b3, 0 <= b0 < 256, 0 <= b1 < 256, 0 <= b2 < 256, 0 <= b3 < 256;
    reveal(le32);
    assert(le32(v as u32) =~= b.subrange(off, off + 4));
}

proof fn lemma_u64_roundtrip(b: Seq<u8>, off: int)
    requires
        0 <= off,
        off + 8 <= b.len(),
    ensures
        0 <= u64_at(b, off) <= u64::MAX,
        le64(u64_at(b, off) as u64) == b.subrange(off, off + 8),
{
    lemma_u32_roundtrip(b, off);
    lemma_u32_roundtrip(b, off + 4);
    reveal(u64_at);
    let lo = u32_at(b, off);
    let hi = u32_at(b, off + 4);
    let v = u64_at(b, off);
    assert(v % 4294967296 == lo && v / 4294967296 == hi) by (nonlinear_arith)
        requires v == lo + 4294967296 * hi, 0 <= lo < 4294967296, 0 <= hi < 4294967296;
    assert(le64(v as u64) =~= b.subrange(off, off + 4) + b.subrange(off + 4, off + 8));
    assert(b.subrange(off, off + 8) =~= b.subrange(off, off + 4) + b.subrange(off + 4, off + 8));
}

/// The canonical encoding can carry these ids and slot bytes: counts fit in `u64`,
/// lengths in `u32`, and every slot is UTF-8.
pub open spec fn encodable(t: Seq<u32>, sb: Seq<Seq<u8>>) -> bool {
    &&& t.len() <= u64::MAX
    &&& sb.len() <= u64::MAX
    &&& forall|k: int| 0 <= k < sb.len() ==> (#[trigger] sb[k]).len() <= u32::MAX && valid_utf8(sb[k])
}

/// `bytes` is exactly the canonical encoding of `t` and `sb`.
pub open spec fn encodes(bytes: Seq<u8>, t: Seq<u32>, sb: Seq<Seq<u8>>) -> bool {
    encodable(t, sb) && bytes == canonical_bytes(t, sb)
}

proof fn lemma_le32_len(x: u32)
    ensures
        le32(x).len() == 4,
{
    reveal(le32);
}

proof fn lemma_le32_read(x: u32, pre: Seq<u8>, post: Seq<u8>)
    ensures
        u32_at(pre + le32(x) + post, pre.len() as int) == x,
{
    reveal(u32_at);
    reveal(le32);
    let b = pre + le32(x) + post;
    let o = pre.len() as int;
    assert(b[o] == le32(x)[0] && b[o + 1] == le32(x)[1] && b[o + 2] == le32(x)[2] && b[o + 3] == le32(x)[3]);
    let xi = x as int;
    assert(xi == (xi % 256) + 256 * ((xi / 256) % 256) + 65536 * ((xi / 65536) % 256) + 16777216 * ((xi / 16777216) % 256))
        by (nonlinear_arith)
        requires 0 <= xi < 4294967296;
}

proof fn lemma_le64_read(x: u64, pre: Seq<u8>, post: Seq<u8>)
    ensures
        u64_at(pre + le64(x) + post, pre.len() as int) == x,
{
    reveal(u64_at);
    let lo = (x % 4294967296) as u32;
    let hi = (x / 4294967296) as u32;
    lemma_le32_len(lo);
    lemma_le32_len(hi);
    assert(pre + le64(x) + post =~= pre + le32(lo) + (le32(hi) + post));
    lemma_le32_read(lo, pre, le32(hi) + post);
    assert(pre + le64(x) + post =~= (pre + le32(lo)) + le32(hi) + post);
    lemma_le32_read(hi, pre + le32(lo), post);
    let xi = x as int;
    assert(xi == xi % 4294967296 + 4294967296 * (xi / 4294967296)) by (nonlinear_arith)
        requires 0 <= xi;
}

proof fn lemma_ids_bytes(t: Seq<u32>)
    ensures
        ids_bytes(t).len() == 4 * t.len(),
        forall|i: int| 0 <= i < t.len() ==> #[trigger] ids_bytes(t).subrange(4 * i, 4 * i + 4) == le32(t[i]),
    decreases t.len(),
{
    if t.len() > 0 {
        lemma_ids_bytes(t.drop_last());
        lemma_le32_len(t.last());
        assert forall|i: int| 0 <= i < t.len() implies #[trigger] ids_bytes(t).subrange(4 * i, 4 * i + 4) == le32(t[i]) by {
            if i < t.len() - 1 {
                assert(ids_bytes(t).subrange(4 * i, 4 * i + 4) =~= ids_bytes(t.drop_last()).subrange(4 * i, 4 * i + 4));
            } else {
                assert(ids_bytes(t).subrange(4 * i, 4 * i + 4) =~= le32(t[i]));
            }
        }
    }
}

/// Where slot `k` starts inside the slot section.
pub open spec fn slot_off(sb: Seq<Seq<u8>>, k: int) -> int {
    slots_bytes(sb.take(k)).len() as int
}

proof fn lemma_slots_prefix(sb: Seq<Seq<u8>>, j: int, k: int)
    requires
        0 <= j <= k <= sb.len(),
    ensures
        slots_bytes(sb.take(j)).len() <= slots_bytes(sb.take(k)).len(),
        slots_bytes(sb.take(k)).take(slots_bytes(sb.take(j)).len() as int) == slots_bytes(sb.take(j)),
    decreases k - j,
{
    if j < k {
        lemma_slots_prefix(sb, j, k - 1);
        assert(sb.take(k).drop_last() =~= sb.take(k - 1));
        let a = slots_bytes(sb.take(j));
        let b = slots_bytes(sb.take(k - 1));
        assert(slots_bytes(sb.take(k)).take(a.len() as int) =~= b.take(a.len() as int));
    } else {
        assert(slots_bytes(sb.take(k)).take(slots_bytes(sb.take(j)).len() as int) =~= slots_bytes(sb.take(j)));
    }
}

proof fn lemma_layout_header(t: Seq<u32>, sb: Seq<Seq<u8>>)
    requires
        encodable(t, sb),
    ensures
        ({
            let cb = canonical_bytes(t, sb);
            &&& u32_at(cb, 0) == MAGIC
            &&& u32_at(cb, 4) == VERSION
            &&& u64_at(cb, 8) == t.len()
            &&& cb == header_bytes() + le64(t.len() as u64) + ids_bytes(t) + le64(sb.len() as u64) + slots_bytes(sb)
            &&& header_bytes().len() == 8
            &&& le64(t.len() as u64).len() == 8
            &&& le64(sb.len() as u64).len() == 8
        }),
{
    let cb = canonical_bytes(t, sb);
    let ids = ids_bytes(t);
    let sl = slots_bytes(sb);
    lemma_le32_len(MAGIC);
    lemma_le32_len(VERSION);
    lemma_le32_len((t.len() as u64 % 4294967296) as u32);
    lemma_le32_len((t.len() as u64 / 4294967296) as u32);
    lemma_le32_len((sb.len() as u64 % 4294967296) as u32);
    lemma_le32_len((sb.len() as u64 / 4294967296) as u32);
    let tail = le64(t.len() as u64) + ids + le64(sb.len() as u64) + sl;
    lemma_le32_read(MAGIC, Seq::empty(), le32(VERSION) + tail);
    assert(cb =~= Seq::<u8>::empty() + le32(MAGIC) + (le32(VERSION) + tail));
    lemma_le32_read(VERSION, le32(MAGIC), tail);
    assert(cb =~= le32(MAGIC) + le32(VERSION) + tail);
    lemma_le64_read(t.len() as u64, header_bytes(), ids + le64(sb.len() as u64) + sl);
    assert(cb =~= header_bytes() + le64(t.len() as u64) + (ids + le64(sb.len() as u64) + sl));
}

proof fn lemma_layout_ids(t: Seq<u32>, sb: Seq<Seq<u8>>)
    requires
        encodable(t, sb),
    ensures
        ({
            let cb = canonical_bytes(t, sb);
            let ids_end = (16 + 4 * t.len()) as int;
            &&& forall|i: int| 0 <= i < t.len() ==> #[trigger] u32_at(cb, 16 + 4 * i) == t[i]
            &&& u64_at(cb, ids_end) == sb.len()
            &&& cb == (header_bytes() + le64(t.len() as u64) + ids_bytes(t) + le64(sb.len() as u64)) + slots_bytes(sb)
            &&& (header_bytes() + le64(t.len() as u64) + ids_bytes(t) + le64(sb.len() as u64)).len() == ids_end + 8
        }),
{
    lemma_layout_header(t, sb);
    lemma_ids_bytes(t);
    let cb = canonical_bytes(t, sb);
    let ids = ids_bytes(t);
    let sl = slots_bytes(sb);
    let head = header_bytes() + le64(t.len() as u64);
    assert forall|i: int| 0 <= i < t.len() implies #[trigger] u32_at(cb, 16 + 4 * i) == t[i] by {
        let pre = head + ids.take(4 * i);
        let post = ids.skip(4 * i + 4) + le64(sb.len() as u64) + sl;
        assert(ids =~= ids.take(4 * i) + ids.subrange(4 * i, 4 * i + 4) + ids.skip(4 * i + 4));
        assert(cb =~= pre + le32(t[i]) + post);
        lemma_le32_read(t[i], pre, post);
    }
    lemma_le64_read(sb.len() as u64, head + ids, sl);
    assert(cb =~= (head + ids) + le64(sb.len() as u64) + sl);
}

proof fn lemma_layout_slot(t: Seq<u32>, sb: Seq<Seq<u8>>, k: int)
    requires
        encodable(t, sb),
        0 <= k < sb.len(),
    ensures
        ({
            let cb = canonical_bytes(t, sb);
            let ids_end = (16 + 4 * t.len()) as int;
            &&& slot_off(sb, k) + 4 + sb[k].len() <= slot_off(sb, sb.len() as int)
            &&& u32_at(cb, ids_end + 8 + slot_off(sb, k)) == sb[k].len()
            &&& cb.subrange(ids_end + 12 + slot_off(sb, k), ids_end + 12 + slot_off(sb, k) + sb[k].len()) == sb[k]
            &&& slot_off(sb, k + 1) == slot_off(sb, k) + 4 + sb[k].len()
        }),
{
    lemma_layout_ids(t, sb);
    let cb = canonical_bytes(t, sb);
    let sl = slots_bytes(sb);
    let base = header_bytes() + le64(t.len() as u64) + ids_bytes(t) + le64(sb.len() as u64);
    let before = slots_bytes(sb.take(k));
    let upto = slots_bytes(sb.take(k + 1));
    assert(sb.take(k + 1).drop_last() =~= sb.take(k));
    assert(sb.take(k + 1).last() == sb[k]);
    assert(upto == before + le32(sb[k].len() as u32) + sb[k]);
    lemma_le32_len(sb[k].len() as u32);
    assert(sb.take(sb.len() as int) =~= sb);
    lemma_slots_prefix(sb, k + 1, sb.len() as int);
    assert(sl.take(upto.len() as int) == upto);
    let rest = sl.skip(upto.len() as int);
    assert(sl =~= upto + rest);
    assert(cb =~= (base + before) + le32(sb[k].len() as u32) + (sb[k] + rest));
    lemma_le32_read(sb[k].len() as u32, base + before, sb[k] + rest);
    let st = (16 + 4 * t.len()) as int + 12 + slot_off(sb, k);
    assert(cb.subrange(st, st + sb[k].len()) =~= sb[k]);
}

proof fn lemma_layout_len(t: Seq<u32>, sb: Seq<Seq<u8>>)
    requires
        encodable(t, sb),
    ensures
        canonical_bytes(t, sb).len() == (16 + 4 * t.len()) as int + 8 + slot_off(sb, sb.len() as int),
{
    lemma_layout_ids(t, sb);
    assert(sb.take(sb.len() as int) =~= sb);
}

fn read_u32(b: &[u8], off: usize) -> (r: u32)
    requires
        off + 4 <= b@.len(),
    ensures
        r as int == u32_at(b@, off as int),
{
    proof {
        lemma_u32_roundtrip(b@, off as int);
        reveal(u32_at);
    }
    let v: u64 = b[off] as u64 + 256 * (b[off + 1] as u64) + 65536 * (b[off + 2] as u64) + 16777216 * (b[off + 3] as u64);
    v as u32
}

fn read_u64(b: &[u8], off: usize) -> (r: u64)
    requires
        off + 8 <= b@.len(),
    ensures
        r as int == u64_at(b@, off as int),
{
    let n = b.len();
    assert(off + 8 <= n);
    let lo = read_u32(b, off) as u64;
    let hi = read_u32(b, off + 4) as u64;
    proof {
        lemma_u32_roundtrip(b@, off as int);
        lemma_u32_roundtrip(b@, off + 4);
        reveal(u64_at);
    }
    lo + 4294967296 * hi
}

/// Reads the canonical format. Bad magic and an unsupported version are rejected;
/// so are missing bytes and slot bytes that are not UTF-8. Bytes after the last slot
/// are ignored.
pub fn read_canonical(bytes: &[u8]) -> (r: Result<(Vec<u32>, Vec<String>), CanonicalError>)
    ensures
        bytes@.len() < 4 ==> r == Err::<(Vec<u32>, Vec<String>), CanonicalError>(CanonicalError::Truncated),
        bytes@.len() >= 4 && u32_at(bytes@, 0) != MAGIC ==> r == Err::<(Vec<u32>, Vec<String>), CanonicalError>(CanonicalError::BadMagic),
        bytes@.len() >= 4 && u32_at(bytes@, 0) == MAGIC && bytes@.len() < 8
            ==> r == Err::<(Vec<u32>, Vec<String>), CanonicalError>(CanonicalError::Truncated),
        bytes@.len() >= 8 && u32_at(bytes@, 0) == MAGIC && u32_at(bytes@, 4) != VERSION
            ==> r == Err::<(Vec<u32>, Vec<String>), CanonicalError>(CanonicalError::BadVersion),
        r matches Ok((t, s)) ==> ({
            let cb = canonical_bytes(t@, utf8_views(s@));
            cb.len() <= bytes@.len() && bytes@.subrange(0, cb.len() as int) == cb
        }),
        forall|t: Seq<u32>, sb: Seq<Seq<u8>>| #[trigger] encodes(bytes@, t, sb) ==> (r matches Ok((t2, s2)) && t2@ == t
            && utf8_views(s2@) == sb),
{
    let n = bytes.len();
    proof {
        assert forall|t: Seq<u32>, sb: Seq<Seq<u8>>| #[trigger] encodes(bytes@, t, sb) implies n >= 16 + 4 * t.len() + 8
            && u32_at(bytes@, 0) == MAGIC && u32_at(bytes@, 4) == VERSION && u64_at(bytes@, 8) == t.len() by {
            lemma_layout_header(t, sb);
            lemma_layout_len(t, sb);
        }
    }
    if n < 4 {
        return Err(CanonicalError::Truncated);
    }
    if read_u32(bytes, 0) != MAGIC {
        return Err(CanonicalError::BadMagic);
    }
    if n < 8 {
        return Err(CanonicalError::Truncated);
    }
    if read_u32(bytes, 4) != VERSION {
        return Err(CanonicalError::BadVersion);
    }
    if n - 8 < 8 {
        return Err(CanonicalError::Truncated);
    }
    let count = read_u64(bytes, 8);
    proof {
        lemma_u32_roundtrip(bytes@, 0);
        lemma_u32_roundtrip(bytes@, 4);
        lemma_u64_roundtrip(bytes@, 8);
    }
    let mut off: usize = 16;
    let mut toks: Vec<u32> = Vec::new();
    let mut i: u64 = 0;
    proof {
        assert(bytes@.subrange(0, 16) =~= bytes@.subrange(0, 4) + bytes@.subrange(4, 8) + bytes@.subrange(8, 16));
    }
    while i < count
        invariant
            n == bytes@.len(),
            u32_at(bytes@, 0) == MAGIC,
            u32_at(bytes@, 4) == VERSION,
            16 <= off <= n,
            i <= count,
            toks@.len() == i,
            count as int == u64_at(bytes@, 8),
            le64(count) == bytes@.subrange(8, 16),
            bytes@.subrange(0, 8) == header_bytes(),
            off == 16 + 4 * i,
            bytes@.subrange(16, off as int) == ids_bytes(toks@),
            forall|t: Seq<u32>, sb: Seq<Seq<u8>>| #[trigger] encodes(bytes@, t, sb) ==> count == t.len() && toks@ == t.take(
                i as int) && n >= 16 + 4 * t.len() + 8,
        decreases count - i,
    {
        if n - off < 4 {
            return Err(CanonicalError::Truncated);
        }
        let t = read_u32(bytes, off);
        proof {
            lemma_u32_roundtrip(bytes@, off as int);
        }
        let ghost t0 = toks@;
        toks.push(t);
        proof {
            assert forall|tt: Seq<u32>, sb: Seq<Seq<u8>>| #[trigger] encodes(bytes@, tt, sb) implies count == tt.len()
                && toks@ == tt.take(i + 1) && n >= 16 + 4 * tt.len() + 8 by {
                lemma_layout_ids(tt, sb);
                assert(u32_at(bytes@, 16 + 4 * i) == tt[i as int]);
                assert(toks@ =~= tt.take(i + 1));
            }
            assert(toks@.drop_last() =~= t0);
            assert(bytes@.subrange(16, off + 4) =~= bytes@.subrange(16, off as int) + bytes@.subrange(off as int, off + 4));
        }
        off = off + 4;
        i = i + 1;
    }
    if n - off < 8 {
        return Err(CanonicalError::Truncated);
    }
    let m = read_u64(bytes, off);
    proof {
        lemma_u64_roundtrip(bytes@, off as int);
        assert forall|t: Seq<u32>, sb: Seq<Seq<u8>>| #[trigger] encodes(bytes@, t, sb) implies toks@ == t && m == sb.len()
            && off + 8 + slot_off(sb, 0) == 16 + 4 * t.len() + 8 && utf8_views(Seq::<String>::empty()) == sb.take(0) by {
            lemma_layout_ids(t, sb);
            assert(toks@ =~= t);
            assert(sb.take(0) =~= Seq::<Seq<u8>>::empty());
            assert(utf8_views(Seq::<String>::empty()) =~= Seq::<Seq<u8>>::empty());
        }
    }
    let ids_end = off;
    off = off + 8;
    let mut slots: Vec<String> = Vec::new();
    let mut k: u64 = 0;
    proof {
        assert(utf8_views(slots@) =~= Seq::<Seq<u8>>::empty());
        assert(bytes@.subrange(off as int, off as int) =~= slots_bytes(utf8_views(slots@)));
    }
    while k < m
        invariant
            n == bytes@.len(),
            u32_at(bytes@, 0) == MAGIC,
            u32_at(bytes@, 4) == VERSION,
            ids_end + 8 <= off <= n,
            k <= m,
            slots@.len() == k,
            bytes@.subrange(0, 8) == header_bytes(),
            le64(toks@.len() as u64) == bytes@.subrange(8, 16),
            bytes@.subrange(16, ids_end as int) == ids_bytes(toks@),
            le64(m) == bytes@.subrange(ids_end as int, ids_end + 8),
            bytes@.subrange(ids_end + 8, off as int) == slots_bytes(utf8_views(slots@)),
            forall|t: Seq<u32>, sb: Seq<Seq<u8>>| #[trigger] encodes(bytes@, t, sb) ==> toks@ == t && m == sb.len()
                && ids_end == 16 + 4 * t.len() && off == ids_end + 8 + slot_off(sb, k as int) && utf8_views(slots@)
                == sb.take(k as int),
        decreases m - k,
    {
        proof {
            assert forall|t: Seq<u32>, sb: Seq<Seq<u8>>| #[trigger] encodes(bytes@, t, sb) implies off + 4 + sb[k as int].len()
                <= n && u32_at(bytes@, off as int) == sb[k as int].len() && bytes@.subrange(off + 4, off + 4 + sb[k as int].len())
                == sb[k as int] by {
                lemma_layout_slot(t, sb, k as int);
                lemma_layout_len(t, sb);
            }
        }
        if n - off < 4 {
            return Err(CanonicalError::Truncated);
        }
        let len = read_u32(bytes, off) as usize;
        proof {
            lemma_u32_roundtrip(bytes@, off as int);
        }
        if n - off - 4 < len {
            return Err(CanonicalError::Truncated);
        }
        let start = off + 4;
        let buf = copy_range(bytes, start, len);
        let ghost bb = buf@;
        let sopt = string_from_utf8(buf);
        let s = match sopt {
            Some(s) => s,
            None => {
                return Err(CanonicalError::BadUtf8);
            },
        };
        let ghost s0 = slots@;
        slots.push(s);
        proof {
            assert forall|t: Seq<u32>, sb: Seq<Seq<u8>>| #[trigger] encodes(bytes@, t, sb) implies toks@ == t && m == sb.len()
                && ids_end == 16 + 4 * t.len() && start + len == ids_end + 8 + slot_off(sb, k + 1) && utf8_views(slots@)
                == sb.take(k + 1) by {
                lemma_layout_slot(t, sb, k as int);
                assert(utf8_views(slots@) =~= utf8_views(s0).push(bb));
                assert(sb.take(k + 1) =~= sb.take(k as int).push(sb[k as int]));
            }
            assert(utf8_views(slots@) =~= utf8_views(s0).push(bb));
            assert(utf8_views(slots@).drop_last() =~= utf8_views(s0));
            assert(bytes@.subrange(ids_end + 8, start + len) =~= bytes@.subrange(ids_end + 8, off as int)
                + bytes@.subrange(off as int, off + 4) + bytes@.subrange(start as int, start + len));
        }
        off = start + len;
        k = k + 1;
    }
    proof {
        let cb = canonical_bytes(toks@, utf8_views(slots@));
        assert(bytes@.subrange(0, off as int) =~= bytes@.subrange(0, 8) + bytes@.subrange(8, 16)
            + bytes@.subrange(16, ids_end as int) + bytes@.subrange(ids_end as int, ids_end + 8)
            + bytes@.subrange(ids_end + 8, off as int));
        assert(bytes@.subrange(0, off as int) =~= cb);
        assert forall|t: Seq<u32>, sb: Seq<Seq<u8>>| #[trigger] encodes(bytes@, t, sb) implies toks@ == t && utf8_views(slots@)
            == sb by {
            assert(sb.take(k as int) =~= sb);
        }
    }
    Ok((toks, slots))
}

} // verus!
