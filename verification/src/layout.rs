//! Byte layout of LUT volumes and of padded staging buffers: little-endian
//! 32-bit words, RGB-to-RGBA expansion with forced alpha, and the row-by-row
//! copies between tight and padded row strides.

use vstd::prelude::*;
use vstd::arithmetic::div_mod::lemma_fundamental_div_mod_converse;

verus! {

/// Bit pattern of the 32-bit float 1.0, the alpha value every voxel carries.
pub const ALPHA_ONE_BITS: u32 = 0x3F80_0000;

/// Byte `i` (little-endian) of a 32-bit word.
pub open spec fn le_byte(w: u32, i: int) -> u8
    recommends
        0 <= i < 4,
{
    ((w >> ((8 * i) as u32)) & 0xff) as u8
}

/// The four little-endian bytes of a 32-bit word.
pub open spec fn le32(w: u32) -> Seq<u8> {
    seq![le_byte(w, 0), le_byte(w, 1), le_byte(w, 2), le_byte(w, 3)]
}

/// Appends the four little-endian bytes of `w` to `buf`.
pub fn push_word_le(buf: &mut Vec<u8>, w: u32)
    ensures
        final(buf)@ == old(buf)@ + le32(w),
{
    proof {
        assert(w >> 0u32 == w) by (bit_vector);
        assert(w & 0xff < 256 && (w >> 8u32) & 0xff < 256 && (w >> 16u32) & 0xff < 256 && (w
            >> 24u32) & 0xff < 256) by (bit_vector);
    }
    buf.push((w & 0xff) as u8);
    buf.push(((w >> 8u32) & 0xff) as u8);
    buf.push(((w >> 16u32) & 0xff) as u8);
    buf.push(((w >> 24u32) & 0xff) as u8);
    proof {
        assert(final(buf)@ =~= old(buf)@ + le32(w));
    }
}

/// Bytes of one RGBA float32 voxel: the three channel words and the forced
/// alpha word 1.0.
pub open spec fn voxel_bytes(r: u32, g: u32, b: u32) -> Seq<u8> {
    le32(r) + le32(g) + le32(b) + le32(ALPHA_ONE_BITS)
}

/// RGBA byte volume obtained from packed RGB channel words (bit patterns of
/// 32-bit floats, in LUT-index order) by forcing alpha to 1.0.
pub open spec fn expand_rgb_words(ws: Seq<u32>) -> Seq<u8>
    decreases ws.len(),
{
    if ws.len() < 3 {
        Seq::empty()
    } else {
        voxel_bytes(ws[0], ws[1], ws[2]) + expand_rgb_words(ws.skip(3))
    }
}

proof fn lemma_expand_step(ws: Seq<u32>, k: int)
    requires
        0 <= k,
        k % 3 == 0,
        k + 3 <= ws.len(),
    ensures
        expand_rgb_words(ws.take(k + 3)) == expand_rgb_words(ws.take(k)) + voxel_bytes(
            ws[k],
            ws[k + 1],
            ws[k + 2],
        ),
    decreases k,
{
    let t = ws.take(k + 3);
    assert(t.len() == k + 3);
    assert(expand_rgb_words(t) == voxel_bytes(t[0], t[1], t[2]) + expand_rgb_words(t.skip(3)));
    if k == 0 {
        assert(t.skip(3) =~= Seq::<u32>::empty());
        assert(expand_rgb_words(t.skip(3)) == Seq::<u8>::empty());
        assert(expand_rgb_words(ws.take(0)) == Seq::<u8>::empty());
        assert(expand_rgb_words(t) =~= expand_rgb_words(ws.take(0)) + voxel_bytes(
            ws[0],
            ws[1],
            ws[2],
        ));
    } else {
        lemma_expand_step(ws.skip(3), k - 3);
        let s = ws.take(k);
        assert(s.len() == k >= 3);
        assert(expand_rgb_words(s) == voxel_bytes(s[0], s[1], s[2]) + expand_rgb_words(s.skip(3)));
        assert(t.skip(3) =~= ws.skip(3).take(k));
        assert(s.skip(3) =~= ws.skip(3).take(k - 3));
        assert(ws.skip(3)[k - 3] == ws[k] && ws.skip(3)[k - 2] == ws[k + 1] && ws.skip(3)[k - 1]
            == ws[k + 2]);
        assert(expand_rgb_words(t) =~= expand_rgb_words(s) + voxel_bytes(
            ws[k],
            ws[k + 1],
            ws[k + 2],
        ));
    }
}

/// The byte at position `j` of the expanded volume: channel bytes come
/// little-endian from source word `3 * (j/16) + (j%16)/4`, and positions with
/// `j % 16 >= 12` hold the bytes of the forced alpha 1.0.
pub open spec fn expanded_byte(ws: Seq<u32>, j: int) -> u8 {
    if j % 16 < 12 {
        le_byte(ws[3 * (j / 16) + (j % 16) / 4], j % 4)
    } else {
        le_byte(ALPHA_ONE_BITS, j % 4)
    }
}

/// How the expanded volume lays its bytes out: voxel `v`, channel `c` holds
/// the little-endian bytes of source word `3v + c`, and every voxel's fourth
/// channel holds the bytes of the float 1.0. This is the byte identity,
/// modulo the forced alpha, between a packed RGB upload and its pre-expanded
/// RGBA equivalent.
pub proof fn lemma_expand_rgb_words_layout(ws: Seq<u32>)
    requires
        ws.len() % 3 == 0,
    ensures
        expand_rgb_words(ws).len() == (ws.len() / 3) * 16,
        forall|j: int|
            0 <= j < expand_rgb_words(ws).len() ==> #[trigger] expand_rgb_words(ws)[j]
                == expanded_byte(ws, j),
    decreases ws.len(),
{
    if ws.len() >= 3 {
        let rest = ws.skip(3);
        lemma_expand_rgb_words_layout(rest);
        assert(expand_rgb_words(ws) == voxel_bytes(ws[0], ws[1], ws[2]) + expand_rgb_words(rest));
        assert forall|j: int| 0 <= j < expand_rgb_words(ws).len() implies #[trigger] expand_rgb_words(
            ws,
        )[j] == expanded_byte(ws, j) by {
            if j < 16 {
                assert(expand_rgb_words(ws)[j] == voxel_bytes(ws[0], ws[1], ws[2])[j]);
                assert(j % 16 == j && j / 16 == 0);
                if j < 4 {
                    assert((j % 16) / 4 == 0 && j % 4 == j);
                } else if j < 8 {
                    assert((j % 16) / 4 == 1 && j % 4 == j - 4);
                } else if j < 12 {
                    assert((j % 16) / 4 == 2 && j % 4 == j - 8);
                } else {
                    assert(j % 4 == j - 12);
                }
            } else {
                assert(expand_rgb_words(ws)[j] == expand_rgb_words(rest)[j - 16]);
                assert(expand_rgb_words(rest)[j - 16] == expanded_byte(rest, j - 16));
                assert((j - 16) % 16 == j % 16 && (j - 16) % 4 == j % 4 && (j - 16) / 16 == j / 16
                    - 1);
                if j % 16 < 12 {
                    assert(rest[3 * ((j - 16) / 16) + ((j - 16) % 16) / 4] == ws[3 * (j / 16) + (j
                        % 16) / 4]);
                }
            }
        }
    }
}

/// Expands packed RGB channel words to the RGBA byte volume with alpha forced
/// to 1.0.
pub fn expand_rgb(words: &[u32]) -> (out: Vec<u8>)
    requires
        words@.len() % 3 == 0,
    ensures
        out@ == expand_rgb_words(words@),
{
    let n: usize = words.len();
    let mut out: Vec<u8> = Vec::new();
    let mut i: usize = 0;
    while i < n
        invariant
            n == words@.len(),
            i % 3 == 0,
            i <= words@.len(),
            words@.len() % 3 == 0,
            out@ == expand_rgb_words(words@.take(i as int)),
        decreases words@.len() - i,
    {
        proof {
            assert((n - i) % 3 == 0);
            assert(i + 3 <= n);
        }
        push_word_le(&mut out, words[i]);
        push_word_le(&mut out, words[i + 1]);
        push_word_le(&mut out, words[i + 2]);
        push_word_le(&mut out, ALPHA_ONE_BITS);
        proof {
            lemma_expand_step(words@, i as int);
            assert(out@ =~= expand_rgb_words(words@.take(i + 3)));
        }
        i = i + 3;
    }
    proof {
        assert(words@.take(i as int) =~= words@);
    }
    out
}

/// Rows of `data` (tight stride `unpadded`) laid out at stride `padded`,
/// with the pad bytes of every row zero.
pub open spec fn pack_rows_spec(data: Seq<u8>, unpadded: int, padded: int, rows: int) -> Seq<u8>
    recommends
        0 <= unpadded <= padded,
        data.len() == unpadded * rows,
{
    Seq::new(
        (padded * rows) as nat,
        |j: int|
            {
                let r = j / padded;
                let o = j % padded;
                if o < unpadded {
                    data[r * unpadded + o]
                } else {
                    0u8
                }
            },
    )
}

/// The caller's buffer after copying each of `rows` padded rows back at the
/// tight stride: positions below `unpadded * rows` take their byte from the
/// padded buffer, later positions keep their old value.
pub open spec fn unpack_rows_spec(
    orig: Seq<u8>,
    padded_data: Seq<u8>,
    unpadded: int,
    padded: int,
    rows: int,
) -> Seq<u8> {
    Seq::new(
        orig.len(),
        |i: int|
            {
                if i < unpadded * rows {
                    padded_data[(i / unpadded) * padded + i % unpadded]
                } else {
                    orig[i]
                }
            },
    )
}

/// Copies each tight row of `data` into a fresh buffer at the padded stride,
/// zero-filling the pad bytes.
pub fn pack_rows(data: &[u8], unpadded: usize, padded: usize, rows: usize) -> (out: Vec<u8>)
    requires
        unpadded <= padded,
        data@.len() == unpadded * rows,
        padded * rows <= usize::MAX,
    ensures
        out@ == pack_rows_spec(data@, unpadded as int, padded as int, rows as int),
        out@.len() == padded * rows,
{
    let ghost target = pack_rows_spec(data@, unpadded as int, padded as int, rows as int);
    let n: usize = data.len();
    let mut out: Vec<u8> = Vec::new();
    let mut r: usize = 0;
    while r < rows
        invariant
            r <= rows,
            unpadded <= padded,
            data@.len() == unpadded * rows,
            unpadded * rows <= usize::MAX,
            padded * rows <= usize::MAX,
            target == pack_rows_spec(data@, unpadded as int, padded as int, rows as int),
            out@.len() == r * padded,
            out@ == target.take(r * padded),
        decreases rows - r,
    {
        proof {
            assert((r + 1) * padded <= rows * padded) by (nonlinear_arith)
                requires
                    r < rows,
                    padded >= 0,
            ;
        }
        let mut o: usize = 0;
        while o < unpadded
            invariant
                o <= unpadded,
                r < rows,
                unpadded <= padded,
                data@.len() == unpadded * rows,
                unpadded * rows <= usize::MAX,
                (r + 1) * padded <= rows * padded,
                padded * rows <= usize::MAX,
                target == pack_rows_spec(data@, unpadded as int, padded as int, rows as int),
                out@.len() == r * padded + o,
                out@ == target.take(r * padded + o),
            decreases unpadded - o,
        {
            proof {
                assert(r * unpadded + o < unpadded * rows && r * padded + o < padded * rows) by (
                nonlinear_arith)
                    requires
                        0 <= o < unpadded,
                        unpadded <= padded,
                        0 <= r < rows,
                ;
                lemma_fundamental_div_mod_converse(
                    r * padded + o,
                    padded as int,
                    r as int,
                    o as int,
                );
                assert(target[r * padded + o] == data@[r * unpadded + o]);
            }
            out.push(data[r * unpadded + o]);
            proof {
                assert(out@ =~= target.take(r * padded + o + 1));
            }
            o = o + 1;
        }
        let mut z: usize = unpadded;
        while z < padded
            invariant
                unpadded <= z <= padded,
                r < rows,
                data@.len() == unpadded * rows,
                (r + 1) * padded <= rows * padded,
                padded * rows <= usize::MAX,
                target == pack_rows_spec(data@, unpadded as int, padded as int, rows as int),
                out@.len() == r * padded + z,
                out@ == target.take(r * padded + z),
            decreases padded - z,
        {
            proof {
                assert(r * padded + z < padded * rows) by (nonlinear_arith)
                    requires
                        0 <= z < padded,
                        0 <= r < rows,
                ;
                lemma_fundamental_div_mod_converse(
                    r * padded + z,
                    padded as int,
                    r as int,
                    z as int,
                );
                assert(target[r * padded + z] == 0u8);
            }
            out.push(0u8);
            proof {
                assert(out@ =~= target.take(r * padded + z + 1));
            }
            z = z + 1;
        }
        proof {
            assert(r * padded + padded == (r + 1) * padded) by (nonlinear_arith);
        }
        r = r + 1;
    }
    proof {
        assert(rows * padded == padded * rows) by (nonlinear_arith);
        assert(out@ =~= target);
    }
    out
}

/// Copies each padded row of `padded_data` back into `data` at the tight
/// stride, in place; bytes of `data` beyond the copied rows keep their value.
pub fn unpack_rows(
    padded_data: &[u8],
    unpadded: usize,
    padded: usize,
    rows: usize,
    data: &mut Vec<u8>,
)
    requires
        unpadded <= padded,
        padded_data@.len() == padded * rows,
        old(data)@.len() >= unpadded * rows,
    ensures
        final(data)@ == unpack_rows_spec(
            old(data)@,
            padded_data@,
            unpadded as int,
            padded as int,
            rows as int,
        ),
{
    let ghost target = unpack_rows_spec(
        old(data)@,
        padded_data@,
        unpadded as int,
        padded as int,
        rows as int,
    );
    let n_padded: usize = padded_data.len();
    let n_data: usize = data.len();
    let mut r: usize = 0;
    while r < rows
        invariant
            r <= rows,
            unpadded <= padded,
            padded_data@.len() == padded * rows,
            padded * rows <= usize::MAX,
            data@.len() == old(data)@.len() >= unpadded * rows,
            data@.len() <= usize::MAX,
            target == unpack_rows_spec(
                old(data)@,
                padded_data@,
                unpadded as int,
                padded as int,
                rows as int,
            ),
            forall|i: int| 0 <= i < r * unpadded ==> data@[i] == target[i],
            forall|i: int| r * unpadded <= i < data@.len() ==> data@[i] == old(data)@[i],
        decreases rows - r,
    {
        let mut o: usize = 0;
        while o < unpadded
            invariant
                o <= unpadded,
                r < rows,
                unpadded <= padded,
                padded_data@.len() == padded * rows,
                padded * rows <= usize::MAX,
                data@.len() == old(data)@.len() >= unpadded * rows,
                data@.len() <= usize::MAX,
                target == unpack_rows_spec(
                    old(data)@,
                    padded_data@,
                    unpadded as int,
                    padded as int,
                    rows as int,
                ),
                forall|i: int| 0 <= i < r * unpadded + o ==> data@[i] == target[i],
                forall|i: int| r * unpadded + o <= i < data@.len() ==> data@[i] == old(data)@[i],
            decreases unpadded - o,
        {
            proof {
                assert(r * unpadded + o < unpadded * rows && (r + 1) * unpadded <= unpadded * rows
                    && r * padded + o < padded * rows) by (nonlinear_arith)
                    requires
                        0 <= o < unpadded,
                        unpadded <= padded,
                        0 <= r < rows,
                ;
                lemma_fundamental_div_mod_converse(
                    r * unpadded + o,
                    unpadded as int,
                    r as int,
                    o as int,
                );
                assert(target[r * unpadded + o] == padded_data@[r * padded + o]);
            }
            let i = r * unpadded + o;
            data.set(i, padded_data[r * padded + o]);
            o = o + 1;
        }
        proof {
            assert(r * unpadded + unpadded == (r + 1) * unpadded) by (nonlinear_arith);
        }
        r = r + 1;
    }
    proof {
        assert(rows * unpadded == unpadded * rows) by (nonlinear_arith);
        assert forall|i: int| 0 <= i < data@.len() implies data@[i] == target[i] by {
            if i >= rows * unpadded {
                assert(target[i] == old(data)@[i]);
            }
        }
        assert(data@ =~= target);
    }
}

/// Packing rows out at the padded stride and copying them back at the tight
/// stride returns every byte of the caller's buffer unchanged: the verified
/// half of the end-to-end identity path, with the device step left out.
pub proof fn lemma_pack_unpack_roundtrip(data: Seq<u8>, unpadded: int, padded: int, rows: int)
    requires
        0 <= unpadded <= padded,
        0 <= rows,
        data.len() == unpadded * rows,
    ensures
        unpack_rows_spec(
            data,
            pack_rows_spec(data, unpadded, padded, rows),
            unpadded,
            padded,
            rows,
        ) == data,
{
    let packed = pack_rows_spec(data, unpadded, padded, rows);
    let unpacked = unpack_rows_spec(data, packed, unpadded, padded, rows);
    assert forall|i: int| 0 <= i < data.len() implies unpacked[i] == data[i] by {
        if i < unpadded * rows {
            let r = i / unpadded;
            let o = i % unpadded;
            assert(unpadded > 0);
            vstd::arithmetic::div_mod::lemma_fundamental_div_mod(i, unpadded);
            assert(0 <= o < unpadded && 0 <= r < rows && r * padded + o < padded * rows) by (
            nonlinear_arith)
                requires
                    0 <= i < unpadded * rows,
                    unpadded <= padded,
                    unpadded > 0,
                    r == i / unpadded,
                    o == i % unpadded,
            ;
            assert(unpacked[i] == packed[r * padded + o]);
            lemma_fundamental_div_mod_converse(r * padded + o, padded, r, o);
            assert(packed[r * padded + o] == data[r * unpadded + o]);
            assert(i == unpadded * r + o);
            assert(unpadded * r == r * unpadded) by (nonlinear_arith);
            assert(r * unpadded + o == i);
        }
    }
    assert(unpacked =~= data);
}

} // verus!
