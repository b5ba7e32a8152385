use vstd::prelude::*;
use vstd::utf8::encode_utf8_valid_utf8;
use vstd::utf8::is_leading_byte_width_1;
use vstd::utf8::valid_utf8_concat;
use vstd::utf8::partial_valid_utf8;
use vstd::utf8::partial_valid_utf8_extend_ascii_block;
use vstd::utf8::valid_utf8;

verus! {

/// The ASCII byte for the hexadecimal digit `d`, upper case.
pub open spec fn hex_digit(d: int) -> u8
    recommends
        0 <= d < 16,
{
    if d < 10 {
        (0x30 + d) as u8
    } else {
        (0x37 + d) as u8
    }
}

/// The upper-case hexadecimal digits of `v`, most significant first, without
/// leading zeros (a single zero digit for zero).
pub open spec fn hex_bytes(v: int) -> Seq<u8>
    recommends
        v >= 0,
    decreases v,
{
    if v < 16 {
        seq![hex_digit(v)]
    } else {
        hex_bytes(v / 16) + seq![hex_digit(v % 16)]
    }
}

/// The decimal digits of `v`, most significant first.
pub open spec fn dec_bytes(v: int) -> Seq<u8>
    recommends
        v >= 0,
    decreases v,
{
    if v < 10 {
        seq![(0x30 + v) as u8]
    } else {
        dec_bytes(v / 10) + seq![(0x30 + v % 10) as u8]
    }
}

/// Every byte of the hexadecimal spelling is a printable ASCII digit or
/// letter.
pub proof fn lemma_hex_bytes_ascii(v: int)
    requires
        v >= 0,
    ensures
        forall|i: int|
            0 <= i < hex_bytes(v).len() ==> 0x30 <= #[trigger] hex_bytes(v)[i] < 0x47,
    decreases v,
{
    if v >= 16 {
        lemma_hex_bytes_ascii(v / 16);
        let a = hex_bytes(v / 16);
        let w = hex_bytes(v);
        assert forall|i: int| 0 <= i < w.len() implies 0x30 <= #[trigger] w[i] < 0x47 by {
            if i < a.len() {
                assert(w[i] == a[i]);
            } else {
                assert(w[i] == hex_digit(v % 16));
            }
        }
    }
}

/// Every byte of the decimal spelling is an ASCII digit.
pub proof fn lemma_dec_bytes_ascii(v: int)
    requires
        v >= 0,
    ensures
        forall|i: int|
            0 <= i < dec_bytes(v).len() ==> 0x30 <= #[trigger] dec_bytes(v)[i] <= 0x39,
    decreases v,
{
    if v >= 10 {
        lemma_dec_bytes_ascii(v / 10);
        let a = dec_bytes(v / 10);
        let w = dec_bytes(v);
        assert forall|i: int| 0 <= i < w.len() implies 0x30 <= #[trigger] w[i] <= 0x39 by {
            if i < a.len() {
                assert(w[i] == a[i]);
            } else {
                assert(w[i] == (0x30 + v % 10) as u8);
            }
        }
    }
}

/// A sequence of ASCII bytes is valid UTF-8.
pub proof fn lemma_ascii_valid_utf8(b: Seq<u8>)
    requires
        forall|i: int| 0 <= i < b.len() ==> #[trigger] b[i] < 0x80,
    ensures
        valid_utf8(b),
{
    assert(b.subrange(0, 0) =~= Seq::<u8>::empty());
    assert(valid_utf8(b.subrange(0, 0)));
    assert(partial_valid_utf8(b, 0));
    assert forall|i: int| 0 <= 0 <= i < b.len() <= b.len() implies #[trigger] is_leading_byte_width_1(
        b[i],
    ) by {
        assert(b[i] < 0x80);
    }
    partial_valid_utf8_extend_ascii_block(b, 0, b.len() as int);
    assert(b.subrange(0, b.len() as int) =~= b);
}

/// Appends the upper-case hexadecimal digits of `v`.
pub fn push_hex(v: u64, out: &mut Vec<u8>)
    ensures
        final(out)@ == old(out)@ + hex_bytes(v as int),
    decreases v,
{
    if v < 16 {
        let d = v as u8;
        let b = if d < 10 {
            0x30 + d
        } else {
            0x37 + d
        };
        out.push(b);
        proof {
            assert(final(out)@ =~= old(out)@ + hex_bytes(v as int));
        }
    } else {
        push_hex(v / 16, out);
        let d = (v % 16) as u8;
        let b = if d < 10 {
            0x30 + d
        } else {
            0x37 + d
        };
        out.push(b);
        proof {
            assert(final(out)@ =~= old(out)@ + hex_bytes(v as int));
        }
    }
}

/// Appends the decimal digits of `v`.
pub fn push_dec(v: u64, out: &mut Vec<u8>)
    ensures
        final(out)@ == old(out)@ + dec_bytes(v as int),
    decreases v,
{
    if v < 10 {
        out.push(0x30 + v as u8);
        proof {
            assert(final(out)@ =~= old(out)@ + dec_bytes(v as int));
        }
    } else {
        push_dec(v / 10, out);
        out.push(0x30 + (v % 10) as u8);
        proof {
            assert(final(out)@ =~= old(out)@ + dec_bytes(v as int));
        }
    }
}

/// The ASCII bytes of the `.png` extension.
pub open spec fn png_ext() -> Seq<u8> {
    seq![0x2Eu8, 0x70u8, 0x6Eu8, 0x67u8]
}

/// The ASCII bytes of a hexadecimal file name: `0x` followed by the
/// upper-case digits of `v` and the given extension.
pub open spec fn hex_name_bytes(v: int, ext: Seq<u8>) -> Seq<u8> {
    seq![0x30u8, 0x78u8] + hex_bytes(v) + ext
}

/// The ASCII bytes of a texture file name: the texture's own name, then its
/// width and height in parentheses, then `.png`.
pub open spec fn texture_name_bytes(n: Seq<u8>, w: int, h: int) -> Seq<u8> {
    n + seq![0x20u8, 0x28u8] + dec_bytes(w) + seq![0x78u8] + dec_bytes(h) + seq![0x29u8]
        + png_ext()
}

/// The bytes of a named payload's file name: the listed name, with the
/// extension the magic table assigns appended unless the name already ends
/// with it.
pub open spec fn named_file_bytes(n: Seq<u8>, ext: Seq<u8>) -> Seq<u8> {
    if n.len() >= ext.len() && n.subrange(n.len() - ext.len(), n.len() as int) == ext {
        n
    } else {
        n + ext
    }
}

/// Builds the file name `0x<HEX><ext>` of a payload stored by its offset.
pub fn hex_name(v: u64, ext: &Vec<u8>) -> (r: String)
    requires
        forall|i: int| 0 <= i < ext@.len() ==> #[trigger] ext@[i] < 0x80,
    ensures
        string_bytes(r) == hex_name_bytes(v as int, ext@),
{
    let mut b: Vec<u8> = Vec::new();
    b.push(0x30);
    b.push(0x78);
    push_hex(v, &mut b);
    let mut k: usize = 0;
    while k < ext.len()
        invariant
            0 <= k <= ext@.len(),
            b@ =~= seq![0x30u8, 0x78u8] + hex_bytes(v as int) + ext@.subrange(0, k as int),
        decreases ext@.len() - k,
    {
        b.push(ext[k]);
        k = k + 1;
        proof {
            assert(b@ =~= seq![0x30u8, 0x78u8] + hex_bytes(v as int) + ext@.subrange(
                0,
                k as int,
            ));
        }
    }
    proof {
        assert(ext@.subrange(0, ext@.len() as int) =~= ext@);
        assert(b@ =~= hex_name_bytes(v as int, ext@));
        lemma_hex_bytes_ascii(v as int);
        assert forall|i: int| 0 <= i < b@.len() implies #[trigger] b@[i] < 0x80 by {
            if 2 <= i < 2 + hex_bytes(v as int).len() {
                assert(b@[i] == hex_bytes(v as int)[i - 2]);
            } else if i >= 2 + hex_bytes(v as int).len() {
                assert(b@[i] == ext@[i - 2 - hex_bytes(v as int).len()]);
            }
        }
        lemma_ascii_valid_utf8(b@);
    }
    match crate::names::bytes_to_string(b) {
        Some(s) => s,
        None => {
            proof {
                assert(false);
            }
            String::new()
        },
    }
}

/// The view of the string `s`, as the bytes it is stored as.
pub open spec fn string_bytes(s: String) -> Seq<u8> {
    crate::names::string_bytes(s)
}

/// Builds the file name `<name> (<W>x<H>).png` of a decoded texture.
pub fn texture_filename(name: &String, w: u32, h: u32) -> (r: String)
    ensures
        string_bytes(r) == texture_name_bytes(string_bytes(*name), w as int, h as int),
{
    let nb: &str = name;
    let nbytes: &[u8] = nb.as_bytes();
    let mut b: Vec<u8> = Vec::new();
    let mut k: usize = 0;
    let ghost nv = string_bytes(*name);
    while k < nbytes.len()
        invariant
            0 <= k <= nbytes@.len(),
            nbytes@ == nv,
            b@ =~= nv.subrange(0, k as int),
        decreases nbytes@.len() - k,
    {
        b.push(nbytes[k]);
        k = k + 1;
        proof {
            assert(b@ =~= nv.subrange(0, k as int));
        }
    }
    proof {
        assert(b@ =~= nv);
    }
    let ghost tail_start = b@.len() as int;
    b.push(0x20);
    b.push(0x28);
    push_dec(w as u64, &mut b);
    b.push(0x78);
    push_dec(h as u64, &mut b);
    b.push(0x29);
    b.push(0x2E);
    b.push(0x70);
    b.push(0x6E);
    b.push(0x67);
    let ghost tail = b@.subrange(tail_start, b@.len() as int);
    proof {
        assert(b@ =~= nv + tail);
        assert(tail =~= seq![0x20u8, 0x28u8] + dec_bytes(w as int) + seq![0x78u8] + dec_bytes(
            h as int,
        ) + seq![0x29u8] + png_ext());
        assert(b@ =~= texture_name_bytes(nv, w as int, h as int));
        lemma_dec_bytes_ascii(w as int);
        lemma_dec_bytes_ascii(h as int);
        let dw = dec_bytes(w as int);
        let dh = dec_bytes(h as int);
        assert forall|i: int| 0 <= i < tail.len() implies #[trigger] tail[i] < 0x80 by {
            if 2 <= i < 2 + dw.len() {
                assert(tail[i] == dw[i - 2]);
            } else if 3 + dw.len() <= i < 3 + dw.len() + dh.len() {
                assert(tail[i] == dh[i - 3 - dw.len()]);
            }
        }
        lemma_ascii_valid_utf8(tail);
        encode_utf8_valid_utf8(name@);
        valid_utf8_concat(nv, tail);
    }
    match crate::names::bytes_to_string(b) {
        Some(s) => s,
        None => {
            proof {
                assert(false);
            }
            String::new()
        },
    }
}

/// Builds the file name of a named payload: the name itself, with the magic
/// table's extension appended unless the name already ends with it.
pub fn name_with_extension(name: &String, ext: &Vec<u8>) -> (r: String)
    requires
        forall|i: int| 0 <= i < ext@.len() ==> #[trigger] ext@[i] < 0x80,
    ensures
        string_bytes(r) == named_file_bytes(string_bytes(*name), ext@),
{
    let nb: &str = name;
    let nbytes: &[u8] = nb.as_bytes();
    let ghost nv = string_bytes(*name);
    let nlen = nbytes.len();
    let elen = ext.len();
    let mut ends: bool = nlen >= elen;
    if ends {
        let mut k: usize = 0;
        while k < elen
            invariant
                0 <= k <= elen,
                nlen >= elen,
                elen == ext@.len(),
                nlen == nbytes@.len(),
                nbytes@ == nv,
                ends == (forall|j: int|
                    0 <= j < k as int ==> nv[nv.len() - elen + j] == #[trigger] ext@[j]),
            decreases elen - k,
        {
            if nbytes[nlen - elen + k] != ext[k] {
                ends = false;
            }
            k = k + 1;
        }
    }
    proof {
        if ends {
            assert(nv.subrange(nv.len() - elen, nv.len() as int) =~= ext@);
        } else {
            if nv.len() >= elen && nv.subrange(nv.len() - elen, nv.len() as int) == ext@ {
                assert forall|j: int| 0 <= j < elen implies nv[nv.len() - elen + j]
                    == #[trigger] ext@[j] by {
                    assert(nv.subrange(nv.len() - elen, nv.len() as int)[j] == nv[nv.len() - elen
                        + j]);
                }
                assert(false);
            }
        }
    }
    if ends {
        let r = name.clone();
        proof {
            assert(string_bytes(r) == named_file_bytes(nv, ext@));
        }
        r
    } else {
        let mut b: Vec<u8> = Vec::new();
        let mut k: usize = 0;
        while k < nlen
            invariant
                0 <= k <= nlen,
                nlen == nbytes@.len(),
                nbytes@ == nv,
                b@ =~= nv.subrange(0, k as int),
            decreases nlen - k,
        {
            b.push(nbytes[k]);
            k = k + 1;
            proof {
                assert(b@ =~= nv.subrange(0, k as int));
            }
        }
        proof {
            assert(b@ =~= nv);
        }
        let ghost tail_start = b@.len() as int;
        let mut k2: usize = 0;
        while k2 < elen
            invariant
                0 <= k2 <= elen,
                elen == ext@.len(),
                b@ =~= nv + ext@.subrange(0, k2 as int),
            decreases elen - k2,
        {
            b.push(ext[k2]);
            k2 = k2 + 1;
            proof {
                assert(b@ =~= nv + ext@.subrange(0, k2 as int));
            }
        }
        proof {
            assert(ext@.subrange(0, ext@.len() as int) =~= ext@);
            assert(b@ =~= nv + ext@);
            lemma_ascii_valid_utf8(ext@);
            encode_utf8_valid_utf8(name@);
            valid_utf8_concat(nv, ext@);
        }
        match crate::names::bytes_to_string(b) {
            Some(s) => s,
            None => {
                proof {
                    assert(false);
                }
                String::new()
            },
        }
    }
}

/// The ASCII bytes of the numbered file a verbatim child is stored under:
/// `child-<N>.bin`.
pub open spec fn child_name_bytes(i: int) -> Seq<u8> {
    seq![0x63u8, 0x68u8, 0x69u8, 0x6Cu8, 0x64u8, 0x2Du8] + dec_bytes(i) + seq![
        0x2Eu8,
        0x62u8,
        0x69u8,
        0x6Eu8,
    ]
}

/// Builds the file name `child-<N>.bin` of a verbatim child payload.
pub fn child_bin_name(id: u64) -> (r: String)
    ensures
        string_bytes(r) == child_name_bytes(id as int),
{
    let mut b: Vec<u8> = Vec::new();
    b.push(0x63);
    b.push(0x68);
    b.push(0x69);
    b.push(0x6C);
    b.push(0x64);
    b.push(0x2D);
    push_dec(id, &mut b);
    b.push(0x2E);
    b.push(0x62);
    b.push(0x69);
    b.push(0x6E);
    proof {
        assert(b@ =~= child_name_bytes(id as int));
        lemma_dec_bytes_ascii(id as int);
        let dd = dec_bytes(id as int);
        assert forall|i: int| 0 <= i < b@.len() implies #[trigger] b@[i] < 0x80 by {
            if 6 <= i < 6 + dd.len() {
                assert(b@[i] == dd[i - 6]);
            } else if i >= 6 + dd.len() {
                assert(b@[i] == seq![0x2Eu8, 0x62u8, 0x69u8, 0x6Eu8][i - 6 - dd.len()]);
            }
        }
        lemma_ascii_valid_utf8(b@);
    }
    match crate::names::bytes_to_string(b) {
        Some(s) => s,
        None => {
            proof {
                assert(false);
            }
            String::new()
        },
    }
}

/// The `.png` extension as bytes.
pub fn png_ext_vec() -> (r: Vec<u8>)
    ensures
        r@ == png_ext(),
        forall|i: int| 0 <= i < r@.len() ==> #[trigger] r@[i] < 0x80,
{
    let mut b: Vec<u8> = Vec::new();
    b.push(0x2E);
    b.push(0x70);
    b.push(0x6E);
    b.push(0x67);
    proof {
        assert(b@ =~= png_ext());
    }
    b
}

} // verus!
