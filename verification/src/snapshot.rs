//! Headless snapshots: which frames are written, and their binary PPM (P6)
//! encoding.

use vstd::prelude::*;
use crate::color::{blue, channels, green, red};

verus! {

/// The ASCII decimal digits of `n`, most significant first, no leading zeros.
pub open spec fn decimal(n: nat) -> Seq<u8>
    decreases n,
{
    if n < 10 {
        seq![(48 + n) as u8]
    } else {
        decimal(n / 10).push((48 + n % 10) as u8)
    }
}

/// The P6 header for a `w` by `h` image with 8-bit channels: `P6\n{w} {h}\n255\n`.
pub open spec fn ppm_header(w: nat, h: nat) -> Seq<u8> {
    seq![80u8, 54u8, 10u8] + decimal(w) + seq![32u8] + decimal(h) + seq![10u8, 50u8, 53u8, 53u8, 10u8]
}

/// Byte `j` of the pixel data: the red, green and blue bytes of pixel `j / 3`.
pub open spec fn pixel_byte(buf: Seq<u32>, j: int) -> u8 {
    let c = buf[j / 3];
    (if j % 3 == 0 {
        red(c)
    } else if j % 3 == 1 {
        green(c)
    } else {
        blue(c)
    }) as u8
}

/// The pixel data: three bytes per pixel, in order.
pub open spec fn ppm_body(buf: Seq<u32>) -> Seq<u8> {
    Seq::new(3 * buf.len(), |j: int| pixel_byte(buf, j))
}

/// Appends the decimal digits of `n`.
fn push_decimal(out: &mut Vec<u8>, n: usize)
    ensures
        final(out)@ == old(out)@ + decimal(n as nat),
    decreases n,
{
    if n >= 10 {
        push_decimal(out, n / 10);
    }
    out.push(48 + (n % 10) as u8);  // ASCII '0' + digit
    proof {
        assert(old(out)@ + decimal(n as nat) =~= out@);
    }
}

/// The bytes of a binary PPM file holding `buf` as a `w` by `h` image:
/// the header, then the red, green and blue bytes of each pixel in turn.
pub fn ppm_bytes(buf: &[u32], w: usize, h: usize) -> (bytes: Vec<u8>)
    requires
        w * h * 3 + 20 <= usize::MAX,
    ensures
        bytes@ == ppm_header(w as nat, h as nat) + ppm_body(buf@),
        bytes@.len() == ppm_header(w as nat, h as nat).len() + 3 * buf@.len(),
        forall|k: int|
            #![trigger buf@[k]]
            0 <= k < buf@.len() ==> {
                let at = ppm_header(w as nat, h as nat).len() + 3 * k;
                &&& bytes@[at] as int == (buf@[k] as int / 65536) % 256
                &&& bytes@[at + 1] as int == (buf@[k] as int / 256) % 256
                &&& bytes@[at + 2] as int == buf@[k] as int % 256
            },
{
    let mut bytes: Vec<u8> = Vec::with_capacity(w * h * 3 + 20);
    // "P6\n{w} {h}\n255\n" in ASCII
    bytes.push(80);
    bytes.push(54);
    bytes.push(10);
    push_decimal(&mut bytes, w);
    bytes.push(32);
    push_decimal(&mut bytes, h);
    bytes.push(10);
    bytes.push(50);
    bytes.push(53);
    bytes.push(53);
    bytes.push(10);
    let ghost header = bytes@;
    assert(header =~= ppm_header(w as nat, h as nat));
    for k in 0..buf.len()
        invariant
            bytes@.len() == header.len() + 3 * k,
            forall|j: int| 0 <= j < header.len() ==> bytes@[j] == header[j],
            forall|j: int|
                0 <= j < 3 * k ==> #[trigger] bytes@[header.len() + j] == pixel_byte(buf@, j),
    {
        let (r, g, b) = channels(buf[k]);
        bytes.push(r as u8);
        bytes.push(g as u8);
        bytes.push(b as u8);
        assert forall|j: int| 3 * k <= j < 3 * k + 3 implies #[trigger] bytes@[header.len() + j]
            == pixel_byte(buf@, j) by {
            assert(j / 3 == k);
        }
    }
    let ghost body = ppm_body(buf@);
    assert forall|i: int| header.len() <= i < bytes@.len() implies bytes@[i] == body[i
        - header.len()] by {
        let j = i - header.len();
        assert(bytes@[header.len() + j] == pixel_byte(buf@, j));
    }
    assert(bytes@ =~= ppm_header(w as nat, h as nat) + ppm_body(buf@));
    proof {
        assert forall|k: int| #![trigger buf@[k]] 0 <= k < buf@.len() implies {
            let at = ppm_header(w as nat, h as nat).len() + 3 * k;
            &&& bytes@[at] as int == (buf@[k] as int / 65536) % 256
            &&& bytes@[at + 1] as int == (buf@[k] as int / 256) % 256
            &&& bytes@[at + 2] as int == buf@[k] as int % 256
        } by {
            lemma_ppm_pixel_bytes(buf@, k);
            assert(header.len() == ppm_header(w as nat, h as nat).len());
            assert(bytes@[header.len() + 3 * k] == ppm_body(buf@)[3 * k]);
            assert(bytes@[header.len() + 3 * k + 1] == ppm_body(buf@)[3 * k + 1]);
            assert(bytes@[header.len() + 3 * k + 2] == ppm_body(buf@)[3 * k + 2]);
        }
    }
    bytes
}

/// The pixel data holds every pixel in order, each as its own red, green and
/// blue bytes: bytes `3k`, `3k + 1`, `3k + 2` are channels of `buf[k]`, and
/// there are exactly three bytes per pixel.
pub proof fn lemma_ppm_pixel_bytes(buf: Seq<u32>, k: int)
    requires
        0 <= k < buf.len(),
    ensures
        ppm_body(buf).len() == 3 * buf.len(),
        ppm_body(buf)[3 * k] as int == (buf[k] as int / 65536) % 256,
        ppm_body(buf)[3 * k + 1] as int == (buf[k] as int / 256) % 256,
        ppm_body(buf)[3 * k + 2] as int == buf[k] as int % 256,
{
    assert((3 * k) / 3 == k && (3 * k) % 3 == 0);
    assert((3 * k + 1) / 3 == k && (3 * k + 1) % 3 == 1);
    assert((3 * k + 2) / 3 == k && (3 * k + 2) % 3 == 2);
}

/// The frames that snapshot mode writes out; it stops after the last one.
pub const SNAP_FRAMES: [u32; 5] = [150, 240, 320, 324, 328];

/// Whether frame `frame` is one of the snapshot frames.
pub fn snap_due(frame: u32) -> (due: bool)
    ensures
        due == SNAP_FRAMES@.contains(frame),
{
    let mut k: usize = 0;
    while k < SNAP_FRAMES.len()
        invariant
            k <= SNAP_FRAMES@.len(),
            forall|j: int| 0 <= j < k ==> SNAP_FRAMES@[j] != frame,
        decreases SNAP_FRAMES@.len() - k,
    {
        if SNAP_FRAMES[k] == frame {
            return true;
        }
        k += 1;
    }
    false
}

/// Whether snapshot mode is done: the last snapshot frame has been reached.
pub fn snaps_done(frame: u32) -> (done: bool)
    ensures
        done == (frame >= SNAP_FRAMES@[SNAP_FRAMES@.len() - 1]),
{
    frame >= SNAP_FRAMES[SNAP_FRAMES.len() - 1]
}

/// The number that a string of ASCII decimal digits spells.
pub open spec fn read_decimal(digits: Seq<u8>) -> int
    decreases digits.len(),
{
    if digits.len() == 0 {
        0
    } else {
        read_decimal(digits.drop_last()) * 10 + (digits.last() as int - 48)
    }
}

/// The width and height in the header are written in plain decimal: only
/// the digits `0`-`9`, no leading zero, spelling exactly the number.
pub proof fn lemma_decimal_reads_back(n: nat)
    ensures
        decimal(n).len() >= 1,
        forall|i: int| 0 <= i < decimal(n).len() ==> 48 <= #[trigger] decimal(n)[i] <= 57,
        n >= 10 ==> decimal(n)[0] != 48,
        read_decimal(decimal(n)) == n,
    decreases n,
{
    if n >= 10 {
        lemma_decimal_reads_back(n / 10);
        let d = decimal(n);
        assert(d.drop_last() =~= decimal(n / 10));
        assert forall|i: int| 0 <= i < d.len() implies 48 <= #[trigger] d[i] <= 57 by {
            if i < d.len() - 1 {
                assert(d[i] == decimal(n / 10)[i]);
            }
        }
        if n / 10 >= 10 {
            assert(d[0] == decimal(n / 10)[0]);
        } else {
            assert(d[0] == decimal(n / 10)[0]);
            assert(decimal(n / 10)[0] == (48 + n / 10) as u8);
        }
        assert(d.last() == (48 + n % 10) as u8);
        assert(read_decimal(d) == read_decimal(d.drop_last()) * 10 + (d.last() as int - 48));
        assert((n / 10) * 10 + n % 10 == n);
    } else {
        let d = decimal(n);
        assert(d.drop_last() =~= Seq::<u8>::empty());
        assert(read_decimal(d) == read_decimal(d.drop_last()) * 10 + (d.last() as int - 48));
    }
}

} // verus!
